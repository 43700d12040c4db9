//! The selection menu: a cursor over a list of candidates, moved and ended by
//! events.

use vstd::prelude::*;
use vstd::arithmetic::div_mod::{lemma_mod_add_multiples_vanish, lemma_mod_self_0, lemma_small_mod};
use crate::text::texts;

verus! {

/// A key of the keyboard, as far as the menu tells keys apart.
#[derive(Debug, Clone, Copy, PartialEq, Eq, Structural)]
pub enum Key {
    Up,
    Down,
    Enter,
    Esc,
    Other,
}

/// What the terminal reports: a key going down, or anything else (a key going
/// up or repeating, a resize, the mouse).
#[derive(Debug, Clone, Copy, PartialEq, Eq, Structural)]
pub enum Input {
    Press(Key),
    Other,
}

/// What an input means to the menu.
#[derive(Debug, Clone, Copy, PartialEq, Eq, Structural)]
pub enum MenuEvent {
    NavigateDown,
    NavigateUp,
    Confirm,
    Cancel,
    Other,
}

/// Where a menu stands: the user is still choosing, with the cursor on an
/// item, or has chosen an item, or has left without choosing.
#[derive(Debug, Clone, Copy, PartialEq, Eq, Structural)]
pub enum MenuState {
    Active(usize),
    Selected(usize),
    Cancelled,
}

/// What the caller does after an event: draw the menu again, nothing, or close
/// the menu with the choice that was made, if one was made.
#[derive(Debug, Clone, Copy, PartialEq, Eq, Structural)]
pub enum Effect {
    Redraw,
    Nothing,
    Close(Option<usize>),
}

/// The event that an input stands for: only a key going down counts.
pub open spec fn event_of(input: Input) -> MenuEvent {
    match input {
        Input::Press(Key::Up) => MenuEvent::NavigateUp,
        Input::Press(Key::Down) => MenuEvent::NavigateDown,
        Input::Press(Key::Enter) => MenuEvent::Confirm,
        Input::Press(Key::Esc) => MenuEvent::Cancel,
        Input::Press(Key::Other) => MenuEvent::Other,
        Input::Other => MenuEvent::Other,
    }
}

/// The state after `event`, in a menu of `len` items. An ended menu stays as
/// it is.
pub open spec fn step(len: nat, state: MenuState, event: MenuEvent) -> MenuState {
    match state {
        MenuState::Active(cursor) => match event {
            MenuEvent::NavigateDown => MenuState::Active(((cursor + 1) % (len as int)) as usize),
            MenuEvent::NavigateUp => MenuState::Active(
                ((cursor - 1 + len) % (len as int)) as usize,
            ),
            MenuEvent::Confirm => MenuState::Selected(cursor),
            MenuEvent::Cancel => MenuState::Cancelled,
            MenuEvent::Other => state,
        },
        MenuState::Selected(_) => state,
        MenuState::Cancelled => state,
    }
}

/// What the caller does after `event` has come in state `state`.
pub open spec fn effect_of(state: MenuState, event: MenuEvent) -> Effect {
    match state {
        MenuState::Active(cursor) => match event {
            MenuEvent::NavigateDown => Effect::Redraw,
            MenuEvent::NavigateUp => Effect::Redraw,
            MenuEvent::Confirm => Effect::Close(Some(cursor)),
            MenuEvent::Cancel => Effect::Close(None),
            MenuEvent::Other => Effect::Nothing,
        },
        MenuState::Selected(index) => Effect::Close(Some(index)),
        MenuState::Cancelled => Effect::Close(None),
    }
}

/// A state fits a menu of `len` items: the cursor, or the chosen item, is one
/// of them.
pub open spec fn state_fits(len: nat, state: MenuState) -> bool {
    match state {
        MenuState::Active(cursor) => cursor < len,
        MenuState::Selected(index) => index < len,
        MenuState::Cancelled => true,
    }
}

/// The cursor one item down, from the last item back to the first.
pub open spec fn below(len: nat, cursor: usize) -> usize {
    if cursor + 1 >= len {
        0
    } else {
        (cursor + 1) as usize
    }
}

/// The cursor one item up, from the first item on to the last.
pub open spec fn above(len: nat, cursor: usize) -> usize {
    if cursor == 0 {
        (len - 1) as usize
    } else {
        (cursor - 1) as usize
    }
}

/// Going down is a step to the next item, and from the last item to the
/// first; going up is a step to the item before, and from the first item to
/// the last.
pub proof fn lemma_navigation_wraps(len: nat, cursor: usize)
    requires
        cursor < len,
        len <= usize::MAX,
    ensures
        step(len, MenuState::Active(cursor), MenuEvent::NavigateDown) == MenuState::Active(
            below(len, cursor),
        ),
        step(len, MenuState::Active(cursor), MenuEvent::NavigateUp) == MenuState::Active(
            above(len, cursor),
        ),
        cursor == len - 1 ==> below(len, cursor) == 0,
        cursor == 0 ==> above(len, cursor) == len - 1,
{
    let n = len as int;
    if cursor + 1 == len {
        lemma_mod_self_0(n);
    } else {
        lemma_small_mod((cursor + 1) as nat, len);
    }
    if cursor == 0 {
        lemma_small_mod((len - 1) as nat, len);
    } else {
        lemma_mod_add_multiples_vanish(cursor - 1, n);
        lemma_small_mod((cursor - 1) as nat, len);
        assert(cursor - 1 + len == n + (cursor - 1));
    }
}

/// Confirming chooses the item under the cursor, and leaving chooses nothing,
/// wherever the cursor is. Any other event but going up or down changes
/// nothing.
pub proof fn lemma_confirm_and_cancel(len: nat, cursor: usize)
    ensures
        step(len, MenuState::Active(cursor), MenuEvent::Confirm) == MenuState::Selected(cursor),
        effect_of(MenuState::Active(cursor), MenuEvent::Confirm) == Effect::Close(Some(cursor)),
        step(len, MenuState::Active(cursor), MenuEvent::Cancel) == MenuState::Cancelled,
        effect_of(MenuState::Active(cursor), MenuEvent::Cancel) == Effect::Close(None),
        step(len, MenuState::Active(cursor), MenuEvent::Other) == MenuState::Active(cursor),
        effect_of(MenuState::Active(cursor), MenuEvent::Other) == Effect::Nothing,
{
}

/// A step keeps the state inside the menu.
pub proof fn lemma_step_fits(len: nat, state: MenuState, event: MenuEvent)
    requires
        0 < len <= usize::MAX,
        state_fits(len, state),
    ensures
        state_fits(len, step(len, state, event)),
{
    if let MenuState::Active(cursor) = state {
        lemma_navigation_wraps(len, cursor);
    }
}

/// The event that an input stands for.
pub fn interpret(input: Input) -> (event: MenuEvent)
    ensures
        event == event_of(input),
{
    match input {
        Input::Press(Key::Up) => MenuEvent::NavigateUp,
        Input::Press(Key::Down) => MenuEvent::NavigateDown,
        Input::Press(Key::Enter) => MenuEvent::Confirm,
        Input::Press(Key::Esc) => MenuEvent::Cancel,
        Input::Press(Key::Other) => MenuEvent::Other,
        Input::Other => MenuEvent::Other,
    }
}

/// A menu as a value: its items, its title and where it stands.
pub struct MenuView {
    pub items: Seq<Seq<char>>,
    pub title: Seq<char>,
    pub state: MenuState,
}

/// A menu over a list of candidates that is not empty.
pub struct Menu<'a> {
    items: &'a [String],
    title: String,
    state: MenuState,
}

impl<'a> View for Menu<'a> {
    type V = MenuView;

    closed spec fn view(&self) -> MenuView {
        MenuView { items: texts(self.items@), title: self.title@, state: self.state }
    }
}

impl<'a> Menu<'a> {
    /// A menu has an item, and its state fits its items.
    #[verifier::type_invariant]
    spec fn valid(self) -> bool {
        self.items@.len() > 0 && state_fits(self.items@.len(), self.state)
    }

    /// A menu over `items` with the cursor on the first of them.
    pub fn new(items: &'a [String], title: &str) -> (menu: Self)
        requires
            items@.len() > 0,
        ensures
            menu@.items == texts(items@),
            menu@.title == title@,
            menu@.state == MenuState::Active(0),
    {
        Menu { items, title: title.to_owned(), state: MenuState::Active(0) }
    }

    /// Moves the cursor one item down, from the last item back to the first.
    /// An ended menu stays as it is.
    pub fn next(&mut self)
        ensures
            final(self)@.items == old(self)@.items,
            final(self)@.title == old(self)@.title,
            final(self)@.state == step(
                old(self)@.items.len(),
                old(self)@.state,
                MenuEvent::NavigateDown,
            ),
    {
        proof {
            use_type_invariant(&*self);
        }
        if let MenuState::Active(cursor) = self.state {
            let n: usize = self.items.len();
            proof {
                lemma_navigation_wraps(n as nat, cursor);
            }
            let i: usize = if cursor >= n - 1 {
                0
            } else {
                cursor + 1
            };
            self.state = MenuState::Active(i);
        }
    }

    /// Moves the cursor one item up, from the first item on to the last. An
    /// ended menu stays as it is.
    pub fn previous(&mut self)
        ensures
            final(self)@.items == old(self)@.items,
            final(self)@.title == old(self)@.title,
            final(self)@.state == step(
                old(self)@.items.len(),
                old(self)@.state,
                MenuEvent::NavigateUp,
            ),
    {
        proof {
            use_type_invariant(&*self);
        }
        if let MenuState::Active(cursor) = self.state {
            let n: usize = self.items.len();
            proof {
                lemma_navigation_wraps(n as nat, cursor);
            }
            let i: usize = if cursor == 0 {
                n - 1
            } else {
                cursor - 1
            };
            self.state = MenuState::Active(i);
        }
    }

    /// Takes one event: moves the cursor, ends the menu, or leaves it as it
    /// is, and says what the caller does next.
    pub fn handle(&mut self, event: MenuEvent) -> (effect: Effect)
        ensures
            final(self)@.items == old(self)@.items,
            final(self)@.title == old(self)@.title,
            final(self)@.state == step(old(self)@.items.len(), old(self)@.state, event),
            effect == effect_of(old(self)@.state, event),
            effect matches Effect::Close(Some(chosen)) ==> chosen < old(self)@.items.len(),
    {
        proof {
            use_type_invariant(&*self);
        }
        match self.state {
            MenuState::Active(cursor) => match event {
                MenuEvent::NavigateDown => {
                    self.next();
                    Effect::Redraw
                },
                MenuEvent::NavigateUp => {
                    self.previous();
                    Effect::Redraw
                },
                MenuEvent::Confirm => {
                    self.state = MenuState::Selected(cursor);
                    Effect::Close(Some(cursor))
                },
                MenuEvent::Cancel => {
                    self.state = MenuState::Cancelled;
                    Effect::Close(None)
                },
                MenuEvent::Other => Effect::Nothing,
            },
            MenuState::Selected(index) => Effect::Close(Some(index)),
            MenuState::Cancelled => Effect::Close(None),
        }
    }

    /// Where the menu stands.
    pub fn state(&self) -> (state: MenuState)
        ensures
            state == self@.state,
            state_fits(self@.items.len(), state),
    {
        proof {
            use_type_invariant(self);
        }
        self.state
    }

    /// The item under the cursor while the user is choosing, the chosen item
    /// once one is chosen, and nothing after the user has left.
    pub fn selected(&self) -> (index: Option<usize>)
        ensures
            index == match self@.state {
                MenuState::Active(cursor) => Some(cursor),
                MenuState::Selected(chosen) => Some(chosen),
                MenuState::Cancelled => None,
            },
            index matches Some(i) ==> i < self@.items.len(),
    {
        proof {
            use_type_invariant(self);
        }
        match self.state {
            MenuState::Active(cursor) => Some(cursor),
            MenuState::Selected(chosen) => Some(chosen),
            MenuState::Cancelled => None,
        }
    }

    /// The candidates.
    pub fn items(&self) -> (items: &'a [String])
        ensures
            texts(items@) == self@.items,
            items@.len() > 0,
    {
        proof {
            use_type_invariant(self);
        }
        self.items
    }

    /// The title.
    pub fn title(&self) -> (title: &str)
        ensures
            title@ == self@.title,
    {
        self.title.as_str()
    }
}

} // verus!
