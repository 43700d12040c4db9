use texoxide::menu::{interpret, Effect, Input, Key, Menu, MenuEvent, MenuState};

fn items(n: usize) -> Vec<String> {
    let mut list = Vec::new();
    for i in 0..n {
        list.push(format!("/item/{i}"));
    }
    list
}

#[test]
fn new_menu_starts_at_the_first_item() {
    let list = items(3);
    let menu = Menu::new(&list, "title");
    assert_eq!(menu.state(), MenuState::Active(0));
    assert_eq!(menu.selected(), Some(0));
    assert_eq!(menu.title(), "title");
    assert_eq!(menu.items(), &list[..]);
}

#[test]
fn down_from_the_last_item_wraps_to_the_first() {
    let list = items(3);
    let mut menu = Menu::new(&list, "t");
    menu.next();
    assert_eq!(menu.state(), MenuState::Active(1));
    menu.next();
    assert_eq!(menu.state(), MenuState::Active(2));
    menu.next();
    assert_eq!(menu.state(), MenuState::Active(0));
}

#[test]
fn up_from_the_first_item_wraps_to_the_last() {
    let list = items(3);
    let mut menu = Menu::new(&list, "t");
    menu.previous();
    assert_eq!(menu.state(), MenuState::Active(2));
    menu.previous();
    assert_eq!(menu.state(), MenuState::Active(1));
    menu.previous();
    assert_eq!(menu.state(), MenuState::Active(0));
}

#[test]
fn a_single_item_keeps_the_cursor() {
    let list = items(1);
    let mut menu = Menu::new(&list, "t");
    assert_eq!(menu.handle(MenuEvent::NavigateDown), Effect::Redraw);
    assert_eq!(menu.state(), MenuState::Active(0));
    assert_eq!(menu.handle(MenuEvent::NavigateUp), Effect::Redraw);
    assert_eq!(menu.state(), MenuState::Active(0));
}

#[test]
fn confirm_returns_the_cursor() {
    let list = items(4);
    let mut menu = Menu::new(&list, "t");
    assert_eq!(menu.handle(MenuEvent::NavigateDown), Effect::Redraw);
    assert_eq!(menu.handle(MenuEvent::NavigateDown), Effect::Redraw);
    assert_eq!(menu.handle(MenuEvent::Confirm), Effect::Close(Some(2)));
    assert_eq!(menu.state(), MenuState::Selected(2));
    assert_eq!(menu.selected(), Some(2));
}

#[test]
fn cancel_returns_no_selection_wherever_the_cursor_is() {
    for moves in 0..5usize {
        let list = items(3);
        let mut menu = Menu::new(&list, "t");
        for _ in 0..moves {
            menu.handle(MenuEvent::NavigateDown);
        }
        assert_eq!(menu.handle(MenuEvent::Cancel), Effect::Close(None));
        assert_eq!(menu.state(), MenuState::Cancelled);
        assert_eq!(menu.selected(), None);
    }
}

#[test]
fn other_events_change_nothing() {
    let list = items(3);
    let mut menu = Menu::new(&list, "t");
    menu.next();
    assert_eq!(menu.handle(MenuEvent::Other), Effect::Nothing);
    assert_eq!(menu.state(), MenuState::Active(1));
}

#[test]
fn an_ended_menu_stays_ended() {
    let list = items(3);
    let mut menu = Menu::new(&list, "t");
    menu.next();
    menu.handle(MenuEvent::Confirm);
    assert_eq!(menu.handle(MenuEvent::NavigateDown), Effect::Close(Some(1)));
    assert_eq!(menu.handle(MenuEvent::Cancel), Effect::Close(Some(1)));
    menu.next();
    menu.previous();
    assert_eq!(menu.state(), MenuState::Selected(1));

    let mut left = Menu::new(&list, "t");
    left.handle(MenuEvent::Cancel);
    assert_eq!(left.handle(MenuEvent::Confirm), Effect::Close(None));
    left.next();
    assert_eq!(left.state(), MenuState::Cancelled);
}

#[test]
fn only_key_presses_count() {
    assert_eq!(interpret(Input::Press(Key::Up)), MenuEvent::NavigateUp);
    assert_eq!(interpret(Input::Press(Key::Down)), MenuEvent::NavigateDown);
    assert_eq!(interpret(Input::Press(Key::Enter)), MenuEvent::Confirm);
    assert_eq!(interpret(Input::Press(Key::Esc)), MenuEvent::Cancel);
    assert_eq!(interpret(Input::Press(Key::Other)), MenuEvent::Other);
    assert_eq!(interpret(Input::Other), MenuEvent::Other);
}

#[test]
fn a_session_of_inputs_ends_with_the_choice() {
    let list = items(3);
    let mut menu = Menu::new(&list, "t");
    let inputs = [
        Input::Press(Key::Up),
        Input::Other,
        Input::Press(Key::Other),
        Input::Press(Key::Up),
        Input::Press(Key::Enter),
    ];
    let mut last = Effect::Nothing;
    for input in inputs {
        last = menu.handle(interpret(input));
    }
    assert_eq!(last, Effect::Close(Some(1)));
}
