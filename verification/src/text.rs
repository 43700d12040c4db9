//! Text search: whether one text occurs inside another.

use vstd::prelude::*;
use vstd::string::*;

verus! {

/// `term` stands in `text` at offset `at`.
pub open spec fn occurs_at(text: Seq<char>, term: Seq<char>, at: int) -> bool {
    &&& 0 <= at
    &&& at + term.len() <= text.len()
    &&& text.subrange(at, at + term.len()) == term
}

/// `term` is a substring of `text`. The empty term is a substring of every text.
pub open spec fn contains_text(text: Seq<char>, term: Seq<char>) -> bool {
    exists|at: int| occurs_at(text, term, at)
}

/// The empty term is a substring of every text.
pub proof fn lemma_contains_empty(text: Seq<char>)
    ensures
        contains_text(text, Seq::<char>::empty()),
{
    assert(text.subrange(0, 0) =~= Seq::<char>::empty());
    assert(occurs_at(text, Seq::<char>::empty(), 0));
}

/// What a list of strings says, string by string.
pub open spec fn texts(list: Seq<String>) -> Seq<Seq<char>> {
    Seq::new(list.len(), |i: int| list[i]@)
}

/// The characters of `text`, one by one.
pub fn chars_of(text: &str) -> (chars: Vec<char>)
    ensures
        chars@ == text@,
{
    let n: usize = text.unicode_len();
    let mut chars: Vec<char> = Vec::new();
    let mut i: usize = 0;
    while i < n
        invariant
            i <= n,
            n == text@.len(),
            chars@ == text@.take(i as int),
        decreases n - i,
    {
        chars.push(text.get_char(i));
        i += 1;
        assert(chars@ =~= text@.take(i as int));
    }
    assert(text@.take(n as int) =~= text@);
    chars
}

/// Whether `term` stands in `text` at offset `at`.
fn starts_at(text: &Vec<char>, term: &Vec<char>, at: usize) -> (found: bool)
    requires
        at + term.len() <= text.len(),
    ensures
        found == occurs_at(text@, term@, at as int),
{
    let mut k: usize = 0;
    while k < term.len()
        invariant
            k <= term.len(),
            at + term.len() <= text.len(),
            forall|j: int| 0 <= j < k ==> text@[at + j] == term@[j],
        decreases term.len() - k,
    {
        if text[at + k] != term[k] {
            assert(text@.subrange(at as int, at + term@.len())[k as int] == text@[at + k]);
            return false;
        }
        k += 1;
    }
    assert(text@.subrange(at as int, at + term@.len()) =~= term@);
    true
}

/// Whether `term` is a substring of `text`, both given by their characters.
pub fn contains_chars(text: &Vec<char>, term: &Vec<char>) -> (found: bool)
    ensures
        found == contains_text(text@, term@),
{
    if term.len() > text.len() {
        return false;
    }
    let last: usize = text.len() - term.len();
    let mut at: usize = 0;
    loop
        invariant
            at <= last,
            last == text.len() - term.len(),
            forall|j: int| 0 <= j < at ==> !occurs_at(text@, term@, j),
        decreases last - at,
    {
        if starts_at(text, term, at) {
            return true;
        }
        if at == last {
            return false;
        }
        at += 1;
    }
}

} // verus!
