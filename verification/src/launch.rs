//! What one run of the launcher does with the answer to its query.

use vstd::prelude::*;
use vstd::string::*;

verus! {

/// What to do once the query is answered.
#[derive(Debug, Clone, Copy, PartialEq, Eq, Structural)]
pub enum Plan {
    /// There are candidates: let the user choose among them.
    Choose,
    /// There is no candidate, but the term itself names a file: open it.
    OpenTerm,
    /// There is nothing to open.
    NoMatch,
}

/// What to do with `candidates` answers to a query for `term`, where
/// `term_exists` says whether `term` names a file on disk.
pub open spec fn planned(candidates: nat, term: Seq<char>, term_exists: bool) -> Plan {
    if candidates > 0 {
        Plan::Choose
    } else if term.len() > 0 && term_exists {
        Plan::OpenTerm
    } else {
        Plan::NoMatch
    }
}

/// What to do with `candidates` answers to a query for `term`.
pub fn plan(candidates: usize, term: &str, term_exists: bool) -> (next: Plan)
    ensures
        next == planned(candidates as nat, term@, term_exists),
{
    if candidates > 0 {
        Plan::Choose
    } else if !term.is_empty() && term_exists {
        Plan::OpenTerm
    } else {
        Plan::NoMatch
    }
}

/// The title of the menu that shows the answers to a query for `term`.
pub fn menu_title(term: &str) -> (title: String)
    ensures
        title@ == " Matches for '"@ + term@ + "' "@,
{
    let mut title = " Matches for '".to_owned();
    title.append(term);
    title.append("' ");
    title
}

/// What the user is told where there is nothing to open for `term`.
pub fn no_match_message(term: &str) -> (text: String)
    ensures
        text@ == "No matches for '"@ + term@ + "'"@,
{
    let mut text = "No matches for '".to_owned();
    text.append(term);
    text.append("'");
    text
}

/// The command that opens a file: the one that the user has configured, and
/// else the editor that the platform is sure to have.
pub fn editor_command(configured: Option<String>, windows: bool) -> (command: String)
    ensures
        command@ == match configured {
            Some(own) => own@,
            None => if windows {
                "notepad"@
            } else {
                "vim"@
            },
        },
{
    match configured {
        Some(own) => own,
        None => if windows {
            "notepad".to_owned()
        } else {
            "vim".to_owned()
        },
    }
}

} // verus!
