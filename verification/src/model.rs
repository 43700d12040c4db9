//! The table of usage records as a mathematical value, and what each
//! operation of the index does to it.

use vstd::prelude::*;

verus! {

/// One row of the table: a file, when it was last opened and how often.
pub struct Record {
    pub path: Seq<char>,
    pub last_accessed: nat,
    pub frequency: nat,
}

/// The rules of the table: no path is stored twice, and every stored file
/// was opened at least once.
pub open spec fn well_formed(table: Seq<Record>) -> bool {
    &&& forall|i: int, j: int| 0 <= i < j < table.len() ==> table[i].path != table[j].path
    &&& forall|i: int| 0 <= i < table.len() ==> table[i].frequency >= 1
}

/// A row is stored under `path`.
pub open spec fn holds(table: Seq<Record>, path: Seq<char>) -> bool {
    exists|i: int| 0 <= i < table.len() && table[i].path == path
}

/// The number of the row stored under `path`, where there is one.
pub open spec fn row_of(table: Seq<Record>, path: Seq<char>) -> int {
    choose|i: int| 0 <= i < table.len() && table[i].path == path
}

/// How often the file at `path` was opened: 0 for a file that is not stored.
pub open spec fn frequency_of(table: Seq<Record>, path: Seq<char>) -> nat {
    if holds(table, path) {
        table[row_of(table, path)].frequency
    } else {
        0
    }
}

/// When the file at `path` was last opened, if it is stored.
pub open spec fn last_accessed_of(table: Seq<Record>, path: Seq<char>) -> Option<nat> {
    if holds(table, path) {
        Some(table[row_of(table, path)].last_accessed)
    } else {
        None
    }
}

/// The row of a file that is opened for the first time at `now`.
pub open spec fn first_use(path: Seq<char>, now: nat) -> Record {
    Record { path, last_accessed: now, frequency: 1 }
}

/// The row `row` after its file was opened once more, at `now`.
pub open spec fn used_again(row: Record, now: nat) -> Record {
    Record { path: row.path, last_accessed: now, frequency: row.frequency + 1 }
}

/// The table after the file at `path` was opened at `now`: its row is counted
/// up and dated `now` in place, or a new row with count 1 is put at the end.
pub open spec fn added(table: Seq<Record>, path: Seq<char>, now: nat) -> Seq<Record> {
    if holds(table, path) {
        let i = row_of(table, path);
        table.update(i, used_again(table[i], now))
    } else {
        table.push(first_use(path, now))
    }
}

/// The table without the row stored under `path`; the other rows keep their
/// order.
pub open spec fn without(table: Seq<Record>, path: Seq<char>) -> Seq<Record> {
    if holds(table, path) {
        table.remove(row_of(table, path))
    } else {
        table
    }
}

/// The paths of the rows, row by row.
pub open spec fn paths_of(table: Seq<Record>) -> Seq<Seq<char>> {
    Seq::new(table.len(), |i: int| table[i].path)
}

/// Whether a row stays when the files at the paths in `gone` have left the
/// disk.
pub open spec fn stays(gone: Set<Seq<char>>) -> spec_fn(Record) -> bool {
    |row: Record| !gone.contains(row.path)
}

/// Whether a row leaves when the files at the paths in `gone` have left the
/// disk.
pub open spec fn leaves(gone: Set<Seq<char>>) -> spec_fn(Record) -> bool {
    |row: Record| gone.contains(row.path)
}

/// The rows whose path is not in `gone`, in their order.
pub open spec fn swept(table: Seq<Record>, gone: Set<Seq<char>>) -> Seq<Record> {
    table.filter(stays(gone))
}

/// The paths in `gone` that the table holds, in the order of their rows.
pub open spec fn dropped(table: Seq<Record>, gone: Set<Seq<char>>) -> Seq<Seq<char>> {
    paths_of(table.filter(leaves(gone)))
}

/// In a well-formed table a path names its row.
pub proof fn lemma_row_of(table: Seq<Record>, i: int)
    requires
        well_formed(table),
        0 <= i < table.len(),
    ensures
        holds(table, table[i].path),
        row_of(table, table[i].path) == i,
{
    let j = row_of(table, table[i].path);
    assert(0 <= j < table.len() && table[j].path == table[i].path);
    if j < i {
        assert(table[j].path != table[i].path);
    } else if i < j {
        assert(table[i].path != table[j].path);
    }
}

/// The table after the file at `path` was opened at each of `times`, in turn.
pub open spec fn added_each(table: Seq<Record>, path: Seq<char>, times: Seq<nat>) -> Seq<Record>
    decreases times.len(),
{
    if times.len() == 0 {
        table
    } else {
        added(added_each(table, path, times.drop_last()), path, times.last())
    }
}

/// What the table says of `path`: whether it is stored, how often it was
/// opened and when last.
pub open spec fn entry_of(table: Seq<Record>, path: Seq<char>) -> (bool, nat, Option<nat>) {
    (holds(table, path), frequency_of(table, path), last_accessed_of(table, path))
}

/// Recording a file keeps the rules of the table. The file is stored
/// afterwards, counted once more than before and dated `now`; a file that was
/// not stored is counted 1. Of every other file the table says what it said
/// before.
pub proof fn lemma_added(table: Seq<Record>, path: Seq<char>, now: nat)
    requires
        well_formed(table),
    ensures
        well_formed(added(table, path, now)),
        holds(added(table, path, now), path),
        frequency_of(added(table, path, now), path) == frequency_of(table, path) + 1,
        last_accessed_of(added(table, path, now), path) == Some(now),
        forall|other: Seq<char>|
            other != path ==> #[trigger] entry_of(added(table, path, now), other) == entry_of(
                table,
                other,
            ),
{
    let after = added(table, path, now);
    if holds(table, path) {
        let i = row_of(table, path);
        assert(after.len() == table.len());
        assert forall|k: int| 0 <= k < table.len() implies #[trigger] after[k].path
            == table[k].path by {}
        lemma_row_of(after, i);
        assert forall|other: Seq<char>| other != path implies #[trigger] entry_of(after, other)
            == entry_of(table, other) by {
            if holds(table, other) {
                let j = row_of(table, other);
                assert(after[j] == table[j]);
                lemma_row_of(after, j);
            } else if holds(after, other) {
                let j = row_of(after, other);
                assert(table[j].path == other);
            }
        }
    } else {
        let n = table.len() as int;
        assert forall|k: int| 0 <= k < n implies #[trigger] after[k] == table[k] && table[k].path
            != path by {}
        lemma_row_of(after, n);
        assert forall|other: Seq<char>| other != path implies #[trigger] entry_of(after, other)
            == entry_of(table, other) by {
            if holds(table, other) {
                let j = row_of(table, other);
                assert(after[j] == table[j]);
                lemma_row_of(after, j);
            } else if holds(after, other) {
                let j = row_of(after, other);
                assert(table[j].path == other);
            }
        }
    }
}

/// A file that is recorded `times.len()` times in a row is counted that many
/// times more than before, so a file that was not stored is counted
/// `times.len()`; and it is dated by the last of the times. The rules of the
/// table are kept, and of every other file the table says what it said before.
pub proof fn lemma_added_each(table: Seq<Record>, path: Seq<char>, times: Seq<nat>)
    requires
        well_formed(table),
    ensures
        well_formed(added_each(table, path, times)),
        frequency_of(added_each(table, path, times), path) == frequency_of(table, path)
            + times.len(),
        !holds(table, path) ==> frequency_of(added_each(table, path, times), path)
            == times.len(),
        times.len() > 0 ==> last_accessed_of(added_each(table, path, times), path) == Some(
            times.last(),
        ),
        forall|other: Seq<char>|
            other != path ==> #[trigger] entry_of(added_each(table, path, times), other)
                == entry_of(table, other),
    decreases times.len(),
{
    if times.len() > 0 {
        let before = added_each(table, path, times.drop_last());
        lemma_added_each(table, path, times.drop_last());
        lemma_added(before, path, times.last());
        assert forall|other: Seq<char>| other != path implies #[trigger] entry_of(
            added_each(table, path, times),
            other,
        ) == entry_of(table, other) by {
            assert(entry_of(before, other) == entry_of(table, other));
        }
    }
}

/// Removing a file keeps the rules of the table. The file is not stored
/// afterwards, and of every other file the table says what it said before.
pub proof fn lemma_without(table: Seq<Record>, path: Seq<char>)
    requires
        well_formed(table),
    ensures
        well_formed(without(table, path)),
        !holds(without(table, path), path),
        forall|other: Seq<char>|
            other != path ==> #[trigger] entry_of(without(table, path), other) == entry_of(
                table,
                other,
            ),
{
    let after = without(table, path);
    if holds(table, path) {
        let i = row_of(table, path);
        assert forall|k: int| 0 <= k < after.len() implies #[trigger] after[k] == table[if k
            < i {
            k
        } else {
            k + 1
        }] by {}
        if holds(after, path) {
            let k = row_of(after, path);
            let k0 = if k < i {
                k
            } else {
                k + 1
            };
            assert(after[k] == table[k0]);
            lemma_row_of(table, k0);
        }
        assert(well_formed(after)) by {
            assert forall|a: int, b: int| 0 <= a < b < after.len() implies after[a].path
                != after[b].path by {
                let a0 = if a < i {
                    a
                } else {
                    a + 1
                };
                let b0 = if b < i {
                    b
                } else {
                    b + 1
                };
                assert(after[a] == table[a0] && after[b] == table[b0]);
            }
            assert forall|a: int| 0 <= a < after.len() implies after[a].frequency >= 1 by {
                let a0 = if a < i {
                    a
                } else {
                    a + 1
                };
                assert(after[a] == table[a0]);
            }
        }
        assert forall|other: Seq<char>| other != path implies #[trigger] entry_of(after, other)
            == entry_of(table, other) by {
            if holds(table, other) {
                let j = row_of(table, other);
                let j1 = if j < i {
                    j
                } else {
                    j - 1
                };
                assert(after[j1] == table[j]);
                lemma_row_of(after, j1);
            } else if holds(after, other) {
                let k = row_of(after, other);
                let k0 = if k < i {
                    k
                } else {
                    k + 1
                };
                assert(after[k] == table[k0]);
                assert(table[k0].path == other);
            }
        }
    }
}

/// A sweep keeps the rules of the table. It takes out the rows whose path is
/// in `gone` and no others, and of every file whose path is not in `gone` the
/// table says what it said before.
pub proof fn lemma_swept(table: Seq<Record>, gone: Set<Seq<char>>)
    requires
        well_formed(table),
    ensures
        well_formed(swept(table, gone)),
        forall|row: Record| #[trigger]
            swept(table, gone).contains(row) <==> table.contains(row) && !gone.contains(row.path),
        forall|path: Seq<char>| gone.contains(path) ==> !holds(swept(table, gone), path),
        forall|path: Seq<char>|
            !gone.contains(path) ==> #[trigger] entry_of(swept(table, gone), path) == entry_of(
                table,
                path,
            ),
{
    let after = swept(table, gone);
    lemma_filter_well_formed(table, stays(gone));
    assert forall|row: Record| #[trigger]
        after.contains(row) <==> table.contains(row) && !gone.contains(row.path) by {
        if after.contains(row) {
            let k = choose|k: int| 0 <= k < after.len() && after[k] == row;
            table.lemma_filter_pred(stays(gone), k);
            assert(table.contains(after[k]));
        }
        if table.contains(row) && !gone.contains(row.path) {
            let k = choose|k: int| 0 <= k < table.len() && table[k] == row;
            table.lemma_filter_contains(stays(gone), k);
        }
    }
    assert forall|path: Seq<char>| gone.contains(path) implies !holds(after, path) by {
        if holds(after, path) {
            let k = row_of(after, path);
            assert(after.contains(after[k]));
        }
    }
    assert forall|path: Seq<char>| !gone.contains(path) implies #[trigger] entry_of(after, path)
        == entry_of(table, path) by {
        if holds(table, path) {
            let j = row_of(table, path);
            assert(table.contains(table[j]));
            assert(after.contains(table[j]));
            let k = choose|k: int| 0 <= k < after.len() && after[k] == table[j];
            lemma_row_of(after, k);
        } else if holds(after, path) {
            let k = row_of(after, path);
            assert(after.contains(after[k]));
            assert(table.contains(after[k]));
            let j = choose|j: int| 0 <= j < table.len() && table[j] == after[k];
            assert(table[j].path == path);
        }
    }
}

/// A choice among the rows of a well-formed table is a well-formed table.
pub proof fn lemma_filter_well_formed(table: Seq<Record>, keep: spec_fn(Record) -> bool)
    requires
        well_formed(table),
    ensures
        well_formed(table.filter(keep)),
        forall|i: int|
            0 <= i < table.filter(keep).len() ==> table.contains(#[trigger] table.filter(keep)[i]),
    decreases table.len(),
{
    reveal(Seq::filter);
    if table.len() > 0 {
        let front = table.drop_last();
        let chosen = front.filter(keep);
        lemma_filter_well_formed(front, keep);
        assert forall|i: int| 0 <= i < chosen.len() implies table.contains(
            #[trigger] chosen[i],
        ) && chosen[i].path != table.last().path by {
            assert(front.contains(chosen[i]));
            let k = choose|k: int| 0 <= k < front.len() && front[k] == chosen[i];
            assert(table[k] == chosen[i]);
        }
        if keep(table.last()) {
            assert(table.filter(keep) == chosen.push(table.last()));
            assert(table[table.len() - 1] == table.last());
        }
    }
}

} // verus!
