//! The ranking of stored files for a search term: by use, then by date.

use vstd::prelude::*;
use vstd::relations::{sorted_by, total_ordering};
use vstd::seq_lib::group_to_multiset_ensures;
use crate::model::{
    added, holds, lemma_added, lemma_row_of, lemma_without, row_of, well_formed, without, Record,
};
use crate::text::{contains_text, lemma_contains_empty};

verus! {

/// The most paths that one query hands out.
pub const QUERY_LIMIT: usize = 20;

/// `a` ranks at least as high as `b`: it was opened more often, or as often
/// and not earlier.
pub open spec fn ranks_no_lower(a: Record, b: Record) -> bool {
    a.frequency > b.frequency || (a.frequency == b.frequency && a.last_accessed
        >= b.last_accessed)
}

/// `a` ranks higher than `b`: it was opened more often, or as often and later.
pub open spec fn ranks_higher(a: Record, b: Record) -> bool {
    a.frequency > b.frequency || (a.frequency == b.frequency && a.last_accessed
        > b.last_accessed)
}

/// The row with number `i`, or a row of the lowest rank where the table has no
/// such row.
pub open spec fn row_at(table: Seq<Record>, i: int) -> Record {
    if 0 <= i < table.len() {
        table[i]
    } else {
        Record { path: Seq::empty(), last_accessed: 0, frequency: 0 }
    }
}

/// Row `i` comes before row `j` in a ranking, or is the same row: the row of
/// higher rank first, and of two rows of equal rank the one stored first.
pub open spec fn row_precedes(table: Seq<Record>, i: int, j: int) -> bool {
    let a = row_at(table, i);
    let b = row_at(table, j);
    ranks_higher(a, b) || (!ranks_higher(b, a) && i <= j)
}

/// `row_precedes` as a relation on row numbers.
pub open spec fn row_order(table: Seq<Record>) -> spec_fn(int, int) -> bool {
    |i: int, j: int| row_precedes(table, i, j)
}

/// The row numbers `0, 1, .., n - 1`.
pub open spec fn rows(n: nat) -> Seq<int> {
    Seq::new(n, |i: int| i)
}

/// Row `i` of the table has `term` as a substring of its path.
pub open spec fn row_matches(table: Seq<Record>, term: Seq<char>) -> spec_fn(int) -> bool {
    |i: int| 0 <= i < table.len() && contains_text(table[i].path, term)
}

/// The numbers of the rows whose path contains `term`, in stored order.
pub open spec fn matching_rows(table: Seq<Record>, term: Seq<char>) -> Seq<int> {
    matching_prefix(table, term, table.len())
}

/// The numbers of the rows whose path contains `term`, best first.
pub open spec fn ranking(table: Seq<Record>, term: Seq<char>) -> Seq<int> {
    matching_rows(table, term).sort_by(row_order(table))
}

/// What a query for `term` answers: the paths of the best rows, best first,
/// and no more of them than the limit.
pub open spec fn ranked_paths(table: Seq<Record>, term: Seq<char>) -> Seq<Seq<char>> {
    let order = ranking(table, term);
    let n = if order.len() <= QUERY_LIMIT {
        order.len()
    } else {
        QUERY_LIMIT as nat
    };
    Seq::new(n, |k: int| table[order[k]].path)
}

/// The order of rows in a ranking is a total order.
pub proof fn lemma_row_order_total(table: Seq<Record>)
    ensures
        total_ordering(row_order(table)),
{
    let r = row_order(table);
    assert forall|x: int| #[trigger] r(x, x) by {}
    assert forall|x: int, y: int| #[trigger] r(x, y) && #[trigger] r(y, x) implies x == y by {}
    assert forall|x: int, y: int, z: int| #[trigger] r(x, y) && #[trigger] r(y, z) implies r(
        x,
        z,
    ) by {}
    assert forall|x: int, y: int| #[trigger] r(x, y) || #[trigger] r(y, x) by {}
}

/// The matching rows are the rows that match, each once, in rising order.
pub proof fn lemma_matching_rows(table: Seq<Record>, term: Seq<char>)
    ensures
        forall|i: int| #[trigger]
            matching_rows(table, term).contains(i) <==> row_matches(table, term)(i),
        forall|a: int, b: int|
            0 <= a < b < matching_rows(table, term).len() ==> matching_rows(table, term)[a]
                < matching_rows(table, term)[b],
{
    lemma_matching_prefix(table, term, table.len());
    assert(matching_rows(table, term) == matching_prefix(table, term, table.len()));
}

/// The numbers of the rows among the first `n` whose path contains `term`, in
/// stored order.
pub open spec fn matching_prefix(table: Seq<Record>, term: Seq<char>, n: nat) -> Seq<int> {
    rows(n).filter(row_matches(table, term))
}

/// The matching rows among the first `n` are the rows below `n` that match,
/// each once, in rising order.
pub proof fn lemma_matching_prefix(table: Seq<Record>, term: Seq<char>, n: nat)
    ensures
        forall|i: int| #[trigger]
            matching_prefix(table, term, n).contains(i) <==> 0 <= i < n && row_matches(
                table,
                term,
            )(i),
        forall|a: int, b: int|
            0 <= a < b < matching_prefix(table, term, n).len() ==> matching_prefix(
                table,
                term,
                n,
            )[a] < matching_prefix(table, term, n)[b],
    decreases n,
{
    let p = row_matches(table, term);
    if n == 0 {
        reveal(Seq::filter);
        assert(matching_prefix(table, term, n) =~= Seq::<int>::empty());
    } else {
        let m = (n - 1) as nat;
        lemma_matching_prefix(table, term, m);
        lemma_matching_step(table, term, m);
        let before = matching_prefix(table, term, m);
        let now = matching_prefix(table, term, n);
        if p(m as int) {
            assert(now == before.push(m as int));
            assert forall|i: int| #[trigger] now.contains(i) <==> 0 <= i < n && p(i) by {
                if now.contains(i) {
                    let k = choose|k: int| 0 <= k < now.len() && now[k] == i;
                    if k < before.len() {
                        assert(before.contains(before[k]));
                    }
                }
                if 0 <= i < n && p(i) {
                    if i == m {
                        assert(now[before.len() as int] == i);
                    } else {
                        assert(before.contains(i));
                        let k = choose|k: int| 0 <= k < before.len() && before[k] == i;
                        assert(now[k] == i);
                    }
                }
            }
            assert forall|a: int, b: int| 0 <= a < b < now.len() implies now[a] < now[b] by {
                assert(before.contains(before[a]));
            }
        } else {
            assert(now == before);
        }
    }
}

/// One more row is looked at: it joins the matching rows if it matches.
pub proof fn lemma_matching_step(table: Seq<Record>, term: Seq<char>, m: nat)
    ensures
        matching_prefix(table, term, m + 1) == if row_matches(table, term)(m as int) {
            matching_prefix(table, term, m).push(m as int)
        } else {
            matching_prefix(table, term, m)
        },
{
    assert(rows(m + 1) =~= rows(m).push(m as int));
    rows(m).lemma_filter_push(m as int, row_matches(table, term));
}

/// The empty term is in every path, so every row among the first `n` matches
/// it.
pub proof fn lemma_empty_term_prefix(table: Seq<Record>, n: nat)
    requires
        n <= table.len(),
    ensures
        matching_prefix(table, Seq::<char>::empty(), n) == rows(n),
    decreases n,
{
    if n == 0 {
        reveal(Seq::filter);
        assert(matching_prefix(table, Seq::<char>::empty(), n) =~= rows(n));
    } else {
        let m = (n - 1) as nat;
        lemma_empty_term_prefix(table, m);
        lemma_matching_step(table, Seq::<char>::empty(), m);
        lemma_contains_empty(table[m as int].path);
        assert(rows(n) =~= rows(m).push(m as int));
    }
}

/// A query for the empty term ranks every stored file.
pub proof fn lemma_empty_term_matches_all(table: Seq<Record>)
    ensures
        matching_rows(table, Seq::<char>::empty()) == rows(table.len()),
        ranking(table, Seq::<char>::empty()).len() == table.len(),
{
    lemma_empty_term_prefix(table, table.len());
    lemma_ranking(table, Seq::<char>::empty());
}

/// A ranking holds the rows that match, each once, in the order of rows.
pub proof fn lemma_ranking(table: Seq<Record>, term: Seq<char>)
    ensures
        forall|i: int| #[trigger]
            ranking(table, term).contains(i) <==> 0 <= i < table.len() && contains_text(
                table[i].path,
                term,
            ),
        ranking(table, term).no_duplicates(),
        ranking(table, term).len() == matching_rows(table, term).len(),
        sorted_by(ranking(table, term), row_order(table)),
{
    broadcast use group_to_multiset_ensures;

    let found = matching_rows(table, term);
    let order = ranking(table, term);
    lemma_row_order_total(table);
    found.lemma_sort_by_ensures(row_order(table));
    lemma_matching_rows(table, term);
    assert(found.to_multiset() == order.to_multiset());
    assert forall|i: int| #[trigger]
        order.contains(i) <==> 0 <= i < table.len() && contains_text(table[i].path, term) by {
        assert(order.contains(i) <==> order.to_multiset().count(i) > 0);
        assert(found.contains(i) <==> found.to_multiset().count(i) > 0);
    }
    assert(found.no_duplicates()) by {
        assert forall|a: int, b: int| 0 <= a < found.len() && 0 <= b < found.len() && a
            != b implies found[a] != found[b] by {
            if a < b {
                assert(found[a] < found[b]);
            } else {
                assert(found[b] < found[a]);
            }
        }
    }
    found.lemma_multiset_has_no_duplicates();
    order.lemma_multiset_has_no_duplicates_conv();
    assert(order.len() == order.to_multiset().len());
    assert(found.len() == found.to_multiset().len());
}

/// Row `i` ranks no higher than any of the files at `paths`.
pub open spec fn ranks_below_all(table: Seq<Record>, paths: Seq<Seq<char>>, i: int) -> bool {
    forall|k: int|
        0 <= k < paths.len() ==> ranks_no_lower(
            table[row_of(table, #[trigger] paths[k])],
            table[i],
        )
}

/// What a query answers. Every path in the answer is stored and contains the
/// term, and none comes twice. The answer holds every stored path that
/// contains the term, or as many as the limit allows. A path never comes
/// before one of higher rank, and a path that was left out for the limit ranks
/// no higher than any path in the answer.
pub proof fn lemma_ranked_paths(table: Seq<Record>, term: Seq<char>)
    requires
        well_formed(table),
    ensures
        ranked_paths(table, term).len() <= QUERY_LIMIT,
        ranked_paths(table, term).len() == if matching_rows(table, term).len() <= QUERY_LIMIT {
            matching_rows(table, term).len()
        } else {
            QUERY_LIMIT as nat
        },
        ranked_paths(table, term).no_duplicates(),
        forall|k: int|
            0 <= k < ranked_paths(table, term).len() ==> holds(
                table,
                #[trigger] ranked_paths(table, term)[k],
            ) && contains_text(ranked_paths(table, term)[k], term),
        forall|a: int, b: int|
            0 <= a < b < ranked_paths(table, term).len() ==> ranks_no_lower(
                table[row_of(table, #[trigger] ranked_paths(table, term)[a])],
                table[row_of(table, #[trigger] ranked_paths(table, term)[b])],
            ),
        forall|i: int|
            0 <= i < table.len() && contains_text(#[trigger] table[i].path, term)
                ==> ranked_paths(table, term).contains(table[i].path) || (ranked_paths(
                table,
                term,
            ).len() == QUERY_LIMIT && ranks_below_all(table, ranked_paths(table, term), i)),
{
    let order = ranking(table, term);
    let paths = ranked_paths(table, term);
    lemma_ranking(table, term);
    assert forall|k: int| 0 <= k < order.len() implies 0 <= #[trigger] order[k] < table.len()
        && contains_text(table[order[k]].path, term) && row_of(table, table[order[k]].path)
        == order[k] by {
        assert(order.contains(order[k]));
        lemma_row_of(table, order[k]);
    }
    assert forall|k: int| 0 <= k < paths.len() implies holds(table, #[trigger] paths[k])
        && contains_text(paths[k], term) && row_of(table, paths[k]) == order[k] by {
        assert(paths[k] == table[order[k]].path);
        lemma_row_of(table, order[k]);
    }
    assert forall|a: int, b: int| 0 <= a < b < paths.len() implies ranks_no_lower(
        table[row_of(table, #[trigger] paths[a])],
        table[row_of(table, #[trigger] paths[b])],
    ) && paths[a] != paths[b] by {
        assert(row_order(table)(order[a], order[b]));
        assert(order[a] != order[b]);
        assert(row_of(table, paths[a]) == order[a]);
        assert(row_of(table, paths[b]) == order[b]);
    }
    assert forall|i: int|
        0 <= i < table.len() && contains_text(#[trigger] table[i].path, term) implies paths.contains(
        table[i].path,
    ) || (paths.len() == QUERY_LIMIT && ranks_below_all(table, paths, i)) by {
        assert(order.contains(i));
        let k = choose|k: int| 0 <= k < order.len() && order[k] == i;
        if k < paths.len() {
            assert(paths[k] == table[i].path);
        } else {
            assert forall|j: int| 0 <= j < paths.len() implies ranks_no_lower(
                table[row_of(table, #[trigger] paths[j])],
                table[i],
            ) by {
                assert(row_order(table)(order[j], order[k]));
                assert(row_of(table, paths[j]) == order[j]);
            }
        }
    }
}

/// A file that is not stored is in no answer.
pub proof fn lemma_unstored_is_not_ranked(table: Seq<Record>, path: Seq<char>, term: Seq<char>)
    requires
        well_formed(table),
        !holds(table, path),
    ensures
        !ranked_paths(table, term).contains(path),
{
    lemma_ranked_paths(table, term);
    let paths = ranked_paths(table, term);
    if paths.contains(path) {
        let k = choose|k: int| 0 <= k < paths.len() && paths[k] == path;
        assert(holds(table, paths[k]));
    }
}

/// A file that was recorded and then removed is in no answer.
pub proof fn lemma_removed_is_not_ranked(
    table: Seq<Record>,
    path: Seq<char>,
    now: nat,
    term: Seq<char>,
)
    requires
        well_formed(table),
    ensures
        !ranked_paths(without(added(table, path, now), path), term).contains(path),
{
    lemma_added(table, path, now);
    lemma_without(added(table, path, now), path);
    lemma_unstored_is_not_ranked(without(added(table, path, now), path), path, term);
}

} // verus!
