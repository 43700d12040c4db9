//! The index itself: the table of usage records, in memory.

use vstd::prelude::*;
use vstd::relations::sorted_by;
use vstd::seq_lib::{lemma_sorted_unique, to_multiset_build, to_multiset_insert};
use crate::error::StoreError;
use crate::model::{
    added, dropped, first_use, frequency_of, holds, last_accessed_of, leaves,
    lemma_filter_well_formed, lemma_row_of, paths_of, stays, swept, used_again, well_formed,
    without, Record,
};
use crate::rank::{
    lemma_matching_step, lemma_row_order_total, matching_prefix, matching_rows, ranked_paths,
    ranking, ranks_higher, row_order, row_precedes, QUERY_LIMIT,
};
use crate::text::{chars_of, contains_chars, texts};

verus! {

/// One stored row: the canonical path of a file, when it was last opened, in
/// seconds of the caller's clock, and how often it was opened.
#[derive(Debug, Clone, PartialEq, Eq)]
pub struct FileEntry {
    pub path: String,
    pub last_accessed: u64,
    pub frequency: u64,
}

impl View for FileEntry {
    type V = Record;

    open spec fn view(&self) -> Record {
        Record {
            path: self.path@,
            last_accessed: self.last_accessed as nat,
            frequency: self.frequency as nat,
        }
    }
}

/// The table that a list of rows stands for.
pub open spec fn table_of(entries: Seq<FileEntry>) -> Seq<Record> {
    Seq::new(entries.len(), |i: int| entries[i]@)
}

/// The index of opened files. Its rows keep the order in which their files
/// were first recorded.
pub struct Texoxide {
    entries: Vec<FileEntry>,
}

impl View for Texoxide {
    type V = Seq<Record>;

    closed spec fn view(&self) -> Seq<Record> {
        table_of(self.entries@)
    }
}

/// What a look at the disk said of one stored path.
#[derive(Debug, Clone, Copy, PartialEq, Eq, Structural)]
pub enum Presence {
    /// The file is there.
    Present,
    /// The file is not there.
    Absent,
    /// The look failed, so nothing is known.
    Unknown,
}

/// A stored path and what a look at the disk said of it.
#[derive(Debug, Clone, PartialEq, Eq)]
pub struct Probe {
    pub path: String,
    pub presence: Presence,
}

/// The paths that some probe reports absent.
pub open spec fn reported_absent(probes: Seq<Probe>) -> Set<Seq<char>> {
    Set::new(
        |path: Seq<char>|
            exists|k: int|
                0 <= k < probes.len() && probes[k].path@ == path && probes[k].presence
                    == Presence::Absent,
    )
}

/// The row numbers in a list, as integers.
pub open spec fn numbers(order: Seq<usize>) -> Seq<int> {
    Seq::new(order.len(), |k: int| order[k] as int)
}

/// Whether some probe reports `path` absent.
fn is_reported_absent(probes: &Vec<Probe>, path: &String) -> (gone: bool)
    ensures
        gone == reported_absent(probes@).contains(path@),
{
    let mut k: usize = 0;
    while k < probes.len()
        invariant
            k <= probes.len(),
            forall|j: int|
                0 <= j < k ==> !(probes[j].path@ == path@ && probes[j].presence
                    == Presence::Absent),
        decreases probes.len() - k,
    {
        let absent = match probes[k].presence {
            Presence::Absent => true,
            Presence::Present => false,
            Presence::Unknown => false,
        };
        if absent && probes[k].path == *path {
            return true;
        }
        k += 1;
    }
    false
}

/// A row with the same content.
fn copy_of(entry: &FileEntry) -> (copy: FileEntry)
    ensures
        copy == *entry,
{
    FileEntry {
        path: entry.path.clone(),
        last_accessed: entry.last_accessed,
        frequency: entry.frequency,
    }
}

/// Whether row `a` ranks higher than row `b`.
fn outranks(a: &FileEntry, b: &FileEntry) -> (higher: bool)
    ensures
        higher == ranks_higher(a@, b@),
{
    a.frequency > b.frequency || (a.frequency == b.frequency && a.last_accessed
        > b.last_accessed)
}

/// Where row `i` goes in a ranking of rows stored before it: behind the rows
/// that rank no lower, before the first row that ranks lower.
fn place(entries: &Vec<FileEntry>, order: &Vec<usize>, i: usize) -> (pos: usize)
    requires
        i < entries.len(),
        forall|k: int| 0 <= k < order.len() ==> order[k] < i,
        sorted_by(numbers(order@), row_order(table_of(entries@))),
    ensures
        pos <= order.len(),
        forall|k: int|
            0 <= k < pos ==> row_precedes(table_of(entries@), #[trigger] order[k] as int, i as int),
        forall|k: int|
            pos <= k < order.len() ==> row_precedes(
                table_of(entries@),
                i as int,
                #[trigger] order[k] as int,
            ),
{
    let ghost table = table_of(entries@);
    let mut pos: usize = 0;
    while pos < order.len() && !outranks(&entries[i], &entries[order[pos]])
        invariant
            pos <= order.len(),
            i < entries.len(),
            table == table_of(entries@),
            forall|k: int| 0 <= k < order.len() ==> order[k] < i,
            forall|k: int|
                0 <= k < pos ==> row_precedes(table, #[trigger] order[k] as int, i as int),
        decreases order.len() - pos,
    {
        pos += 1;
    }
    assert forall|k: int| pos <= k < order.len() implies row_precedes(
        table,
        i as int,
        #[trigger] order[k] as int,
    ) by {
        if pos < k {
            assert(row_order(table)(numbers(order@)[pos as int], numbers(order@)[k]));
        }
    }
    pos
}

/// The number of the row stored under `path`, if there is one.
fn find(entries: &Vec<FileEntry>, path: &String) -> (at: Option<usize>)
    ensures
        match at {
            Some(i) => i < entries.len() && entries[i as int].path@ == path@,
            None => forall|i: int| 0 <= i < entries.len() ==> entries[i].path@ != path@,
        },
{
    let mut i: usize = 0;
    while i < entries.len()
        invariant
            i <= entries.len(),
            forall|j: int| 0 <= j < i ==> entries[j].path@ != path@,
        decreases entries.len() - i,
    {
        if entries[i].path == *path {
            return Some(i);
        }
        i += 1;
    }
    None
}

impl Texoxide {
    /// Every index keeps the rules of the table.
    #[verifier::type_invariant]
    spec fn valid(self) -> bool {
        well_formed(table_of(self.entries@))
    }

    /// An index with no rows.
    pub fn new() -> (store: Self)
        ensures
            store@ == Seq::<Record>::empty(),
    {
        let store = Texoxide { entries: Vec::new() };
        assert(store@ =~= Seq::<Record>::empty());
        store
    }

    /// The index that holds `rows`, in their order. Fails where the rows
    /// break the rules of the table: a path stored twice, or a count of 0.
    pub fn load(rows: Vec<FileEntry>) -> (outcome: Result<Self, StoreError>)
        ensures
            outcome is Ok <==> well_formed(table_of(rows@)),
            outcome matches Ok(store) ==> store@ == table_of(rows@),
            outcome is Err ==> outcome matches Err(StoreError::StorageError),
    {
        let ghost table = table_of(rows@);
        let mut i: usize = 0;
        while i < rows.len()
            invariant
                i <= rows.len(),
                table == table_of(rows@),
                well_formed(table.take(i as int)),
            decreases rows.len() - i,
        {
            if rows[i].frequency == 0 {
                assert(table[i as int].frequency == 0);
                return Err(StoreError::StorageError);
            }
            let mut j: usize = 0;
            while j < i
                invariant
                    j <= i,
                    i < rows.len(),
                    table == table_of(rows@),
                    forall|k: int| 0 <= k < j ==> table[k].path != table[i as int].path,
                decreases i - j,
            {
                if rows[j].path == rows[i].path {
                    assert(table[j as int].path == table[i as int].path);
                    return Err(StoreError::StorageError);
                }
                j += 1;
            }
            assert(well_formed(table.take(i + 1))) by {
                let now = table.take(i + 1);
                let before = table.take(i as int);
                assert forall|a: int, b: int| 0 <= a < b < now.len() implies now[a].path
                    != now[b].path by {
                    if b < i {
                        assert(before[a].path != before[b].path);
                    }
                }
                assert forall|a: int| 0 <= a < now.len() implies now[a].frequency >= 1 by {
                    if a < i {
                        assert(before[a].frequency >= 1);
                    }
                }
            }
            i += 1;
        }
        assert(table.take(rows.len() as int) =~= table);
        Ok(Texoxide { entries: rows })
    }

    /// The number of stored rows.
    pub fn len(&self) -> (n: usize)
        ensures
            n == self@.len(),
            well_formed(self@),
    {
        proof {
            use_type_invariant(self);
        }
        self.entries.len()
    }

    /// Records that the file at the canonical path `path` was opened at `now`.
    /// A file that is not stored yet gets a row with count 1 at the end of the
    /// table; a stored file has its count raised by one and its date set to
    /// `now`. Where the count has no room left, nothing changes and the call
    /// fails.
    pub fn add(&mut self, path: &str, now: u64) -> (outcome: Result<(), StoreError>)
        ensures
            outcome is Err <==> frequency_of(old(self)@, path@) == u64::MAX,
            outcome is Ok ==> final(self)@ == added(old(self)@, path@, now as nat),
            outcome is Err ==> outcome == Err::<(), StoreError>(StoreError::StorageError)
                && final(self)@ == old(self)@,
            well_formed(final(self)@),
    {
        proof {
            use_type_invariant(&*self);
        }
        let key = path.to_owned();
        let mut entries: Vec<FileEntry> = Vec::new();
        std::mem::swap(&mut entries, &mut self.entries);
        let ghost before = table_of(entries@);
        let mut outcome = Ok(());
        match find(&entries, &key) {
            Some(i) => {
                proof {
                    lemma_row_of(before, i as int);
                }
                let count: u64 = entries[i].frequency;
                if count == u64::MAX {
                    outcome = Err(StoreError::StorageError);
                } else {
                    let row = FileEntry { path: key, last_accessed: now, frequency: count + 1 };
                    entries.set(i, row);
                    assert(table_of(entries@) =~= before.update(
                        i as int,
                        used_again(before[i as int], now as nat),
                    ));
                }
            },
            None => {
                assert(!holds(before, path@));
                entries.push(FileEntry { path: key, last_accessed: now, frequency: 1 });
                assert(table_of(entries@) =~= before.push(first_use(path@, now as nat)));
            },
        }
        self.entries = entries;
        outcome
    }

    /// Takes the row stored under `path` out of the table. The other rows
    /// stay as they are. Fails where no row is stored under `path`.
    pub fn remove_entry(&mut self, path: &str) -> (outcome: Result<(), StoreError>)
        ensures
            outcome is Err <==> !holds(old(self)@, path@),
            outcome is Ok ==> final(self)@ == without(old(self)@, path@),
            outcome is Err ==> outcome == Err::<(), StoreError>(StoreError::NotFound)
                && final(self)@ == old(self)@,
            well_formed(final(self)@),
    {
        proof {
            use_type_invariant(&*self);
        }
        let key = path.to_owned();
        let mut entries: Vec<FileEntry> = Vec::new();
        std::mem::swap(&mut entries, &mut self.entries);
        let ghost before = table_of(entries@);
        let mut outcome = Ok(());
        match find(&entries, &key) {
            Some(i) => {
                proof {
                    lemma_row_of(before, i as int);
                }
                let _ = entries.remove(i);
                assert(table_of(entries@) =~= before.remove(i as int));
            },
            None => {
                assert(!holds(before, path@));
                outcome = Err(StoreError::NotFound);
            },
        }
        self.entries = entries;
        outcome
    }

    /// Takes out the rows of the files that the probes report absent, and
    /// hands back their paths. Every other row stays as it is: one that no
    /// probe names, one whose file is there, one whose probe failed.
    pub fn cleanup(&mut self, probes: &Vec<Probe>) -> (removed: Vec<String>)
        ensures
            final(self)@ == swept(old(self)@, reported_absent(probes@)),
            texts(removed@) == dropped(old(self)@, reported_absent(probes@)),
            well_formed(final(self)@),
    {
        proof {
            use_type_invariant(&*self);
        }
        let mut entries: Vec<FileEntry> = Vec::new();
        std::mem::swap(&mut entries, &mut self.entries);
        let ghost before = table_of(entries@);
        let ghost gone = reported_absent(probes@);
        let n: usize = entries.len();
        let mut kept: Vec<FileEntry> = Vec::new();
        let mut removed: Vec<String> = Vec::new();
        let mut i: usize = 0;
        proof {
            reveal(Seq::filter);
            assert(before.take(0) =~= Seq::<Record>::empty());
            assert(table_of(kept@) =~= before.take(0).filter(stays(gone)));
            assert(texts(removed@) =~= paths_of(before.take(0).filter(leaves(gone))));
        }
        while i < n
            invariant
                i <= n,
                n == entries.len(),
                before == table_of(entries@),
                gone == reported_absent(probes@),
                table_of(kept@) == before.take(i as int).filter(stays(gone)),
                texts(removed@) == paths_of(before.take(i as int).filter(leaves(gone))),
            decreases n - i,
        {
            proof {
                assert(before.take(i + 1) =~= before.take(i as int).push(before[i as int]));
                before.take(i as int).lemma_filter_push(before[i as int], stays(gone));
                before.take(i as int).lemma_filter_push(before[i as int], leaves(gone));
            }
            let ghost kept_before = kept@;
            let ghost removed_before = removed@;
            if is_reported_absent(probes, &entries[i].path) {
                removed.push(entries[i].path.clone());
                assert(texts(removed@) =~= texts(removed_before).push(before[i as int].path));
                assert(paths_of(
                    before.take(i as int).filter(leaves(gone)).push(before[i as int]),
                ) =~= texts(removed@));
            } else {
                kept.push(copy_of(&entries[i]));
                assert(table_of(kept@) =~= table_of(kept_before).push(before[i as int]));
            }
            i += 1;
        }
        proof {
            assert(before.take(n as int) =~= before);
            lemma_filter_well_formed(before, stays(gone));
        }
        self.entries = kept;
        removed
    }

    /// The paths of the stored files that contain `term`, best first: the
    /// file opened more often before the one opened less, of two opened
    /// equally often the one opened later, and of two that are equal in both
    /// the one recorded first. No more paths than the limit are handed out.
    pub fn query(&self, term: &str) -> (paths: Vec<String>)
        ensures
            texts(paths@) == ranked_paths(self@, term@),
            well_formed(self@),
    {
        proof {
            use_type_invariant(self);
        }
        let needle = chars_of(term);
        let n: usize = self.entries.len();
        let ghost table = self@;
        let mut order: Vec<usize> = Vec::new();
        let mut i: usize = 0;
        proof {
            reveal(Seq::filter);
            assert(matching_prefix(table, term@, 0) =~= Seq::<int>::empty());
            assert(numbers(order@) =~= Seq::<int>::empty());
        }
        while i < n
            invariant
                i <= n,
                n == self.entries.len(),
                table == table_of(self.entries@),
                needle@ == term@,
                sorted_by(numbers(order@), row_order(table)),
                numbers(order@).to_multiset() == matching_prefix(
                    table,
                    term@,
                    i as nat,
                ).to_multiset(),
                forall|k: int| 0 <= k < order.len() ==> order[k] < i,
            decreases n - i,
        {
            let hay = chars_of(self.entries[i].path.as_str());
            let ghost seen = matching_prefix(table, term@, i as nat);
            proof {
                lemma_matching_step(table, term@, i as nat);
                assert(table[i as int].path == hay@);
            }
            if contains_chars(&hay, &needle) {
                let pos = place(&self.entries, &order, i);
                let ghost earlier = numbers(order@);
                order.insert(pos, i);
                proof {
                    let later = numbers(order@);
                    assert(later =~= earlier.insert(pos as int, i as int));
                    assert(matching_prefix(table, term@, (i + 1) as nat) == seen.push(i as int));
                    to_multiset_insert(earlier, pos as int, i as int);
                    to_multiset_build(seen, i as int);
                    assert forall|a: int, b: int| 0 <= a < b < later.len() implies #[trigger]
                        row_order(table)(later[a], later[b]) by {
                        if b < pos {
                            assert(row_order(table)(earlier[a], earlier[b]));
                        } else if b == pos {
                            assert(later[a] == order@[a] as int);
                        } else if a < pos {
                            assert(row_order(table)(earlier[a], earlier[b - 1]));
                        } else if a == pos {
                            assert(later[b] == order@[b] as int);
                        } else {
                            assert(row_order(table)(earlier[a - 1], earlier[b - 1]));
                        }
                    }
                }
            } else {
                assert(matching_prefix(table, term@, (i + 1) as nat) == seen);
            }
            i += 1;
        }
        proof {
            lemma_row_order_total(table);
            matching_rows(table, term@).lemma_sort_by_ensures(row_order(table));
            lemma_sorted_unique(numbers(order@), ranking(table, term@), row_order(table));
        }
        let mut paths: Vec<String> = Vec::new();
        let mut k: usize = 0;
        while k < order.len() && k < QUERY_LIMIT
            invariant
                k <= order.len(),
                k <= QUERY_LIMIT,
                table == table_of(self.entries@),
                numbers(order@) == ranking(table, term@),
                forall|j: int| 0 <= j < order.len() ==> order[j] < self.entries.len(),
                paths.len() == k,
                forall|j: int| 0 <= j < k ==> paths[j]@ == table[order[j] as int].path,
            decreases order.len() - k,
        {
            assert(numbers(order@)[k as int] == order[k as int]);
            paths.push(self.entries[order[k]].path.clone());
            k += 1;
        }
        assert(texts(paths@) =~= ranked_paths(table, term@)) by {
            assert forall|j: int| 0 <= j < k implies ranking(table, term@)[j] == order[j] as int by {
                assert(numbers(order@)[j] == order[j]);
            }
        }
        paths
    }

    /// The stored paths, row by row.
    pub fn paths(&self) -> (list: Vec<String>)
        ensures
            texts(list@) == paths_of(self@),
    {
        let mut list: Vec<String> = Vec::new();
        let mut i: usize = 0;
        while i < self.entries.len()
            invariant
                i <= self.entries.len(),
                list.len() == i,
                forall|j: int| 0 <= j < i ==> list[j]@ == self.entries[j].path@,
            decreases self.entries.len() - i,
        {
            list.push(self.entries[i].path.clone());
            i += 1;
        }
        assert(texts(list@) =~= paths_of(self@));
        list
    }

    /// How often the file at `path` was opened, if it is stored.
    pub fn frequency(&self, path: &str) -> (count: Option<u64>)
        ensures
            count is Some <==> holds(self@, path@),
            count matches Some(n) ==> n == frequency_of(self@, path@),
    {
        proof {
            use_type_invariant(self);
        }
        let key = path.to_owned();
        match find(&self.entries, &key) {
            Some(i) => {
                proof {
                    lemma_row_of(self@, i as int);
                }
                Some(self.entries[i].frequency)
            },
            None => {
                assert(!holds(self@, path@));
                None
            },
        }
    }

    /// When the file at `path` was last opened, if it is stored.
    pub fn last_accessed(&self, path: &str) -> (date: Option<u64>)
        ensures
            date is Some <==> holds(self@, path@),
            date matches Some(t) ==> Some(t as nat) == last_accessed_of(self@, path@),
    {
        proof {
            use_type_invariant(self);
        }
        let key = path.to_owned();
        match find(&self.entries, &key) {
            Some(i) => {
                proof {
                    lemma_row_of(self@, i as int);
                }
                Some(self.entries[i].last_accessed)
            },
            None => {
                assert(!holds(self@, path@));
                None
            },
        }
    }
}

} // verus!
