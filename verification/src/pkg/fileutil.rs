//! Which files of a directory are too many, and how large a directory is. Reading
//! the directory, and removing files, is up to the caller.

use crate::text::chars_of;
use vstd::prelude::*;
use vstd::seq_lib::*;

verus! {

/// A file: its name, and when it was changed, in nanoseconds from the start of the
/// Unix epoch, where that is known.
#[derive(Debug)]
pub struct FileEntry {
    pub name: String,
    pub modified: Option<i128>,
}

/// What a [`FileEntry`] says. A file of which it is not known when it was changed
/// counts as changed at the start of the epoch.
#[verifier::ext_equal]
pub struct FileView {
    pub name: Seq<char>,
    pub modified: int,
}

impl View for FileEntry {
    type V = FileView;

    open spec fn view(&self) -> FileView {
        FileView {
            name: self.name@,
            modified: match self.modified {
                Some(t) => t as int,
                None => 0,
            },
        }
    }
}

/// The views of some files.
pub open spec fn file_views(s: Seq<FileEntry>) -> Seq<FileView> {
    s.map_values(|f: FileEntry| f@)
}

/// A text begins with another.
pub open spec fn begins_with(s: Seq<char>, prefix: Seq<char>) -> bool {
    prefix.len() <= s.len() && s.take(prefix.len() as int) == prefix
}

fn starts_with(s: &str, prefix: &str) -> (r: bool)
    ensures
        r == begins_with(s@, prefix@),
{
    let a = chars_of(s);
    let b = chars_of(prefix);
    if b.len() > a.len() {
        return false;
    }
    let mut i: usize = 0;
    while i < b.len()
        invariant
            a@ == s@,
            b@ == prefix@,
            i <= b@.len() <= a@.len(),
            forall|j: int| 0 <= j < i ==> a@[j] == b@[j],
        decreases b@.len() - i,
    {
        if a[i] != b[i] {
            assert(s@.take(prefix@.len() as int)[i as int] != prefix@[i as int]);
            return false;
        }
        i += 1;
    }
    assert(s@.take(prefix@.len() as int) =~= prefix@);
    true
}

/// How many of some files were changed no earlier than a time, up to the first that
/// was.
pub open spec fn newer_run(s: Seq<FileView>, modified: int) -> nat
    decreases s.len(),
{
    if s.len() == 0 || s[0].modified < modified {
        0
    } else {
        1 + newer_run(s.skip(1), modified)
    }
}

/// Files with one more, behind those that were changed no earlier.
pub open spec fn placed(s: Seq<FileView>, f: FileView) -> Seq<FileView> {
    s.insert(newer_run(s, f.modified) as int, f)
}

/// Files from the newest to the oldest. Those that were changed at the same time keep
/// their order.
pub open spec fn newest_first(s: Seq<FileView>) -> Seq<FileView>
    decreases s.len(),
{
    if s.len() == 0 {
        Seq::empty()
    } else {
        placed(newest_first(s.drop_last()), s.last())
    }
}

/// The files whose names begin with a text.
pub open spec fn named(s: Seq<FileView>, prefix: Seq<char>) -> Seq<FileView> {
    s.filter(|f: FileView| begins_with(f.name, prefix))
}

/// The files that are too many: of those whose names begin with a text, all behind the
/// newest ones.
pub open spec fn purged(s: Seq<FileView>, prefix: Seq<char>, max: nat) -> Seq<FileView> {
    let all = newest_first(named(s, prefix));
    if max <= all.len() {
        all.skip(max as int)
    } else {
        Seq::empty()
    }
}

fn modified_of(f: &FileEntry) -> (t: i128)
    ensures
        t == f@.modified,
{
    match f.modified {
        Some(t) => t,
        None => 0,
    }
}

proof fn lemma_newer_run(s: Seq<FileView>, modified: int, i: int)
    requires
        0 <= i <= s.len(),
        forall|j: int| 0 <= j < i ==> (#[trigger] s[j]).modified >= modified,
        i < s.len() ==> s[i].modified < modified,
    ensures
        newer_run(s, modified) == i,
    decreases i,
{
    if i > 0 {
        let rest = s.skip(1);
        assert(s[0].modified >= modified);
        assert forall|j: int| 0 <= j < i - 1 implies (#[trigger] rest[j]).modified >= modified by {
            assert(rest[j] == s[j + 1]);
        }
        lemma_newer_run(rest, modified, i - 1);
    }
}

/// Adds a file behind those that were changed no earlier.
fn place(sorted: &mut Vec<FileEntry>, f: FileEntry)
    ensures
        file_views(final(sorted)@) == placed(file_views(old(sorted)@), f@),
{
    let ghost before = file_views(sorted@);
    let t = modified_of(&f);
    let mut i: usize = 0;
    while i < sorted.len() && modified_of(&sorted[i]) >= t
        invariant
            i <= sorted@.len(),
            file_views(sorted@) == before,
            t == f@.modified,
            forall|j: int| 0 <= j < i ==> (#[trigger] before[j]).modified >= t,
        decreases sorted@.len() - i,
    {
        i += 1;
    }
    let ghost v = f@;
    proof {
        if i < sorted@.len() {
            assert(before[i as int] == sorted@[i as int]@);
        }
        lemma_newer_run(before, t as int, i as int);
    }
    sorted.insert(i, f);
    assert(file_views(sorted@) =~= before.insert(i as int, v));
}

/// The names of the files of a directory that are too many: of those whose names begin
/// with a text only the newest stay, up to a number.
pub fn files_to_purge(files: Vec<FileEntry>, prefix: &str, max: usize) -> (r: Vec<String>)
    ensures
        r@.map_values(|n: String| n@) == purged(
            file_views(files@),
            prefix@,
            max as nat,
        ).map_values(|f: FileView| f.name),
{
    let ghost all = file_views(files@);
    let mut sorted: Vec<FileEntry> = Vec::new();
    proof {
        reveal(Seq::filter);
        assert(all.take(0) =~= Seq::empty());
        assert(file_views(sorted@) =~= newest_first(named(all.take(0), prefix@)));
    }
    for f in it: files
        invariant
            it.seq() == files@,
            all == file_views(files@),
            file_views(sorted@) == newest_first(named(all.take(it.index() as int), prefix@)),
    {
        let ghost i = it.index() as int;
        let ghost now = all.take(i);
        proof {
            reveal(Seq::filter);
            assert(all.take(i + 1).drop_last() =~= now);
            assert(all.take(i + 1).last() == f@);
            let kept = named(now, prefix@);
            assert(kept.push(f@).drop_last() =~= kept);
        }
        if starts_with(f.name.as_str(), prefix) {
            place(&mut sorted, f);
        }
    }
    let ghost chosen = file_views(sorted@);
    proof {
        assert(all.take(all.len() as int) =~= all);
        assert(chosen == newest_first(named(all, prefix@)));
    }
    let mut r: Vec<String> = Vec::new();
    let mut i: usize = max;
    let ghost out = purged(all, prefix@, max as nat).map_values(|f: FileView| f.name);
    assert(r@.map_values(|n: String| n@) =~= out.take(0));
    while i < sorted.len()
        invariant
            chosen == file_views(sorted@),
            chosen == newest_first(named(all, prefix@)),
            out == purged(all, prefix@, max as nat).map_values(|f: FileView| f.name),
            max <= i,
            i == max || i <= chosen.len(),
            r@.len() == i - max,
            r@.map_values(|n: String| n@) == out.take(i - max),
        decreases chosen.len() - i,
    {
        let ghost before = r@.map_values(|n: String| n@);
        r.push(sorted[i].name.clone());
        proof {
            assert(out[i - max] == chosen[i as int].name);
            assert(r@.map_values(|n: String| n@) =~= before.push(out[i - max]));
            assert(out.take(i + 1 - max) =~= out.take(i - max).push(out[i - max]));
        }
        i += 1;
    }
    proof {
        assert(out.take(out.len() as int) =~= out);
    }
    r
}

/// What stands in a directory.
#[derive(Debug)]
pub enum DirEntry {
    /// A file, with its size.
    File(u64),
    /// A directory, with what stands in it.
    Dir(Vec<DirEntry>),
    /// Something else.
    Other,
}

/// The size of all files of an entry.
pub open spec fn tree_size(e: DirEntry) -> nat
    decreases e,
{
    match e {
        DirEntry::File(n) => n as nat,
        DirEntry::Dir(v) => list_size(v@),
        DirEntry::Other => 0,
    }
}

/// The size of all files of some entries.
pub open spec fn list_size(s: Seq<DirEntry>) -> nat
    decreases s,
{
    if s.len() == 0 {
        0
    } else {
        list_size(s.drop_last()) + tree_size(s.last())
    }
}

proof fn lemma_list_size(s: Seq<DirEntry>, i: int)
    requires
        0 <= i <= s.len(),
    ensures
        list_size(s.take(i)) <= list_size(s),
    decreases s.len(),
{
    if i < s.len() {
        assert(s.drop_last().take(i) =~= s.take(i));
        lemma_list_size(s.drop_last(), i);
    } else {
        assert(s.take(i) =~= s);
    }
}

/// The size of all files of a directory, unless it is too large for the number.
pub fn dir_size(entries: &Vec<DirEntry>) -> (r: Option<u64>)
    ensures
        r == (if list_size(entries@) <= u64::MAX {
            Some(list_size(entries@) as u64)
        } else {
            None
        }),
    decreases entries,
{
    let mut total: u64 = 0;
    let mut i: usize = 0;
    assert(entries@.take(0) =~= Seq::empty());
    while i < entries.len()
        invariant
            i <= entries@.len(),
            total == list_size(entries@.take(i as int)),
        decreases entries@.len() - i,
    {
        let ghost next = entries@.take(i + 1);
        proof {
            assert(next.drop_last() =~= entries@.take(i as int));
            assert(next.last() == entries@[i as int]);
            lemma_list_size(entries@, i + 1);
            assert(list_size(next) == total + tree_size(entries@[i as int]));
        }
        let size = match &entries[i] {
            DirEntry::File(n) => *n,
            DirEntry::Dir(inner) => {
                assert(tree_size(entries@[i as int]) == list_size(inner@));
                match dir_size(inner) {
                    Some(n) => n,
                    None => {
                        return None;
                    },
                }
            },
            DirEntry::Other => 0,
        };
        match total.checked_add(size) {
            Some(n) => {
                total = n;
            },
            None => {
                return None;
            },
        }
        i += 1;
    }
    assert(entries@.take(entries@.len() as int) =~= entries@);
    Some(total)
}

// ------------------------------------------------------------------- laws

/// What stays is no older than what goes, and no more than the number stays.
pub proof fn law_newest_stay(s: Seq<FileView>, prefix: Seq<char>, max: nat, i: int, j: int)
    requires
        0 <= i < max,
        i < newest_first(named(s, prefix)).len(),
        0 <= j < purged(s, prefix, max).len(),
    ensures
        newest_first(named(s, prefix))[i].modified >= purged(s, prefix, max)[j].modified,
        newest_first(named(s, prefix)).len() - purged(s, prefix, max).len() <= max,
{
    lemma_sorted(named(s, prefix));
}

/// Putting files in order leaves none out and adds none.
pub proof fn law_order_keeps_files(s: Seq<FileView>)
    ensures
        newest_first(s).to_multiset() == s.to_multiset(),
    decreases s.len(),
{
    broadcast use group_to_multiset_ensures;

    if s.len() > 0 {
        law_order_keeps_files(s.drop_last());
        let before = newest_first(s.drop_last());
        lemma_run_in_bounds(before, s.last().modified);
        let p = newer_run(before, s.last().modified) as int;
        assert(s =~= s.drop_last().push(s.last()));
        to_multiset_insert(before, p, s.last());
    }
}

proof fn lemma_run_in_bounds(s: Seq<FileView>, modified: int)
    ensures
        newer_run(s, modified) <= s.len(),
        forall|j: int|
            0 <= j < newer_run(s, modified) ==> (#[trigger] s[j]).modified >= modified,
        newer_run(s, modified) < s.len() ==> s[newer_run(s, modified) as int].modified < modified,
    decreases s.len(),
{
    if s.len() > 0 && s[0].modified >= modified {
        let rest = s.skip(1);
        lemma_run_in_bounds(rest, modified);
        assert forall|j: int| 0 <= j < newer_run(s, modified) implies (#[trigger] s[j]).modified
            >= modified by {
            if j > 0 {
                assert(s[j] == rest[j - 1]);
            }
        }
    }
}

proof fn lemma_sorted(s: Seq<FileView>)
    ensures
        forall|i: int, j: int|
            #![trigger newest_first(s)[i], newest_first(s)[j]]
            0 <= i < j < newest_first(s).len() ==> newest_first(s)[i].modified >= newest_first(
                s,
            )[j].modified,
    decreases s.len(),
{
    if s.len() > 0 {
        let before = newest_first(s.drop_last());
        lemma_sorted(s.drop_last());
        lemma_run_in_bounds(before, s.last().modified);
    }
}

/// As many files go as there are too many, and no more. Only files whose names begin with
/// the text go.
pub proof fn law_how_many_go(s: Seq<FileView>, prefix: Seq<char>, max: nat)
    ensures
        purged(s, prefix, max).len() == (if named(s, prefix).len() > max {
            named(s, prefix).len() - max
        } else {
            0
        }),
        forall|j: int|
            0 <= j < purged(s, prefix, max).len() ==> {
                let f = #[trigger] purged(s, prefix, max)[j];
                &&& s.contains(f)
                &&& prefix.len() <= f.name.len()
                &&& forall|k: int| 0 <= k < prefix.len() ==> f.name[k] == #[trigger] prefix[k]
            },
{
    broadcast use {group_to_multiset_ensures, group_filter_ensures};

    let found = named(s, prefix);
    let all = newest_first(found);
    law_order_keeps_files(found);
    assert(all.len() == all.to_multiset().len());
    assert(found.len() == found.to_multiset().len());
    assert forall|j: int| 0 <= j < purged(s, prefix, max).len() implies {
        let f = #[trigger] purged(s, prefix, max)[j];
        &&& s.contains(f)
        &&& prefix.len() <= f.name.len()
        &&& forall|k: int| 0 <= k < prefix.len() ==> f.name[k] == #[trigger] prefix[k]
    } by {
        let f = purged(s, prefix, max)[j];
        assert(all[max + j] == f);
        assert(all.contains(f));
        assert(found.to_multiset().count(f) > 0);
        assert(found.contains(f));
        s.lemma_filter_contains_rev(|f: FileView| begins_with(f.name, prefix), f);
        let i = choose|i: int| 0 <= i < found.len() && found[i] == f;
        assert(begins_with(f.name, prefix));
        assert forall|k: int| 0 <= k < prefix.len() implies f.name[k] == #[trigger] prefix[k] by {
            assert(f.name.take(prefix.len() as int)[k] == f.name[k]);
        }
    }
}

proof fn lemma_filter_insert(s: Seq<FileView>, p: int, f: FileView, t: int)
    requires
        0 <= p <= s.len(),
        f.modified == t ==> forall|j: int| p <= j < s.len() ==> (#[trigger] s[j]).modified != t,
    ensures
        changed_at(s.insert(p, f), t) == (if f.modified == t {
            changed_at(s, t).push(f)
        } else {
            changed_at(s, t)
        }),
    decreases s.len(),
{
    reveal(Seq::filter);
    let r = s.insert(p, f);
    if p == s.len() {
        assert(r.drop_last() =~= s);
        assert(r.last() == f);
    } else {
        let front = s.drop_last();
        assert(r.last() == s.last());
        assert(s.last() == s[s.len() - 1]);
        assert(r.drop_last() =~= front.insert(p, f));
        assert(f.modified == t ==> forall|j: int|
            p <= j < front.len() ==> (#[trigger] front[j]).modified != t) by {
            if f.modified == t {
                assert forall|j: int| p <= j < front.len() implies (#[trigger] front[j]).modified
                    != t by {
                    assert(front[j] == s[j]);
                }
            }
        }
        lemma_filter_insert(front, p, f, t);
    }
}

/// The files that were changed at a time.
pub open spec fn changed_at(s: Seq<FileView>, t: int) -> Seq<FileView> {
    s.filter(|f: FileView| f.modified == t)
}

/// Files that were changed at the same time keep their order.
pub proof fn law_same_time_keeps_order(s: Seq<FileView>, t: int)
    ensures
        changed_at(newest_first(s), t) == changed_at(s, t),
    decreases s.len(),
{
    reveal(Seq::filter);
    if s.len() > 0 {
        let front = s.drop_last();
        let f = s.last();
        let before = newest_first(front);
        law_same_time_keeps_order(front, t);
        lemma_run_in_bounds(before, f.modified);
        lemma_sorted(front);
        let p = newer_run(before, f.modified) as int;
        if f.modified == t {
            assert forall|j: int| p <= j < before.len() implies (#[trigger] before[j]).modified
                != t by {
                assert(before[p].modified < t);
                if j > p {
                    assert(before[p].modified >= before[j].modified);
                }
            }
        }
        lemma_filter_insert(before, p, f, t);
    }
}

/// A file whose name begins with the text is among those that are counted, and no other.
pub proof fn law_counted_files(s: Seq<FileView>, prefix: Seq<char>, f: FileView)
    ensures
        named(s, prefix).contains(f) == (s.contains(f) && prefix.is_prefix_of(f.name)),
{
    broadcast use group_filter_ensures;

    let p = |f: FileView| begins_with(f.name, prefix);
    if s.contains(f) && prefix.is_prefix_of(f.name) {
        assert(f.name.take(prefix.len() as int) =~= f.name.subrange(0, prefix.len() as int));
        let i = choose|i: int| 0 <= i < s.len() && s[i] == f;
        assert(p(s[i]));
        assert(s.filter(p).contains(s[i]));
    }
    if named(s, prefix).contains(f) {
        s.lemma_filter_contains_rev(p, f);
        let i = choose|i: int| 0 <= i < named(s, prefix).len() && named(s, prefix)[i] == f;
        assert(p(s.filter(p)[i]));
        assert(f.name.take(prefix.len() as int) =~= f.name.subrange(0, prefix.len() as int));
    }
}

/// The size of a directory is that of its files, also of those that stand deeper.
pub proof fn law_sizes_add_up(s: Seq<DirEntry>, n: u64, inner: Vec<DirEntry>)
    ensures
        list_size(s.push(DirEntry::File(n))) == list_size(s) + n,
        list_size(s.push(DirEntry::Dir(inner))) == list_size(s) + list_size(inner@),
        list_size(s.push(DirEntry::Other)) == list_size(s),
        list_size(Seq::<DirEntry>::empty()) == 0,
{
    assert(s.push(DirEntry::File(n)).drop_last() =~= s);
    assert(s.push(DirEntry::Dir(inner)).drop_last() =~= s);
    assert(s.push(DirEntry::Other).drop_last() =~= s);
    assert(tree_size(DirEntry::File(n)) == n);
    assert(tree_size(DirEntry::Dir(inner)) == list_size(inner@));
    assert(tree_size(DirEntry::Other) == 0);
    assert(s.push(DirEntry::File(n)).last() == DirEntry::File(n));
    assert(s.push(DirEntry::Other).last() == DirEntry::Other);
}

} // verus!
