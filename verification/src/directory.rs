//! The segment directory: which segment covers which keys, in the order in
//! which the segments were registered.

use vstd::prelude::*;

verus! {

/// One registered segment: the range of its keys and where it lies.
pub struct SegmentEntry {
    pub min_key: u64,
    pub max_key: u64,
    pub path: String,
}

/// A registered segment as a mathematical value.
pub struct EntryView {
    pub min_key: u64,
    pub max_key: u64,
    pub path: Seq<char>,
}

impl View for SegmentEntry {
    type V = EntryView;

    open spec fn view(&self) -> EntryView {
        EntryView { min_key: self.min_key, max_key: self.max_key, path: self.path@ }
    }
}

/// Whether `k` lies in the key range of `e`.
pub open spec fn covers(e: EntryView, k: u64) -> bool {
    e.min_key <= k <= e.max_key
}

/// The index of the segment to read for `k`: the one registered last among
/// those whose range covers `k`.
pub open spec fn locate_index(dir: Seq<EntryView>, k: u64) -> Option<int>
    decreases dir.len(),
{
    if dir.len() == 0 {
        None
    } else if covers(dir.last(), k) {
        Some(dir.len() - 1)
    } else {
        locate_index(dir.drop_last(), k)
    }
}

/// The path of the segment to read for `k`, if any range covers `k`.
pub open spec fn locate_spec(dir: Seq<EntryView>, k: u64) -> Option<Seq<char>> {
    match locate_index(dir, k) {
        Some(i) => Some(dir[i].path),
        None => None,
    }
}

/// The paths of a vector of strings.
pub open spec fn paths_view(v: Seq<String>) -> Seq<Seq<char>> {
    Seq::new(v.len(), |i: int| v[i]@)
}

/// The entries of a vector as mathematical values.
pub open spec fn entries_view(v: Seq<SegmentEntry>) -> Seq<EntryView> {
    Seq::new(v.len(), |i: int| v[i]@)
}

/// The entries of `dir` whose path is none of `retired`, in their order.
pub open spec fn without(dir: Seq<EntryView>, retired: Seq<Seq<char>>) -> Seq<EntryView>
    decreases dir.len(),
{
    if dir.len() == 0 {
        Seq::empty()
    } else if retired.contains(dir.last().path) {
        without(dir.drop_last(), retired)
    } else {
        without(dir.drop_last(), retired).push(dir.last())
    }
}

/// The index of the entry registered last among those whose path is one of
/// `retired`.
pub open spec fn last_retired(dir: Seq<EntryView>, retired: Seq<Seq<char>>) -> Option<int>
    decreases dir.len(),
{
    if dir.len() == 0 {
        None
    } else if retired.contains(dir.last().path) {
        Some(dir.len() - 1)
    } else {
        last_retired(dir.drop_last(), retired)
    }
}

/// The directory after the segments at `retired` have given way to
/// `merged`: the retired entries are gone, and `merged` stands where the
/// last registered of them stood, so that segments registered later stay
/// ahead of it. Where none of the paths is registered, `merged` is
/// registered as the latest.
pub open spec fn replace_spec(
    dir: Seq<EntryView>,
    retired: Seq<Seq<char>>,
    merged: EntryView,
) -> Seq<EntryView> {
    match last_retired(dir, retired) {
        Some(p) => without(dir.take(p), retired).push(merged) + dir.skip(p + 1),
        None => dir.push(merged),
    }
}

/// The paths of the registered segments, the one registered last first.
pub open spec fn newest_first(dir: Seq<EntryView>) -> Seq<Seq<char>> {
    Seq::new(dir.len(), |i: int| dir[dir.len() - 1 - i].path)
}

/// The registered segments, oldest first.
pub struct SegmentDirectory {
    entries: Vec<SegmentEntry>,
}

impl View for SegmentDirectory {
    type V = Seq<EntryView>;

    closed spec fn view(&self) -> Seq<EntryView> {
        entries_view(self.entries@)
    }
}

/// Whether `path` is one of `paths`.
fn is_listed(paths: &Vec<String>, path: &String) -> (b: bool)
    ensures
        b == paths_view(paths@).contains(path@),
{
    let mut i: usize = 0;
    while i < paths.len()
        invariant
            i <= paths@.len(),
            forall|j: int| 0 <= j < i ==> paths_view(paths@)[j] != path@,
        decreases paths@.len() - i,
    {
        assert(paths_view(paths@)[i as int] == paths@[i as int]@);
        if paths[i] == *path {
            return true;
        }
        i = i + 1;
    }
    false
}

impl SegmentDirectory {
    /// A directory without segments.
    pub fn new() -> (d: SegmentDirectory)
        ensures
            d@ == Seq::<EntryView>::empty(),
    {
        let d = SegmentDirectory { entries: Vec::new() };
        assert(d@ =~= Seq::<EntryView>::empty());
        d
    }

    /// A directory of its own with the same entries.
    pub fn copy(&self) -> (d: SegmentDirectory)
        ensures
            d@ == self@,
    {
        let mut entries: Vec<SegmentEntry> = Vec::new();
        let mut i: usize = 0;
        while i < self.entries.len()
            invariant
                i <= self.entries@.len(),
                entries_view(entries@) == self@.take(i as int),
            decreases self.entries@.len() - i,
        {
            let ghost so_far = entries_view(entries@);
            let e = &self.entries[i];
            entries.push(
                SegmentEntry { min_key: e.min_key, max_key: e.max_key, path: e.path.clone() },
            );
            assert(entries_view(entries@) =~= so_far.push(self.entries@[i as int]@));
            i = i + 1;
            assert(so_far.push(self.entries@[i - 1]@) =~= self@.take(i as int));
        }
        assert(self@.take(i as int) =~= self@);
        SegmentDirectory { entries }
    }

    /// The number of registered segments.
    pub fn len(&self) -> (n: usize)
        ensures
            n == self@.len(),
    {
        self.entries.len()
    }

    /// The path of the segment to read for `key`: of those whose range
    /// covers `key` the one registered last. `None` where no range covers
    /// the key.
    pub fn locate(&self, key: u64) -> (r: Option<String>)
        ensures
            match r {
                Some(p) => locate_spec(self@, key) == Some(p@),
                None => locate_spec(self@, key) is None,
            },
    {
        let mut i: usize = self.entries.len();
        assert(self@.take(i as int) =~= self@);
        while i > 0
            invariant
                i <= self.entries@.len(),
                self@.len() == self.entries@.len(),
                locate_index(self@, key) == locate_index(self@.take(i as int), key),
            decreases i,
        {
            let ghost head = self@.take(i as int);
            assert(head.last() == self.entries@[i - 1]@);
            assert(head.drop_last() =~= self@.take(i - 1));
            if self.entries[i - 1].min_key <= key && key <= self.entries[i - 1].max_key {
                assert(self@[i - 1] == head.last());
                return Some(self.entries[i - 1].path.clone());
            }
            i = i - 1;
        }
        assert(self@.take(0).len() == 0);
        None
    }

    /// Registers a segment as the latest. To be called once its file is
    /// written and synced.
    pub fn register(&mut self, min_key: u64, max_key: u64, path: String)
        ensures
            final(self)@ == old(self)@.push(EntryView { min_key, max_key, path: path@ }),
    {
        self.entries.push(SegmentEntry { min_key, max_key, path });
        assert(self@ =~= old(self)@.push(EntryView { min_key, max_key, path: path@ }));
    }

    /// Whether a segment is registered under `path`.
    pub fn contains_path(&self, path: &String) -> (b: bool)
        ensures
            b == exists|i: int| 0 <= i < self@.len() && (#[trigger] self@[i]).path == path@,
    {
        let mut i: usize = 0;
        while i < self.entries.len()
            invariant
                i <= self.entries@.len(),
                self@.len() == self.entries@.len(),
                forall|j: int| 0 <= j < i ==> (#[trigger] self@[j]).path != path@,
            decreases self.entries@.len() - i,
        {
            assert(self@[i as int] == self.entries@[i as int]@);
            if self.entries[i].path == *path {
                return true;
            }
            i = i + 1;
        }
        false
    }

    /// The paths of all registered segments, the latest first.
    pub fn paths_newest_first(&self) -> (paths: Vec<String>)
        ensures
            paths_view(paths@) == newest_first(self@),
    {
        let mut paths: Vec<String> = Vec::new();
        let mut i: usize = self.entries.len();
        while i > 0
            invariant
                i <= self.entries@.len(),
                self@.len() == self.entries@.len(),
                paths@.len() == self.entries@.len() - i,
                forall|j: int|
                    0 <= j < paths@.len() ==> (#[trigger] paths@[j])@ == self@[self@.len() - 1
                        - j].path,
            decreases i,
        {
            assert(self@[i - 1] == self.entries@[i - 1]@);
            paths.push(self.entries[i - 1].path.clone());
            i = i - 1;
        }
        assert(paths_view(paths@) =~= newest_first(self@));
        paths
    }

    /// Takes the segments at `retired` out of the directory and puts the
    /// segment that merges them where the last registered of them stood.
    pub fn replace(
        &mut self,
        retired: &Vec<String>,
        new_path: String,
        new_min_key: u64,
        new_max_key: u64,
    )
        ensures
            final(self)@ == replace_spec(
                old(self)@,
                paths_view(retired@),
                (EntryView { min_key: new_min_key, max_key: new_max_key, path: new_path@ }),
            ),
    {
        let ghost before = self@;
        let ghost gone = paths_view(retired@);
        let ghost merged = EntryView {
            min_key: new_min_key,
            max_key: new_max_key,
            path: new_path@,
        };
        let total = self.entries.len();
        // One past the last registered of the retired segments, or 0.
        let mut end: usize = total;
        let mut found = false;
        assert(before.take(end as int) =~= before);
        while end > 0 && !found
            invariant
                end <= total,
                total == self.entries@.len(),
                before == entries_view(self.entries@),
                gone == paths_view(retired@),
                last_retired(before, gone) == last_retired(before.take(end as int), gone),
                found ==> end > 0 && gone.contains(before[end - 1].path),
            decreases end + (if found { 0int } else { 1int }),
        {
            let ghost head = before.take(end as int);
            assert(head.last() == before[end - 1]);
            assert(before[end - 1] == self.entries@[end - 1]@);
            assert(head.drop_last() =~= before.take(end - 1));
            if is_listed(retired, &self.entries[end - 1].path) {
                found = true;
            } else {
                end = end - 1;
            }
        }
        let mut kept: Vec<SegmentEntry> = Vec::new();
        if !found {
            assert(before.take(0).len() == 0);
            assert(last_retired(before, gone) is None);
            let mut i: usize = 0;
            while i < total
                invariant
                    i <= total,
                    total == self.entries@.len(),
                    before == entries_view(self.entries@),
                    entries_view(kept@) == before.take(i as int),
                decreases total - i,
            {
                assert(before[i as int] == self.entries@[i as int]@);
                let ghost so_far = entries_view(kept@);
                let e = &self.entries[i];
                kept.push(
                    SegmentEntry { min_key: e.min_key, max_key: e.max_key, path: e.path.clone() },
                );
                assert(entries_view(kept@) =~= so_far.push(before[i as int]));
                i = i + 1;
                assert(so_far.push(before[i - 1]) =~= before.take(i as int));
            }
            assert(before.take(total as int) =~= before);
            kept.push(SegmentEntry { min_key: new_min_key, max_key: new_max_key, path: new_path });
            assert(entries_view(kept@) =~= before.push(merged));
        } else {
            let at = end - 1;
            assert(last_retired(before, gone) == Some(at as int)) by {
                let head = before.take(end as int);
                assert(head.last() == before[at as int]);
            }
            let mut i: usize = 0;
            assert(before.take(0) =~= Seq::<EntryView>::empty());
            while i < at
                invariant
                    i <= at < total,
                    total == self.entries@.len(),
                    before == entries_view(self.entries@),
                    gone == paths_view(retired@),
                    entries_view(kept@) == without(before.take(i as int), gone),
                decreases at - i,
            {
                let ghost head = before.take(i + 1);
                assert(head.last() == before[i as int]);
                assert(before[i as int] == self.entries@[i as int]@);
                assert(head.drop_last() =~= before.take(i as int));
                let e = &self.entries[i];
                if !is_listed(retired, &e.path) {
                    let ghost so_far = entries_view(kept@);
                    kept.push(
                        SegmentEntry {
                            min_key: e.min_key,
                            max_key: e.max_key,
                            path: e.path.clone(),
                        },
                    );
                    assert(entries_view(kept@) =~= so_far.push(before[i as int]));
                }
                i = i + 1;
            }
            let ghost front = entries_view(kept@);
            kept.push(SegmentEntry { min_key: new_min_key, max_key: new_max_key, path: new_path });
            assert(entries_view(kept@) =~= front.push(merged));
            let mut j: usize = at + 1;
            assert(before.subrange(at + 1, at + 1) =~= Seq::<EntryView>::empty());
            assert(front.push(merged) + Seq::<EntryView>::empty() =~= front.push(merged));
            while j < total
                invariant
                    at < j <= total,
                    total == self.entries@.len(),
                    before == entries_view(self.entries@),
                    entries_view(kept@) == front.push(merged) + before.subrange(
                        at + 1,
                        j as int,
                    ),
                decreases total - j,
            {
                assert(before[j as int] == self.entries@[j as int]@);
                let ghost so_far = entries_view(kept@);
                let e = &self.entries[j];
                kept.push(
                    SegmentEntry { min_key: e.min_key, max_key: e.max_key, path: e.path.clone() },
                );
                assert(entries_view(kept@) =~= so_far.push(before[j as int]));
                j = j + 1;
                assert(so_far.push(before[j - 1]) =~= front.push(merged) + before.subrange(
                    at + 1,
                    j as int,
                ));
            }
            assert(before.subrange(at + 1, total as int) =~= before.skip(at + 1));
        }
        self.entries = kept;
    }
}

} // verus!
