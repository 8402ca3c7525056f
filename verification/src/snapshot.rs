//! Snapshots for the polling detection mode.
//!
//! A snapshot maps each watched file path to its last-modified timestamp
//! (an opaque tick count). The tree walk that fills a snapshot is driven
//! from outside: the walker asks [`classify_entry`] what to do with each
//! directory entry and calls [`Snapshot::record`] for files to keep. The
//! diff of two snapshots yields the changed paths: created, modified, or
//! deleted.

use vstd::prelude::*;

use crate::filter::is_ignored;
use crate::filter::matches_extension;
use crate::filter::spec_is_ignored;
use crate::filter::spec_matches_extension;
use crate::strutil::str_eq;

verus! {

/// The mapping denoted by a list of path/mtime entries; a later entry for
/// the same path wins.
pub open spec fn spec_entries_map(s: Seq<(String, u64)>) -> Map<Seq<char>, u64>
    decreases s.len(),
{
    if s.len() == 0 {
        Map::empty()
    } else {
        spec_entries_map(s.drop_last()).insert(s.last().0@, s.last().1)
    }
}

proof fn lemma_entries_map_dom(s: Seq<(String, u64)>, p: Seq<char>)
    ensures
        spec_entries_map(s).dom().contains(p) <==> (exists|k: int|
            0 <= k < s.len() && (#[trigger] s[k].0)@ == p),
    decreases s.len(),
{
    if s.len() > 0 {
        lemma_entries_map_dom(s.drop_last(), p);
        if s.last().0@ == p {
            assert(s[s.len() - 1].0@ == p);
        } else if spec_entries_map(s).dom().contains(p) {
            let k = choose|k: int| 0 <= k < s.drop_last().len() && (#[trigger] s.drop_last()[k].0)@
                == p;
            assert(s[k].0@ == p);
        } else if exists|k: int| 0 <= k < s.len() && (#[trigger] s[k].0)@ == p {
            let k = choose|k: int| 0 <= k < s.len() && (#[trigger] s[k].0)@ == p;
            assert(s.drop_last()[k].0@ == p);
        }
    }
}

proof fn lemma_entries_map_value(s: Seq<(String, u64)>, k: int)
    requires
        0 <= k < s.len(),
        forall|j: int| k < j < s.len() ==> (#[trigger] s[j].0)@ != s[k].0@,
    ensures
        spec_entries_map(s).dom().contains(s[k].0@),
        spec_entries_map(s)[s[k].0@] == s[k].1,
    decreases s.len(),
{
    if k == s.len() - 1 {
    } else {
        assert(s.drop_last()[k] == s[k]);
        assert(forall|j: int| k < j < s.drop_last().len() ==> (#[trigger] s.drop_last()[j].0)@
            != s.drop_last()[k].0@);
        lemma_entries_map_value(s.drop_last(), k);
        assert(s.last().0@ != s[k].0@);
    }
}

/// Removing the one entry of a key and then recording the key afresh
/// denotes the same mapping as recording over the original entries.
proof fn lemma_remove_key_insert(s: Seq<(String, u64)>, fi: int, p: Seq<char>, m: u64)
    requires
        0 <= fi < s.len(),
        s[fi].0@ == p,
        forall|i: int, j: int| 0 <= i < j < s.len() ==> (#[trigger] s[i].0)@ != (#[trigger] s[j].0)@,
    ensures
        spec_entries_map(s.remove(fi)).insert(p, m) == spec_entries_map(s).insert(p, m),
        forall|k: int| 0 <= k < s.remove(fi).len() ==> (#[trigger] s.remove(fi)[k].0)@ != p,
        forall|i: int, j: int|
            0 <= i < j < s.remove(fi).len() ==> (#[trigger] s.remove(fi)[i].0)@ != (
            #[trigger] s.remove(fi)[j].0)@,
{
    let t = s.remove(fi);
    assert forall|k: int| 0 <= k < t.len() implies (#[trigger] t[k].0)@ != p by {
        if k < fi {
            assert(t[k] == s[k]);
        } else {
            assert(t[k] == s[k + 1]);
        }
    }
    assert forall|i: int, j: int| 0 <= i < j < t.len() implies (#[trigger] t[i].0)@ != (
    #[trigger] t[j].0)@ by {
        if i < fi {
            assert(t[i] == s[i]);
        } else {
            assert(t[i] == s[i + 1]);
        }
        if j < fi {
            assert(t[j] == s[j]);
        } else {
            assert(t[j] == s[j + 1]);
        }
    }
    let lhs = spec_entries_map(t).insert(p, m);
    let rhs = spec_entries_map(s).insert(p, m);
    assert forall|q: Seq<char>| lhs.dom().contains(q) == rhs.dom().contains(q) by {
        lemma_entries_map_dom(t, q);
        lemma_entries_map_dom(s, q);
        if q != p {
            if exists|k: int| 0 <= k < t.len() && (#[trigger] t[k].0)@ == q {
                let k = choose|k: int| 0 <= k < t.len() && (#[trigger] t[k].0)@ == q;
                if k < fi {
                    assert(t[k] == s[k]);
                    assert(s[k].0@ == q);
                } else {
                    assert(t[k] == s[k + 1]);
                    assert(s[k + 1].0@ == q);
                }
            }
            if exists|k: int| 0 <= k < s.len() && (#[trigger] s[k].0)@ == q {
                let k = choose|k: int| 0 <= k < s.len() && (#[trigger] s[k].0)@ == q;
                if k < fi {
                    assert(t[k] == s[k]);
                } else {
                    assert(t[k - 1] == s[k]);
                }
            }
        }
    }
    assert forall|q: Seq<char>| lhs.dom().contains(q) implies lhs[q] == rhs[q] by {
        if q != p {
            lemma_entries_map_dom(t, q);
            let k = choose|k: int| 0 <= k < t.len() && (#[trigger] t[k].0)@ == q;
            lemma_entries_map_value(t, k);
            let k2 = if k < fi {
                k
            } else {
                k + 1
            };
            if k < fi {
                assert(t[k] == s[k]);
            } else {
                assert(t[k] == s[k + 1]);
            }
            assert(s[k2].0@ == q);
            lemma_entries_map_value(s, k2);
        }
    }
    assert(lhs =~= rhs);
}

/// A full-tree snapshot: watched file paths with their last-modified
/// timestamps.
pub struct Snapshot {
    entries: Vec<(String, u64)>,
}

impl Snapshot {
    /// The path-to-timestamp mapping this snapshot denotes.
    pub closed spec fn as_map(&self) -> Map<Seq<char>, u64> {
        spec_entries_map(self.entries@)
    }

    /// Each path is held at most once.
    pub closed spec fn well_formed(&self) -> bool {
        forall|i: int, j: int|
            0 <= i < j < self.entries@.len() ==> (#[trigger] self.entries@[i].0)@ != (
            #[trigger] self.entries@[j].0)@
    }

    pub fn new() -> (s: Snapshot)
        ensures
            s.well_formed(),
            s.as_map() == Map::<Seq<char>, u64>::empty(),
    {
        Snapshot { entries: Vec::new() }
    }

    /// The recorded timestamp of a path, if the snapshot has it.
    pub fn get(&self, path: &str) -> (r: Option<u64>)
        requires
            self.well_formed(),
        ensures
            r is Some <==> self.as_map().dom().contains(path@),
            r matches Some(v) ==> self.as_map()[path@] == v,
    {
        let mut i: usize = 0;
        while i < self.entries.len()
            invariant
                self.well_formed(),
                0 <= i <= self.entries@.len(),
                forall|k: int| 0 <= k < i ==> (#[trigger] self.entries@[k].0)@ != path@,
            decreases self.entries@.len() - i,
        {
            if str_eq(self.entries[i].0.as_str(), path) {
                proof {
                    lemma_entries_map_value(self.entries@, i as int);
                }
                return Some(self.entries[i].1);
            }
            i += 1;
        }
        proof {
            lemma_entries_map_dom(self.entries@, path@);
        }
        None
    }

    /// Records the timestamp of a path, replacing any earlier record.
    pub fn record(&mut self, path: String, mtime: u64)
        requires
            old(self).well_formed(),
        ensures
            final(self).well_formed(),
            final(self).as_map() == old(self).as_map().insert(path@, mtime),
    {
        let mut i: usize = 0;
        let mut found: Option<usize> = None;
        let n = self.entries.len();
        while i < n
            invariant
                *self == *old(self),
                old(self).well_formed(),
                n == self.entries@.len(),
                0 <= i <= n,
                found matches Some(fi) ==> 0 <= fi < n && self.entries@[fi as int].0@ == path@,
                found is None ==> forall|k: int| 0 <= k < i ==> (#[trigger] self.entries@[k].0)@
                    != path@,
            decreases n - i,
        {
            if str_eq(self.entries[i].0.as_str(), path.as_str()) {
                found = Some(i);
                i = n;
            } else {
                i += 1;
            }
        }
        match found {
            Some(fi) => {
                proof {
                    lemma_remove_key_insert(self.entries@, fi as int, path@, mtime);
                }
                self.entries.remove(fi);
            },
            None => {
            },
        }
        let ghost mid = self.entries@;
        self.entries.push((path, mtime));
        proof {
            assert(self.entries@.drop_last() =~= mid);
            assert(self.entries@.last() == (self.entries@[mid.len() as int]));
        }
    }
}

/// Created or modified: present now, and either absent before or carrying
/// a different timestamp.
pub open spec fn spec_created_or_modified(
    prev: Map<Seq<char>, u64>,
    next: Map<Seq<char>, u64>,
    p: Seq<char>,
) -> bool {
    next.dom().contains(p) && (!prev.dom().contains(p) || prev[p] != next[p])
}

/// Deleted: present before, absent now.
pub open spec fn spec_deleted(
    prev: Map<Seq<char>, u64>,
    next: Map<Seq<char>, u64>,
    p: Seq<char>,
) -> bool {
    prev.dom().contains(p) && !next.dom().contains(p)
}

/// A path counts as changed between two snapshots when it was created,
/// modified, or deleted. Equal timestamps count as unchanged.
pub open spec fn spec_changed(
    prev: Map<Seq<char>, u64>,
    next: Map<Seq<char>, u64>,
    p: Seq<char>,
) -> bool {
    spec_created_or_modified(prev, next, p) || spec_deleted(prev, next, p)
}

/// The paths among the first `i` entries of `nes` that were created or
/// modified between the two maps.
spec fn spec_cm_set(
    pm: Map<Seq<char>, u64>,
    nm: Map<Seq<char>, u64>,
    nes: Seq<(String, u64)>,
    i: int,
) -> Set<Seq<char>> {
    Set::new(
        |x: Seq<char>|
            (exists|k: int| 0 <= k < i && (#[trigger] nes[k].0)@ == x) && spec_created_or_modified(
                pm,
                nm,
                x,
            ),
    )
}

/// The paths among the first `j` entries of `pes` that were deleted
/// between the two maps.
spec fn spec_del_set(
    pm: Map<Seq<char>, u64>,
    nm: Map<Seq<char>, u64>,
    pes: Seq<(String, u64)>,
    j: int,
) -> Set<Seq<char>> {
    Set::new(
        |x: Seq<char>|
            (exists|k: int| 0 <= k < j && (#[trigger] pes[k].0)@ == x) && spec_deleted(pm, nm, x),
    )
}

/// The changed paths between two snapshots, each exactly once, in
/// unspecified order.
pub fn diff_snapshots(prev: &Snapshot, next: &Snapshot) -> (r: Vec<String>)
    requires
        prev.well_formed(),
        next.well_formed(),
    ensures
        forall|x: Seq<char>|
            r.deep_view().to_set().contains(x) == spec_changed(prev.as_map(), next.as_map(), x),
        crate::debounce::spec_distinct_views(r.deep_view()),
{
    let ghost pm = prev.as_map();
    let ghost nm = next.as_map();
    let ghost nes = next.entries@;
    let ghost pes = prev.entries@;
    let mut r: Vec<String> = Vec::new();
    proof {
        assert(r.deep_view().to_set() =~= spec_cm_set(pm, nm, nes, 0));
    }
    let mut i: usize = 0;
    while i < next.entries.len()
        invariant
            prev.well_formed(),
            next.well_formed(),
            pm == prev.as_map(),
            nm == next.as_map(),
            nes == next.entries@,
            0 <= i <= nes.len(),
            crate::debounce::spec_distinct_views(r.deep_view()),
            r.deep_view().to_set() == spec_cm_set(pm, nm, nes, i as int),
        decreases nes.len() - i,
    {
        let p = &next.entries[i].0;
        let m = next.entries[i].1;
        proof {
            lemma_entries_map_value(nes, i as int);
        }
        let changed = match prev.get(p.as_str()) {
            Some(old_m) => old_m != m,
            None => true,
        };
        proof {
            assert(changed == spec_created_or_modified(pm, nm, p@));
        }
        let ghost before = r.deep_view();
        if changed {
            r.push(p.clone());
            proof {
                assert(r.deep_view() =~= before.push(p@));
                before.lemma_push_to_set_commute(p@);
                assert(!before.to_set().contains(p@));
            }
        }
        proof {
            assert forall|x: Seq<char>|
                r.deep_view().to_set().contains(x) == spec_cm_set(pm, nm, nes, i + 1).contains(
                x,
            ) by {
                if x == p@ {
                    assert(nes[i as int].0@ == x);
                } else {
                    if changed {
                        assert(r.deep_view().to_set().contains(x) == before.to_set().contains(x));
                    }
                    if before.to_set().contains(x) {
                        let k = choose|k: int| 0 <= k < i && (#[trigger] nes[k].0)@ == x;
                        assert(0 <= k < i + 1 && nes[k].0@ == x);
                    }
                    if exists|k: int| 0 <= k < i + 1 && (#[trigger] nes[k].0)@ == x {
                        let k = choose|k: int| 0 <= k < i + 1 && (#[trigger] nes[k].0)@ == x;
                        assert(k != i);
                    }
                }
            }
            assert(r.deep_view().to_set() =~= spec_cm_set(pm, nm, nes, i + 1));
        }
        i += 1;
    }
    let ghost phase1 = r.deep_view().to_set();
    proof {
        assert(phase1 + spec_del_set(pm, nm, pes, 0) =~= phase1);
    }
    let mut j: usize = 0;
    while j < prev.entries.len()
        invariant
            prev.well_formed(),
            next.well_formed(),
            pm == prev.as_map(),
            nm == next.as_map(),
            nes == next.entries@,
            pes == prev.entries@,
            0 <= j <= pes.len(),
            phase1 == spec_cm_set(pm, nm, nes, nes.len() as int),
            crate::debounce::spec_distinct_views(r.deep_view()),
            r.deep_view().to_set() == phase1 + spec_del_set(pm, nm, pes, j as int),
        decreases pes.len() - j,
    {
        let p = &prev.entries[j].0;
        proof {
            lemma_entries_map_value(pes, j as int);
        }
        let deleted = match next.get(p.as_str()) {
            Some(_) => false,
            None => true,
        };
        proof {
            assert(deleted == spec_deleted(pm, nm, p@));
        }
        let ghost before = r.deep_view();
        if deleted {
            r.push(p.clone());
            proof {
                assert(r.deep_view() =~= before.push(p@));
                before.lemma_push_to_set_commute(p@);
                assert(!phase1.contains(p@));
                assert(!before.to_set().contains(p@));
            }
        }
        proof {
            assert forall|x: Seq<char>|
                r.deep_view().to_set().contains(x) == (phase1 + spec_del_set(
                    pm,
                    nm,
                    pes,
                    j + 1,
                )).contains(x) by {
                if x == p@ {
                    assert(pes[j as int].0@ == x);
                } else {
                    if deleted {
                        assert(r.deep_view().to_set().contains(x) == before.to_set().contains(x));
                    }
                    if spec_del_set(pm, nm, pes, j as int).contains(x) {
                        let k = choose|k: int| 0 <= k < j && (#[trigger] pes[k].0)@ == x;
                        assert(0 <= k < j + 1 && pes[k].0@ == x);
                    }
                    if exists|k: int| 0 <= k < j + 1 && (#[trigger] pes[k].0)@ == x {
                        let k = choose|k: int| 0 <= k < j + 1 && (#[trigger] pes[k].0)@ == x;
                        assert(k != j);
                    }
                }
            }
            assert(r.deep_view().to_set() =~= phase1 + spec_del_set(pm, nm, pes, j + 1));
        }
        j += 1;
    }
    proof {
        assert forall|x: Seq<char>|
            r.deep_view().to_set().contains(x) == spec_changed(pm, nm, x) by {
            if spec_created_or_modified(pm, nm, x) {
                lemma_entries_map_dom(nes, x);
            }
            if spec_deleted(pm, nm, x) {
                lemma_entries_map_dom(pes, x);
            }
        }
    }
    r
}


/// What a tree walk does with one directory entry: descend into a
/// directory unless it is ignored, record a file whose own name is not
/// ignored and whose path matches an extension, and skip everything else.
pub enum ScanAction {
    Descend,
    Record,
    Skip,
}

/// The walk decision for one entry of a directory listing. A snapshot
/// holds one entry per non-ignored matching file, so a hidden file (a
/// dot-named one) is skipped just as the event-driven mode suppresses it.
pub fn classify_entry(path: &str, is_dir: bool, exts: &[String]) -> (r: ScanAction)
    ensures
        (r is Descend) == (is_dir && !spec_is_ignored(path@)),
        (r is Record) == (!is_dir && !spec_is_ignored(path@) && spec_matches_extension(
            path@,
            exts@.map_values(|e: String| e@),
        )),
{
    if is_dir {
        if is_ignored(path) {
            ScanAction::Skip
        } else {
            ScanAction::Descend
        }
    } else {
        if is_ignored(path) {
            ScanAction::Skip
        } else if matches_extension(path, exts) {
            ScanAction::Record
        } else {
            ScanAction::Skip
        }
    }
}

} // verus!
