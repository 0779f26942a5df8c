//! An abstract filesystem for reasoning about rename plans: a map from paths
//! to opaque contents, with the lenient rename of the accessor — a rename
//! whose source is missing, or which touches a denied path, changes nothing
//! and is merely reported as failed. On this model the reversal laws are
//! proved: one level's plan mirrors the contents of the sorted sibling
//! paths, and replaying it twice restores them.

use vstd::prelude::*;
use crate::order::str_eq;
use crate::plan::expand_pairs;
use crate::plan::lemma_expand_pairs_step;
use crate::plan::triple;
use crate::reverse::RenameOp;
use crate::reverse::level_pairs;
use crate::reverse::op_views;

verus! {

/// One occupied path of the model and the opaque content sitting there.
pub struct FsEntry {
    pub path: String,
    pub id: u64,
}

/// The in-memory filesystem: occupied paths with their contents, and the
/// paths on which any rename is made to fail, for exercising the engine's
/// swallow-and-continue policy without a real disk.
pub struct FsModel {
    pub entries: Vec<FsEntry>,
    pub denied: Vec<String>,
}

/// The map built from the entry suffix starting at `i`.
pub open spec fn map_of(entries: Seq<FsEntry>, i: int) -> Map<Seq<char>, u64>
    decreases entries.len() - i,
{
    if i < 0 || i >= entries.len() {
        Map::empty()
    } else {
        map_of(entries, i + 1).insert(entries[i].path@, entries[i].id)
    }
}

/// Pairwise distinct paths.
pub open spec fn distinct_entries(s: Seq<FsEntry>) -> bool {
    forall|i: int, j: int| 0 <= i < j < s.len() ==> s[i].path@ != s[j].path@
}

/// What the map of a distinct entry sequence holds: exactly the entries.
proof fn lemma_map_of(s: Seq<FsEntry>, i: int)
    requires
        0 <= i <= s.len(),
        distinct_entries(s),
    ensures
        forall|p: Seq<char>|
            map_of(s, i).contains_key(p) <==> exists|k: int|
                i <= k < s.len() && p == #[trigger] s[k].path@,
        forall|k: int| i <= k < s.len() ==> map_of(s, i)[#[trigger] s[k].path@] == s[k].id,
    decreases s.len() - i,
{
    if i < s.len() {
        lemma_map_of(s, i + 1);
        assert forall|k: int| i <= k < s.len() implies map_of(s, i)[#[trigger] s[k].path@]
            == s[k].id by {
            if k > i {
                assert(s[k].path@ != s[i].path@);
            }
        }
        assert forall|p: Seq<char>| map_of(s, i).contains_key(p) implies exists|k: int|
            i <= k < s.len() && p == #[trigger] s[k].path@ by {
            if p == s[i].path@ {
                assert(i <= i < s.len() && p == s[i].path@);
            } else {
                assert(map_of(s, i + 1).contains_key(p));
                let k = choose|k: int| i + 1 <= k < s.len() && p == #[trigger] s[k].path@;
                assert(i <= k < s.len() && p == s[k].path@);
            }
        }
        assert forall|p: Seq<char>|
            (exists|k: int| i <= k < s.len() && p == #[trigger] s[k].path@) implies map_of(
            s,
            i,
        ).contains_key(p) by {
            let k = choose|k: int| i <= k < s.len() && p == #[trigger] s[k].path@;
            if k > i {
                assert(map_of(s, i + 1).contains_key(p));
            }
        }
    }
}

/// Removing one entry removes exactly its path from the map.
proof fn lemma_map_of_remove(s: Seq<FsEntry>, rk: int)
    requires
        distinct_entries(s),
        0 <= rk < s.len(),
    ensures
        distinct_entries(s.remove(rk)),
        map_of(s.remove(rk), 0) == map_of(s, 0).remove(s[rk].path@),
{
    let r = s.remove(rk);
    s.remove_ensures(rk);
    assert forall|i: int, j: int| 0 <= i < j < r.len() implies r[i].path@ != r[j].path@ by {
        let oi: int = if i < rk {
            i
        } else {
            i + 1
        };
        let oj: int = if j < rk {
            j
        } else {
            j + 1
        };
        assert(r[i] == s[oi] && r[j] == s[oj]);
    }
    lemma_map_of(s, 0);
    lemma_map_of(r, 0);
    assert forall|p: Seq<char>|
        map_of(r, 0).contains_key(p) == map_of(s, 0).remove(s[rk].path@).contains_key(p) by {
        if map_of(r, 0).contains_key(p) {
            let k = choose|k: int| 0 <= k < r.len() && p == #[trigger] r[k].path@;
            let ok: int = if k < rk {
                k
            } else {
                k + 1
            };
            assert(r[k] == s[ok]);
            assert(p == s[ok].path@ && ok != rk);
        }
        if map_of(s, 0).remove(s[rk].path@).contains_key(p) {
            let k = choose|k: int| 0 <= k < s.len() && p == #[trigger] s[k].path@;
            assert(k != rk);
            let nk: int = if k < rk {
                k
            } else {
                k - 1
            };
            assert(r[nk] == s[k]);
            assert(map_of(r, 0).contains_key(p));
        }
    }
    assert forall|p: Seq<char>|
        map_of(r, 0).contains_key(p) implies map_of(r, 0)[p] == map_of(s, 0).remove(
        s[rk].path@,
    )[p] by {
        let k = choose|k: int| 0 <= k < r.len() && p == #[trigger] r[k].path@;
        let ok: int = if k < rk {
            k
        } else {
            k + 1
        };
        assert(r[k] == s[ok]);
        assert(map_of(r, 0)[p] == r[k].id);
        assert(map_of(s, 0)[p] == s[ok].id);
    }
    assert(map_of(r, 0) =~= map_of(s, 0).remove(s[rk].path@));
}

/// Appending an entry with a fresh path inserts exactly that entry.
proof fn lemma_map_of_push(s: Seq<FsEntry>, e: FsEntry)
    requires
        distinct_entries(s),
        forall|k: int| 0 <= k < s.len() ==> #[trigger] s[k].path@ != e.path@,
    ensures
        distinct_entries(s.push(e)),
        map_of(s.push(e), 0) == map_of(s, 0).insert(e.path@, e.id),
{
    let r = s.push(e);
    assert forall|i: int, j: int| 0 <= i < j < r.len() implies r[i].path@ != r[j].path@ by {
        if j < s.len() {
            assert(r[i] == s[i] && r[j] == s[j]);
        } else {
            assert(r[i] == s[i] && r[j] == e);
        }
    }
    lemma_map_of(s, 0);
    lemma_map_of(r, 0);
    assert forall|p: Seq<char>|
        map_of(r, 0).contains_key(p) == map_of(s, 0).insert(e.path@, e.id).contains_key(p) by {
        if map_of(r, 0).contains_key(p) {
            let k = choose|k: int| 0 <= k < r.len() && p == #[trigger] r[k].path@;
            if k < s.len() {
                assert(r[k] == s[k]);
            } else {
                assert(r[k] == e);
            }
        }
        if map_of(s, 0).insert(e.path@, e.id).contains_key(p) {
            if p == e.path@ {
                assert(r[s.len() as int] == e);
                assert(map_of(r, 0).contains_key(p));
            } else {
                let k = choose|k: int| 0 <= k < s.len() && p == #[trigger] s[k].path@;
                assert(r[k] == s[k]);
                assert(map_of(r, 0).contains_key(p));
            }
        }
    }
    assert forall|p: Seq<char>|
        map_of(r, 0).contains_key(p) implies map_of(r, 0)[p] == map_of(s, 0).insert(
        e.path@,
        e.id,
    )[p] by {
        let k = choose|k: int| 0 <= k < r.len() && p == #[trigger] r[k].path@;
        assert(map_of(r, 0)[p] == r[k].id);
        if k < s.len() {
            assert(r[k] == s[k]);
            assert(p != e.path@);
        } else {
            assert(r[k] == e);
            assert(p == e.path@);
        }
    }
    assert(map_of(r, 0) =~= map_of(s, 0).insert(e.path@, e.id));
}

impl FsModel {
    /// Distinct paths: one content per path.
    pub open spec fn wf(self) -> bool {
        distinct_entries(self.entries@)
    }

    /// The occupied paths and their contents.
    pub open spec fn contents(self) -> Map<Seq<char>, u64> {
        map_of(self.entries@, 0)
    }

    /// The paths on which renames are made to fail.
    pub open spec fn denied_set(self) -> Set<Seq<char>> {
        Set::new(
            |p: Seq<char>|
                exists|i: int| 0 <= i < self.denied@.len() && p == #[trigger] self.denied@[i]@,
        )
    }

    /// An empty filesystem with nothing denied.
    pub fn empty() -> (r: FsModel)
        ensures
            r.wf(),
            r.contents() == Map::<Seq<char>, u64>::empty(),
            r.denied_set() == Set::<Seq<char>>::empty(),
    {
        let r = FsModel { entries: Vec::new(), denied: Vec::new() };
        proof {
            assert(r.denied_set() =~= Set::<Seq<char>>::empty());
        }
        r
    }

    fn find(&self, p: &str) -> (r: Option<usize>)
        ensures
            match r {
                Some(i) => i < self.entries@.len() && self.entries@[i as int].path@ == p@,
                None => forall|k: int|
                    0 <= k < self.entries@.len() ==> #[trigger] self.entries@[k].path@ != p@,
            },
    {
        let mut i: usize = 0;
        while i < self.entries.len()
            invariant
                i <= self.entries@.len(),
                forall|k: int| 0 <= k < i ==> #[trigger] self.entries@[k].path@ != p@,
            decreases self.entries@.len() - i,
        {
            if str_eq(self.entries[i].path.as_str(), p) {
                return Some(i);
            }
            i = i + 1;
        }
        None
    }

    fn path_denied(&self, p: &str) -> (r: bool)
        ensures
            r == self.denied_set().contains(p@),
    {
        let mut i: usize = 0;
        while i < self.denied.len()
            invariant
                i <= self.denied@.len(),
                forall|k: int| 0 <= k < i ==> #[trigger] self.denied@[k]@ != p@,
            decreases self.denied@.len() - i,
        {
            if str_eq(self.denied[i].as_str(), p) {
                proof {
                    assert(self.denied@[i as int]@ == p@);
                }
                return true;
            }
            i = i + 1;
        }
        proof {
            if self.denied_set().contains(p@) {
                let k = choose|k: int| 0 <= k < self.denied@.len() && p@ == #[trigger] self.denied@[k]@;
            }
        }
        false
    }

    /// Occupies a free path with the given content; an occupied path is
    /// left as it is and reported.
    pub fn put(&mut self, path: &str, id: u64) -> (ok: bool)
        requires
            old(self).wf(),
        ensures
            final(self).wf(),
            final(self).denied == old(self).denied,
            ok == !old(self).contents().contains_key(path@),
            ok ==> final(self).contents() == old(self).contents().insert(path@, id),
            !ok ==> *final(self) == *old(self),
    {
        proof {
            lemma_map_of(self.entries@, 0);
        }
        match self.find(path) {
            Some(_) => false,
            None => {
                let ghost pre = self.entries@;
                self.entries.push(FsEntry { path: String::from_str(path), id });
                proof {
                    lemma_map_of_push(pre, FsEntry { path: self.entries@.last().path, id });
                    assert(self.entries@ =~= pre.push(self.entries@.last()));
                }
                true
            },
        }
    }

    /// Marks a path as denied: every later rename that touches it fails.
    pub fn deny(&mut self, path: &str)
        requires
            old(self).wf(),
        ensures
            final(self).wf(),
            final(self).entries == old(self).entries,
            final(self).denied_set() == old(self).denied_set().insert(path@),
    {
        let ghost pre = self.denied@;
        self.denied.push(String::from_str(path));
        proof {
            assert forall|p: Seq<char>|
                final(self).denied_set().contains(p) == old(self).denied_set().insert(
                path@,
            ).contains(p) by {
                if final(self).denied_set().contains(p) {
                    let k = choose|k: int|
                        0 <= k < self.denied@.len() && p == #[trigger] self.denied@[k]@;
                    if k < pre.len() {
                        assert(pre[k]@ == p);
                    }
                }
                if old(self).denied_set().contains(p) {
                    let k = choose|k: int| 0 <= k < pre.len() && p == #[trigger] pre[k]@;
                    assert(self.denied@[k]@ == p);
                }
                if p == path@ {
                    assert(self.denied@[pre.len() as int]@ == p);
                }
            }
            assert(final(self).denied_set() =~= old(self).denied_set().insert(path@));
        }
    }

    /// What sits at a path.
    pub fn lookup(&self, path: &str) -> (r: Option<u64>)
        requires
            self.wf(),
        ensures
            match r {
                Some(id) => self.contents().contains_key(path@) && self.contents()[path@] == id,
                None => !self.contents().contains_key(path@),
            },
    {
        proof {
            lemma_map_of(self.entries@, 0);
        }
        match self.find(path) {
            Some(i) => Some(self.entries[i].id),
            None => None,
        }
    }

    /// One attempted rename, exactly as `apply_rename` has it: the lenient
    /// accessor policy — a failure changes nothing and only the report
    /// distinguishes it from success.
    pub fn rename(&mut self, src: &str, dst: &str) -> (ok: bool)
        requires
            old(self).wf(),
        ensures
            final(self).wf(),
            final(self).denied == old(self).denied,
            ok == rename_ok(old(self).contents(), old(self).denied_set(), src@, dst@),
            final(self).contents() == apply_rename(
                old(self).contents(),
                old(self).denied_set(),
                src@,
                dst@,
            ),
    {
        proof {
            lemma_map_of(self.entries@, 0);
        }
        if self.path_denied(src) || self.path_denied(dst) {
            return false;
        }
        let found = self.find(src);
        match found {
            None => false,
            Some(i) => {
                let ghost m0 = old(self).contents();
                let id = self.entries[i].id;
                if str_eq(src, dst) {
                    proof {
                        assert(m0.remove(src@).insert(dst@, m0[src@]) =~= m0);
                    }
                    return true;
                }
                let ghost pre = self.entries@;
                self.entries.remove(i);
                proof {
                    lemma_map_of_remove(pre, i as int);
                }
                let ghost mid = self.entries@;
                let dst_found = self.find(dst);
                match dst_found {
                    Some(j) => {
                        let ghost pre2 = self.entries@;
                        self.entries.remove(j);
                        proof {
                            lemma_map_of_remove(pre2, j as int);
                        }
                    },
                    None => {
                        proof {
                            lemma_map_of(mid, 0);
                        }
                    },
                }
                let ghost pre3 = self.entries@;
                proof {
                    lemma_map_of(pre3, 0);
                }
                self.entries.push(FsEntry { path: String::from_str(dst), id });
                proof {
                    lemma_map_of_push(pre3, self.entries@.last());
                    assert(self.entries@ =~= pre3.push(self.entries@.last()));
                    assert(final(self).contents() =~= m0.remove(src@).insert(dst@, m0[src@]));
                }
                true
            },
        }
    }

    /// Replays a whole rename plan in order, one attempt per op, reporting
    /// each outcome; failures are skipped, never propagated — the lenient
    /// swallow-and-log policy.
    pub fn apply(&mut self, ops: &Vec<RenameOp>) -> (oks: Vec<bool>)
        requires
            old(self).wf(),
        ensures
            final(self).wf(),
            final(self).denied == old(self).denied,
            oks@.len() == ops@.len(),
            final(self).contents() == apply_ops(
                old(self).contents(),
                old(self).denied_set(),
                op_views(ops@),
            ),
    {
        let ghost m0 = old(self).contents();
        let ghost d = old(self).denied_set();
        let ghost ov = op_views(ops@);
        let mut oks: Vec<bool> = Vec::new();
        let mut i: usize = 0;
        proof {
            assert(ov.take(0) =~= Seq::<(Seq<char>, Seq<char>)>::empty());
        }
        while i < ops.len()
            invariant
                old(self).wf(),
                self.wf(),
                i <= ops@.len(),
                oks@.len() == i,
                self.denied == old(self).denied,
                m0 == old(self).contents(),
                d == old(self).denied_set(),
                ov == op_views(ops@),
                self.contents() == apply_ops(m0, d, ov.take(i as int)),
            decreases ops@.len() - i,
        {
            let ghost mcur = self.contents();
            let ok = self.rename(ops[i].src.as_str(), ops[i].dst.as_str());
            oks.push(ok);
            proof {
                assert(ov[i as int] == ops@[i as int]@);
                assert(ov.take(i as int).push(ov[i as int]) =~= ov.take(i as int + 1));
                lemma_apply_ops_append(m0, d, ov.take(i as int), seq![ov[i as int]]);
                let single = seq![ov[i as int]];
                assert(single.len() == 1 && single[0] == ov[i as int]);
                assert(single.drop_first() =~= Seq::<(Seq<char>, Seq<char>)>::empty());
                assert(apply_ops(mcur, d, single) == apply_ops(
                    apply_rename(mcur, d, single[0].0, single[0].1),
                    d,
                    single.drop_first(),
                ));
                assert(apply_ops(
                    apply_rename(mcur, d, ov[i as int].0, ov[i as int].1),
                    d,
                    Seq::<(Seq<char>, Seq<char>)>::empty(),
                ) == apply_rename(mcur, d, ov[i as int].0, ov[i as int].1));
                assert(ov.take(i as int) + seq![ov[i as int]] =~= ov.take(i as int + 1));
            }
            i = i + 1;
        }
        proof {
            assert(ov.take(ops@.len() as int) =~= ov);
        }
        oks
    }
}

/// No two of the sequences are equal.
pub open spec fn distinct_seqs(s: Seq<Seq<char>>) -> bool {
    forall|i: int, j: int| 0 <= i < j < s.len() ==> s[i] != s[j]
}

/// The two sequences share no element.
pub open spec fn disjoint_seqs(a: Seq<Seq<char>>, b: Seq<Seq<char>>) -> bool {
    forall|i: int, j: int| 0 <= i < a.len() && 0 <= j < b.len() ==> a[i] != b[j]
}

/// When a rename attempt succeeds: the source exists and neither end is
/// denied.
pub open spec fn rename_ok(
    m: Map<Seq<char>, u64>,
    denied: Set<Seq<char>>,
    src: Seq<char>,
    dst: Seq<char>,
) -> bool {
    m.contains_key(src) && !denied.contains(src) && !denied.contains(dst)
}

/// One attempted rename: on success the entry moves from `src` to `dst`
/// (over an existing destination, as the real call would); on failure
/// nothing changes — the failure is only reported, never propagated.
pub open spec fn apply_rename(
    m: Map<Seq<char>, u64>,
    denied: Set<Seq<char>>,
    src: Seq<char>,
    dst: Seq<char>,
) -> Map<Seq<char>, u64> {
    if rename_ok(m, denied, src, dst) {
        m.remove(src).insert(dst, m[src])
    } else {
        m
    }
}

/// A sequence of attempted renames, applied in order, failures skipped.
pub open spec fn apply_ops(
    m: Map<Seq<char>, u64>,
    denied: Set<Seq<char>>,
    ops: Seq<(Seq<char>, Seq<char>)>,
) -> Map<Seq<char>, u64>
    decreases ops.len(),
{
    if ops.len() == 0 {
        m
    } else {
        apply_ops(apply_rename(m, denied, ops[0].0, ops[0].1), denied, ops.drop_first())
    }
}

proof fn lemma_apply_ops_append(
    m: Map<Seq<char>, u64>,
    denied: Set<Seq<char>>,
    a: Seq<(Seq<char>, Seq<char>)>,
    b: Seq<(Seq<char>, Seq<char>)>,
)
    ensures
        apply_ops(m, denied, a + b) == apply_ops(apply_ops(m, denied, a), denied, b),
    decreases a.len(),
{
    if a.len() == 0 {
        assert(a + b =~= b);
    } else {
        assert((a + b)[0] == a[0]);
        assert((a + b).drop_first() =~= a.drop_first() + b);
        lemma_apply_ops_append(
            apply_rename(m, denied, a[0].0, a[0].1),
            denied,
            a.drop_first(),
            b,
        );
    }
}

/// The paths swapped by the level pairs from position `k` on.
pub open spec fn swapped_from(paths: Seq<Seq<char>>, k: int) -> Set<Seq<char>> {
    Set::new(
        |p: Seq<char>|
            exists|j: int|
                k <= j < paths.len() / 2 && (p == #[trigger] paths[j] || p == paths[paths.len() - 1
                    - j]),
    )
}

proof fn lemma_swaps_from(
    m: Map<Seq<char>, u64>,
    paths: Seq<Seq<char>>,
    temps: Seq<Seq<char>>,
    k: int,
)
    requires
        distinct_seqs(paths),
        distinct_seqs(temps),
        disjoint_seqs(paths, temps),
        forall|i: int| 0 <= i < paths.len() ==> m.contains_key(#[trigger] paths[i]),
        forall|i: int| 0 <= i < temps.len() ==> !m.contains_key(#[trigger] temps[i]),
        temps.len() == level_pairs(paths).len(),
        0 <= k <= temps.len(),
    ensures
        ({
            let res = apply_ops(
                m,
                Set::empty(),
                expand_pairs(level_pairs(paths).skip(k), temps.skip(k)),
            );
            &&& res.dom() == m.dom()
            &&& forall|i: int|
                k <= i < paths.len() / 2 ==> res[#[trigger] paths[i]] == m[paths[paths.len() - 1
                    - i]]
            &&& forall|i: int|
                k <= i < paths.len() / 2 ==> res[paths[paths.len() - 1 - i]] == m[#[trigger] paths[i]]
            &&& forall|p: Seq<char>|
                m.contains_key(p) && !swapped_from(paths, k).contains(p) ==> res[p] == m[p]
        }),
    decreases temps.len() - k,
{
    let n = paths.len() as int;
    let half = n / 2;
    let lp = level_pairs(paths);
    let d = Set::<Seq<char>>::empty();
    if k == temps.len() {
        assert(lp.skip(k).len() == 0);
        assert(expand_pairs(lp.skip(k), temps.skip(k)) =~= Seq::<(Seq<char>, Seq<char>)>::empty());
    } else {
        let p1 = paths[k];
        let p2 = paths[n - 1 - k];
        let t = temps[k];
        let v1 = m[p1];
        let v2 = m[p2];
        assert(k < half);
        assert(k < n - 1 - k);
        assert(p1 != p2);
        assert(t != p1 && t != p2);
        let m1 = apply_rename(m, d, p1, t);
        let m2 = apply_rename(m1, d, p2, p1);
        let m3 = apply_rename(m2, d, t, p2);
        assert(m1 == m.remove(p1).insert(t, v1));
        assert(m1.contains_key(p2));
        assert(m2 == m1.remove(p2).insert(p1, v2));
        assert(m2.contains_key(t));
        assert(m2[t] == v1);
        assert(m3 == m2.remove(t).insert(p2, v1));
        assert(m3.dom() =~= m.dom());
        assert(m3[p1] == v2);
        assert(m3[p2] == v1);
        assert(forall|p: Seq<char>|
            m.contains_key(p) && p != p1 && p != p2 ==> m3[p] == m[p]);

        lemma_expand_pairs_step(lp, temps, k);
        assert(lp[k] == (p1, p2));
        assert(triple(lp[k], t) =~= seq![(p1, t), (p2, p1), (t, p2)]);
        let tr = triple(lp[k], t);
        let rest = expand_pairs(lp.skip(k + 1), temps.skip(k + 1));
        lemma_apply_ops_append(m, d, tr, rest);
        assert(tr.drop_first() =~= seq![(p2, p1), (t, p2)]);
        assert(tr.drop_first().drop_first() =~= seq![(t, p2)]);
        assert(tr.drop_first().drop_first().drop_first() =~= Seq::<(Seq<char>, Seq<char>)>::empty());
        assert(tr[0] == (p1, t) && tr[1] == (p2, p1) && tr[2] == (t, p2));
        assert(tr.drop_first()[0] == (p2, p1));
        assert(tr.drop_first().drop_first()[0] == (t, p2));
        assert(apply_ops(m, d, tr) == apply_ops(m1, d, tr.drop_first()));
        assert(apply_ops(m1, d, tr.drop_first()) == apply_ops(m2, d, tr.drop_first().drop_first()));
        assert(apply_ops(m2, d, tr.drop_first().drop_first()) == apply_ops(
            m3,
            d,
            tr.drop_first().drop_first().drop_first(),
        ));
        assert(apply_ops(m, d, tr) == m3);

        assert(forall|i: int| 0 <= i < n ==> m3.contains_key(#[trigger] paths[i]));
        assert(forall|i: int|
            0 <= i < temps.len() ==> !m3.contains_key(#[trigger] temps[i]));
        lemma_swaps_from(m3, paths, temps, k + 1);
        let res = apply_ops(m3, d, rest);
        assert(apply_ops(m, d, expand_pairs(lp.skip(k), temps.skip(k))) == res);

        // position k itself is untouched by the later swaps
        assert(!swapped_from(paths, k + 1).contains(p1)) by {
            if swapped_from(paths, k + 1).contains(p1) {
                let j = choose|j: int|
                    k + 1 <= j < half && (p1 == #[trigger] paths[j] || p1 == paths[n - 1 - j]);
                assert(j != k && n - 1 - j != k && n - 1 - j > k);
            }
        }
        assert(!swapped_from(paths, k + 1).contains(p2)) by {
            if swapped_from(paths, k + 1).contains(p2) {
                let j = choose|j: int|
                    k + 1 <= j < half && (p2 == #[trigger] paths[j] || p2 == paths[n - 1 - j]);
                assert(j < half <= n - 1 - k);
                assert(n - 1 - j != n - 1 - k);
            }
        }
        assert(res[p1] == m3[p1]);
        assert(res[p2] == m3[p2]);

        assert forall|i: int| k <= i < half implies res[#[trigger] paths[i]] == m[paths[n - 1
            - i]] by {
            if i == k {
            } else {
                assert(res[paths[i]] == m3[paths[n - 1 - i]]);
                assert(n - 1 - i != k && n - 1 - i != n - 1 - k);
                assert(paths[n - 1 - i] != p1 && paths[n - 1 - i] != p2);
                assert(m3[paths[n - 1 - i]] == m[paths[n - 1 - i]]);
            }
        }
        assert forall|i: int| k <= i < half implies res[paths[n - 1 - i]] == m[
            #[trigger] paths[i]
        ] by {
            if i == k {
            } else {
                assert(res[paths[n - 1 - i]] == m3[paths[i]]);
                assert(i != k && i != n - 1 - k);
                assert(paths[i] != p1 && paths[i] != p2);
                assert(m3[paths[i]] == m[paths[i]]);
            }
        }
        assert forall|p: Seq<char>|
            m.contains_key(p) && !swapped_from(paths, k).contains(p) implies res[p] == m[p] by {
            assert(!swapped_from(paths, k + 1).contains(p));
            assert(p != p1 && p != p2);
            assert(m3.contains_key(p));
            assert(m3[p] == m[p]);
        }
        assert(res.dom() == m.dom());
    }
}

/// After replaying one level's rename plan on a filesystem that holds those
/// sibling paths — sorted, distinct, with every temporary fresh — the set of
/// occupied paths is unchanged and the content at each position is the one
/// from the mirrored position: a fresh scan in sorted order reads the old
/// contents in reversed order. The middle entry of an odd-length level, its
/// own mirror, never moves. Paths outside the level are untouched.
pub proof fn lemma_level_plan_reverses(
    m: Map<Seq<char>, u64>,
    paths: Seq<Seq<char>>,
    temps: Seq<Seq<char>>,
)
    requires
        distinct_seqs(paths),
        distinct_seqs(temps),
        disjoint_seqs(paths, temps),
        forall|i: int| 0 <= i < paths.len() ==> m.contains_key(#[trigger] paths[i]),
        forall|i: int| 0 <= i < temps.len() ==> !m.contains_key(#[trigger] temps[i]),
        temps.len() == level_pairs(paths).len(),
    ensures
        ({
            let res = apply_ops(m, Set::empty(), expand_pairs(level_pairs(paths), temps));
            &&& res.dom() == m.dom()
            &&& forall|i: int|
                0 <= i < paths.len() ==> res[#[trigger] paths[i]] == m[paths[paths.len() - 1 - i]]
            &&& forall|p: Seq<char>|
                m.contains_key(p) && !paths.contains(p) ==> res[p] == m[p]
        }),
{
    let n = paths.len() as int;
    let half = n / 2;
    let lp = level_pairs(paths);
    lemma_swaps_from(m, paths, temps, 0);
    assert(lp.skip(0) =~= lp);
    assert(temps.skip(0) =~= temps);
    let res = apply_ops(m, Set::empty(), expand_pairs(lp, temps));
    assert forall|i: int| 0 <= i < n implies res[#[trigger] paths[i]] == m[paths[n - 1 - i]] by {
        if i < half {
        } else if n - 1 - i < half {
            let j = n - 1 - i;
            assert(res[paths[n - 1 - j]] == m[paths[j]]);
        } else {
            // the middle of an odd-length level: i == n - 1 - i
            assert(i == n - 1 - i);
            assert(!swapped_from(paths, 0).contains(paths[i])) by {
                if swapped_from(paths, 0).contains(paths[i]) {
                    let j = choose|j: int|
                        0 <= j < half && (paths[i] == #[trigger] paths[j] || paths[i] == paths[n - 1 - j]);
                    assert(j != i && n - 1 - j != i);
                }
            }
        }
    }
    assert forall|p: Seq<char>| m.contains_key(p) && !paths.contains(p) implies res[p] == m[p] by {
        assert(!swapped_from(paths, 0).contains(p)) by {
            if swapped_from(paths, 0).contains(p) {
                let j = choose|j: int|
                    0 <= j < half && (p == #[trigger] paths[j] || p == paths[n - 1 - j]);
                assert(paths.contains(p));
            }
        }
    }
}

/// Replaying the same level plan twice, with fresh temporaries each time,
/// returns every entry of the filesystem to its place: over a whole pass the
/// reversal is an involution.
pub proof fn lemma_level_plan_involutive(
    m: Map<Seq<char>, u64>,
    paths: Seq<Seq<char>>,
    temps1: Seq<Seq<char>>,
    temps2: Seq<Seq<char>>,
)
    requires
        distinct_seqs(paths),
        distinct_seqs(temps1),
        distinct_seqs(temps2),
        disjoint_seqs(paths, temps1),
        disjoint_seqs(paths, temps2),
        forall|i: int| 0 <= i < paths.len() ==> m.contains_key(#[trigger] paths[i]),
        forall|i: int| 0 <= i < temps1.len() ==> !m.contains_key(#[trigger] temps1[i]),
        forall|i: int| 0 <= i < temps2.len() ==> !m.contains_key(#[trigger] temps2[i]),
        temps1.len() == level_pairs(paths).len(),
        temps2.len() == level_pairs(paths).len(),
    ensures
        apply_ops(
            apply_ops(m, Set::empty(), expand_pairs(level_pairs(paths), temps1)),
            Set::empty(),
            expand_pairs(level_pairs(paths), temps2),
        ) == m,
{
    let n = paths.len() as int;
    let lp = level_pairs(paths);
    lemma_level_plan_reverses(m, paths, temps1);
    let m1 = apply_ops(m, Set::empty(), expand_pairs(lp, temps1));
    assert(forall|i: int| 0 <= i < n ==> m1.contains_key(#[trigger] paths[i]));
    assert(forall|i: int| 0 <= i < temps2.len() ==> !m1.contains_key(#[trigger] temps2[i]));
    lemma_level_plan_reverses(m1, paths, temps2);
    let m2 = apply_ops(m1, Set::empty(), expand_pairs(lp, temps2));
    assert forall|p: Seq<char>| m2.contains_key(p) implies m2[p] == m[p] by {
        if paths.contains(p) {
            let i = choose|i: int| 0 <= i < n && paths[i] == p;
            assert(m2[paths[i]] == m1[paths[n - 1 - i]]);
            assert(m1[paths[n - 1 - i]] == m[paths[n - 1 - (n - 1 - i)]]);
            assert(n - 1 - (n - 1 - i) == i);
        }
    }
    assert(m2 =~= m);
}

} // verus!
