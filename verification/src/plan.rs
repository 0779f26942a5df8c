//! Expansion of swap pairs into the rename plan: each swap of end paths
//! `p1` and `p2` becomes the three-rename rotation `p1 -> t`, `p2 -> p1`,
//! `t -> p2` through a fresh temporary path `t`, so that no two renames ever
//! collide on an occupied destination.

use vstd::prelude::*;
use crate::reverse::RenameOp;
use crate::reverse::SwapPair;
use crate::reverse::pair_views;
use crate::reverse::pairs_spec;
use crate::reverse::op_views;
use crate::reverse::reverse;
use crate::reverse::reversed_spec;
use crate::tree::Tree;

verus! {

/// The three renames realizing one swap through the temporary path `t`.
pub open spec fn triple(p: (Seq<char>, Seq<char>), t: Seq<char>) -> Seq<(Seq<char>, Seq<char>)> {
    seq![(p.0, t), (p.1, p.0), (t, p.1)]
}

/// The renames realizing a sequence of swaps, one fresh temporary per swap.
pub open spec fn expand_pairs(ps: Seq<(Seq<char>, Seq<char>)>, temps: Seq<Seq<char>>) -> Seq<
    (Seq<char>, Seq<char>),
>
    decreases ps.len(),
{
    if ps.len() == 0 || temps.len() == 0 {
        Seq::empty()
    } else {
        triple(ps[0], temps[0]) + expand_pairs(ps.drop_first(), temps.drop_first())
    }
}

/// Rotating a prefix off both sequences rotates the expansion.
pub proof fn lemma_expand_pairs_step(ps: Seq<(Seq<char>, Seq<char>)>, temps: Seq<Seq<char>>, i: int)
    requires
        ps.len() == temps.len(),
        0 <= i < ps.len(),
    ensures
        expand_pairs(ps.skip(i), temps.skip(i)) == triple(ps[i], temps[i]) + expand_pairs(
            ps.skip(i + 1),
            temps.skip(i + 1),
        ),
{
    assert(ps.skip(i).len() == ps.len() - i);
    assert(ps.skip(i)[0] == ps[i]);
    assert(temps.skip(i)[0] == temps[i]);
    assert(ps.skip(i).drop_first() =~= ps.skip(i + 1));
    assert(temps.skip(i).drop_first() =~= temps.skip(i + 1));
}

/// Builds the rename plan for the given swaps, taking the temporary paths as
/// arguments: one per swap, used in order.
pub fn expand_swaps(pairs: &Vec<SwapPair>, temps: &Vec<String>) -> (ops: Vec<RenameOp>)
    requires
        temps@.len() == pairs@.len(),
    ensures
        op_views(ops@) == expand_pairs(pair_views(pairs@), temps@.map_values(|s: String| s@)),
{
    let ghost pv = pair_views(pairs@);
    let ghost tv = temps@.map_values(|s: String| s@);
    let mut ops: Vec<RenameOp> = Vec::new();
    let mut i: usize = 0;
    proof {
        assert(pv.skip(0) =~= pv);
        assert(tv.skip(0) =~= tv);
        assert(op_views(ops@) =~= Seq::<(Seq<char>, Seq<char>)>::empty());
    }
    while i < pairs.len()
        invariant
            i <= pairs@.len(),
            temps@.len() == pairs@.len(),
            pv == pair_views(pairs@),
            tv == temps@.map_values(|s: String| s@),
            op_views(ops@) + expand_pairs(pv.skip(i as int), tv.skip(i as int)) == expand_pairs(
                pv,
                tv,
            ),
        decreases pairs@.len() - i,
    {
        let p1 = String::from_str(pairs[i].first.as_str());
        let p2 = String::from_str(pairs[i].second.as_str());
        let tp = String::from_str(temps[i].as_str());
        let ghost pre = ops@;
        ops.push(RenameOp { src: p1, dst: String::from_str(tp.as_str()) });
        ops.push(RenameOp { src: p2, dst: String::from_str(pairs[i].first.as_str()) });
        ops.push(
            RenameOp { src: tp, dst: String::from_str(pairs[i].second.as_str()) },
        );
        proof {
            assert(pv[i as int] == pairs@[i as int]@);
            assert(tv[i as int] == temps@[i as int]@);
            assert(op_views(ops@) =~= op_views(pre) + triple(pv[i as int], tv[i as int]));
            lemma_expand_pairs_step(pv, tv, i as int);
            assert((op_views(pre) + triple(pv[i as int], tv[i as int])) + expand_pairs(
                pv.skip(i as int + 1),
                tv.skip(i as int + 1),
            ) =~= op_views(pre) + (triple(pv[i as int], tv[i as int]) + expand_pairs(
                pv.skip(i as int + 1),
                tv.skip(i as int + 1),
            )));
        }
        i = i + 1;
    }
    proof {
        assert(pv.skip(pv.len() as int).len() == 0);
        assert(expand_pairs(pv.skip(i as int), tv.skip(i as int)) =~= Seq::<(
            Seq<char>,
            Seq<char>,
        )>::empty());
        assert(op_views(ops@) + expand_pairs(pv.skip(i as int), tv.skip(i as int)) =~= op_views(
            ops@,
        ));
    }
    ops
}

/// Relies on tempfile::NamedTempFile::new: it creates a freshly, uniquely
/// named file in the temporary directory and returns its handle, or an error
/// when no file could be created. The handle is dropped here at once, which
/// removes the placeholder file again and frees its path for reuse as a
/// rename target; only the path string is kept.
#[verifier::external_body]
fn fresh_temp_path() -> (r: Option<String>) {
    match tempfile::NamedTempFile::new() {
        Ok(f) => Some(f.path().display().to_string()),
        Err(_) => None,
    }
}

/// Reverses the tree in memory and returns the full rename plan that
/// realizes the reversal on disk, one three-rename rotation per swap through
/// a fresh temporary path. Returns `None` when a temporary path could not be
/// obtained; the in-memory reversal has happened either way.
pub fn plan_renames(tree: &mut Tree) -> (plan: Option<Vec<RenameOp>>)
    ensures
        final(tree)@ == reversed_spec(old(tree)@),
        plan matches Some(ops) ==> exists|temps: Seq<Seq<char>>|
            temps.len() == pairs_spec(old(tree)@).len() && op_views(ops@) == expand_pairs(
                pairs_spec(old(tree)@),
                temps,
            ),
{
    let pairs = reverse(tree);
    let mut temps: Vec<String> = Vec::new();
    let mut i: usize = 0;
    while i < pairs.len()
        invariant
            temps@.len() == i,
            i <= pairs@.len(),
            tree@ == reversed_spec(old(tree)@),
        decreases pairs@.len() - i,
    {
        match fresh_temp_path() {
            Some(t) => temps.push(t),
            None => {
                return None;
            },
        }
        i = i + 1;
    }
    let ops = expand_swaps(&pairs, &temps);
    proof {
        let temps_v = temps@.map_values(|s: String| s@);
        assert(temps_v.len() == pair_views(pairs@).len());
    }
    Some(ops)
}

} // verus!
