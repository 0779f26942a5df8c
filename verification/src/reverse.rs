//! The reversal engine: recursively reverses sibling order at every directory
//! level. The in-memory side sorts each sibling list ascending by path; the
//! on-disk side is returned as a plan — one swap of end paths per pair, each
//! realized by a three-rename rotation through a fresh temporary path — so
//! that replaying the plan leaves the reversed order on disk.

use vstd::prelude::*;
use crate::sort::sort_by_path;
use crate::sort::sort_trees;
use crate::sort::views_of;
use crate::tree::Tree;
use crate::tree::TreeV;
use crate::tree::children_view;
use crate::tree::lemma_children_view;
use crate::tree::tree_view;

verus! {

/// One planned swap: the filesystem contents at `first` and `second` are to
/// exchange places.
pub struct SwapPair {
    pub first: String,
    pub second: String,
}

impl View for SwapPair {
    type V = (Seq<char>, Seq<char>);

    open spec fn view(&self) -> (Seq<char>, Seq<char>) {
        (self.first@, self.second@)
    }
}

/// One planned rename of the entry at `src` to `dst`.
pub struct RenameOp {
    pub src: String,
    pub dst: String,
}

impl View for RenameOp {
    type V = (Seq<char>, Seq<char>);

    open spec fn view(&self) -> (Seq<char>, Seq<char>) {
        (self.src@, self.dst@)
    }
}

pub open spec fn pair_views(s: Seq<SwapPair>) -> Seq<(Seq<char>, Seq<char>)> {
    s.map_values(|p: SwapPair| p@)
}

pub open spec fn op_views(s: Seq<RenameOp>) -> Seq<(Seq<char>, Seq<char>)> {
    s.map_values(|p: RenameOp| p@)
}

/// The paths of a sequence of abstract nodes, in order.
pub open spec fn paths_of(s: Seq<TreeV>) -> Seq<Seq<char>> {
    s.map_values(|t: TreeV| t.path)
}

/// The swaps performed at one level over the sorted sibling paths: position
/// `i` is exchanged with its mirror position, `floor(n/2)` swaps in all, the
/// middle element of an odd-length level untouched.
pub open spec fn level_pairs(paths: Seq<Seq<char>>) -> Seq<(Seq<char>, Seq<char>)> {
    Seq::new(paths.len() / 2, |i: int| (paths[i], paths[paths.len() - 1 - i]))
}

/// The tree after reversal: every level whose parent was a directory at scan
/// time is recursed into, and each sibling list is left sorted ascending by
/// path, exactly as the engine leaves the in-memory tree.
pub open spec fn reversed_spec(t: TreeV) -> TreeV
    decreases t, 1int, 0int,
{
    TreeV { path: t.path, is_dir: t.is_dir, children: sort_by_path(rev_children(t, 0)) }
}

/// The children of `t` from position `i` on, recursed into when `t` is a
/// directory and untouched otherwise.
pub open spec fn rev_children(t: TreeV, i: int) -> Seq<TreeV>
    decreases t, 0int, t.children.len() - i,
{
    if i < 0 || i >= t.children.len() {
        Seq::empty()
    } else if t.is_dir {
        seq![reversed_spec(t.children[i])] + rev_children(t, i + 1)
    } else {
        seq![t.children[i]] + rev_children(t, i + 1)
    }
}

/// The full swap plan of a node: the plans of its children first (post-order,
/// only under a directory parent), then this level's own swaps over the
/// sorted sibling paths.
pub open spec fn pairs_spec(t: TreeV) -> Seq<(Seq<char>, Seq<char>)>
    decreases t, 3int, 0int,
{
    (if t.is_dir {
        child_pairs(t, 0)
    } else {
        Seq::empty()
    }) + level_pairs(paths_of(reversed_spec(t).children))
}

/// The concatenated swap plans of the children of `t` from position `i` on.
pub open spec fn child_pairs(t: TreeV, i: int) -> Seq<(Seq<char>, Seq<char>)>
    decreases t, 2int, t.children.len() - i,
{
    if i < 0 || i >= t.children.len() {
        Seq::empty()
    } else {
        pairs_spec(t.children[i]) + child_pairs(t, i + 1)
    }
}

/// `rev_children(t, i)` is the pointwise image of the child suffix from `i`.
pub proof fn lemma_rev_children(t: TreeV, i: int)
    requires
        0 <= i <= t.children.len(),
    ensures
        rev_children(t, i).len() == t.children.len() - i,
        forall|k: int|
            0 <= k < t.children.len() - i ==> rev_children(t, i)[k] == (if t.is_dir {
                reversed_spec(t.children[i + k])
            } else {
                t.children[i + k]
            }),
    decreases t.children.len() - i,
{
    if i < t.children.len() {
        lemma_rev_children(t, i + 1);
    }
}

/// A childless node has an empty swap plan.
proof fn lemma_pairs_spec_leaf(t: TreeV)
    requires
        t.children.len() == 0,
    ensures
        pairs_spec(t) =~= Seq::<(Seq<char>, Seq<char>)>::empty(),
{
    lemma_rev_children(t, 0);
    assert(rev_children(t, 0) =~= Seq::<TreeV>::empty());
    crate::sort::lemma_sort_by_path_permutes(rev_children(t, 0));
    assert(reversed_spec(t).children.len() == 0);
    assert(level_pairs(paths_of(reversed_spec(t).children)) =~= Seq::<(
        Seq<char>,
        Seq<char>,
    )>::empty());
}

proof fn lemma_child_pairs_of_leaves(t: TreeV, i: int)
    requires
        0 <= i <= t.children.len(),
        forall|k: int| 0 <= k < t.children.len() ==> #[trigger] t.children[k].children.len() == 0,
    ensures
        child_pairs(t, i) =~= Seq::<(Seq<char>, Seq<char>)>::empty(),
    decreases t.children.len() - i,
{
    if i < t.children.len() {
        lemma_pairs_spec_leaf(t.children[i]);
        lemma_child_pairs_of_leaves(t, i + 1);
    }
}

/// For a single directory level — a node whose children are all childless —
/// the engine's whole plan is exactly that level's swaps over the sorted
/// sibling paths.
pub proof fn lemma_flat_tree_plan(t: TreeV)
    requires
        forall|k: int| 0 <= k < t.children.len() ==> #[trigger] t.children[k].children.len() == 0,
    ensures
        pairs_spec(t) == level_pairs(paths_of(reversed_spec(t).children)),
{
    if t.is_dir {
        lemma_child_pairs_of_leaves(t, 0);
    }
    assert(pairs_spec(t) =~= level_pairs(paths_of(reversed_spec(t).children)));
}

/// Inserting a node adds exactly its path to the sibling paths.
proof fn lemma_insert_sorted_paths(s: Seq<TreeV>, x: TreeV)
    ensures
        paths_of(crate::sort::insert_sorted(s, x)).to_multiset() == paths_of(
            s,
        ).to_multiset().insert(x.path),
    decreases s.len(),
{
    broadcast use vstd::seq_lib::group_to_multiset_ensures;

    let ins = crate::sort::insert_sorted(s, x);
    if s.len() == 0 {
        assert(paths_of(seq![x]) =~= Seq::<Seq<char>>::empty().push(x.path));
        assert(paths_of(ins).to_multiset() =~= paths_of(s).to_multiset().insert(x.path));
    } else if crate::order::lex_le(x.path, s[0].path) {
        assert(paths_of(seq![x] + s) =~= seq![x.path] + paths_of(s));
        vstd::seq_lib::lemma_multiset_commutative(seq![x.path], paths_of(s));
        vstd::seq_lib::lemma_multiset_commutative(paths_of(s), seq![x.path]);
        assert(paths_of(s) + seq![x.path] =~= paths_of(s).push(x.path));
        assert(paths_of(ins).to_multiset() =~= paths_of(s).to_multiset().insert(x.path));
    } else {
        lemma_insert_sorted_paths(s.drop_first(), x);
        let rest = crate::sort::insert_sorted(s.drop_first(), x);
        assert(paths_of(seq![s[0]] + rest) =~= seq![s[0].path] + paths_of(rest));
        vstd::seq_lib::lemma_multiset_commutative(seq![s[0].path], paths_of(rest));
        vstd::seq_lib::lemma_multiset_commutative(seq![s[0].path], paths_of(s.drop_first()));
        assert(seq![s[0].path] + paths_of(s.drop_first()) =~= paths_of(s));
        assert(paths_of(ins).to_multiset() =~= paths_of(s).to_multiset().insert(x.path));
    }
}

/// Sorting changes no path: the sorted siblings carry the same paths.
pub proof fn lemma_sort_keeps_paths(s: Seq<TreeV>)
    ensures
        paths_of(crate::sort::sort_by_path(s)).to_multiset() == paths_of(s).to_multiset(),
    decreases s.len(),
{
    broadcast use vstd::seq_lib::group_to_multiset_ensures;

    if s.len() > 0 {
        lemma_sort_keeps_paths(s.drop_last());
        lemma_insert_sorted_paths(crate::sort::sort_by_path(s.drop_last()), s.last());
        assert(paths_of(s.drop_last()).push(s.last().path) =~= paths_of(s));
        assert(paths_of(crate::sort::sort_by_path(s)).to_multiset() =~= paths_of(
            s,
        ).to_multiset());
    }
}

/// Reversal changes no sibling path: at every node the reversed tree's
/// children carry the same paths as before, now sorted ascending, so a
/// fresh scan finds the same set of names.
pub proof fn lemma_reversed_keeps_paths(t: TreeV)
    ensures
        reversed_spec(t).path == t.path,
        reversed_spec(t).is_dir == t.is_dir,
        reversed_spec(t).children.len() == t.children.len(),
        crate::sort::sorted_by_path(reversed_spec(t).children),
        paths_of(reversed_spec(t).children).to_multiset() == paths_of(t.children).to_multiset(),
{
    lemma_rev_children(t, 0);
    let rc = rev_children(t, 0);
    assert(paths_of(rc) =~= paths_of(t.children));
    crate::sort::lemma_sort_by_path_permutes(rc);
    lemma_sort_keeps_paths(rc);
}

proof fn lemma_pair_views_add(a: Seq<SwapPair>, b: Seq<SwapPair>)
    ensures
        pair_views(a + b) == pair_views(a) + pair_views(b),
{
    assert(pair_views(a + b) =~= pair_views(a) + pair_views(b));
}

/// Reverses sibling order at every directory level of the tree in memory and
/// returns the swaps that realize the same reversal on disk: the engine's
/// decisions, with the renames themselves left to the plan's executor.
pub fn reverse(tree: &mut Tree) -> (pairs: Vec<SwapPair>)
    ensures
        final(tree)@ == reversed_spec(old(tree)@),
        pair_views(pairs@) == pairs_spec(old(tree)@),
{
    let mut tmp = Tree { path: String::from_str(""), is_dir: false, children: Vec::new() };
    core::mem::swap(tree, &mut tmp);
    let (t2, pairs) = reverse_rec(tmp);
    let mut t2 = t2;
    core::mem::swap(tree, &mut t2);
    pairs
}

fn reverse_rec(t: Tree) -> (r: (Tree, Vec<SwapPair>))
    ensures
        r.0@ == reversed_spec(t@),
        pair_views(r.1@) == pairs_spec(t@),
    decreases t,
{
    let Tree { path, is_dir, children } = t;
    let mut pairs: Vec<SwapPair> = Vec::new();
    let mut processed: Vec<Tree>;
    proof {
        lemma_children_view(t, 0);
    }
    if is_dir {
        let mut rest = children;
        let mut done: Vec<Tree> = Vec::new();
        while rest.len() > 0
            invariant
                t.is_dir,
                done@.len() + rest@.len() == t.children@.len(),
                forall|k: int|
                    0 <= k < rest@.len() ==> rest@[k] == t.children@[done@.len() + k],
                forall|k: int|
                    0 <= k < done@.len() ==> #[trigger] done@[k]@ == reversed_spec(t@.children[k]),
                pair_views(pairs@) + child_pairs(t@, done@.len() as int) == child_pairs(t@, 0),
                t@.children.len() == t.children@.len(),
                forall|k: int|
                    0 <= k < t.children@.len() ==> #[trigger] t@.children[k] == tree_view(
                        t.children@[k],
                    ),
            decreases rest@.len(),
        {
            let ghost i = done@.len() as int;
            let c = rest.remove(0);
            proof {
                assert(c == t.children@[i]);
                assert(decreases_to!(t => t.children));
                assert(decreases_to!(t.children => t.children@));
                assert(decreases_to!(t.children@ => t.children@[i]));
                assert(decreases_to!(t => c));
            }
            let (c2, mut ps) = reverse_rec(c);
            proof {
                assert(c@ == t@.children[i]);
                lemma_pair_views_add(pairs@, ps@);
                assert(child_pairs(t@, i) == pairs_spec(t@.children[i]) + child_pairs(t@, i + 1));
                assert((pair_views(pairs@) + pair_views(ps@)) + child_pairs(t@, i + 1) =~= pair_views(
                    pairs@,
                ) + (pair_views(ps@) + child_pairs(t@, i + 1)));
                assert(pair_views(ps@) + child_pairs(t@, i + 1) == child_pairs(t@, i));
            }
            pairs.append(&mut ps);
            done.push(c2);
        }
        processed = done;
        proof {
            lemma_rev_children(t@, 0);
            assert forall|k: int| 0 <= k < t.children@.len() implies views_of(processed@)[k]
                == rev_children(t@, 0)[k] by {
                assert(views_of(processed@)[k] == tree_view(processed@[k]));
                assert(processed@[k]@ == reversed_spec(t@.children[k]));
            }
            assert(views_of(processed@) =~= rev_children(t@, 0));
            assert(child_pairs(t@, t@.children.len() as int) =~= Seq::<(
                Seq<char>,
                Seq<char>,
            )>::empty());
            assert(pair_views(pairs@) + child_pairs(t@, t@.children.len() as int) =~= pair_views(
                pairs@,
            ));
            assert(pair_views(pairs@) == child_pairs(t@, 0));
        }
    } else {
        processed = children;
        proof {
            lemma_rev_children(t@, 0);
            assert forall|k: int| 0 <= k < t.children@.len() implies views_of(processed@)[k]
                == rev_children(t@, 0)[k] by {
                assert(views_of(processed@)[k] == tree_view(processed@[k]));
                assert(processed@[k] == t.children@[k]);
                assert(t@.children[k] == tree_view(t.children@[k]));
            }
            assert(views_of(processed@) =~= rev_children(t@, 0));
            assert(pair_views(pairs@) =~= Seq::<(Seq<char>, Seq<char>)>::empty());
        }
    }
    let ghost base = pair_views(pairs@);
    let sorted = sort_trees(processed);
    let ghost svs = views_of(sorted@);
    let ghost lp = level_pairs(paths_of(svs));
    proof {
        assert(svs == reversed_spec(t@).children);
    }
    let n = sorted.len();
    let mut start: usize = 0;
    let mut end: usize = if n == 0 {
        0
    } else {
        n - 1
    };
    while start < end
        invariant
            n == sorted@.len(),
            svs == views_of(sorted@),
            lp == level_pairs(paths_of(svs)),
            n > 0 ==> start + end == n - 1,
            n == 0 ==> start == 0 && end == 0,
            start <= n / 2,
            pair_views(pairs@) == base + lp.take(start as int),
        decreases end,
    {
        let p1 = String::from_str(sorted[start].path.as_str());
        let p2 = String::from_str(sorted[end].path.as_str());
        let pair = SwapPair { first: p1, second: p2 };
        proof {
            assert(svs[start as int] == tree_view(sorted@[start as int]));
            assert(svs[end as int] == tree_view(sorted@[end as int]));
            assert(paths_of(svs)[start as int] == svs[start as int].path);
            assert(paths_of(svs)[end as int] == svs[end as int].path);
            assert(lp[start as int] == (paths_of(svs)[start as int], paths_of(
                svs,
            )[paths_of(svs).len() - 1 - start as int]));
            assert(pair@ == lp[start as int]);
            assert(pair_views(pairs@.push(pair)) =~= pair_views(pairs@).push(pair@));
            assert(lp.take(start as int + 1) =~= lp.take(start as int).push(lp[start as int]));
        }
        pairs.push(pair);
        start = start + 1;
        end = end - 1;
    }
    proof {
        assert(lp.len() == n / 2);
        if n > 0 {
            assert(start == n / 2);
        }
        assert(lp.take(lp.len() as int) =~= lp);
        assert(lp.take(start as int) == lp);
        assert(pair_views(pairs@) == base + lp);
    }
    let out = Tree { path, is_dir, children: sorted };
    proof {
        lemma_children_view(out, 0);
        assert(children_view(out, 0) =~= views_of(sorted@));
        assert(out@ == reversed_spec(t@));
        assert(pairs_spec(t@) == (if t@.is_dir {
            child_pairs(t@, 0)
        } else {
            Seq::<(Seq<char>, Seq<char>)>::empty()
        }) + lp);
        assert(pair_views(pairs@) == pairs_spec(t@));
    }
    (out, pairs)
}

} // verus!
