//! Sorting of sibling nodes by path: an insertion sort, specified exactly at
//! the level of abstract tree values and proved to produce a sorted
//! permutation.

use vstd::prelude::*;
use crate::order::lex_le;
use crate::order::lex_lt;
use crate::order::str_le;
use crate::order::lemma_lex_lt_connected;
use crate::order::lemma_lex_lt_transitive;
use crate::order::lemma_lex_lt_irreflexive;
use crate::tree::Tree;
use crate::tree::TreeV;
use crate::tree::tree_view;

verus! {

/// The abstract values of a sequence of nodes.
pub open spec fn views_of(s: Seq<Tree>) -> Seq<TreeV> {
    s.map_values(|t: Tree| tree_view(t))
}

/// Sibling order: ascending lexicographic path order.
pub open spec fn sorted_by_path(s: Seq<TreeV>) -> bool {
    forall|i: int, j: int| 0 <= i < j < s.len() ==> lex_le(s[i].path, s[j].path)
}

/// Insertion of `x` in front of the first element it precedes.
pub open spec fn insert_sorted(s: Seq<TreeV>, x: TreeV) -> Seq<TreeV>
    decreases s.len(),
{
    if s.len() == 0 {
        seq![x]
    } else if lex_le(x.path, s[0].path) {
        seq![x] + s
    } else {
        seq![s[0]] + insert_sorted(s.drop_first(), x)
    }
}

/// Insertion sort over abstract node values, by path.
pub open spec fn sort_by_path(s: Seq<TreeV>) -> Seq<TreeV>
    decreases s.len(),
{
    if s.len() == 0 {
        s
    } else {
        insert_sorted(sort_by_path(s.drop_last()), s.last())
    }
}

/// Inserting grows the sequence by one and only adds `x` to its contents.
pub proof fn lemma_insert_sorted_multiset(s: Seq<TreeV>, x: TreeV)
    ensures
        insert_sorted(s, x).len() == s.len() + 1,
        insert_sorted(s, x).to_multiset() == s.to_multiset().insert(x),
    decreases s.len(),
{
    broadcast use vstd::seq_lib::group_to_multiset_ensures;

    if s.len() == 0 {
        assert(seq![x] =~= Seq::<TreeV>::empty().push(x));
        assert(Seq::<TreeV>::empty().push(x).to_multiset() =~= Seq::<TreeV>::empty().to_multiset().insert(x));
        assert(insert_sorted(s, x).to_multiset() =~= s.to_multiset().insert(x));
    } else if lex_le(x.path, s[0].path) {
        assert(seq![x] + s =~= (seq![x] + s));
        vstd::seq_lib::lemma_multiset_commutative(seq![x], s);
        vstd::seq_lib::lemma_multiset_commutative(s, seq![x]);
        assert(s + seq![x] =~= s.push(x));
        assert((seq![x] + s).to_multiset() =~= s.to_multiset().insert(x));
    } else {
        lemma_insert_sorted_multiset(s.drop_first(), x);
        vstd::seq_lib::lemma_multiset_commutative(seq![s[0]], insert_sorted(s.drop_first(), x));
        vstd::seq_lib::lemma_multiset_commutative(seq![s[0]], s.drop_first());
        assert(seq![s[0]] + s.drop_first() =~= s);
        assert((seq![s[0]] + insert_sorted(s.drop_first(), x)).to_multiset() =~= s.to_multiset().insert(x));
    }
}

/// Inserting into a sorted sequence keeps it sorted.
pub proof fn lemma_insert_sorted_sorted(s: Seq<TreeV>, x: TreeV)
    requires
        sorted_by_path(s),
    ensures
        sorted_by_path(insert_sorted(s, x)),
    decreases s.len(),
{
    if s.len() == 0 {
    } else if lex_le(x.path, s[0].path) {
        let r = seq![x] + s;
        assert forall|i: int, j: int| 0 <= i < j < r.len() implies lex_le(r[i].path, r[j].path) by {
            if i == 0 {
                if j > 1 {
                    if lex_lt(x.path, s[0].path) && lex_lt(s[0].path, s[j - 1].path) {
                        lemma_lex_lt_transitive(x.path, s[0].path, s[j - 1].path);
                    }
                    assert(lex_le(s[0].path, s[j - 1].path));
                }
            }
        }
    } else {
        assert(forall|i: int, j: int|
            0 <= i < j < s.drop_first().len() ==> lex_le(
                s.drop_first()[i].path,
                s.drop_first()[j].path,
            ));
        lemma_insert_sorted_sorted(s.drop_first(), x);
        lemma_lex_lt_connected(x.path, s[0].path);
        let t = insert_sorted(s.drop_first(), x);
        let r = seq![s[0]] + insert_sorted(s.drop_first(), x);
        lemma_insert_sorted_multiset(s.drop_first(), x);
        broadcast use vstd::seq_lib::group_to_multiset_ensures;

        assert forall|i: int, j: int| 0 <= i < j < r.len() implies lex_le(r[i].path, r[j].path) by {
            if i == 0 {
                // every element of t is either x or some s[k] with k >= 1
                assert(t.to_multiset() == s.drop_first().to_multiset().insert(x));
                assert(t.contains(t[j - 1]));
                assert(t.to_multiset().count(t[j - 1]) > 0);
                if t[j - 1] == x {
                    assert(lex_lt(s[0].path, x.path));
                } else {
                    assert(s.drop_first().to_multiset().count(t[j - 1]) > 0);
                    assert(s.drop_first().contains(t[j - 1]));
                    let k = choose|k: int|
                        0 <= k < s.drop_first().len() && s.drop_first()[k] == t[j - 1];
                    assert(s[k + 1] == t[j - 1]);
                    assert(lex_le(s[0].path, s[k + 1].path));
                }
            }
        }
    }
}

/// What sorting promises: a sorted sequence with the same contents.
pub proof fn lemma_sort_by_path_permutes(s: Seq<TreeV>)
    ensures
        sort_by_path(s).len() == s.len(),
        sort_by_path(s).to_multiset() == s.to_multiset(),
        sorted_by_path(sort_by_path(s)),
    decreases s.len(),
{
    broadcast use vstd::seq_lib::group_to_multiset_ensures;

    if s.len() == 0 {
    } else {
        lemma_sort_by_path_permutes(s.drop_last());
        lemma_insert_sorted_multiset(sort_by_path(s.drop_last()), s.last());
        lemma_insert_sorted_sorted(sort_by_path(s.drop_last()), s.last());
        assert(s.drop_last().push(s.last()) =~= s);
        assert(sort_by_path(s).to_multiset() =~= s.to_multiset());
    }
}

/// `insert_sorted` places `x` exactly at the first position whose element it
/// precedes, leaving everything else where it was.
proof fn lemma_insert_sorted_at(s: Seq<TreeV>, x: TreeV, i: int)
    requires
        0 <= i <= s.len(),
        forall|k: int| 0 <= k < i ==> !lex_le(x.path, s[k].path),
        i < s.len() ==> lex_le(x.path, s[i].path),
    ensures
        insert_sorted(s, x) == s.insert(i, x),
    decreases i,
{
    if i == 0 {
        if s.len() == 0 {
            assert(seq![x] =~= s.insert(0, x));
        } else {
            assert(seq![x] + s =~= s.insert(0, x));
        }
    } else {
        assert(!lex_le(x.path, s[0].path));
        assert forall|k: int| 0 <= k < i - 1 implies !lex_le(x.path, s.drop_first()[k].path) by {
            assert(s.drop_first()[k] == s[k + 1]);
        }
        if i - 1 < s.drop_first().len() {
            assert(s.drop_first()[i - 1] == s[i]);
        }
        lemma_insert_sorted_at(s.drop_first(), x, i - 1);
        assert(seq![s[0]] + s.drop_first().insert(i - 1, x) =~= s.insert(i, x));
    }
}

/// Executable insertion of one node into a sibling list, mirroring
/// `insert_sorted` exactly.
fn insert_tree(v: Vec<Tree>, x: Tree) -> (r: Vec<Tree>)
    ensures
        views_of(r@) == insert_sorted(views_of(v@), x@),
{
    let mut v = v;
    let mut pos: usize = 0;
    loop
        invariant
            pos <= v.len(),
            forall|k: int| 0 <= k < pos ==> !lex_le(x.path@, v@[k].path@),
        ensures
            pos <= v.len(),
            pos == v.len() || lex_le(x.path@, v@[pos as int].path@),
            forall|k: int| 0 <= k < pos ==> !lex_le(x.path@, v@[k].path@),
        decreases v.len() - pos,
    {
        if pos >= v.len() {
            break ;
        }
        if str_le(x.path.as_str(), v[pos].path.as_str()) {
            break ;
        }
        pos = pos + 1;
    }
    let ghost pre = v@;
    v.insert(pos, x);
    proof {
        let sv = views_of(pre);
        assert forall|k: int| 0 <= k < pos implies !lex_le(x@.path, sv[k].path) by {
            assert(sv[k] == tree_view(pre[k]));
        }
        if (pos as int) < pre.len() {
            assert(sv[pos as int] == tree_view(pre[pos as int]));
        }
        lemma_insert_sorted_at(sv, x@, pos as int);
        assert(views_of(v@) =~= sv.insert(pos as int, x@));
    }
    v
}

/// Executable insertion sort of a sibling list, mirroring `sort_by_path`
/// exactly.
pub fn sort_trees(v: Vec<Tree>) -> (r: Vec<Tree>)
    ensures
        views_of(r@) == sort_by_path(views_of(v@)),
    decreases v@.len(),
{
    let mut v = v;
    if v.len() == 0 {
        proof {
            assert(views_of(v@) =~= Seq::<TreeV>::empty());
        }
        v
    } else {
        let ghost pre = v@;
        let x = v.pop().unwrap();
        let s = sort_trees(v);
        proof {
            assert(views_of(v@) =~= views_of(pre).drop_last());
            assert(x@ == views_of(pre).last());
        }
        insert_tree(s, x)
    }
}

} // verus!
