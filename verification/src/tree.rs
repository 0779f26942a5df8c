//! The tree model: one node per filesystem entry, identified and ordered by
//! its path string, with the children discovered under it and the directory
//! flag recorded at scan time.

use vstd::prelude::*;
use crate::order::lex_lt;
use crate::order::path_cmp;
use crate::order::str_eq;

verus! {

/// Mathematical value of a tree node: the path as a character sequence, the
/// scan-time directory flag, and the children's values in listing order.
pub struct TreeV {
    pub path: Seq<char>,
    pub is_dir: bool,
    pub children: Seq<TreeV>,
}

/// One filesystem entry: its full path, whether it was a directory when the
/// builder visited it, and one child node per directory entry found under it.
///
/// Equality and ordering look at `path` alone; children never take part.
pub struct Tree {
    pub path: String,
    pub is_dir: bool,
    pub children: Vec<Tree>,
}

/// The abstract value of a node, computed recursively over its children.
pub open spec fn tree_view(t: Tree) -> TreeV
    decreases t, 1int, 0int,
{
    TreeV { path: t.path@, is_dir: t.is_dir, children: children_view(t, 0) }
}

/// The abstract values of `t`'s children from position `i` on.
pub open spec fn children_view(t: Tree, i: int) -> Seq<TreeV>
    decreases t, 0int, t.children@.len() - i,
{
    if i < 0 || i >= t.children@.len() {
        Seq::empty()
    } else {
        seq![tree_view(t.children@[i])] + children_view(t, i + 1)
    }
}

impl View for Tree {
    type V = TreeV;

    open spec fn view(&self) -> TreeV {
        tree_view(*self)
    }
}

/// `children_view(t, i)` is exactly the viewed suffix of `t`'s children.
pub proof fn lemma_children_view(t: Tree, i: int)
    requires
        0 <= i <= t.children@.len(),
    ensures
        children_view(t, i).len() == t.children@.len() - i,
        forall|k: int|
            0 <= k < t.children@.len() - i ==> children_view(t, i)[k] == tree_view(
                t.children@[i + k],
            ),
    decreases t.children@.len() - i,
{
    if i < t.children@.len() {
        lemma_children_view(t, i + 1);
    }
}

impl Tree {
    /// A fresh node for `path`, recorded as a non-directory with no children.
    pub fn new(path: &String) -> (t: Tree)
        ensures
            t.path@ == path@,
            !t.is_dir,
            t.children@.len() == 0,
            t@ == (TreeV { path: path@, is_dir: false, children: Seq::<TreeV>::empty() }),
    {
        let t = Tree { path: String::from_str(path.as_str()), is_dir: false, children: Vec::new() };
        proof {
            assert(children_view(t, 0) =~= Seq::<TreeV>::empty());
        }
        t
    }

    /// A fresh node for `path`, recorded as a directory with no children.
    pub fn new_dir(path: &String) -> (t: Tree)
        ensures
            t.path@ == path@,
            t.is_dir,
            t.children@.len() == 0,
            t@ == (TreeV { path: path@, is_dir: true, children: Seq::<TreeV>::empty() }),
    {
        let t = Tree { path: String::from_str(path.as_str()), is_dir: true, children: Vec::new() };
        proof {
            assert(children_view(t, 0) =~= Seq::<TreeV>::empty());
        }
        t
    }

    /// Appends one child node; path and directory flag stay as they are.
    pub fn add(&mut self, tree: Tree)
        ensures
            final(self).path@ == old(self).path@,
            final(self).is_dir == old(self).is_dir,
            final(self).children@ == old(self).children@.push(tree),
            final(self)@.path == old(self)@.path,
            final(self)@.is_dir == old(self)@.is_dir,
            final(self)@.children == old(self)@.children.push(tree@),
    {
        let ghost pre = *self;
        self.children.push(tree);
        proof {
            lemma_children_view(pre, 0);
            lemma_children_view(*self, 0);
            assert forall|k: int| 0 <= k < self.children@.len() - 1 implies tree_view(
                self.children@[k],
            ) == tree_view(pre.children@[k]) by {}
            assert(children_view(*self, 0) =~= children_view(pre, 0).push(tree_view(tree)));
        }
    }
}

impl PartialEq for Tree {
    /// Two nodes are equal exactly when their paths are: children are not
    /// compared.
    fn eq(&self, other: &Self) -> (r: bool) {
        str_eq(self.path.as_str(), other.path.as_str())
    }
}

impl vstd::std_specs::cmp::PartialEqSpecImpl for Tree {
    open spec fn obeys_eq_spec() -> bool {
        true
    }

    open spec fn eq_spec(&self, other: &Tree) -> bool {
        self.path@ == other.path@
    }
}

impl Eq for Tree {

}

impl PartialOrd for Tree {
    /// Nodes are totally ordered by lexicographic comparison of their paths.
    fn partial_cmp(&self, other: &Self) -> (r: Option<core::cmp::Ordering>) {
        proof {
            crate::order::lemma_lex_lt_connected(self.path@, other.path@);
        }
        Some(path_cmp(self.path.as_str(), other.path.as_str()))
    }
}

impl vstd::std_specs::cmp::PartialOrdSpecImpl for Tree {
    open spec fn obeys_partial_cmp_spec() -> bool {
        true
    }

    open spec fn partial_cmp_spec(&self, other: &Tree) -> Option<core::cmp::Ordering> {
        if lex_lt(self.path@, other.path@) {
            Some(core::cmp::Ordering::Less)
        } else if lex_lt(other.path@, self.path@) {
            Some(core::cmp::Ordering::Greater)
        } else {
            Some(core::cmp::Ordering::Equal)
        }
    }
}

/// What `==` on nodes means in contracts: the strict node order.
pub open spec fn tree_eq(a: Tree, b: Tree) -> bool {
    vstd::std_specs::cmp::PartialEqSpec::eq_spec(&a, &b)
}

/// What `<` on nodes means in contracts: the strict node order.
pub open spec fn tree_lt(a: Tree, b: Tree) -> bool {
    vstd::std_specs::cmp::PartialOrdSpec::partial_cmp_spec(&a, &b) == Some(
        core::cmp::Ordering::Less,
    )
}

/// Node equality depends on the path alone: two nodes with equal paths
/// compare equal whatever their children or directory flags hold.
pub proof fn lemma_tree_equality_by_path(a: Tree, b: Tree)
    ensures
        tree_eq(a, b) == (a.path@ == b.path@),
{
}

/// Node ordering is a strict total order, equal to the lexicographic order
/// of the path strings: irreflexive, asymmetric, transitive, and connected —
/// two nodes ordered neither way have equal paths.
pub proof fn lemma_tree_order_strict_total(a: Tree, b: Tree, c: Tree)
    ensures
        tree_lt(a, b) == lex_lt(a.path@, b.path@),
        !tree_lt(a, a),
        !(tree_lt(a, b) && tree_lt(b, a)),
        tree_lt(a, b) && tree_lt(b, c) ==> tree_lt(a, c),
        !tree_lt(a, b) && !tree_lt(b, a) ==> a.path@ == b.path@,
{
    crate::order::lemma_lex_lt_irreflexive(a.path@);
    crate::order::lemma_lex_lt_asymmetric(a.path@, b.path@);
    crate::order::lemma_lex_lt_connected(a.path@, b.path@);
    if lex_lt(a.path@, b.path@) && lex_lt(b.path@, c.path@) {
        crate::order::lemma_lex_lt_transitive(a.path@, b.path@, c.path@);
    }
}

} // verus!
