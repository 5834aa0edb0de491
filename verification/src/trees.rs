//! A tree held in tables: each node has a kind and a parent, and nodes are
//! numbered in document order.

use std::cmp::Ordering;

use vstd::prelude::*;

use crate::item::{Node, NodeType};
use crate::transform::navigate::{
    document_side, lemma_beyond_ancestors_contains, lemma_concat_contains,
    lemma_with_descendants_contains, with_descendants,
};

verus! {

/// The ids in `[lo, hi)` that satisfy `f`, in increasing order.
pub open spec fn select_up(lo: int, hi: int, f: spec_fn(int) -> bool) -> Seq<int>
    decreases hi - lo,
{
    if hi <= lo {
        Seq::empty()
    } else {
        select_up(lo, hi - 1, f) + (if f(hi - 1) {
            seq![hi - 1]
        } else {
            Seq::empty()
        })
    }
}

/// The ids in `[lo, hi)` that satisfy `f`, in decreasing order.
pub open spec fn select_down(lo: int, hi: int, f: spec_fn(int) -> bool) -> Seq<int>
    decreases hi - lo,
{
    if hi <= lo {
        Seq::empty()
    } else {
        select_down(lo + 1, hi, f) + (if f(lo) {
            seq![lo]
        } else {
            Seq::empty()
        })
    }
}

/// A tree of nodes numbered in document order. Node 0 is the document.
#[derive(Debug)]
pub struct Tree {
    kinds: Vec<NodeType>,
    parents: Vec<Option<usize>>,
}

impl View for Tree {
    /// The kind and the parent of each node.
    type V = (Seq<NodeType>, Seq<Option<usize>>);

    closed spec fn view(&self) -> Self::V {
        (self.kinds@, self.parents@)
    }
}

/// The ancestors of node `i`, nearest first.
pub open spec fn tree_ancestors(t: (Seq<NodeType>, Seq<Option<usize>>), i: int) -> Seq<int>
    decreases i,
{
    if 0 <= i < t.1.len() {
        match t.1[i] {
            Some(p) => if p < i {
                seq![p as int] + tree_ancestors(t, p as int)
            } else {
                Seq::empty()
            },
            None => Seq::empty(),
        }
    } else {
        Seq::empty()
    }
}

/// Each node's parent is numbered before it.
pub open spec fn parents_before(t: (Seq<NodeType>, Seq<Option<usize>>)) -> bool {
    forall|i: int| 0 <= i < t.1.len() ==> (#[trigger] t.1[i] matches Some(p) ==> p < i)
}

/// No node hangs under an attribute.
pub open spec fn parents_not_attributes(t: (Seq<NodeType>, Seq<Option<usize>>)) -> bool {
    forall|i: int|
        0 <= i < t.1.len() ==> (#[trigger] t.1[i] matches Some(p) ==> t.0[p as int]
            != NodeType::Attribute)
}

/// Each node after the first hangs under the node numbered just before it or
/// under one of that node's ancestors: the numbering is a preorder.
pub open spec fn numbered_in_preorder(t: (Seq<NodeType>, Seq<Option<usize>>)) -> bool {
    forall|i: int|
        0 < i < t.1.len() ==> (#[trigger] t.1[i] matches Some(p) && (p == i - 1 || tree_ancestors(
            t,
            i - 1,
        ).contains(p as int)))
}

proof fn lemma_cons_contains(x: int, s: Seq<int>, y: int)
    ensures
        (seq![x] + s).contains(y) <==> (y == x || s.contains(y)),
{
    let c = seq![x] + s;
    if c.contains(y) && y != x {
        let k = choose|k: int| 0 <= k < c.len() && c[k] == y;
        assert(s[k - 1] == y);
    }
    if s.contains(y) {
        let k = choose|k: int| 0 <= k < s.len() && s[k] == y;
        assert(c[k + 1] == y);
    }
    if y == x {
        assert(c[0] == y);
    }
}

/// The ancestors of `c` are numbered before it.
proof fn lemma_ancestors_before(t: (Seq<NodeType>, Seq<Option<usize>>), c: int)
    requires
        parents_before(t),
    ensures
        forall|k: int|
            0 <= k < tree_ancestors(t, c).len() ==> 0 <= #[trigger] tree_ancestors(t, c)[k] < c,
    decreases c,
{
    if 0 <= c < t.1.len() {
        if let Some(p) = t.1[c] {
            lemma_ancestors_before(t, p as int);
            let s = tree_ancestors(t, p as int);
            assert forall|k: int| 0 <= k < tree_ancestors(t, c).len() implies 0
                <= #[trigger] tree_ancestors(t, c)[k] < c by {
                if k > 0 {
                    assert(tree_ancestors(t, c)[k] == s[k - 1]);
                }
            }
        }
    }
}

/// A node with an ancestor lies inside the tables and has a parent, and its
/// ancestors are its parent and the parent's ancestors.
proof fn lemma_ancestors_unfold(t: (Seq<NodeType>, Seq<Option<usize>>), c: int, x: int)
    requires
        parents_before(t),
        tree_ancestors(t, c).contains(x),
    ensures
        0 <= c < t.1.len(),
        t.1[c] is Some,
        tree_ancestors(t, c) == seq![t.1[c]->Some_0 as int] + tree_ancestors(t, t.1[c]->Some_0 as int),
        x == t.1[c]->Some_0 as int || tree_ancestors(t, t.1[c]->Some_0 as int).contains(x),
{
    let p = t.1[c]->Some_0 as int;
    lemma_cons_contains(p, tree_ancestors(t, p), x);
}

/// An ancestor of an ancestor is an ancestor.
proof fn lemma_ancestor_trans(t: (Seq<NodeType>, Seq<Option<usize>>), a: int, b: int, c: int)
    requires
        parents_before(t),
        tree_ancestors(t, b).contains(a),
        tree_ancestors(t, c).contains(b),
    ensures
        tree_ancestors(t, c).contains(a),
    decreases c,
{
    lemma_ancestors_unfold(t, c, b);
    let p = t.1[c]->Some_0 as int;
    if b != p {
        lemma_ancestor_trans(t, a, b, p);
    }
    lemma_cons_contains(p, tree_ancestors(t, p), a);
}

/// In a preorder, a node numbered between an ancestor `x` of `m` and `m`
/// itself also lies under `x`.
proof fn lemma_ancestor_interval(t: (Seq<NodeType>, Seq<Option<usize>>), x: int, k: int, m: int)
    requires
        parents_before(t),
        numbered_in_preorder(t),
        tree_ancestors(t, m).contains(x),
        x < k < m,
    ensures
        tree_ancestors(t, k).contains(x),
    decreases m,
{
    lemma_ancestors_unfold(t, m, x);
    lemma_ancestors_before(t, m);
    let p = t.1[m]->Some_0 as int;
    assert(t.1[m] matches Some(q) && (q == m - 1 || tree_ancestors(t, m - 1).contains(q as int)));
    if x == p {
        assert(tree_ancestors(t, m - 1).contains(x));
    } else if p == m - 1 {
        assert(tree_ancestors(t, m - 1).contains(x));
    } else {
        lemma_ancestor_trans(t, x, p, m - 1);
    }
    if k < m - 1 {
        lemma_ancestor_interval(t, x, k, m - 1);
    }
}

/// A sibling is no ancestor.
proof fn lemma_sibling_not_ancestor(t: (Seq<NodeType>, Seq<Option<usize>>), a: int, b: int)
    requires
        parents_before(t),
        0 <= a < t.1.len(),
        t.1[a] is Some,
        t.1[b] == t.1[a],
    ensures
        !tree_ancestors(t, b).contains(a),
{
    if tree_ancestors(t, b).contains(a) {
        lemma_ancestors_unfold(t, b, a);
        let q = t.1[b]->Some_0 as int;
        assert(t.1[a] matches Some(p) ==> p < a);
        lemma_ancestors_before(t, q);
        let k = choose|k: int| 0 <= k < tree_ancestors(t, q).len() && tree_ancestors(t, q)[k] == a;
        assert(0 <= tree_ancestors(t, q)[k] < q);
    }
}

/// Every node but the first lies under the first.
proof fn lemma_root_ancestor(t: (Seq<NodeType>, Seq<Option<usize>>), x: int)
    requires
        parents_before(t),
        numbered_in_preorder(t),
        0 < x < t.1.len(),
    ensures
        tree_ancestors(t, x).contains(0),
    decreases x,
{
    assert(t.1[x] matches Some(p) && (p == x - 1 || tree_ancestors(t, x - 1).contains(p as int)));
    assert(t.1[x] matches Some(q) ==> q < x);
    let p = t.1[x]->Some_0 as int;
    if p > 0 {
        lemma_root_ancestor(t, p);
    }
    lemma_cons_contains(p, tree_ancestors(t, p), 0);
}

/// No ancestor is an attribute.
proof fn lemma_ancestor_not_attribute(t: (Seq<NodeType>, Seq<Option<usize>>), x: int, y: int)
    requires
        parents_before(t),
        parents_not_attributes(t),
        tree_ancestors(t, y).contains(x),
    ensures
        t.0[x] != NodeType::Attribute,
    decreases y,
{
    lemma_ancestors_unfold(t, y, x);
    assert(t.1[y] matches Some(q) ==> t.0[q as int] != NodeType::Attribute);
    let p = t.1[y]->Some_0 as int;
    if x != p {
        lemma_ancestor_not_attribute(t, x, p);
    }
}

/// Walking up from `x`, which is neither `n` nor above it, to the last node
/// that is neither: its parent is `n` or above `n`.
proof fn lemma_split_point(t: (Seq<NodeType>, Seq<Option<usize>>), n: int, x: int) -> (s: int)
    requires
        parents_before(t),
        numbered_in_preorder(t),
        0 <= n < t.1.len(),
        0 <= x < t.1.len(),
        !(x == n || tree_ancestors(t, n).contains(x)),
    ensures
        s == x || tree_ancestors(t, x).contains(s),
        !(s == n || tree_ancestors(t, n).contains(s)),
        0 <= s < t.1.len(),
        t.1[s] matches Some(q) && (q == n || tree_ancestors(t, n).contains(q as int)),
    decreases x,
{
    if x == 0 {
        if n > 0 {
            lemma_root_ancestor(t, n);
        }
    }
    assert(t.1[x] matches Some(p) && (p == x - 1 || tree_ancestors(t, x - 1).contains(p as int)));
    assert(t.1[x] matches Some(q) ==> q < x);
    let p = t.1[x]->Some_0 as int;
    if p == n || tree_ancestors(t, n).contains(p) {
        x
    } else {
        let s = lemma_split_point(t, n, p);
        lemma_cons_contains(p, tree_ancestors(t, p), s);
        s
    }
}

/// The child of an ancestor `q` of `n` on the way down to `n`.
proof fn lemma_child_toward(t: (Seq<NodeType>, Seq<Option<usize>>), q: int, n: int) -> (u: int)
    requires
        parents_before(t),
        tree_ancestors(t, n).contains(q),
    ensures
        u == n || tree_ancestors(t, n).contains(u),
        0 <= u < t.1.len(),
        t.1[u] == Some(q as usize),
        0 <= q,
    decreases n,
{
    lemma_ancestors_unfold(t, n, q);
    lemma_ancestors_before(t, n);
    let p = t.1[n]->Some_0 as int;
    if p == q {
        n
    } else {
        let u = lemma_child_toward(t, q, p);
        lemma_cons_contains(p, tree_ancestors(t, p), u);
        u
    }
}

proof fn lemma_select_up_contains(lo: int, hi: int, f: spec_fn(int) -> bool, x: int)
    requires
        lo <= x < hi,
        f(x),
    ensures
        select_up(lo, hi, f).contains(x),
    decreases hi - lo,
{
    let a = select_up(lo, hi - 1, f);
    if x == hi - 1 {
        assert(select_up(lo, hi, f)[a.len() as int] == x);
    } else {
        lemma_select_up_contains(lo, hi - 1, f, x);
        let k = choose|k: int| 0 <= k < a.len() && a[k] == x;
        assert(select_up(lo, hi, f)[k] == x);
    }
}

proof fn lemma_select_down_contains(lo: int, hi: int, f: spec_fn(int) -> bool, x: int)
    requires
        lo <= x < hi,
        f(x),
    ensures
        select_down(lo, hi, f).contains(x),
    decreases hi - lo,
{
    let a = select_down(lo + 1, hi, f);
    if x == lo {
        assert(select_down(lo, hi, f)[a.len() as int] == x);
    } else {
        lemma_select_down_contains(lo + 1, hi, f, x);
        let k = choose|k: int| 0 <= k < a.len() && a[k] == x;
        assert(select_down(lo, hi, f)[k] == x);
    }
}

/// Adding a node leaves the ancestors of the others as they were./// Adding a node leaves the ancestors of the others as they were.
proof fn lemma_ancestors_push(t: (Seq<NodeType>, Seq<Option<usize>>), kind: NodeType, par: Option<usize>, i: int)
    requires
        t.0.len() == t.1.len(),
        0 <= i < t.1.len(),
    ensures
        tree_ancestors((t.0.push(kind), t.1.push(par)), i) == tree_ancestors(t, i),
    decreases i,
{
    let u = (t.0.push(kind), t.1.push(par));
    assert(u.1[i] == t.1[i]);
    if let Some(p) = t.1[i] {
        if p < i {
            lemma_ancestors_push(t, kind, par, p as int);
        }
    }
}

/// Is `c` a child (not an attribute) of `p`?
pub open spec fn is_child(t: (Seq<NodeType>, Seq<Option<usize>>), p: int, c: int) -> bool {
    t.1[c] == Some(p as usize) && t.0[c] != NodeType::Attribute
}

/// Is `a` an attribute of `p`?
pub open spec fn is_attribute_of(t: (Seq<NodeType>, Seq<Option<usize>>), p: int, a: int) -> bool {
    t.1[a] == Some(p as usize) && t.0[a] == NodeType::Attribute
}

/// Is `d` a descendant (not an attribute) of `n`?
pub open spec fn is_descendant(t: (Seq<NodeType>, Seq<Option<usize>>), n: int, d: int) -> bool {
    tree_ancestors(t, d).contains(n) && t.0[d] != NodeType::Attribute
}

/// Is `s` a sibling of `n` (both children of the same parent)?
pub open spec fn is_sibling(t: (Seq<NodeType>, Seq<Option<usize>>), n: int, s: int) -> bool {
    &&& t.1[n] is Some
    &&& t.0[n] != NodeType::Attribute
    &&& t.1[s] == t.1[n]
    &&& t.0[s] != NodeType::Attribute
}

/// Which nodes a relation picks, seen from node `n`.
pub enum Relation {
    Child,
    Attribute,
    Descendant,
    Sibling,
}

/// The nodes that `rel` picks from `n`.
pub open spec fn related(t: (Seq<NodeType>, Seq<Option<usize>>), rel: Relation, n: int) -> spec_fn(
    int,
) -> bool {
    |m: int|
        match rel {
            Relation::Child => is_child(t, n, m),
            Relation::Attribute => is_attribute_of(t, n, m),
            Relation::Descendant => is_descendant(t, n, m),
            Relation::Sibling => is_sibling(t, n, m),
        }
}

/// Where the next node may go: its parent must be the last node or one of
/// that node's ancestors (so that numbering stays in document order), must not
/// be an attribute, and an attribute must come before its element's children.
pub open spec fn can_add(t: (Seq<NodeType>, Seq<Option<usize>>), kind: NodeType, parent: int) -> bool {
    let last = t.0.len() - 1;
    &&& kind != NodeType::Document
    &&& 0 <= parent < t.0.len()
    &&& t.0[parent] != NodeType::Attribute
    &&& (parent == last || tree_ancestors(t, last).contains(parent))
    &&& kind == NodeType::Attribute ==> (parent == last || (t.0[last] == NodeType::Attribute
        && t.1[last] == Some(parent as usize)))
}

impl Tree {
    /// The tables agree in length, hold at least the document node, each
    /// node's parent comes before it, and the numbering is a preorder.
    pub closed spec fn wf(self) -> bool {
        &&& self.kinds@.len() == self.parents@.len()
        &&& self.kinds@.len() >= 1
        &&& self.kinds@.len() <= usize::MAX
        &&& parents_before(self@)
        &&& numbered_in_preorder(self@)
        &&& parents_not_attributes(self@)
    }

    /// A tree that holds only its document node.
    pub fn new() -> (r: Self)
        ensures
            r.wf(),
            r@.0 == seq![NodeType::Document],
            r@.1 == seq![None::<usize>],
    {
        let r = Tree { kinds: vec![NodeType::Document], parents: vec![None] };
        assert(r@.0 =~= seq![NodeType::Document]);
        assert(r@.1 =~= seq![None::<usize>]);
        r
    }

    /// The number of nodes.
    pub fn len(&self) -> (r: usize)
        requires
            self.wf(),
        ensures
            r == self@.0.len(),
            r >= 1,
    {
        self.kinds.len()
    }

    /// Is `a` a proper ancestor of `n`?
    fn is_ancestor(&self, a: usize, n: usize) -> (r: bool)
        requires
            self.wf(),
            n < self@.0.len(),
        ensures
            r == tree_ancestors(self@, n as int).contains(a as int),
    {
        let mut cur = n;
        loop
            invariant
                cur < self@.0.len(),
                self@.0.len() == self@.1.len(),
                tree_ancestors(self@, n as int).contains(a as int) <==> tree_ancestors(
                    self@,
                    cur as int,
                ).contains(a as int),
            decreases cur,
        {
            match self.parents[cur] {
                Some(p) => {
                    if p >= cur {
                        assert(tree_ancestors(self@, cur as int) =~= Seq::<int>::empty());
                        return false;
                    }
                    let ghost rest = tree_ancestors(self@, p as int);
                    assert(tree_ancestors(self@, cur as int) == seq![p as int] + rest);
                    if p == a {
                        assert(tree_ancestors(self@, cur as int)[0] == a as int);
                        return true;
                    }
                    assert forall|x: int| #![auto] (seq![p as int] + rest).contains(x) && x != p
                        implies rest.contains(x) by {
                        let k = choose|k: int| 0 <= k < (seq![p as int] + rest).len() && (seq![
                            p as int,
                        ] + rest)[k] == x;
                        assert(rest[k - 1] == x);
                    }
                    assert forall|x: int| #![auto] rest.contains(x) implies (seq![p as int]
                        + rest).contains(x) by {
                        let k = choose|k: int| 0 <= k < rest.len() && rest[k] == x;
                        assert((seq![p as int] + rest)[k + 1] == x);
                    }
                    cur = p;
                },
                None => {
                    assert(tree_ancestors(self@, cur as int) =~= Seq::<int>::empty());
                    return false;
                },
            }
        }
    }

    /// Adds a node of `kind` under `parent`, as the next node in document
    /// order, and returns its number; `None` (and no change) where it cannot
    /// go there.
    pub fn add(&mut self, kind: NodeType, parent: usize) -> (r: Option<usize>)
        requires
            old(self).wf(),
        ensures
            final(self).wf(),
            r is Some <==> can_add(old(self)@, kind, parent as int) && old(self)@.0.len()
                < usize::MAX,
            r matches Some(id) ==> {
                &&& id == old(self)@.0.len()
                &&& final(self)@.0 == old(self)@.0.push(kind)
                &&& final(self)@.1 == old(self)@.1.push(Some(parent))
            },
            r is None ==> final(self)@ == old(self)@,
    {
        let n = self.kinds.len();
        if n == usize::MAX {
            return None;
        }
        let last = n - 1;
        let allowed = match kind {
            NodeType::Document => false,
            _ => parent < n && match self.kinds[parent] {
                NodeType::Attribute => false,
                _ => (parent == last || self.is_ancestor(parent, last)) && match kind {
                    NodeType::Attribute => parent == last || (match self.kinds[last] {
                        NodeType::Attribute => match self.parents[last] {
                            Some(q) => q == parent,
                            None => false,
                        },
                        _ => false,
                    }),
                    _ => true,
                },
            },
        };
        if !allowed {
            return None;
        }
        let ghost t = self@;
        self.kinds.push(kind);
        self.parents.push(Some(parent));
        proof {
            let u = self@;
            assert(u == (t.0.push(kind), t.1.push(Some(parent))));
            assert forall|i: int| 0 <= i < u.1.len() implies (#[trigger] u.1[i] matches Some(p)
                ==> p < i) by {
                if i < t.1.len() {
                    assert(u.1[i] == t.1[i]);
                }
            }
            assert forall|i: int| 0 <= i < u.1.len() implies (#[trigger] u.1[i] matches Some(p)
                ==> u.0[p as int] != NodeType::Attribute) by {
                if i < t.1.len() {
                    assert(u.1[i] == t.1[i]);
                    assert(t.1[i] matches Some(p) ==> t.0[p as int] != NodeType::Attribute);
                    if let Some(p) = t.1[i] {
                        assert(p < i);
                        assert(u.0[p as int] == t.0[p as int]);
                    }
                } else {
                    assert(u.0[parent as int] == t.0[parent as int]);
                }
            }
            assert forall|i: int| 0 < i < u.1.len() implies (#[trigger] u.1[i] matches Some(p) && (p
                == i - 1 || tree_ancestors(u, i - 1).contains(p as int))) by {
                lemma_ancestors_push(t, kind, Some(parent), i - 1);
                if i < t.1.len() {
                    assert(u.1[i] == t.1[i]);
                    assert(t.1[i] matches Some(p) && (p == i - 1 || tree_ancestors(t, i - 1).contains(p as int)));
                }
            }
        }
        Some(n)
    }

    /// Does `rel` pick `m` from `n`?
    fn picks(&self, rel: &Relation, n: usize, m: usize) -> (r: bool)
        requires
            self.wf(),
            n < self@.0.len(),
            m < self@.0.len(),
        ensures
            r == related(self@, *rel, n as int)(m as int),
    {
        match rel {
            Relation::Child => match self.parents[m] {
                Some(p) => p == n && match self.kinds[m] {
                    NodeType::Attribute => false,
                    _ => true,
                },
                None => false,
            },
            Relation::Attribute => match self.parents[m] {
                Some(p) => p == n && match self.kinds[m] {
                    NodeType::Attribute => true,
                    _ => false,
                },
                None => false,
            },
            Relation::Descendant => self.is_ancestor(n, m) && match self.kinds[m] {
                NodeType::Attribute => false,
                _ => true,
            },
            Relation::Sibling => {
                let not_attr_n = match self.kinds[n] {
                    NodeType::Attribute => false,
                    _ => true,
                };
                let not_attr_m = match self.kinds[m] {
                    NodeType::Attribute => false,
                    _ => true,
                };
                let same_parent = match (self.parents[n], self.parents[m]) {
                    (Some(a), Some(b)) => a == b,
                    _ => false,
                };
                not_attr_n && not_attr_m && same_parent
            },
        }
    }

    /// The node numbered `id`.
    pub fn node(&self, id: usize) -> (r: TreeNode<'_>)
        requires
            self.wf(),
            id < self@.0.len(),
        ensures
            r.tree() == self,
            r.id() == id,
            r.valid(),
    {
        TreeNode { tree: self, id }
    }
}

/// A node of a [`Tree`].
#[derive(Clone, Copy, Debug)]
pub struct TreeNode<'a> {
    tree: &'a Tree,
    id: usize,
}

impl<'a> TreeNode<'a> {
    #[verifier::type_invariant]
    closed spec fn wf(self) -> bool {
        self.tree.wf() && self.id < self.tree@.0.len()
    }

    pub closed spec fn tree(self) -> &'a Tree {
        self.tree
    }

    pub closed spec fn id(self) -> usize {
        self.id
    }

    /// The node's number.
    pub fn number(&self) -> (r: usize)
        ensures
            r == self.id(),
    {
        self.id
    }
}

/// The nodes of `tree` numbered by `ids`.
pub closed spec fn nodes_at<'a>(tree: &'a Tree, ids: Seq<int>) -> Seq<TreeNode<'a>> {
    ids.map_values(|m: int| TreeNode { tree, id: m as usize })
}

/// The handle on node `id` of `tree`.
pub closed spec fn handle<'a>(tree: &'a Tree, id: usize) -> TreeNode<'a> {
    TreeNode { tree, id }
}

/// A handle is made of its tree and its node's number.
pub proof fn lemma_handle<'a>(tree: &'a Tree, id: usize, n: TreeNode<'a>)
    ensures
        handle(tree, id).tree() == tree,
        handle(tree, id).id() == id,
        n == handle(n.tree(), n.id()),
{
}

/// `nodes_at` gives the handles on the numbered nodes, in the same order.
pub proof fn lemma_nodes_at<'a>(tree: &'a Tree, ids: Seq<int>)
    ensures
        nodes_at(tree, ids).len() == ids.len(),
        forall|i: int|
            0 <= i < ids.len() ==> #[trigger] nodes_at(tree, ids)[i] == handle(tree, ids[i] as usize),
{
}

proof fn lemma_nodes_at_concat<'a>(tree: &'a Tree, a: Seq<int>, b: Seq<int>)
    ensures
        nodes_at(tree, a + b) == nodes_at(tree, a) + nodes_at(tree, b),
{
    assert(nodes_at(tree, a + b) =~= nodes_at(tree, a) + nodes_at(tree, b));
}

proof fn lemma_nodes_at_contains<'a>(tree: &'a Tree, ids: Seq<int>, m: TreeNode<'a>)
    requires
        forall|k: int| 0 <= k < ids.len() ==> 0 <= #[trigger] ids[k] <= usize::MAX,
    ensures
        nodes_at(tree, ids).contains(m) <==> (m.tree == tree && ids.contains(m.id as int)),
{
    let s = nodes_at(tree, ids);
    if s.contains(m) {
        let k = choose|k: int| 0 <= k < s.len() && s[k] == m;
        assert(ids[k] == m.id as int);
    }
    if m.tree == tree && ids.contains(m.id as int) {
        let k = choose|k: int| 0 <= k < ids.len() && ids[k] == m.id as int;
        assert(s[k] == m);
    }
}

proof fn lemma_select_up_members(lo: int, hi: int, f: spec_fn(int) -> bool)
    ensures
        forall|k: int|
            0 <= k < select_up(lo, hi, f).len() ==> lo <= #[trigger] select_up(lo, hi, f)[k] < hi && f(
                select_up(lo, hi, f)[k],
            ),
    decreases hi - lo,
{
    if hi > lo {
        lemma_select_up_members(lo, hi - 1, f);
        let a = select_up(lo, hi - 1, f);
        assert forall|k: int| 0 <= k < select_up(lo, hi, f).len() implies lo
            <= #[trigger] select_up(lo, hi, f)[k] < hi && f(select_up(lo, hi, f)[k]) by {
            if k < a.len() {
                assert(select_up(lo, hi, f)[k] == a[k]);
            }
        }
    }
}

proof fn lemma_select_down_members(lo: int, hi: int, f: spec_fn(int) -> bool)
    ensures
        forall|k: int|
            0 <= k < select_down(lo, hi, f).len() ==> lo <= #[trigger] select_down(lo, hi, f)[k] < hi
                && f(select_down(lo, hi, f)[k]),
    decreases hi - lo,
{
    if hi > lo {
        lemma_select_down_members(lo + 1, hi, f);
        let a = select_down(lo + 1, hi, f);
        assert forall|k: int| 0 <= k < select_down(lo, hi, f).len() implies lo
            <= #[trigger] select_down(lo, hi, f)[k] < hi && f(select_down(lo, hi, f)[k]) by {
            if k < a.len() {
                assert(select_down(lo, hi, f)[k] == a[k]);
            }
        }
    }
}

impl<'a> TreeNode<'a> {
    /// The nodes in `[lo, hi)` that `rel` picks from this node, in increasing order.
    fn collect_up(&self, rel: Relation, lo: usize, hi: usize) -> (r: Vec<TreeNode<'a>>)
        requires
            lo <= hi <= self.tree@.0.len(),
        ensures
            r@ == nodes_at(self.tree, select_up(lo as int, hi as int, related(self.tree@, rel, self.id as int))),
    {
        proof {
            use_type_invariant(self);
        }
        let ghost f = related(self.tree@, rel, self.id as int);
        let mut r: Vec<TreeNode<'a>> = Vec::new();
        let mut m = lo;
        assert(nodes_at(self.tree, select_up(lo as int, lo as int, f)) =~= Seq::<TreeNode<'a>>::empty());
        while m < hi
            invariant
                self.tree.wf(),
                self.id < self.tree@.0.len(),
                lo <= m <= hi <= self.tree@.0.len(),
                f == related(self.tree@, rel, self.id as int),
                r@ == nodes_at(self.tree, select_up(lo as int, m as int, f)),
            decreases hi - m,
        {
            let pick = self.tree.picks(&rel, self.id, m);
            proof {
                lemma_nodes_at_concat(
                    self.tree,
                    select_up(lo as int, m as int, f),
                    if f(m as int) {
                        seq![m as int]
                    } else {
                        Seq::empty()
                    },
                );
            }
            if pick {
                r.push(TreeNode { tree: self.tree, id: m });
                assert(nodes_at(self.tree, seq![m as int]) =~= seq![TreeNode { tree: self.tree, id: m }]);
            } else {
                assert(nodes_at(self.tree, Seq::<int>::empty()) =~= Seq::<TreeNode<'a>>::empty());
            }
            m = m + 1;
        }
        r
    }

    /// The nodes in `[lo, hi)` that `rel` picks from this node, in decreasing order.
    fn collect_down(&self, rel: Relation, lo: usize, hi: usize) -> (r: Vec<TreeNode<'a>>)
        requires
            lo <= hi <= self.tree@.0.len(),
        ensures
            r@ == nodes_at(self.tree, select_down(lo as int, hi as int, related(self.tree@, rel, self.id as int))),
    {
        proof {
            use_type_invariant(self);
        }
        let ghost f = related(self.tree@, rel, self.id as int);
        let mut r: Vec<TreeNode<'a>> = Vec::new();
        let mut m = hi;
        assert(nodes_at(self.tree, select_down(hi as int, hi as int, f)) =~= Seq::<TreeNode<'a>>::empty());
        while m > lo
            invariant
                self.tree.wf(),
                self.id < self.tree@.0.len(),
                lo <= m <= hi <= self.tree@.0.len(),
                f == related(self.tree@, rel, self.id as int),
                r@ == nodes_at(self.tree, select_down(m as int, hi as int, f)),
            decreases m - lo,
        {
            let k = m - 1;
            let pick = self.tree.picks(&rel, self.id, k);
            proof {
                lemma_nodes_at_concat(
                    self.tree,
                    select_down(m as int, hi as int, f),
                    if f(k as int) {
                        seq![k as int]
                    } else {
                        Seq::empty()
                    },
                );
            }
            if pick {
                r.push(TreeNode { tree: self.tree, id: k });
                assert(nodes_at(self.tree, seq![k as int]) =~= seq![TreeNode { tree: self.tree, id: k }]);
            } else {
                assert(nodes_at(self.tree, Seq::<int>::empty()) =~= Seq::<TreeNode<'a>>::empty());
            }
            m = k;
        }
        r
    }
}

impl<'a> TreeNode<'a> {
    /// What the node relations of a handle are, in terms of its tree's
    /// tables: its position is its number; its kind and parent come from the
    /// tables; children, descendants, siblings and attributes are the numbers
    /// that the relation picks, in order (preceding siblings nearest first);
    /// the ancestors are the chain of parents; the owner document is node 0.
    pub proof fn lemma_relations(&self)
        ensures
            self.position() == self.id() as int,
            self.valid() == (self.tree().wf() && self.id() < self.tree()@.0.len()),
            self.spec_node_type() == self.tree()@.0[self.id() as int],
            self.spec_parent() == (match self.tree()@.1[self.id() as int] {
                Some(p) => Some(handle(self.tree(), p)),
                None => None,
            }),
            self.spec_children() == nodes_at(
                self.tree(),
                select_up(
                    self.id() + 1,
                    self.tree()@.0.len() as int,
                    related(self.tree()@, Relation::Child, self.id() as int),
                ),
            ),
            self.spec_descendants() == nodes_at(
                self.tree(),
                select_up(
                    self.id() + 1,
                    self.tree()@.0.len() as int,
                    related(self.tree()@, Relation::Descendant, self.id() as int),
                ),
            ),
            self.spec_attributes() == nodes_at(
                self.tree(),
                select_up(
                    self.id() + 1,
                    self.tree()@.0.len() as int,
                    related(self.tree()@, Relation::Attribute, self.id() as int),
                ),
            ),
            self.spec_following_siblings() == nodes_at(
                self.tree(),
                select_up(
                    self.id() + 1,
                    self.tree()@.0.len() as int,
                    related(self.tree()@, Relation::Sibling, self.id() as int),
                ),
            ),
            self.spec_preceding_siblings() == nodes_at(
                self.tree(),
                select_down(0, self.id() as int, related(self.tree()@, Relation::Sibling, self.id() as int)),
            ),
            self.spec_ancestors() == nodes_at(self.tree(), tree_ancestors(self.tree()@, self.id() as int)),
            self.spec_owner_document() == handle(self.tree(), 0),
    {
    }
}

impl<'a> TreeNode<'a> {
    /// Node `s` (or a node below it) of the same tree is reached by
    /// `with_descendants` from the siblings on one side of `u`.
    proof fn lemma_reached_from_sibling(u: Self, s: int, m: Self, forward: bool)
        requires
            u.valid(),
            m.valid(),
            m.tree == u.tree,
            u.tree@.0[m.id as int] != NodeType::Attribute,
            m.id as int == s || tree_ancestors(u.tree@, m.id as int).contains(s),
            0 <= s < u.tree@.0.len(),
            is_sibling(u.tree@, u.id as int, s),
            forward ==> u.id < s,
            !forward ==> s < u.id,
        ensures
            with_descendants(if forward {
                u.spec_following_siblings()
            } else {
                u.spec_preceding_siblings()
            }).contains(m),
    {
        let tree = u.tree;
        let t = tree@;
        let len = t.0.len() as int;
        let sn = TreeNode { tree, id: s as usize };
        let f = related(t, Relation::Sibling, u.id as int);
        let sibs = if forward {
            select_up(u.id + 1, len, f)
        } else {
            select_down(0, u.id as int, f)
        };
        if forward {
            lemma_select_up_contains(u.id + 1, len, f, s);
            lemma_select_up_members(u.id + 1, len, f);
        } else {
            lemma_select_down_contains(0, u.id as int, f, s);
            lemma_select_down_members(0, u.id as int, f);
        }
        lemma_nodes_at_contains(tree, sibs, sn);
        let list = nodes_at(tree, sibs);
        assert(list.contains(sn));
        let k = choose|k: int| 0 <= k < list.len() && list[k] == sn;
        if m.id as int != s {
            lemma_ancestors_before(t, m.id as int);
            let d = related(t, Relation::Descendant, s);
            lemma_select_up_contains(s + 1, len, d, m.id as int);
            lemma_select_up_members(s + 1, len, d);
            lemma_nodes_at_contains(tree, select_up(s + 1, len, d), m);
        }
        lemma_with_descendants_contains(list, k, m);
    }

    /// The following axis reaches every node of the tree, other than an
    /// attribute, that comes after this (non-attribute) node and is not below
    /// it; the preceding axis reaches every such node that comes before this
    /// node and is not above it.
    pub proof fn lemma_document_side_complete(&self, m: Self)
        requires
            self.valid(),
            m.valid(),
            m.tree() == self.tree(),
            self.spec_node_type() != NodeType::Attribute,
            m.spec_node_type() != NodeType::Attribute,
        ensures
            self.position() < m.position() && !self.spec_descendants().contains(m) ==> document_side(
                *self,
                true,
            ).contains(m),
            m.position() < self.position() && !self.spec_ancestors().contains(m) ==> document_side(
                *self,
                false,
            ).contains(m),
    {
        let tree = self.tree;
        let t = tree@;
        let len = t.0.len() as int;
        let n = self.id as int;
        let x = m.id as int;
        lemma_ancestors_before(t, n);
        lemma_ancestors_before(t, x);
        let forward = n < x;
        let wanted = if forward {
            !self.spec_descendants().contains(m)
        } else {
            x < n && !self.spec_ancestors().contains(m)
        };
        if wanted {
            // `m` is neither this node nor above it.
            if !forward {
                lemma_nodes_at_contains(tree, tree_ancestors(t, n), m);
            }
            assert(!(x == n || tree_ancestors(t, n).contains(x)));
            let s = lemma_split_point(t, n, x);
            let q = t.1[s]->Some_0 as int;
            assert(t.1[s] matches Some(p) ==> p < s);
            if q == n {
                // Then `m` lies below this node: not so for either axis.
                let a = tree_ancestors(t, s);
                lemma_cons_contains(q, tree_ancestors(t, q), n);
                if s != x {
                    lemma_ancestor_trans(t, n, s, x);
                }
                lemma_ancestors_before(t, s);
                if forward {
                    let d = related(t, Relation::Descendant, n);
                    lemma_select_up_contains(n + 1, len, d, x);
                    lemma_select_up_members(n + 1, len, d);
                    lemma_nodes_at_contains(tree, select_up(n + 1, len, d), m);
                }
                assert(false);
            }
            let u = lemma_child_toward(t, q, n);
            // Both `u` and `s` hang under `q`, and neither is an attribute.
            if u != n {
                lemma_ancestor_not_attribute(t, u, n);
            }
            if s != x {
                lemma_ancestor_not_attribute(t, s, x);
            }
            assert(t.1[s] == t.1[u]);
            assert(is_sibling(t, u, s));
            lemma_ancestors_before(t, u);
            if forward {
                if s < u {
                    // `m` would lie below a sibling before `u`, yet after it.
                    lemma_ancestor_interval(t, s, u, x);
                    lemma_sibling_not_ancestor(t, s, u);
                    assert(false);
                }
            } else {
                if s > u {
                    if u == n {
                        assert(false);
                    }
                    lemma_ancestor_interval(t, u, s, n);
                    lemma_sibling_not_ancestor(t, u, s);
                    assert(false);
                }
            }
            let un = TreeNode { tree, id: u as usize };
            assert(u != s);
            TreeNode::lemma_reached_from_sibling(un, s, m, forward);
            let side = document_side(*self, forward);
            if u == n {
                assert(un == *self);
                lemma_concat_contains(
                    with_descendants(crate::transform::navigate::sibling_side(*self, forward)),
                    crate::transform::navigate::beyond_ancestors(self.spec_ancestors(), forward),
                    m,
                );
            } else {
                let anc = tree_ancestors(t, n);
                let k = choose|k: int| 0 <= k < anc.len() && anc[k] == u;
                assert(self.spec_ancestors()[k] == un);
                lemma_beyond_ancestors_contains(self.spec_ancestors(), forward, k, m);
                lemma_concat_contains(
                    with_descendants(crate::transform::navigate::sibling_side(*self, forward)),
                    crate::transform::navigate::beyond_ancestors(self.spec_ancestors(), forward),
                    m,
                );
            }
        }
    }
}

impl Tree {
    /// What a well-formed tree's tables hold: as many kinds as parents, the
    /// document node first, each parent before its child, in preorder.
    pub proof fn lemma_wf(&self)
        requires
            self.wf(),
        ensures
            self@.0.len() == self@.1.len(),
            1 <= self@.0.len() <= usize::MAX,
            parents_before(self@),
            numbered_in_preorder(self@),
            parents_not_attributes(self@),
    {
    }
}

impl<'a> Node for TreeNode<'a> {
    closed spec fn spec_node_type(&self) -> NodeType {
        self.tree@.0[self.id as int]
    }

    closed spec fn position(&self) -> int {
        self.id as int
    }

    closed spec fn spec_parent(&self) -> Option<Self> {
        match self.tree@.1[self.id as int] {
            Some(p) => Some(TreeNode { tree: self.tree, id: p }),
            None => None,
        }
    }

    closed spec fn spec_children(&self) -> Seq<Self> {
        nodes_at(
            self.tree,
            select_up(self.id + 1, self.tree@.0.len() as int, related(self.tree@, Relation::Child, self.id as int)),
        )
    }

    closed spec fn spec_descendants(&self) -> Seq<Self> {
        nodes_at(
            self.tree,
            select_up(self.id + 1, self.tree@.0.len() as int, related(self.tree@, Relation::Descendant, self.id as int)),
        )
    }

    closed spec fn spec_ancestors(&self) -> Seq<Self> {
        nodes_at(self.tree, tree_ancestors(self.tree@, self.id as int))
    }

    closed spec fn spec_following_siblings(&self) -> Seq<Self> {
        nodes_at(
            self.tree,
            select_up(self.id + 1, self.tree@.0.len() as int, related(self.tree@, Relation::Sibling, self.id as int)),
        )
    }

    closed spec fn spec_preceding_siblings(&self) -> Seq<Self> {
        nodes_at(self.tree, select_down(0, self.id as int, related(self.tree@, Relation::Sibling, self.id as int)))
    }

    closed spec fn spec_attributes(&self) -> Seq<Self> {
        nodes_at(
            self.tree,
            select_up(self.id + 1, self.tree@.0.len() as int, related(self.tree@, Relation::Attribute, self.id as int)),
        )
    }

    closed spec fn spec_owner_document(&self) -> Self {
        TreeNode { tree: self.tree, id: 0 }
    }

    closed spec fn valid(&self) -> bool {
        self.tree.wf() && self.id < self.tree@.0.len()
    }

    proof fn lemma_document_order(&self) {
        let tree = self.tree;
        let t = tree@;
        let n = self.id as int;
        let len = t.0.len() as int;
        lemma_select_up_members(n + 1, len, related(t, Relation::Child, n));
        lemma_select_up_members(n + 1, len, related(t, Relation::Attribute, n));
        lemma_select_up_members(n + 1, len, related(t, Relation::Descendant, n));
        lemma_select_up_members(n + 1, len, related(t, Relation::Sibling, n));
        lemma_select_down_members(0, n, related(t, Relation::Sibling, n));
        lemma_ancestors_before(t, n);
        assert(t.1[n] matches Some(p) ==> p < n);
        let desc = select_up(n + 1, len, related(t, Relation::Descendant, n));
        assert forall|i: int| 0 <= i < self.spec_descendants().len() implies (
        #[trigger] self.spec_descendants()[i]).spec_ancestors().contains(*self) by {
            let d = desc[i];
            assert(related(t, Relation::Descendant, n)(d));
            lemma_ancestors_before(t, d);
            lemma_nodes_at_contains(tree, tree_ancestors(t, d), *self);
        }
        assert forall|m: Self, i: int|
            m.spec_ancestors().contains(*self) && 0 <= i < self.spec_ancestors().len()
                implies #[trigger] m.spec_ancestors().contains(self.spec_ancestors()[i]) by {
            lemma_ancestors_before(m.tree@, m.id as int);
            lemma_nodes_at_contains(m.tree, tree_ancestors(m.tree@, m.id as int), *self);
            let a = tree_ancestors(t, n)[i];
            lemma_ancestor_trans(t, a, n, m.id as int);
            lemma_nodes_at_contains(tree, tree_ancestors(t, m.id as int), self.spec_ancestors()[i]);
        }
        let fs = select_up(n + 1, len, related(t, Relation::Sibling, n));
        assert forall|m: Self, i: int|
            #![trigger m.spec_ancestors().contains(*self), self.spec_following_siblings()[i]]
            m.spec_ancestors().contains(*self) && 0 <= i < self.spec_following_siblings().len()
                implies m.position() < self.spec_following_siblings()[i].position() by {
            lemma_ancestors_before(m.tree@, m.id as int);
            lemma_nodes_at_contains(m.tree, tree_ancestors(m.tree@, m.id as int), *self);
            let x = fs[i];
            assert(related(t, Relation::Sibling, n)(x));
            lemma_sibling_not_ancestor(t, n, x);
            lemma_ancestors_unfold(t, m.id as int, n);
            if m.id as int > x {
                lemma_ancestor_interval(t, n, x, m.id as int);
            }
        }
        let ps = select_down(0, n, related(t, Relation::Sibling, n));
        assert forall|m: Self, i: int|
            0 <= i < self.spec_preceding_siblings().len() && #[trigger] m.spec_ancestors().contains(
                self.spec_preceding_siblings()[i],
            ) implies m.position() < self.position() by {
            let x = ps[i];
            assert(related(t, Relation::Sibling, n)(x));
            lemma_ancestors_before(m.tree@, m.id as int);
            lemma_nodes_at_contains(
                m.tree,
                tree_ancestors(m.tree@, m.id as int),
                self.spec_preceding_siblings()[i],
            );
            lemma_sibling_not_ancestor(t, x, n);
            lemma_ancestors_unfold(t, m.id as int, x);
            if m.id as int > n {
                lemma_ancestor_interval(t, x, n, m.id as int);
            }
        }
    }

    fn duplicate(&self) -> (r: Self) {
        *self
    }

    fn node_type(&self) -> (r: NodeType) {
        proof {
            use_type_invariant(self);
        }
        self.tree.kinds[self.id]
    }

    fn parent(&self) -> (r: Option<Self>) {
        proof {
            use_type_invariant(self);
        }
        match self.tree.parents[self.id] {
            Some(p) => Some(TreeNode { tree: self.tree, id: p }),
            None => None,
        }
    }

    fn children(&self) -> (r: Vec<Self>) {
        proof {
            use_type_invariant(self);
        }
        self.collect_up(Relation::Child, self.id + 1, self.tree.len())
    }

    fn descendants(&self) -> (r: Vec<Self>) {
        proof {
            use_type_invariant(self);
        }
        self.collect_up(Relation::Descendant, self.id + 1, self.tree.len())
    }

    fn ancestors(&self) -> (r: Vec<Self>) {
        proof {
            use_type_invariant(self);
        }
        let mut r: Vec<Self> = Vec::new();
        let mut cur = self.id;
        assert(r@ + nodes_at(self.tree, tree_ancestors(self.tree@, cur as int)) =~= self.spec_ancestors());
        loop
            invariant
                self.tree.wf(),
                cur < self.tree@.0.len(),
                r@ + nodes_at(self.tree, tree_ancestors(self.tree@, cur as int)) == self.spec_ancestors(),
            decreases cur,
        {
            match self.tree.parents[cur] {
                Some(p) => {
                    assert(self.tree@.1[cur as int] == Some(p));
                    proof {
                        lemma_nodes_at_concat(self.tree, seq![p as int], tree_ancestors(self.tree@, p as int));
                        assert(nodes_at(self.tree, seq![p as int]) =~= seq![TreeNode { tree: self.tree, id: p }]);
                    }
                    r.push(TreeNode { tree: self.tree, id: p });
                    assert(r@ + nodes_at(self.tree, tree_ancestors(self.tree@, p as int)) =~= self.spec_ancestors());
                    cur = p;
                },
                None => {
                    assert(nodes_at(self.tree, tree_ancestors(self.tree@, cur as int)) =~= Seq::<Self>::empty());
                    assert(r@ =~= self.spec_ancestors());
                    return r;
                },
            }
        }
    }

    fn following_siblings(&self) -> (r: Vec<Self>) {
        proof {
            use_type_invariant(self);
        }
        self.collect_up(Relation::Sibling, self.id + 1, self.tree.len())
    }

    fn preceding_siblings(&self) -> (r: Vec<Self>) {
        proof {
            use_type_invariant(self);
        }
        self.collect_down(Relation::Sibling, 0, self.id)
    }

    fn attributes(&self) -> (r: Vec<Self>) {
        proof {
            use_type_invariant(self);
        }
        self.collect_up(Relation::Attribute, self.id + 1, self.tree.len())
    }

    fn owner_document(&self) -> (r: Self) {
        proof {
            use_type_invariant(self);
        }
        TreeNode { tree: self.tree, id: 0 }
    }

    fn cmp_document_order(&self, other: &Self) -> (r: Ordering) {
        if self.id < other.id {
            Ordering::Less
        } else if self.id == other.id {
            Ordering::Equal
        } else {
            Ordering::Greater
        }
    }

    fn is_same(&self, other: &Self) -> (r: bool) {
        self.id == other.id
    }
}

} // verus!
