//! Items of the data model, as far as navigation needs them: the kinds of
//! node, and the interface a tree's node handle offers.

use std::cmp::Ordering;

use vstd::prelude::*;

verus! {

/// The kind of a node.
#[derive(Clone, Copy, Debug, PartialEq, Eq, Structural)]
pub enum NodeType {
    Document,
    Element,
    Text,
    Attribute,
    Comment,
    ProcessingInstruction,
    Reference,
    Namespace,
    Unknown,
}

/// The order of two positions.
pub open spec fn position_order(a: int, b: int) -> Ordering {
    if a < b {
        Ordering::Less
    } else if a == b {
        Ordering::Equal
    } else {
        Ordering::Greater
    }
}

/// A handle on a node of a tree. Trees implement this; navigation is written
/// against it. Each method is tied to a spec function that says what it gives.
/// `position` places a node in document order; two handles are on the same
/// node exactly when their positions are equal.
pub trait Node: Sized {
    spec fn spec_node_type(&self) -> NodeType;

    /// The node's place in document order.
    spec fn position(&self) -> int;

    spec fn spec_parent(&self) -> Option<Self>;

    spec fn spec_children(&self) -> Seq<Self>;

    /// All descendants, in document order.
    spec fn spec_descendants(&self) -> Seq<Self>;

    /// The ancestors, nearest first; the last is the root of the tree.
    spec fn spec_ancestors(&self) -> Seq<Self>;

    /// The siblings after this node, nearest first.
    spec fn spec_following_siblings(&self) -> Seq<Self>;

    /// The siblings before this node, nearest first.
    spec fn spec_preceding_siblings(&self) -> Seq<Self>;

    spec fn spec_attributes(&self) -> Seq<Self>;

    spec fn spec_owner_document(&self) -> Self;

    /// The handle is on a node of a well-formed tree, as every handle that a
    /// tree gives out is.
    spec fn valid(&self) -> bool;

    /// Positions follow document order. Children, attributes, descendants and
    /// following siblings come after the node; its parent, ancestors and
    /// preceding siblings come before it; each of these is a valid handle.
    /// A descendant has the node among its ancestors, and an ancestor of the
    /// node is an ancestor of every node below it. Everything below the node
    /// comes before its following siblings, and everything below a preceding
    /// sibling comes before the node.
    proof fn lemma_document_order(&self)
        requires
            self.valid(),
        ensures
            forall|i: int|
                0 <= i < self.spec_children().len() ==> (#[trigger] self.spec_children()[i]).valid()
                    && self.position() < self.spec_children()[i].position(),
            forall|i: int|
                0 <= i < self.spec_attributes().len() ==> (
                #[trigger] self.spec_attributes()[i]).valid() && self.position()
                    < self.spec_attributes()[i].position(),
            forall|i: int|
                0 <= i < self.spec_descendants().len() ==> {
                    let d = #[trigger] self.spec_descendants()[i];
                    &&& d.valid()
                    &&& self.position() < d.position()
                    &&& d.spec_ancestors().contains(*self)
                },
            forall|i: int|
                0 <= i < self.spec_following_siblings().len() ==> (
                #[trigger] self.spec_following_siblings()[i]).valid() && self.position()
                    < self.spec_following_siblings()[i].position(),
            forall|i: int|
                0 <= i < self.spec_ancestors().len() ==> (
                #[trigger] self.spec_ancestors()[i]).valid() && self.spec_ancestors()[i].position()
                    < self.position(),
            forall|i: int|
                0 <= i < self.spec_preceding_siblings().len() ==> (
                #[trigger] self.spec_preceding_siblings()[i]).valid()
                    && self.spec_preceding_siblings()[i].position() < self.position(),
            self.spec_parent() matches Some(p) ==> p.valid() && p.position() < self.position(),
            forall|m: Self, i: int|
                m.spec_ancestors().contains(*self) && 0 <= i < self.spec_ancestors().len()
                    ==> #[trigger] m.spec_ancestors().contains(self.spec_ancestors()[i]),
            forall|m: Self, i: int|
                #![trigger m.spec_ancestors().contains(*self), self.spec_following_siblings()[i]]
                m.spec_ancestors().contains(*self) && 0 <= i < self.spec_following_siblings().len()
                    ==> m.position() < self.spec_following_siblings()[i].position(),
            forall|m: Self, i: int|
                0 <= i < self.spec_preceding_siblings().len() && #[trigger] m.spec_ancestors().contains(
                    self.spec_preceding_siblings()[i],
                ) ==> m.position() < self.position(),
    ;

    /// Another handle on the same node (what cloning the handle gives).
    fn duplicate(&self) -> (r: Self)
        ensures
            r == *self,
    ;

    fn node_type(&self) -> (r: NodeType)
        ensures
            r == self.spec_node_type(),
    ;

    fn parent(&self) -> (r: Option<Self>)
        ensures
            r == self.spec_parent(),
    ;

    fn children(&self) -> (r: Vec<Self>)
        ensures
            r@ == self.spec_children(),
    ;

    fn descendants(&self) -> (r: Vec<Self>)
        ensures
            r@ == self.spec_descendants(),
    ;

    fn ancestors(&self) -> (r: Vec<Self>)
        ensures
            r@ == self.spec_ancestors(),
    ;

    fn following_siblings(&self) -> (r: Vec<Self>)
        ensures
            r@ == self.spec_following_siblings(),
    ;

    fn preceding_siblings(&self) -> (r: Vec<Self>)
        ensures
            r@ == self.spec_preceding_siblings(),
    ;

    fn attributes(&self) -> (r: Vec<Self>)
        ensures
            r@ == self.spec_attributes(),
    ;

    fn owner_document(&self) -> (r: Self)
        ensures
            r == self.spec_owner_document(),
    ;

    /// Compares two nodes in document order.
    fn cmp_document_order(&self, other: &Self) -> (r: Ordering)
        ensures
            r == position_order(self.position(), other.position()),
    ;

    /// Are the two handles on the same node?
    fn is_same(&self, other: &Self) -> (r: bool)
        ensures
            r == (self.position() == other.position()),
    ;
}

/// An item: a node, or some other value (an atomic value or a function),
/// which navigation only carries along.
#[derive(Debug)]
pub enum Item<N, V> {
    Node(N),
    Value(V),
}

/// A sequence of items.
pub type Sequence<N, V> = Vec<Item<N, V>>;

/// Is `b` a copy of `a`: the same node, or a clone of the value?
pub open spec fn copy_of<N, V: Clone>(a: Item<N, V>, b: Item<N, V>) -> bool {
    match (a, b) {
        (Item::Node(x), Item::Node(y)) => x == y,
        (Item::Value(x), Item::Value(y)) => cloned(x, y),
        _ => false,
    }
}

/// A copy of an item: the same node, or a clone of the value.
pub fn clone_item<N: Node, V: Clone>(i: &Item<N, V>) -> (r: Item<N, V>)
    ensures
        copy_of(*i, r),
{
    match i {
        Item::Node(n) => Item::Node(n.duplicate()),
        Item::Value(v) => Item::Value(v.clone()),
    }
}

} // verus!
