//! Steps of a path expression: axes and node matching.

pub mod context;
pub mod docorder;
pub mod navigate;

use vstd::prelude::*;

verus! {

/// The axes a step can take from a context node.
#[derive(Clone, Copy, Debug, PartialEq, Eq, Structural)]
pub enum Axis {
    Child,
    Descendant,
    DescendantOrSelf,
    DescendantOrSelfOrRoot,
    Attribute,
    SelfAttribute,
    SelfAxis,
    SelfDocument,
    Following,
    FollowingSibling,
    Namespace,
    Parent,
    ParentDocument,
    Ancestor,
    AncestorOrSelf,
    AncestorOrSelfOrRoot,
    Preceding,
    PrecedingSibling,
    Unknown,
}

/// An axis together with the test that nodes on it must pass.
pub struct NodeMatch<T> {
    pub axis: Axis,
    pub nodetest: T,
}

impl<T> NodeMatch<T> {
    /// Does the node pass the test?
    pub fn matches<N>(&self, n: &N) -> (r: bool) where T: Fn(&N) -> bool
        requires
            call_requires(self.nodetest, (n,)),
        ensures
            call_ensures(self.nodetest, (n,), r),
    {
        (self.nodetest)(n)
    }
}

} // verus!
