//! The dynamic context that expressions are evaluated in.

use vstd::prelude::*;

use crate::item::{Item, Sequence};

verus! {

/// The focus of evaluation: the context sequence and the context item.
pub struct Context<N, V> {
    pub context: Sequence<N, V>,
    pub context_item: Option<Item<N, V>>,
}

} // verus!
