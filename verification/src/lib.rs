//! XML qualified names, the XML name grammar, and navigation over trees of
//! nodes, with verified contracts.

pub mod item;
pub mod names;
pub mod transform;
pub mod trees;
pub mod xdmerror;
