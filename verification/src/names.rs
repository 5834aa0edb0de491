//! XML qualified names — `QName`, `NcName`, namespace types — for the data model.

pub mod collection;
pub mod grammar;
pub mod namespaces;
pub mod ncname;
pub mod order;
pub mod qname;
pub mod unique;

pub use self::collection::{QNameCollection, QNameCollectionIndex};
pub use self::grammar::{check_normalized_value, parse_ncname};
pub use self::namespaces::{InvalidNamespaceDeclaration, NamespaceDeclaration, NamespaceMap};
pub use self::ncname::{InvalidQName, NamespacePrefix, NamespaceUri, NcName};
pub use self::qname::{QName, UniqueQName};
pub use self::unique::UniqueString;
