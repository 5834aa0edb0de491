use chadpath::names::{
    InvalidNamespaceDeclaration, InvalidQName, NamespaceDeclaration, NamespaceMap,
    NamespacePrefix, NamespaceUri, NcName, QName, QNameCollection, UniqueQName, UniqueString,
};
use std::cmp::Ordering;

fn uri(s: &str) -> NamespaceUri {
    NamespaceUri::try_from(s).unwrap()
}

fn nc(s: &str) -> NcName {
    NcName::try_from(s).unwrap()
}

fn prefix(s: &str) -> NamespacePrefix {
    NamespacePrefix::try_from(s).unwrap()
}

#[test]
fn ncname_grammar() {
    assert!(NcName::try_from("a-b.c_1").is_ok());
    assert!(NcName::try_from("é·x").is_ok());
    assert!(NcName::try_from("").is_err());
    assert!(NcName::try_from("1a").is_err());
    assert!(NcName::try_from("a:b").is_err());
    assert!(NcName::try_from("a b").is_err());
    assert_eq!(nc("abc").to_string(), "abc");
    assert_eq!(nc("abc").as_str(), "abc");
}

#[test]
fn namespace_uri_must_be_normalized() {
    assert!(NamespaceUri::try_from("urn:x y").is_ok());
    assert!(NamespaceUri::try_from("urn:x\ny").is_err());
    assert!(NamespaceUri::try_from(" urn").is_err());
    assert_eq!(uri("urn:a").to_string(), "urn:a");
    assert_eq!(NamespaceUri::empty().to_string(), "");
}

#[test]
fn prefixes() {
    assert!(prefix("").is_empty());
    assert!(NamespacePrefix::empty().is_empty());
    assert!(!prefix("p").is_empty());
    assert_eq!(prefix("p").to_string(), "p");
    assert_eq!(prefix("p").to_ncname().to_string(), "p");
    assert!(NamespacePrefix::try_from("1p").is_err());
    assert!(NamespacePrefix::try_from("xml").is_ok());
}

#[test]
fn cross_type_equality() {
    let n = nc("x");
    assert!(n == *"x");
    assert!(n == String::from("x"));
    assert!(String::from("x") == n);
    assert!(*"x" == n);
    assert!(n != *"y");
    let u = uri("urn:a");
    assert!(u == *"urn:a");
    assert!(u == String::from("urn:a"));
    assert!(String::from("urn:b") != u);
    assert!(*"urn:a" == u);
    let s = UniqueString::from("q");
    assert!(s == *"q");
    assert!(s == String::from("q"));
    assert_eq!(UniqueString::empty().to_string(), "");
    assert_eq!(s.as_str(), "q");
}

#[test]
fn error_messages() {
    assert_eq!(InvalidQName.to_string(), "InvalidQName");
    assert_eq!(InvalidNamespaceDeclaration.to_string(), "Invalid namespace declaration");
}

#[test]
fn qname_parts_and_display() {
    let q = QName::new_from_parts(nc("x"), Some(uri("urn:a")));
    assert_eq!(q.local_name().to_string(), "x");
    assert_eq!(q.namespace_uri().unwrap().to_string(), "urn:a");
    assert_eq!(q.to_string(), "{urn:a}x");
    let plain = QName::try_from("y").unwrap();
    assert!(plain.namespace_uri().is_none());
    assert_eq!(plain.to_string(), "y");
    assert!(QName::try_from("not valid").is_err());
    let d = NamespaceDeclaration::new(Some(prefix("p")), uri("urn:p")).unwrap();
    let q2 = QName::new(nc("z"), Some(d));
    assert_eq!(q2.to_string(), "{urn:p}z");
    assert_eq!(QName::new(nc("z"), None), QName::try_from("z").unwrap());
    let u = UniqueQName::new(Some(uri("urn:a")), nc("x"));
    assert_eq!(u.local_name().to_string(), "x");
    assert_eq!(u.namespace_uri().unwrap().to_string(), "urn:a");
    assert_eq!(u, UniqueQName::new(Some(uri("urn:a")), nc("x")));
    assert_ne!(u, UniqueQName::new(None, nc("x")));
}

#[test]
fn qname_equality_is_by_namespace_and_local_part() {
    // "Q{a}b" could be read as local part "Q{a}b" or as namespace "a", local "b";
    // the grammar keeps the two apart.
    let a = QName::new_from_parts(nc("b"), Some(uri("a")));
    let b = QName::new_from_parts(nc("b"), Some(uri("a}")));
    assert_ne!(a, b);
    assert_ne!(QName::new_from_parts(nc("b"), Some(uri(""))), QName::try_from("b").unwrap());
    assert_eq!(a.clone(), a);
}

#[test]
fn qname_order() {
    let x = QName::try_from("a").unwrap();
    let y = QName::try_from("b").unwrap();
    assert_eq!(x.partial_cmp(&y), Some(Ordering::Less));
    assert_eq!(y.partial_cmp(&x), Some(Ordering::Greater));
    let p = QName::new_from_parts(nc("a"), Some(uri("urn:1")));
    let q = QName::new_from_parts(nc("a"), Some(uri("urn:2")));
    assert_eq!(p.partial_cmp(&q), Some(Ordering::Less));
    assert_eq!(p.partial_cmp(&p.clone()), Some(Ordering::Equal));
    // With equal local parts, a name with a namespace and one without are each
    // less than the other.
    assert_eq!(p.partial_cmp(&x), Some(Ordering::Less));
    assert_eq!(x.partial_cmp(&p), Some(Ordering::Less));
    assert!(nc("ab") < nc("b"));
    assert!(nc("a") < nc("ab"));
    assert_eq!(nc("é").partial_cmp(&nc("z")), Some(Ordering::Greater));
}

#[test]
fn declarations_keep_xml_and_xmlns_bound() {
    let xml = "http://www.w3.org/XML/1998/namespace";
    let xmlns = "http://www.w3.org/2000/xmlns/";
    assert!(NamespaceDeclaration::new(Some(prefix("xml")), uri(xml)).is_ok());
    assert!(NamespaceDeclaration::new(Some(prefix("xml")), uri("urn:x")).is_err());
    assert!(NamespaceDeclaration::new(Some(prefix("p")), uri(xml)).is_err());
    assert!(NamespaceDeclaration::new(None, uri(xml)).is_err());
    assert!(NamespaceDeclaration::new(Some(prefix("p")), uri(xmlns)).is_err());
    assert!(NamespaceDeclaration::new(None, uri("urn:x")).is_ok());
    let d = NamespaceDeclaration::new(Some(prefix("p")), uri("urn:p")).unwrap();
    assert_eq!(d.namespace_prefix().unwrap().to_string(), "p");
    assert_eq!(d.namespace_uri().to_string(), "urn:p");
}

#[test]
fn new_map_binds_xml() {
    let m = NamespaceMap::new();
    let xml = m.namespace_uri(&Some(prefix("xml"))).unwrap();
    assert_eq!(xml.to_string(), "http://www.w3.org/XML/1998/namespace");
    assert_eq!(m.prefix(&xml).unwrap().to_string(), "xml");
    assert!(m.namespace_uri(&None).is_none());
    assert!(NamespaceMap::default().namespace_uri(&Some(prefix("xml"))).is_some());
}

#[test]
fn push_then_lookup() {
    let mut m = NamespaceMap::new();
    m.push(NamespaceDeclaration::new(Some(prefix("p")), uri("urn:p")).unwrap());
    m.push(NamespaceDeclaration::new(None, uri("urn:d")).unwrap());
    assert_eq!(m.namespace_uri(&Some(prefix("p"))).unwrap().to_string(), "urn:p");
    assert_eq!(m.namespace_uri(&None).unwrap().to_string(), "urn:d");
    assert_eq!(m.prefix(&uri("urn:p")).unwrap().to_string(), "p");
    assert!(m.prefix(&uri("urn:d")).is_none());
    // A later declaration of the same prefix replaces the earlier one.
    m.push(NamespaceDeclaration::new(Some(prefix("p")), uri("urn:q")).unwrap());
    assert_eq!(m.namespace_uri(&Some(prefix("p"))).unwrap().to_string(), "urn:q");
    let c = m.clone();
    assert_eq!(c.namespace_uri(&Some(prefix("p"))).unwrap().to_string(), "urn:q");
}

#[test]
fn push_then_pop() {
    let mut m = NamespaceMap::new();
    m.push(NamespaceDeclaration::new(Some(prefix("p")), uri("urn:p")).unwrap());
    let d = m.pop_prefix(&Some(prefix("p"))).unwrap();
    assert_eq!(d.namespace_uri().to_string(), "urn:p");
    assert!(m.namespace_uri(&Some(prefix("p"))).is_none());
    assert!(m.prefix(&uri("urn:p")).is_none());
    assert!(m.pop_prefix(&Some(prefix("p"))).is_none());
    assert!(m.namespace_uri(&Some(prefix("xml"))).is_some());
}

#[test]
fn pop_prefix_drops_the_uri_entry_even_when_rebound() {
    let mut m = NamespaceMap::new();
    m.push(NamespaceDeclaration::new(Some(prefix("a")), uri("urn:u")).unwrap());
    m.push(NamespaceDeclaration::new(Some(prefix("b")), uri("urn:u")).unwrap());
    assert_eq!(m.prefix(&uri("urn:u")).unwrap().to_string(), "b");
    m.pop_prefix(&Some(prefix("a")));
    assert!(m.prefix(&uri("urn:u")).is_none());
    assert_eq!(m.namespace_uri(&Some(prefix("b"))).unwrap().to_string(), "urn:u");
}

#[test]
fn collection_adds_each_name_once() {
    let mut c = QNameCollection::new();
    let d = || NamespaceDeclaration::new(Some(prefix("p")), uri("urn:p")).unwrap();
    let i = c.add(d(), nc("x"));
    let j = c.add(d(), nc("y"));
    let k = c.add(d(), nc("x"));
    assert_eq!(c.local_name(i).to_string(), "x");
    assert_eq!(c.local_name(j).to_string(), "y");
    assert_eq!(c.local_name(k).to_string(), "x");
    assert_eq!(c.namespace_uri(k).unwrap().to_string(), "urn:p");
    assert_eq!(c.get(i), c.get(k));
    assert_ne!(c.get(i), c.get(j));
    let other = NamespaceDeclaration::new(None, uri("urn:o")).unwrap();
    let l = c.add(other, nc("x"));
    assert_eq!(c.namespace_uri(l).unwrap().to_string(), "urn:o");
    assert_ne!(c.get(l), c.get(i));
    // Indexes compare by the collection they belong to.
    assert!(i == j);
    assert!(i != *c.get(i));
    assert!(*c.get(i) != i);
    assert!(QNameCollection::default().add(d(), nc("z")) == i);
}

#[test]
fn lookups_follow_the_history_of_calls() {
    let mut m = NamespaceMap::new();
    m.push(NamespaceDeclaration::new(Some(prefix("a")), uri("urn:1")).unwrap());
    m.push(NamespaceDeclaration::new(Some(prefix("a")), uri("urn:2")).unwrap());
    assert_eq!(m.namespace_uri(&Some(prefix("a"))).unwrap().to_string(), "urn:2");
    m.push(NamespaceDeclaration::new(Some(prefix("b")), uri("urn:2")).unwrap());
    assert_eq!(m.prefix(&uri("urn:2")).unwrap().to_string(), "b");
    assert_eq!(m.prefix(&uri("urn:1")).unwrap().to_string(), "a");
    // Popping `a` takes away the declaration filed under `a`, which declared urn:2.
    let d = m.pop_prefix(&Some(prefix("a"))).unwrap();
    assert_eq!(d.namespace_uri().to_string(), "urn:2");
    assert!(m.namespace_uri(&Some(prefix("a"))).is_none());
    assert!(m.prefix(&uri("urn:2")).is_none());
    assert_eq!(m.namespace_uri(&Some(prefix("b"))).unwrap().to_string(), "urn:2");
    assert_eq!(m.prefix(&uri("urn:1")).unwrap().to_string(), "a");
}
