use chadpath::names::{
    check_normalized_value, parse_ncname, NamespacePrefix, NamespaceUri, NcName, QName,
    UniqueString,
};
use std::collections::hash_map::DefaultHasher;
use std::collections::HashMap;
use std::hash::{Hash, Hasher};

#[test]
fn parse_valid_ncname() {
    let (ncname, left) = parse_ncname("ok").unwrap();
    assert_eq!(ncname, "ok");
    assert_eq!(left, "");
}

#[test]
fn parse_valid_ncname_with_extra() {
    let (ncname, left) = parse_ncname("ok!").unwrap();
    assert_eq!(ncname, "ok");
    assert_eq!(left, "!");
}

#[test]
fn parse_invalid_ncname() {
    assert!(parse_ncname("!").is_err());
    assert!(parse_ncname(":").is_err());
    assert!(parse_ncname(" ").is_err());
}

#[test]
fn invalid_xmlns_prefix() {
    assert!(NamespacePrefix::try_from("xmlns").is_err());
}

#[test]
fn normalized_attribute_value() {
    assert!(check_normalized_value(""));
    assert!(check_normalized_value("ok"));
    assert!(!check_normalized_value(" "));
    assert!(!check_normalized_value(" a"));
    assert!(!check_normalized_value("a "));
    assert!(check_normalized_value("a b"));
    assert!(!check_normalized_value("a  b"));
    assert!(!check_normalized_value("a\tb"));
    assert!(check_normalized_value("note-♩"));
}

#[test]
fn independently_constructed_equal_names_are_equal() {
    let a = UniqueString::from("ok");
    let b = UniqueString::from("ok");
    assert_eq!(a, b);
    let mut ha = DefaultHasher::new();
    let mut hb = DefaultHasher::new();
    a.hash(&mut ha);
    b.hash(&mut hb);
    assert_eq!(ha.finish(), hb.finish());
}

#[test]
fn qname_equality_uses_uri_and_local() {
    let ns = NamespaceUri::try_from("ns1").unwrap();
    let a = QName::new_from_parts(NcName::try_from("x").unwrap(), Some(ns.clone()));
    let b = QName::new_from_parts(NcName::try_from("x").unwrap(), Some(ns));
    let c = QName::from_local_name(NcName::try_from("x").unwrap());
    assert_eq!(a, b);
    assert_ne!(a, c);
    assert_eq!(a.local_name().to_string(), "x");
}

#[test]
fn qname_hash_consistent_with_eq() {
    let mut m: HashMap<QName, u32> = HashMap::new();
    m.insert(QName::try_from("div").unwrap(), 1);
    assert_eq!(m.get(&QName::try_from("div").unwrap()), Some(&1));
    assert_eq!(m.get(&QName::try_from("span").unwrap()), None);
}
