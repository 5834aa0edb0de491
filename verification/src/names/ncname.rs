//! `NcName`, `NamespaceUri` and `NamespacePrefix`: strings that the XML name
//! grammar has checked.

use vstd::prelude::*;

use super::grammar::{check_normalized_value, is_ncname, is_normalized_value, parse_ncname};
use super::unique::{same_chars, UniqueString};

verus! {

/// An invalid Qualified Name.
#[derive(Debug)]
pub struct InvalidQName;

impl InvalidQName {
    /// The error's message.
    pub fn to_string(&self) -> (r: String)
        ensures
            r@ == "InvalidQName"@,
    {
        String::from_str("InvalidQName")
    }
}

/// The characters `xmlns`, the prefix that no declaration may bind.
pub open spec fn xmlns_chars() -> Seq<char> {
    "xmlns"@
}

/// The characters of an optional namespace URI.
pub open spec fn uri_view(o: Option<NamespaceUri>) -> Option<Seq<char>> {
    match o {
        Some(u) => Some(u@),
        None => None,
    }
}

/// The characters of an optional namespace prefix.
pub open spec fn prefix_view(o: Option<NamespacePrefix>) -> Option<Seq<char>> {
    match o {
        Some(p) => Some(p@),
        None => None,
    }
}

/// Is `value` a whole `NCName`? (`parse_ncname` consumes all of it.)
pub fn is_whole_ncname(value: &str) -> (r: bool)
    ensures
        r == is_ncname(value@),
{
    match parse_ncname(value) {
        Ok((name, rest)) => {
            let whole = rest.is_empty();
            proof {
                if is_ncname(value@) && !whole {
                    let k = name@.len() as int;
                    assert(1 <= k < value@.len());
                    assert(!super::grammar::spec_is_ncname_char(value@[k]));
                }
                if whole {
                    assert(name@.len() == value@.len());
                }
            }
            whole
        },
        Err(()) => false,
    }
}

// ─────────────────────────────────────────────────────────────────────────
//  NamespaceUri
// ─────────────────────────────────────────────────────────────────────────

/// A grammatically valid Namespace URI: a normalized attribute value.
#[derive(Debug, Hash)]
pub struct NamespaceUri(pub(crate) UniqueString);

impl View for NamespaceUri {
    type V = Seq<char>;

    closed spec fn view(&self) -> Seq<char> {
        self.0@
    }
}

impl NamespaceUri {
    #[verifier::type_invariant]
    pub open spec fn wf(self) -> bool {
        is_normalized_value(self@)
    }

    #[must_use]
    pub fn empty() -> (r: Self)
        ensures
            r@ == Seq::<char>::empty(),
    {
        let u = UniqueString::empty();
        proof {
            assert(is_normalized_value(u@));
        }
        Self(u)
    }

    pub fn to_string(&self) -> (r: String)
        ensures
            r@ == self@,
    {
        self.0.to_string()
    }

    /// Borrow the URI without allocating.
    pub fn as_str(&self) -> (r: &str)
        ensures
            r@ == self@,
    {
        self.0.as_str()
    }
}

impl Clone for NamespaceUri {
    fn clone(&self) -> (r: Self)
        ensures
            r@ == self@,
    {
        proof {
            use_type_invariant(self);
        }
        NamespaceUri(self.0.clone())
    }
}

impl TryFrom<&str> for NamespaceUri {
    type Error = InvalidQName;

    fn try_from(value: &str) -> (r: Result<Self, Self::Error>)
        ensures
            r is Ok <==> is_normalized_value(value@),
            r matches Ok(u) ==> u@ == value@,
    {
        if check_normalized_value(value) {
            Ok(Self(UniqueString::from(value)))
        } else {
            Err(InvalidQName)
        }
    }
}

/// The generic `TryFrom` specification compares results with spec equality,
/// which cannot see through the `String` inside; `try_from` states its result
/// in its own `ensures` instead.
impl vstd::std_specs::convert::TryFromSpecImpl<&str> for NamespaceUri {
    open spec fn obeys_try_from_spec() -> bool {
        false
    }

    open spec fn try_from_spec(v: &str) -> Result<Self, Self::Error> {
        vstd::pervasive::arbitrary()
    }
}

impl PartialEq for NamespaceUri {
    fn eq(&self, other: &Self) -> (r: bool) {
        self.0 == other.0
    }
}

impl vstd::std_specs::cmp::PartialEqSpecImpl for NamespaceUri {
    open spec fn obeys_eq_spec() -> bool {
        true
    }

    open spec fn eq_spec(&self, other: &Self) -> bool {
        self@ == other@
    }
}

impl Eq for NamespaceUri {}

impl PartialEq<String> for NamespaceUri {
    fn eq(&self, other: &String) -> (r: bool) {
        same_chars(self.0.as_str(), other.as_str())
    }
}

impl vstd::std_specs::cmp::PartialEqSpecImpl<String> for NamespaceUri {
    open spec fn obeys_eq_spec() -> bool {
        true
    }

    open spec fn eq_spec(&self, other: &String) -> bool {
        self@ == other@
    }
}

impl PartialEq<NamespaceUri> for String {
    fn eq(&self, other: &NamespaceUri) -> (r: bool) {
        same_chars(self.as_str(), other.as_str())
    }
}

impl vstd::std_specs::cmp::PartialEqSpecImpl<NamespaceUri> for String {
    open spec fn obeys_eq_spec() -> bool {
        true
    }

    open spec fn eq_spec(&self, other: &NamespaceUri) -> bool {
        self@ == other@
    }
}

impl PartialEq<str> for NamespaceUri {
    fn eq(&self, other: &str) -> (r: bool) {
        same_chars(self.0.as_str(), other)
    }
}

impl vstd::std_specs::cmp::PartialEqSpecImpl<str> for NamespaceUri {
    open spec fn obeys_eq_spec() -> bool {
        true
    }

    open spec fn eq_spec(&self, other: &str) -> bool {
        self@ == other@
    }
}

impl PartialEq<NamespaceUri> for str {
    fn eq(&self, other: &NamespaceUri) -> (r: bool) {
        same_chars(self, other.as_str())
    }
}

impl vstd::std_specs::cmp::PartialEqSpecImpl<NamespaceUri> for str {
    open spec fn obeys_eq_spec() -> bool {
        true
    }

    open spec fn eq_spec(&self, other: &NamespaceUri) -> bool {
        self@ == other@
    }
}

// ─────────────────────────────────────────────────────────────────────────
//  NcName
// ─────────────────────────────────────────────────────────────────────────

/// A grammatically valid `NcName`.
#[derive(Debug, Hash)]
pub struct NcName(pub(crate) UniqueString);

impl View for NcName {
    type V = Seq<char>;

    closed spec fn view(&self) -> Seq<char> {
        self.0@
    }
}

impl NcName {
    #[verifier::type_invariant]
    pub open spec fn wf(self) -> bool {
        is_ncname(self@)
    }

    pub fn to_string(&self) -> (r: String)
        ensures
            r@ == self@,
    {
        self.0.to_string()
    }

    /// Borrow the local name without allocating.
    pub fn as_str(&self) -> (r: &str)
        ensures
            r@ == self@,
    {
        self.0.as_str()
    }
}

impl Clone for NcName {
    fn clone(&self) -> (r: Self)
        ensures
            r@ == self@,
    {
        proof {
            use_type_invariant(self);
        }
        NcName(self.0.clone())
    }
}

impl TryFrom<&str> for NcName {
    type Error = InvalidQName;

    fn try_from(value: &str) -> (r: Result<Self, Self::Error>)
        ensures
            r is Ok <==> is_ncname(value@),
            r matches Ok(n) ==> n@ == value@,
    {
        if is_whole_ncname(value) {
            Ok(Self(UniqueString::from(value)))
        } else {
            Err(InvalidQName)
        }
    }
}

/// See the note on `NamespaceUri`'s impl: `try_from` states its result itself.
impl vstd::std_specs::convert::TryFromSpecImpl<&str> for NcName {
    open spec fn obeys_try_from_spec() -> bool {
        false
    }

    open spec fn try_from_spec(v: &str) -> Result<Self, Self::Error> {
        vstd::pervasive::arbitrary()
    }
}

impl PartialEq for NcName {
    fn eq(&self, other: &NcName) -> (r: bool) {
        self.0 == other.0
    }
}

impl vstd::std_specs::cmp::PartialEqSpecImpl for NcName {
    open spec fn obeys_eq_spec() -> bool {
        true
    }

    open spec fn eq_spec(&self, other: &Self) -> bool {
        self@ == other@
    }
}

impl Eq for NcName {}

impl PartialEq<String> for NcName {
    fn eq(&self, other: &String) -> (r: bool) {
        same_chars(self.0.as_str(), other.as_str())
    }
}

impl vstd::std_specs::cmp::PartialEqSpecImpl<String> for NcName {
    open spec fn obeys_eq_spec() -> bool {
        true
    }

    open spec fn eq_spec(&self, other: &String) -> bool {
        self@ == other@
    }
}

impl PartialEq<NcName> for String {
    fn eq(&self, other: &NcName) -> (r: bool) {
        same_chars(self.as_str(), other.as_str())
    }
}

impl vstd::std_specs::cmp::PartialEqSpecImpl<NcName> for String {
    open spec fn obeys_eq_spec() -> bool {
        true
    }

    open spec fn eq_spec(&self, other: &NcName) -> bool {
        self@ == other@
    }
}

impl PartialEq<str> for NcName {
    fn eq(&self, other: &str) -> (r: bool) {
        same_chars(self.0.as_str(), other)
    }
}

impl vstd::std_specs::cmp::PartialEqSpecImpl<str> for NcName {
    open spec fn obeys_eq_spec() -> bool {
        true
    }

    open spec fn eq_spec(&self, other: &str) -> bool {
        self@ == other@
    }
}

impl PartialEq<NcName> for str {
    fn eq(&self, other: &NcName) -> (r: bool) {
        same_chars(self, other.as_str())
    }
}

impl vstd::std_specs::cmp::PartialEqSpecImpl<NcName> for str {
    open spec fn obeys_eq_spec() -> bool {
        true
    }

    open spec fn eq_spec(&self, other: &NcName) -> bool {
        self@ == other@
    }
}

// ─────────────────────────────────────────────────────────────────────────
//  NamespacePrefix
// ─────────────────────────────────────────────────────────────────────────

/// A grammatically valid namespace prefix: empty, or an `NcName`.
#[derive(Debug, PartialOrd, Ord, Hash)]
pub struct NamespacePrefix(pub(crate) String);

impl View for NamespacePrefix {
    type V = Seq<char>;

    closed spec fn view(&self) -> Seq<char> {
        self.0@
    }
}

impl NamespacePrefix {
    #[verifier::type_invariant]
    pub open spec fn wf(self) -> bool {
        self@.len() == 0 || is_ncname(self@)
    }

    #[must_use]
    pub fn empty() -> (r: Self)
        ensures
            r@ == Seq::<char>::empty(),
    {
        Self(String::new())
    }

    #[must_use]
    pub fn is_empty(&self) -> (r: bool)
        ensures
            r == (self@.len() == 0),
    {
        self.0.as_str().is_empty()
    }

    pub fn to_string(&self) -> (r: String)
        ensures
            r@ == self@,
    {
        self.0.clone()
    }

    /// Borrow the prefix without allocating.
    pub fn as_str(&self) -> (r: &str)
        ensures
            r@ == self@,
    {
        self.0.as_str()
    }

    /// Returns the prefix as an `NcName`; a non-empty prefix is one.
    pub fn to_ncname(&self) -> (r: NcName)
        requires
            self@.len() > 0,
        ensures
            r@ == self@,
    {
        proof {
            use_type_invariant(self);
        }
        match NcName::try_from(self.0.as_str()) {
            Ok(n) => n,
            Err(_) => {
                proof {
                    assert(false);
                }
                NcName(UniqueString::empty())
            },
        }
    }
}

impl Clone for NamespacePrefix {
    fn clone(&self) -> (r: Self)
        ensures
            r@ == self@,
    {
        proof {
            use_type_invariant(self);
        }
        NamespacePrefix(self.0.clone())
    }
}

impl TryFrom<&str> for NamespacePrefix {
    type Error = InvalidQName;

    fn try_from(value: &str) -> (r: Result<Self, Self::Error>)
        ensures
            r is Ok <==> (value@.len() == 0 || (value@ != xmlns_chars() && is_ncname(value@))),
            r matches Ok(p) ==> p@ == value@,
    {
        if value.is_empty() {
            return Ok(Self::empty());
        }
        if same_chars(value, "xmlns") {
            return Err(InvalidQName);
        }
        if is_whole_ncname(value) {
            return Ok(Self(value.to_owned()));
        }
        Err(InvalidQName)
    }
}

/// See the note on `NamespaceUri`'s impl: `try_from` states its result itself.
impl vstd::std_specs::convert::TryFromSpecImpl<&str> for NamespacePrefix {
    open spec fn obeys_try_from_spec() -> bool {
        false
    }

    open spec fn try_from_spec(v: &str) -> Result<Self, Self::Error> {
        vstd::pervasive::arbitrary()
    }
}

impl PartialEq for NamespacePrefix {
    fn eq(&self, other: &Self) -> (r: bool) {
        self.0 == other.0
    }
}

impl vstd::std_specs::cmp::PartialEqSpecImpl for NamespacePrefix {
    open spec fn obeys_eq_spec() -> bool {
        true
    }

    open spec fn eq_spec(&self, other: &Self) -> bool {
        self@ == other@
    }
}

impl Eq for NamespacePrefix {}

} // verus!
