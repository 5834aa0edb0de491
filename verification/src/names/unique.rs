//! The string storage behind every name.

use vstd::prelude::*;

use super::grammar::chars_of;

verus! {

/// An owned string used as the storage for names. Two `UniqueString`s are equal
/// when their contents are equal.
#[derive(Debug, Hash)]
pub struct UniqueString(String);

impl View for UniqueString {
    type V = Seq<char>;

    closed spec fn view(&self) -> Seq<char> {
        self.0@
    }
}

impl UniqueString {
    pub fn empty() -> (r: Self)
        ensures
            r@ == Seq::<char>::empty(),
    {
        UniqueString(String::new())
    }

    pub fn to_string(&self) -> (r: String)
        ensures
            r@ == self@,
    {
        self.0.clone()
    }

    /// Borrow the contents without allocating.
    pub fn as_str(&self) -> (r: &str)
        ensures
            r@ == self@,
    {
        self.0.as_str()
    }
}

impl Clone for UniqueString {
    fn clone(&self) -> (r: Self)
        ensures
            r@ == self@,
    {
        UniqueString(self.0.clone())
    }
}

impl From<&str> for UniqueString {
    fn from(value: &str) -> (r: Self)
        ensures
            r@ == value@,
    {
        UniqueString(value.to_owned())
    }
}

/// Spec equality cannot express what `from` builds (two `String`s with the same
/// characters are not known to be the same value), so the generic `From`
/// specification is not claimed; the `ensures` on `from` states the result.
impl vstd::std_specs::convert::FromSpecImpl<&str> for UniqueString {
    open spec fn obeys_from_spec() -> bool {
        false
    }

    open spec fn from_spec(v: &str) -> Self {
        vstd::pervasive::arbitrary()
    }
}

impl PartialEq for UniqueString {
    fn eq(&self, other: &Self) -> (r: bool) {
        self.0 == other.0
    }
}

impl vstd::std_specs::cmp::PartialEqSpecImpl for UniqueString {
    open spec fn obeys_eq_spec() -> bool {
        true
    }

    open spec fn eq_spec(&self, other: &Self) -> bool {
        self@ == other@
    }
}

impl Eq for UniqueString {}

impl PartialEq<String> for UniqueString {
    fn eq(&self, other: &String) -> (r: bool) {
        same_chars(self.0.as_str(), other.as_str())
    }
}

impl vstd::std_specs::cmp::PartialEqSpecImpl<String> for UniqueString {
    open spec fn obeys_eq_spec() -> bool {
        true
    }

    open spec fn eq_spec(&self, other: &String) -> bool {
        self@ == other@
    }
}

impl PartialEq<str> for UniqueString {
    fn eq(&self, other: &str) -> (r: bool) {
        same_chars(self.0.as_str(), other)
    }
}

impl vstd::std_specs::cmp::PartialEqSpecImpl<str> for UniqueString {
    open spec fn obeys_eq_spec() -> bool {
        true
    }

    open spec fn eq_spec(&self, other: &str) -> bool {
        self@ == other@
    }
}

/// Do two strings hold the same characters?
pub fn same_chars(a: &str, b: &str) -> (r: bool)
    ensures
        r == (a@ == b@),
{
    let x = chars_of(a);
    let y = chars_of(b);
    if x.len() != y.len() {
        return false;
    }
    let mut i: usize = 0;
    while i < x.len()
        invariant
            x@ == a@,
            y@ == b@,
            x@.len() == y@.len(),
            i <= x@.len(),
            forall|k: int| 0 <= k < i ==> x@[k] == y@[k],
        decreases x.len() - i,
    {
        if x[i] != y[i] {
            return false;
        }
        i = i + 1;
    }
    assert(x@ =~= y@);
    true
}

} // verus!
