//! The order of names: `NcName`s by their characters, `QName`s by local part
//! and then by namespace URI.

use std::cmp::Ordering;

use vstd::prelude::*;
use vstd::std_specs::cmp::PartialOrdSpecImpl;

use super::grammar::chars_of;
use super::ncname::NcName;
use super::qname::QName;

verus! {

/// Lexicographic order of character sequences (the order of `str`, since UTF-8
/// keeps the order of code points).
pub open spec fn lex_order(a: Seq<char>, b: Seq<char>) -> Ordering
    decreases a.len(),
{
    if a.len() == 0 {
        if b.len() == 0 {
            Ordering::Equal
        } else {
            Ordering::Less
        }
    } else if b.len() == 0 {
        Ordering::Greater
    } else if a[0] < b[0] {
        Ordering::Less
    } else if b[0] < a[0] {
        Ordering::Greater
    } else {
        lex_order(a.drop_first(), b.drop_first())
    }
}

/// The order of qualified names: by local part; between equal local parts,
/// two names without a namespace are equal, two with one go by the URI, and
/// otherwise the left one is the lesser, whichever side lacks the namespace.
pub open spec fn qname_order(a: (Option<Seq<char>>, Seq<char>), b: (Option<Seq<char>>, Seq<char>)) -> Ordering {
    match lex_order(a.1, b.1) {
        Ordering::Equal => match (a.0, b.0) {
            (None, None) => Ordering::Equal,
            (Some(x), Some(y)) => lex_order(x, y),
            _ => Ordering::Less,
        },
        other => other,
    }
}

/// The opposite of an ordering.
pub open spec fn flipped(o: Ordering) -> Ordering {
    match o {
        Ordering::Less => Ordering::Greater,
        Ordering::Equal => Ordering::Equal,
        Ordering::Greater => Ordering::Less,
    }
}

/// Lexicographic order is antisymmetric, and it calls two sequences equal
/// exactly when they are.
pub proof fn lemma_lex_order_antisymmetric(a: Seq<char>, b: Seq<char>)
    ensures
        lex_order(b, a) == flipped(lex_order(a, b)),
        lex_order(a, b) == Ordering::Equal <==> a == b,
    decreases a.len(),
{
    if a.len() == 0 && b.len() == 0 {
        assert(a =~= b);
    } else if a.len() > 0 && b.len() > 0 && a[0] == b[0] {
        lemma_lex_order_antisymmetric(a.drop_first(), b.drop_first());
        if a.drop_first() == b.drop_first() {
            assert(a =~= seq![a[0]] + a.drop_first());
            assert(b =~= seq![b[0]] + b.drop_first());
        }
    }
}

/// Lexicographic order is transitive.
pub proof fn lemma_lex_order_transitive(a: Seq<char>, b: Seq<char>, c: Seq<char>, o: Ordering)
    requires
        lex_order(a, b) == o,
        lex_order(b, c) == o,
    ensures
        lex_order(a, c) == o,
    decreases a.len(),
{
    if a.len() > 0 && b.len() > 0 && c.len() > 0 && a[0] == b[0] && b[0] == c[0] {
        lemma_lex_order_transitive(a.drop_first(), b.drop_first(), c.drop_first(), o);
    }
}

/// Between names that both have a namespace or both lack one, or whose local
/// parts differ, the order of qualified names is antisymmetric. (A name with a
/// namespace and one without, with equal local parts, are each less than the
/// other.)
pub proof fn lemma_qname_order_antisymmetric(
    a: (Option<Seq<char>>, Seq<char>),
    b: (Option<Seq<char>>, Seq<char>),
)
    requires
        a.1 != b.1 || a.0 is Some == b.0 is Some,
    ensures
        qname_order(b, a) == flipped(qname_order(a, b)),
        qname_order(a, b) == Ordering::Equal <==> a == b,
{
    lemma_lex_order_antisymmetric(a.1, b.1);
    if let (Some(x), Some(y)) = (a.0, b.0) {
        lemma_lex_order_antisymmetric(x, y);
    }
}

/// Among names that all have a namespace, or all lack one, the order of
/// qualified names is transitive.
pub proof fn lemma_qname_order_transitive(
    a: (Option<Seq<char>>, Seq<char>),
    b: (Option<Seq<char>>, Seq<char>),
    c: (Option<Seq<char>>, Seq<char>),
    o: Ordering,
)
    requires
        a.0 is Some == b.0 is Some,
        b.0 is Some == c.0 is Some,
        qname_order(a, b) == o,
        qname_order(b, c) == o,
    ensures
        qname_order(a, c) == o,
{
    lemma_lex_order_antisymmetric(a.1, b.1);
    lemma_lex_order_antisymmetric(b.1, c.1);
    lemma_lex_order_antisymmetric(a.1, c.1);
    let la = lex_order(a.1, b.1);
    let lb = lex_order(b.1, c.1);
    if la == Ordering::Equal && lb == Ordering::Equal {
        if let (Some(x), Some(y), Some(z)) = (a.0, b.0, c.0) {
            lemma_lex_order_transitive(x, y, z, o);
        }
    } else if la == Ordering::Equal {
        assert(a.1 == b.1);
    } else if lb == Ordering::Equal {
        assert(b.1 == c.1);
    } else {
        lemma_lex_order_transitive(a.1, b.1, c.1, o);
    }
}

/// Compares two strings by their characters.
pub fn compare_chars(a: &str, b: &str) -> (r: Ordering)
    ensures
        r == lex_order(a@, b@),
{
    let x = chars_of(a);
    let y = chars_of(b);
    let mut i: usize = 0;
    let ghost mut k: int = 0;
    assert(x@.skip(0) =~= x@);
    assert(y@.skip(0) =~= y@);
    loop
        invariant
            x@ == a@,
            y@ == b@,
            i <= x@.len(),
            i <= y@.len(),
            lex_order(a@, b@) == lex_order(x@.skip(k), y@.skip(k)),
            k == i,
        decreases x@.len() - i,
    {
        if i == x.len() {
            if i == y.len() {
                return Ordering::Equal;
            }
            return Ordering::Less;
        }
        if i == y.len() {
            return Ordering::Greater;
        }
        if x[i] < y[i] {
            return Ordering::Less;
        }
        if y[i] < x[i] {
            return Ordering::Greater;
        }
        assert(x@.skip(k).drop_first() =~= x@.skip(k + 1));
        assert(y@.skip(k).drop_first() =~= y@.skip(k + 1));
        i = i + 1;
        proof {
            k = k + 1;
        }
    }
}

impl PartialOrd for NcName {
    fn partial_cmp(&self, other: &Self) -> (r: Option<Ordering>) {
        Some(compare_chars(self.as_str(), other.as_str()))
    }
}

impl PartialOrdSpecImpl for NcName {
    open spec fn obeys_partial_cmp_spec() -> bool {
        true
    }

    open spec fn partial_cmp_spec(&self, other: &Self) -> Option<Ordering> {
        Some(lex_order(self@, other@))
    }
}

impl PartialOrd for QName {
    fn partial_cmp(&self, other: &Self) -> (r: Option<Ordering>) {
        let local = compare_chars(self.local_name().as_str(), other.local_name().as_str());
        match local {
            Ordering::Equal => match (self.namespace_uri(), other.namespace_uri()) {
                (None, None) => Some(Ordering::Equal),
                (Some(x), Some(y)) => Some(compare_chars(x.as_str(), y.as_str())),
                _ => Some(Ordering::Less),
            },
            other_order => Some(other_order),
        }
    }
}

impl PartialOrdSpecImpl for QName {
    open spec fn obeys_partial_cmp_spec() -> bool {
        true
    }

    open spec fn partial_cmp_spec(&self, other: &Self) -> Option<Ordering> {
        Some(qname_order(self@, other@))
    }
}

} // verus!
