//! Qualified names: a local `NcName` with an optional namespace URI.

use vstd::prelude::*;

use super::grammar::{is_ncname, spec_is_ncname_char, spec_is_ncname_start_char};
use super::namespaces::NamespaceDeclaration;
use super::ncname::{uri_view, InvalidQName, NamespaceUri, NcName};
use super::unique::UniqueString;

verus! {

/// The URI-qualified form of a name: `Q{uri}local`, or just `local` when there
/// is no namespace.
pub open spec fn qualified_form(ns: Option<Seq<char>>, local: Seq<char>) -> Seq<char> {
    match ns {
        Some(u) => seq!['Q', '{'] + u + seq!['}'] + local,
        None => local,
    }
}

/// The display form of a name: `{uri}local`, or just `local`.
pub open spec fn display_form(ns: Option<Seq<char>>, local: Seq<char>) -> Seq<char> {
    match ns {
        Some(u) => seq!['{'] + u + seq!['}'] + local,
        None => local,
    }
}

/// The URI-qualified form identifies a name: two names (with valid local
/// parts) have the same URI-qualified form exactly when they have the same
/// namespace and the same local part.
pub proof fn lemma_qualified_form_identifies(
    ns1: Option<Seq<char>>,
    local1: Seq<char>,
    ns2: Option<Seq<char>>,
    local2: Seq<char>,
)
    requires
        is_ncname(local1),
        is_ncname(local2),
    ensures
        qualified_form(ns1, local1) == qualified_form(ns2, local2) <==> (ns1 == ns2 && local1
            == local2),
{
    let q1 = qualified_form(ns1, local1);
    let q2 = qualified_form(ns2, local2);
    if q1 == q2 {
        match (ns1, ns2) {
            (None, None) => {},
            (None, Some(u2)) => {
                assert(q2[1] == '{');
                assert(spec_is_ncname_char(local1[1]));
            },
            (Some(u1), None) => {
                assert(q1[1] == '{');
                assert(spec_is_ncname_char(local2[1]));
            },
            (Some(u1), Some(u2)) => {
                let n = q1.len();
                let p1 = seq!['Q', '{'] + u1 + seq!['}'];
                let p2 = seq!['Q', '{'] + u2 + seq!['}'];
                assert(q1 == p1 + local1);
                assert(q2 == p2 + local2);
                if local1.len() < local2.len() {
                    let k = n - local1.len() - 1;
                    assert(q1[k] == '}');
                    let j = k - p2.len();
                    assert(0 <= j < local2.len());
                    assert(q2[k] == local2[j]);
                    if j == 0 {
                        assert(spec_is_ncname_start_char(local2[0]));
                    } else {
                        assert(spec_is_ncname_char(local2[j]));
                    }
                } else if local2.len() < local1.len() {
                    let k = n - local2.len() - 1;
                    assert(q2[k] == '}');
                    let j = k - p1.len();
                    assert(0 <= j < local1.len());
                    assert(q1[k] == local1[j]);
                    if j == 0 {
                        assert(spec_is_ncname_start_char(local1[0]));
                    } else {
                        assert(spec_is_ncname_char(local1[j]));
                    }
                } else {
                    assert(p1 =~= q1.take(p1.len() as int));
                    assert(p2 =~= q2.take(p2.len() as int));
                    assert(local1 =~= q1.skip(p1.len() as int));
                    assert(local2 =~= q2.skip(p2.len() as int));
                    assert(u1 =~= p1.subrange(2, p1.len() - 1));
                    assert(u2 =~= p2.subrange(2, p2.len() - 1));
                }
            },
        }
    }
}

fn clone_uri(ns: &Option<NamespaceUri>) -> (r: Option<NamespaceUri>)
    ensures
        uri_view(r) == uri_view(*ns),
{
    match ns {
        Some(u) => Some(u.clone()),
        None => None,
    }
}

/// A namespace-qualified name. Equality uses the URI-qualified form
/// (`Q{uri}local`), so two names are equal iff both URI and local part match.
#[derive(Debug, Hash)]
pub struct UniqueQName {
    namespace_uri: Option<NamespaceUri>,
    local_name: NcName,
    uriqualified: UniqueString,
}

impl View for UniqueQName {
    type V = (Option<Seq<char>>, Seq<char>);

    closed spec fn view(&self) -> (Option<Seq<char>>, Seq<char>) {
        (uri_view(self.namespace_uri), self.local_name@)
    }
}

impl UniqueQName {
    #[verifier::type_invariant]
    closed spec fn wf(self) -> bool {
        &&& is_ncname(self.local_name@)
        &&& self.uriqualified@ == qualified_form(uri_view(self.namespace_uri), self.local_name@)
    }

    /// The URI-qualified form of the name.
    pub closed spec fn qualified(&self) -> Seq<char> {
        self.uriqualified@
    }

    pub fn new(namespace_uri: Option<NamespaceUri>, local_name: NcName) -> (r: Self)
        ensures
            r@ == (uri_view(namespace_uri), local_name@),
            r.qualified() == qualified_form(uri_view(namespace_uri), local_name@),
    {
        proof {
            use_type_invariant(&local_name);
        }
        let mut text = String::new();
        match &namespace_uri {
            Some(ns) => {
                proof {
                    reveal_strlit("Q{");
                    reveal_strlit("}");
                }
                text.append("Q{");
                text.append(ns.as_str());
                text.append("}");
                text.append(local_name.as_str());
                assert(text@ =~= qualified_form(uri_view(namespace_uri), local_name@));
            },
            None => {
                text.append(local_name.as_str());
                assert(text@ =~= local_name@);
            },
        }
        let uriqualified = UniqueString::from(text.as_str());
        UniqueQName { namespace_uri, local_name, uriqualified }
    }

    pub fn namespace_uri(&self) -> (r: Option<NamespaceUri>)
        ensures
            uri_view(r) == self@.0,
    {
        clone_uri(&self.namespace_uri)
    }

    pub fn local_name(&self) -> (r: NcName)
        ensures
            r@ == self@.1,
    {
        self.local_name.clone()
    }
}

impl Clone for UniqueQName {
    fn clone(&self) -> (r: Self)
        ensures
            r@ == self@,
            r.qualified() == self.qualified(),
    {
        proof {
            use_type_invariant(self);
        }
        UniqueQName {
            namespace_uri: clone_uri(&self.namespace_uri),
            local_name: self.local_name.clone(),
            uriqualified: self.uriqualified.clone(),
        }
    }
}

impl PartialEq for UniqueQName {
    fn eq(&self, other: &Self) -> (r: bool) {
        proof {
            use_type_invariant(self);
            use_type_invariant(other);
            lemma_qualified_form_identifies(
                uri_view(self.namespace_uri),
                self.local_name@,
                uri_view(other.namespace_uri),
                other.local_name@,
            );
        }
        self.uriqualified == other.uriqualified
    }
}

impl vstd::std_specs::cmp::PartialEqSpecImpl for UniqueQName {
    open spec fn obeys_eq_spec() -> bool {
        true
    }

    open spec fn eq_spec(&self, other: &Self) -> bool {
        self@ == other@
    }
}

impl Eq for UniqueQName {}

// ─────────────────────────────────────────────────────────────────────────
//  QName
// ─────────────────────────────────────────────────────────────────────────

/// A Qualified Name in XML Namespaces. Comparing is content-based on the
/// URI-qualified form.
#[derive(Debug, Hash)]
pub struct QName {
    qname: UniqueQName,
}

impl View for QName {
    type V = (Option<Seq<char>>, Seq<char>);

    closed spec fn view(&self) -> (Option<Seq<char>>, Seq<char>) {
        self.qname@
    }
}

impl QName {
    /// Create a Qualified Name using a [`NamespaceDeclaration`].
    #[must_use]
    pub fn new(local_name: NcName, namespace: Option<NamespaceDeclaration>) -> (r: Self)
        ensures
            r@ == (
                match namespace {
                    Some(nd) => Some(nd@.1),
                    None => None,
                },
                local_name@,
            ),
    {
        let namespace_uri = match namespace {
            Some(nd) => Some(nd.namespace_uri()),
            None => None,
        };
        Self { qname: UniqueQName::new(namespace_uri, local_name) }
    }

    /// Create a Qualified Name using a [`NamespaceUri`].
    #[must_use]
    pub fn new_from_parts(local_name: NcName, namespace_uri: Option<NamespaceUri>) -> (r: Self)
        ensures
            r@ == (uri_view(namespace_uri), local_name@),
    {
        Self { qname: UniqueQName::new(namespace_uri, local_name) }
    }

    /// Create an unprefixed Qualified Name (no namespace URI).
    #[must_use]
    pub fn from_local_name(local_name: NcName) -> (r: Self)
        ensures
            r@ == (None::<Seq<char>>, local_name@),
    {
        Self { qname: UniqueQName::new(None, local_name) }
    }

    /// The local part of the Qualified Name.
    #[must_use]
    pub fn local_name(&self) -> (r: NcName)
        ensures
            r@ == self@.1,
    {
        self.qname.local_name()
    }

    /// The [`NamespaceUri`] of the Qualified Name, if any.
    #[must_use]
    pub fn namespace_uri(&self) -> (r: Option<NamespaceUri>)
        ensures
            uri_view(r) == self@.0,
    {
        self.qname.namespace_uri()
    }

    /// The display form: `{uri}local`, or just `local` without a namespace.
    pub fn to_string(&self) -> (r: String)
        ensures
            r@ == display_form(self@.0, self@.1),
    {
        let local = self.local_name();
        let mut text = String::new();
        match self.namespace_uri() {
            Some(ns) => {
                proof {
                    reveal_strlit("{");
                    reveal_strlit("}");
                }
                text.append("{");
                text.append(ns.as_str());
                text.append("}");
                text.append(local.as_str());
                assert(text@ =~= display_form(self@.0, self@.1));
            },
            None => {
                text.append(local.as_str());
                assert(text@ =~= local@);
            },
        }
        text
    }
}

impl Clone for QName {
    fn clone(&self) -> (r: Self)
        ensures
            r@ == self@,
    {
        QName { qname: self.qname.clone() }
    }
}

/// Creates an unprefixed QName. Value must be a valid NcName.
impl TryFrom<&str> for QName {
    type Error = InvalidQName;

    fn try_from(value: &str) -> (r: Result<Self, Self::Error>)
        ensures
            r is Ok <==> is_ncname(value@),
            r matches Ok(q) ==> q@ == (None::<Seq<char>>, value@),
    {
        let local = NcName::try_from(value)?;
        Ok(QName { qname: UniqueQName::new(None, local) })
    }
}

/// The generic `TryFrom` specification compares results with spec equality,
/// which cannot see through the `String`s inside; `try_from` states its result
/// in its own `ensures` instead.
impl vstd::std_specs::convert::TryFromSpecImpl<&str> for QName {
    open spec fn obeys_try_from_spec() -> bool {
        false
    }

    open spec fn try_from_spec(v: &str) -> Result<Self, Self::Error> {
        vstd::pervasive::arbitrary()
    }
}

impl PartialEq for QName {
    fn eq(&self, other: &Self) -> (r: bool) {
        self.qname == other.qname
    }
}

impl vstd::std_specs::cmp::PartialEqSpecImpl for QName {
    open spec fn obeys_eq_spec() -> bool {
        true
    }

    open spec fn eq_spec(&self, other: &Self) -> bool {
        self@ == other@
    }
}

impl Eq for QName {}

} // verus!
