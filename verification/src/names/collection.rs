//! A collection of qualified names, addressed by index.

use vstd::prelude::*;

use super::namespaces::NamespaceDeclaration;
use super::ncname::{uri_view, NamespaceUri, NcName};
use super::qname::QName;

verus! {

/// The view of a qualified name: its namespace URI, if any, and its local part.
pub type QNameView = (Option<Seq<char>>, Seq<char>);

/// The namespace URI of a name as text; no namespace reads as the empty text.
pub open spec fn uri_text(ns: Option<Seq<char>>) -> Seq<char> {
    match ns {
        Some(u) => u,
        None => Seq::empty(),
    }
}

/// Does the name `q` have local part `local` and namespace URI (as text) `uri`?
pub open spec fn names_match(q: QNameView, uri: Seq<char>, local: Seq<char>) -> bool {
    q.1 == local && uri_text(q.0) == uri
}

/// Where the first name that matches stands in `s`, if any.
pub open spec fn first_match(s: Seq<QNameView>, uri: Seq<char>, local: Seq<char>) -> Option<int>
    decreases s.len(),
{
    if s.len() == 0 {
        None
    } else {
        match first_match(s.drop_last(), uri, local) {
            Some(i) => Some(i),
            None => if names_match(s.last(), uri, local) {
                Some(s.len() - 1)
            } else {
                None
            },
        }
    }
}

/// The names after adding `(uri, local)`, and where it stands: an existing
/// match is reused, otherwise the name goes at the end.
pub open spec fn added(s: Seq<QNameView>, uri: Seq<char>, local: Seq<char>) -> (
    Seq<QNameView>,
    int,
) {
    match first_match(s, uri, local) {
        Some(i) => (s, i),
        None => (s.push((Some(uri), local)), s.len() as int),
    }
}

proof fn lemma_first_match(s: Seq<QNameView>, uri: Seq<char>, local: Seq<char>)
    ensures
        first_match(s, uri, local) is None <==> forall|j: int|
            0 <= j < s.len() ==> !names_match(#[trigger] s[j], uri, local),
        first_match(s, uri, local) matches Some(i) ==> {
            &&& 0 <= i < s.len()
            &&& names_match(s[i], uri, local)
            &&& forall|j: int| 0 <= j < i ==> !names_match(#[trigger] s[j], uri, local)
        },
    decreases s.len(),
{
    if s.len() > 0 {
        lemma_first_match(s.drop_last(), uri, local);
        assert forall|j: int| 0 <= j < s.len() - 1 implies #[trigger] s[j] == s.drop_last()[j] by {}
    }
}

/// Adding a name that is already there changes nothing and points at the
/// same place.
pub proof fn lemma_add_idempotent(s: Seq<QNameView>, uri: Seq<char>, local: Seq<char>)
    ensures
        added(added(s, uri, local).0, uri, local) == added(s, uri, local),
{
    lemma_first_match(s, uri, local);
    let (t, i) = added(s, uri, local);
    lemma_first_match(t, uri, local);
    if first_match(s, uri, local) is None {
        assert(names_match(t[s.len() as int], uri, local));
        assert forall|j: int| 0 <= j < s.len() implies !names_match(#[trigger] t[j], uri, local) by {
            assert(t[j] == s[j]);
        }
    }
}

/// Every name has a namespace.
pub open spec fn all_have_namespaces(s: Seq<QNameView>) -> bool {
    forall|j: int| 0 <= j < s.len() ==> (#[trigger] s[j]).0 is Some
}

/// After adding, the name found where `add` points is the one asked for.
pub proof fn lemma_added_is_found(s: Seq<QNameView>, uri: Seq<char>, local: Seq<char>)
    requires
        all_have_namespaces(s),
    ensures
        ({
            let (t, i) = added(s, uri, local);
            &&& 0 <= i < t.len()
            &&& t[i] == (Some(uri), local)
        }),
{
    lemma_first_match(s, uri, local);
}

/// An index into a [`QNameCollection`].
#[derive(Clone, Copy, Debug)]
pub struct QNameCollectionIndex {
    global_index: u32,
    local_index: u32,
}

impl QNameCollectionIndex {
    /// Which collection the index belongs to.
    pub closed spec fn global(self) -> u32 {
        self.global_index
    }

    /// The position in the collection.
    pub closed spec fn local(self) -> u32 {
        self.local_index
    }
}

impl PartialEq for QNameCollectionIndex {
    fn eq(&self, other: &Self) -> (r: bool) {
        self.global_index == other.global_index
    }
}

impl vstd::std_specs::cmp::PartialEqSpecImpl for QNameCollectionIndex {
    open spec fn obeys_eq_spec() -> bool {
        true
    }

    open spec fn eq_spec(&self, other: &Self) -> bool {
        self.global() == other.global()
    }
}

impl Eq for QNameCollectionIndex {}

impl PartialEq<QName> for QNameCollectionIndex {
    fn eq(&self, _other: &QName) -> (r: bool) {
        false
    }
}

impl vstd::std_specs::cmp::PartialEqSpecImpl<QName> for QNameCollectionIndex {
    open spec fn obeys_eq_spec() -> bool {
        true
    }

    open spec fn eq_spec(&self, other: &QName) -> bool {
        false
    }
}

impl PartialEq<QNameCollectionIndex> for QName {
    fn eq(&self, _other: &QNameCollectionIndex) -> (r: bool) {
        false
    }
}

impl vstd::std_specs::cmp::PartialEqSpecImpl<QNameCollectionIndex> for QName {
    open spec fn obeys_eq_spec() -> bool {
        true
    }

    open spec fn eq_spec(&self, other: &QNameCollectionIndex) -> bool {
        false
    }
}

/// A collection of Qualified Names.
pub struct QNameCollection {
    qnames: Vec<QName>,
}

impl View for QNameCollection {
    type V = Seq<QNameView>;

    closed spec fn view(&self) -> Seq<QNameView> {
        self.qnames@.map_values(|q: QName| q@)
    }
}

impl QNameCollection {
    /// Every name in the collection has a namespace, no name is there twice,
    /// and there are at most 2^32. Every collection keeps this; a caller
    /// learns it of a collection by `use_type_invariant`.
    #[verifier::type_invariant]
    pub closed spec fn wf(self) -> bool {
        &&& self@.len() <= u32::MAX + 1
        &&& forall|j: int| 0 <= j < self@.len() ==> (#[trigger] self@[j]).0 is Some
        &&& forall|i: int, j: int|
            0 <= i < j < self@.len() ==> #[trigger] self@[i] != #[trigger] self@[j]
    }

    /// Every name in the collection has a namespace.
    pub proof fn lemma_names_have_namespaces(&self)
        requires
            self.wf(),
        ensures
            all_have_namespaces(self@),
    {
    }

    /// No name is in the collection twice.
    pub proof fn lemma_names_distinct(&self)
        requires
            self.wf(),
        ensures
            forall|i: int, j: int|
                0 <= i < self@.len() && 0 <= j < self@.len() && i != j ==> self@[i] != self@[j],
    {
        assert forall|i: int, j: int|
            0 <= i < self@.len() && 0 <= j < self@.len() && i != j implies self@[i] != self@[j] by {
            if i < j {
                assert(self@[i] != self@[j]);
            } else {
                assert(self@[j] != self@[i]);
            }
        }
    }

    #[must_use]
    pub fn new() -> (r: Self)
        ensures
            r@ == Seq::<QNameView>::empty(),
            all_have_namespaces(r@),
    {
        let r = Self { qnames: Vec::new() };
        assert(r@ =~= Seq::<QNameView>::empty());
        r
    }

    fn find(&self, namespace: &NamespaceDeclaration, local_name: &NcName) -> (r: Option<
        QNameCollectionIndex,
    >)
        ensures
            match first_match(self@, namespace@.1, local_name@) {
                Some(i) => r matches Some(ix) && ix.global() == 0 && ix.local() == i,
                None => r is None,
            },
    {
        proof {
            use_type_invariant(self);
            lemma_first_match(self@, namespace@.1, local_name@);
        }
        let uri = namespace.namespace_uri();
        let mut i: usize = 0;
        while i < self.qnames.len()
            invariant
                self.wf(),
                i <= self.qnames@.len(),
                uri@ == namespace@.1,
                forall|j: int| 0 <= j < i ==> !names_match(#[trigger] self@[j], uri@, local_name@),
            decreases self.qnames.len() - i,
        {
            let q = &self.qnames[i];
            assert(self@[i as int] == q@);
            let text = match q.namespace_uri() {
                Some(ns) => ns.to_string(),
                None => String::new(),
            };
            if q.local_name() == *local_name && text == uri.to_string() {
                proof {
                    lemma_first_match(self@, namespace@.1, local_name@);
                }
                return Some(QNameCollectionIndex { global_index: 0, local_index: i as u32 });
            }
            i = i + 1;
        }
        None
    }

    /// Adds the name `local_name` in `namespace`, or finds it if it is already
    /// there, and returns where it stands.
    ///
    /// # Panics
    /// If there are more than 2^32 different `QNames`.
    pub fn add(&mut self, namespace: NamespaceDeclaration, local_name: NcName) -> (r:
        QNameCollectionIndex)
        requires
            old(self)@.len() <= u32::MAX || first_match(old(self)@, namespace@.1, local_name@) is Some,
        ensures
            all_have_namespaces(final(self)@),
            r.global() == 0,
            (final(self)@, r.local() as int) == added(old(self)@, namespace@.1, local_name@),
            r.local() < final(self)@.len(),
            final(self)@[r.local() as int] == (Some(namespace@.1), local_name@),
    {
        proof {
            use_type_invariant(&*self);
            lemma_added_is_found(old(self)@, namespace@.1, local_name@);
        }
        if let Some(index) = self.find(&namespace, &local_name) {
            return index;
        }
        proof {
            lemma_first_match(self@, namespace@.1, local_name@);
        }
        let index = QNameCollectionIndex { global_index: 0, local_index: self.qnames.len() as u32 };
        let qname = QName::new(local_name, Some(namespace));
        let ghost old_view = self@;
        let mut names: Vec<QName> = Vec::new();
        std::mem::swap(&mut names, &mut self.qnames);
        names.push(qname);
        proof {
            let v = names@.map_values(|q: QName| q@);
            assert(v =~= old_view.push(qname@));
            let n = old_view.len() as int;
            assert forall|j: int| 0 <= j < v.len() implies (#[trigger] v[j]).0 is Some by {
                if j < n {
                    assert(v[j] == old_view[j]);
                }
            }
            assert forall|a: int, b: int| 0 <= a < b < v.len() implies #[trigger] v[a]
                != #[trigger] v[b] by {
                if b == n {
                    assert(!names_match(old_view[a], namespace@.1, local_name@));
                    assert(old_view[a].0 is Some);
                } else {
                    assert(v[a] == old_view[a]);
                    assert(v[b] == old_view[b]);
                    assert(old_view[a] != old_view[b]);
                }
            }
        }
        self.qnames = names;
        assert(self@ =~= old_view.push(qname@));
        index
    }

    /// The name at `index`.
    #[must_use]
    pub fn get(&self, index: QNameCollectionIndex) -> (r: &QName)
        requires
            index.local() < self@.len(),
        ensures
            r@ == self@[index.local() as int],
    {
        &self.qnames[index.local_index as usize]
    }

    #[must_use]
    pub fn local_name(&self, index: QNameCollectionIndex) -> (r: NcName)
        requires
            index.local() < self@.len(),
        ensures
            r@ == self@[index.local() as int].1,
    {
        self.get(index).local_name()
    }

    #[must_use]
    pub fn namespace_uri(&self, index: QNameCollectionIndex) -> (r: Option<NamespaceUri>)
        requires
            index.local() < self@.len(),
        ensures
            uri_view(r) == self@[index.local() as int].0,
    {
        self.get(index).namespace_uri()
    }
}

impl Default for QNameCollection {
    fn default() -> (r: Self)
        ensures
            r@ == Seq::<QNameView>::empty(),
    {
        Self::new()
    }
}

} // verus!
