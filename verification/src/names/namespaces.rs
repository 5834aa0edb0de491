//! Namespace declarations and the map of in-scope namespaces.

use vstd::prelude::*;

use super::grammar::is_ncname;
use super::ncname::{prefix_view, uri_view, xmlns_chars, NamespacePrefix, NamespaceUri};
use super::unique::same_chars;

verus! {

/// The prefix `xml`.
pub open spec fn xml_prefix_chars() -> Seq<char> {
    "xml"@
}

/// The namespace that the prefix `xml` is bound to.
pub open spec fn xml_uri_chars() -> Seq<char> {
    "http://www.w3.org/XML/1998/namespace"@
}

/// The namespace that the prefix `xmlns` is bound to.
pub open spec fn xmlns_uri_chars() -> Seq<char> {
    "http://www.w3.org/2000/xmlns/"@
}

/// A declaration may bind `xml` only to its predefined namespace and that
/// namespace only to `xml`; likewise for `xmlns`.
pub open spec fn declaration_allowed(prefix: Option<Seq<char>>, uri: Seq<char>) -> bool {
    &&& (prefix == Some(xml_prefix_chars())) == (uri == xml_uri_chars())
    &&& (prefix == Some(xmlns_chars())) == (uri == xmlns_uri_chars())
}

/// An invalid namespace declaration.
#[derive(Debug)]
pub struct InvalidNamespaceDeclaration;

impl InvalidNamespaceDeclaration {
    /// The error's message.
    pub fn to_string(&self) -> (r: String)
        ensures
            r@ == "Invalid namespace declaration"@,
    {
        String::from_str("Invalid namespace declaration")
    }
}

/// An optional [`NamespacePrefix`] (None for the default namespace) bound to a
/// [`NamespaceUri`].
#[derive(Debug)]
pub struct NamespaceDeclaration {
    pub(crate) namespace_prefix: Option<NamespacePrefix>,
    pub(crate) namespace_uri: NamespaceUri,
}

impl View for NamespaceDeclaration {
    type V = (Option<Seq<char>>, Seq<char>);

    closed spec fn view(&self) -> (Option<Seq<char>>, Seq<char>) {
        (prefix_view(self.namespace_prefix), self.namespace_uri@)
    }
}

/// Is the optional prefix exactly `chars`?
fn prefix_is(prefix: &Option<NamespacePrefix>, chars: &str) -> (r: bool)
    ensures
        r == (prefix_view(*prefix) == Some(chars@)),
{
    match prefix {
        Some(p) => same_chars(p.as_str(), chars),
        None => false,
    }
}

fn clone_prefix(prefix: &Option<NamespacePrefix>) -> (r: Option<NamespacePrefix>)
    ensures
        prefix_view(r) == prefix_view(*prefix),
{
    match prefix {
        Some(p) => Some(p.clone()),
        None => None,
    }
}

impl NamespaceDeclaration {
    /// # Errors
    /// If the `xml`/`xmlns` prefixes are bound to namespaces other than their
    /// predefined ones (or vice versa), an error is returned.
    pub fn new(namespace_prefix: Option<NamespacePrefix>, namespace_uri: NamespaceUri) -> (r: Result<
        Self,
        InvalidNamespaceDeclaration,
    >)
        ensures
            r is Ok <==> declaration_allowed(prefix_view(namespace_prefix), namespace_uri@),
            r matches Ok(d) ==> d@ == (prefix_view(namespace_prefix), namespace_uri@),
    {
        let is_xml_prefix = prefix_is(&namespace_prefix, "xml");
        let is_xml_uri = same_chars(namespace_uri.as_str(), "http://www.w3.org/XML/1998/namespace");
        if (is_xml_prefix && !is_xml_uri) || (!is_xml_prefix && is_xml_uri) {
            return Err(InvalidNamespaceDeclaration);
        }
        let is_xmlns_prefix = prefix_is(&namespace_prefix, "xmlns");
        let is_xmlns_uri = same_chars(namespace_uri.as_str(), "http://www.w3.org/2000/xmlns/");
        if (is_xmlns_prefix && !is_xmlns_uri) || (!is_xmlns_prefix && is_xmlns_uri) {
            return Err(InvalidNamespaceDeclaration);
        }
        Ok(Self { namespace_prefix, namespace_uri })
    }

    /// The declared prefix (`None` for the default namespace).
    pub fn namespace_prefix(&self) -> (r: Option<NamespacePrefix>)
        ensures
            prefix_view(r) == self@.0,
    {
        clone_prefix(&self.namespace_prefix)
    }

    /// The declared namespace URI.
    pub fn namespace_uri(&self) -> (r: NamespaceUri)
        ensures
            r@ == self@.1,
    {
        self.namespace_uri.clone()
    }
}

impl Clone for NamespaceDeclaration {
    fn clone(&self) -> (r: Self)
        ensures
            r@ == self@,
    {
        NamespaceDeclaration {
            namespace_prefix: clone_prefix(&self.namespace_prefix),
            namespace_uri: self.namespace_uri.clone(),
        }
    }
}

// ─────────────────────────────────────────────────────────────────────────
//  NamespaceMap
// ─────────────────────────────────────────────────────────────────────────

/// What a declaration is filed under in a table: its prefix, or its URI.
pub open spec fn table_key(by_uri: bool, d: (Option<Seq<char>>, Seq<char>)) -> Option<Seq<char>> {
    if by_uri {
        Some(d.1)
    } else {
        d.0
    }
}

/// The characters of an optional string slice.
pub open spec fn key_view(k: Option<&str>) -> Option<Seq<char>> {
    match k {
        Some(s) => Some(s@),
        None => None,
    }
}

/// Declarations filed by one key, at most one per key.
struct DeclTable {
    by_uri: bool,
    entries: Vec<NamespaceDeclaration>,
    model: Ghost<Map<Option<Seq<char>>, (Option<Seq<char>>, Seq<char>)>>,
}

impl DeclTable {
    spec fn wf(self) -> bool {
        &&& forall|i: int|
            0 <= i < self.entries@.len() ==> {
                let d = #[trigger] self.entries@[i]@;
                &&& self.model@.contains_key(table_key(self.by_uri, d))
                &&& self.model@[table_key(self.by_uri, d)] == d
            }
        &&& forall|k: Option<Seq<char>>|
            #[trigger] self.model@.contains_key(k) ==> exists|i: int|
                0 <= i < self.entries@.len() && table_key(self.by_uri, #[trigger] self.entries@[i]@)
                    == k
        &&& forall|i: int, j: int|
            0 <= i < j < self.entries@.len() ==> table_key(self.by_uri, #[trigger] self.entries@[i]@)
                != table_key(self.by_uri, #[trigger] self.entries@[j]@)
    }

    closed spec fn map(self) -> Map<Option<Seq<char>>, (Option<Seq<char>>, Seq<char>)> {
        self.model@
    }

    /// Each declaration is filed under its own key.
    proof fn lemma_filed_under_key(self)
        requires
            self.wf(),
        ensures
            forall|k: Option<Seq<char>>|
                #[trigger] self.map().contains_key(k) ==> table_key(self.by_uri, self.map()[k]) == k,
    {
        assert forall|k: Option<Seq<char>>| #[trigger] self.map().contains_key(k) implies table_key(
            self.by_uri,
            self.map()[k],
        ) == k by {
            let i = choose|i: int|
                0 <= i < self.entries@.len() && table_key(self.by_uri, #[trigger] self.entries@[i]@)
                    == k;
            assert(self.model@[table_key(self.by_uri, self.entries@[i]@)] == self.entries@[i]@);
        }
    }

    fn new(by_uri: bool) -> (r: Self)
        ensures
            r.wf(),
            r.by_uri == by_uri,
            r.map() == Map::<Option<Seq<char>>, (Option<Seq<char>>, Seq<char>)>::empty(),
    {
        DeclTable { by_uri, entries: Vec::new(), model: Ghost(Map::empty()) }
    }

    fn clone(&self) -> (r: Self)
        ensures
            self.wf() ==> r.wf(),
            r.by_uri == self.by_uri,
            r.map() == self.map(),
    {
        let mut entries: Vec<NamespaceDeclaration> = Vec::new();
        let mut i: usize = 0;
        while i < self.entries.len()
            invariant
                i <= self.entries@.len(),
                entries@.len() == i,
                forall|j: int| 0 <= j < i ==> #[trigger] entries@[j]@ == self.entries@[j]@,
            decreases self.entries.len() - i,
        {
            entries.push(self.entries[i].clone());
            i = i + 1;
        }
        let r = DeclTable { by_uri: self.by_uri, entries, model: Ghost(self.model@) };
        proof {
            if self.wf() {
                assert forall|k: Option<Seq<char>>| #[trigger]
                    r.model@.contains_key(k) implies exists|j: int|
                    0 <= j < r.entries@.len() && table_key(r.by_uri, #[trigger] r.entries@[j]@) == k by {
                    let j = choose|j: int|
                        0 <= j < self.entries@.len() && table_key(
                            self.by_uri,
                            #[trigger] self.entries@[j]@,
                        ) == k;
                    assert(r.entries@[j]@ == self.entries@[j]@);
                }
                assert forall|a: int, b: int|
                    0 <= a < b < r.entries@.len() implies table_key(
                    r.by_uri,
                    #[trigger] r.entries@[a]@,
                ) != table_key(r.by_uri, #[trigger] r.entries@[b]@) by {
                    assert(r.entries@[a]@ == self.entries@[a]@);
                    assert(r.entries@[b]@ == self.entries@[b]@);
                }
            }
        }
        r
    }

    fn key_of<'a>(&self, d: &'a NamespaceDeclaration) -> (r: Option<&'a str>)
        ensures
            key_view(r) == table_key(self.by_uri, d@),
    {
        if self.by_uri {
            Some(d.namespace_uri.as_str())
        } else {
            match &d.namespace_prefix {
                Some(p) => Some(p.as_str()),
                None => None,
            }
        }
    }

    /// Where the declaration filed under `key` stands, if there is one.
    fn find(&self, key: Option<&str>) -> (r: Option<usize>)
        requires
            self.wf(),
        ensures
            r is Some <==> self.map().contains_key(key_view(key)),
            r matches Some(i) ==> i < self.entries@.len() && table_key(
                self.by_uri,
                self.entries@[i as int]@,
            ) == key_view(key),
    {
        let mut i: usize = 0;
        while i < self.entries.len()
            invariant
                self.wf(),
                i <= self.entries@.len(),
                forall|j: int|
                    0 <= j < i ==> table_key(self.by_uri, #[trigger] self.entries@[j]@) != key_view(
                        key,
                    ),
            decreases self.entries.len() - i,
        {
            let k = self.key_of(&self.entries[i]);
            let same = match (k, key) {
                (Some(a), Some(b)) => same_chars(a, b),
                (None, None) => true,
                _ => false,
            };
            if same {
                return Some(i);
            }
            i = i + 1;
        }
        None
    }

    fn get(&self, key: Option<&str>) -> (r: Option<&NamespaceDeclaration>)
        requires
            self.wf(),
        ensures
            r is Some <==> self.map().contains_key(key_view(key)),
            r matches Some(d) ==> d@ == self.map()[key_view(key)],
    {
        match self.find(key) {
            Some(i) => Some(&self.entries[i]),
            None => None,
        }
    }

    fn insert(&mut self, d: NamespaceDeclaration)
        requires
            old(self).wf(),
        ensures
            final(self).wf(),
            final(self).by_uri == old(self).by_uri,
            final(self).map() == old(self).map().insert(table_key(old(self).by_uri, d@), d@),
    {
        let ghost key = table_key(self.by_uri, d@);
        let ghost new_model = self.model@.insert(key, d@);
        let ghost old_entries = self.entries@;
        let found = self.find(self.key_of(&d));
        match found {
            Some(i) => {
                self.entries.set(i, d);
                proof {
                    let entries = self.entries@;
                    assert forall|k: Option<Seq<char>>| #[trigger]
                        new_model.contains_key(k) implies exists|j: int|
                        0 <= j < entries.len() && table_key(self.by_uri, #[trigger] entries[j]@)
                            == k by {
                        if k != key {
                            let j = choose|j: int|
                                0 <= j < old_entries.len() && table_key(
                                    self.by_uri,
                                    #[trigger] old_entries[j]@,
                                ) == k;
                            assert(j != i);
                            assert(entries[j] == old_entries[j]);
                        } else {
                            assert(table_key(self.by_uri, entries[i as int]@) == k);
                        }
                    }
                    assert forall|a: int, b: int|
                        0 <= a < b < entries.len() implies table_key(
                        self.by_uri,
                        #[trigger] entries[a]@,
                    ) != table_key(self.by_uri, #[trigger] entries[b]@) by {
                        assert(table_key(self.by_uri, old_entries[a]@) != table_key(
                            self.by_uri,
                            old_entries[b]@,
                        ));
                    }
                }
            },
            None => {
                self.entries.push(d);
                proof {
                    let entries = self.entries@;
                    let n = entries.len() - 1;
                    assert forall|k: Option<Seq<char>>| #[trigger]
                        new_model.contains_key(k) implies exists|j: int|
                        0 <= j < entries.len() && table_key(self.by_uri, #[trigger] entries[j]@)
                            == k by {
                        if k != key {
                            let j = choose|j: int|
                                0 <= j < old_entries.len() && table_key(
                                    self.by_uri,
                                    #[trigger] old_entries[j]@,
                                ) == k;
                            assert(entries[j] == old_entries[j]);
                        } else {
                            assert(table_key(self.by_uri, entries[n]@) == k);
                        }
                    }
                    assert forall|a: int, b: int|
                        0 <= a < b < entries.len() implies table_key(
                        self.by_uri,
                        #[trigger] entries[a]@,
                    ) != table_key(self.by_uri, #[trigger] entries[b]@) by {
                        if b == n {
                            assert(entries[a] == old_entries[a]);
                        }
                    }
                }
            },
        }
        self.model = Ghost(new_model);
    }

    fn remove(&mut self, key: Option<&str>) -> (r: Option<NamespaceDeclaration>)
        requires
            old(self).wf(),
        ensures
            final(self).wf(),
            final(self).by_uri == old(self).by_uri,
            r is Some <==> old(self).map().contains_key(key_view(key)),
            r matches Some(d) ==> d@ == old(self).map()[key_view(key)] && table_key(
                old(self).by_uri,
                d@,
            ) == key_view(key),
            final(self).map() == old(self).map().remove(key_view(key)),
    {
        let found = self.find(key);
        match found {
            Some(i) => {
                let ghost k0 = key_view(key);
                let ghost new_model = self.model@.remove(k0);
                let ghost old_entries = self.entries@;
                let d = self.entries.remove(i);
                proof {
                    let entries = self.entries@;
                    assert forall|j: int| 0 <= j < entries.len() implies {
                        let e = #[trigger] entries[j]@;
                        &&& new_model.contains_key(table_key(self.by_uri, e))
                        &&& new_model[table_key(self.by_uri, e)] == e
                    } by {
                        if j < i {
                            assert(entries[j] == old_entries[j]);
                            assert(table_key(self.by_uri, old_entries[j]@) != table_key(
                                self.by_uri,
                                old_entries[i as int]@,
                            ));
                        } else {
                            assert(entries[j] == old_entries[j + 1]);
                            assert(table_key(self.by_uri, old_entries[j + 1]@) != table_key(
                                self.by_uri,
                                old_entries[i as int]@,
                            ));
                        }
                    }
                    assert forall|k: Option<Seq<char>>| #[trigger]
                        new_model.contains_key(k) implies exists|j: int|
                        0 <= j < entries.len() && table_key(self.by_uri, #[trigger] entries[j]@)
                            == k by {
                        let j = choose|j: int|
                            0 <= j < old_entries.len() && table_key(
                                self.by_uri,
                                #[trigger] old_entries[j]@,
                            ) == k;
                        assert(j != i);
                        if j < i {
                            assert(entries[j] == old_entries[j]);
                        } else {
                            assert(entries[j - 1] == old_entries[j]);
                        }
                    }
                    assert forall|a: int, b: int|
                        0 <= a < b < entries.len() implies table_key(
                        self.by_uri,
                        #[trigger] entries[a]@,
                    ) != table_key(self.by_uri, #[trigger] entries[b]@) by {
                        let a0 = if a < i {
                            a
                        } else {
                            a + 1
                        };
                        let b0 = if b < i {
                            b
                        } else {
                            b + 1
                        };
                        assert(entries[a] == old_entries[a0]);
                        assert(entries[b] == old_entries[b0]);
                        assert(table_key(self.by_uri, old_entries[a0]@) != table_key(
                            self.by_uri,
                            old_entries[b0]@,
                        ));
                    }
                }
                self.model = Ghost(new_model);
                Some(d)
            },
            None => {
                assert(self.model@.remove(key_view(key)) =~= self.model@);
                None
            },
        }
    }
}

/// The in-scope namespaces that a new map starts with: `xml` bound to its
/// predefined namespace.
pub open spec fn initial_prefixes() -> Map<Option<Seq<char>>, (Option<Seq<char>>, Seq<char>)> {
    map![Some(xml_prefix_chars()) => (Some(xml_prefix_chars()), xml_uri_chars())]
}

/// The URI side of the initial map.
pub open spec fn initial_uris() -> Map<Seq<char>, (Option<Seq<char>>, Seq<char>)> {
    map![xml_uri_chars() => (Some(xml_prefix_chars()), xml_uri_chars())]
}

/// The declarations filed by prefix and by URI after a history of calls on a
/// new map: `(true, d)` pushes the declaration `d`, `(false, (p, _))` pops
/// the prefix `p`, each as `push` and `pop_prefix` state it.
pub open spec fn after_history(h: Seq<(bool, (Option<Seq<char>>, Seq<char>))>) -> (
    Map<Option<Seq<char>>, (Option<Seq<char>>, Seq<char>)>,
    Map<Seq<char>, (Option<Seq<char>>, Seq<char>)>,
)
    decreases h.len(),
{
    if h.len() == 0 {
        (initial_prefixes(), initial_uris())
    } else {
        let (pm, um) = after_history(h.drop_last());
        let (is_push, d) = h.last();
        if is_push {
            (pm.insert(d.0, d), um.insert(d.1, d))
        } else if pm.contains_key(d.0) {
            (pm.remove(d.0), um.remove(pm[d.0].1))
        } else {
            (pm, um)
        }
    }
}

/// The last declaration of prefix `p` in a history (the `xml` one that a new
/// map starts with counting as the first), unless `p` was popped after it.
pub open spec fn last_declared_prefix(
    h: Seq<(bool, (Option<Seq<char>>, Seq<char>))>,
    p: Option<Seq<char>>,
) -> Option<(Option<Seq<char>>, Seq<char>)>
    decreases h.len(),
{
    if h.len() == 0 {
        if p == Some(xml_prefix_chars()) {
            Some((Some(xml_prefix_chars()), xml_uri_chars()))
        } else {
            None
        }
    } else if h.last().1.0 == p {
        if h.last().0 {
            Some(h.last().1)
        } else {
            None
        }
    } else {
        last_declared_prefix(h.drop_last(), p)
    }
}

/// The last declaration of URI `u` in a history (the `xml` one counting as
/// the first), unless a later pop took away a declaration of `u`.
pub open spec fn last_declared_uri(h: Seq<(bool, (Option<Seq<char>>, Seq<char>))>, u: Seq<char>) -> Option<
    (Option<Seq<char>>, Seq<char>),
>
    decreases h.len(),
{
    if h.len() == 0 {
        if u == xml_uri_chars() {
            Some((Some(xml_prefix_chars()), xml_uri_chars()))
        } else {
            None
        }
    } else {
        let (is_push, d) = h.last();
        let pm = after_history(h.drop_last()).0;
        if is_push && d.1 == u {
            Some(d)
        } else if !is_push && pm.contains_key(d.0) && pm[d.0].1 == u {
            None
        } else {
            last_declared_uri(h.drop_last(), u)
        }
    }
}

/// After any history of pushes and pops on a new map, looking up a prefix
/// gives the last declaration of that prefix, unless the prefix was popped
/// after it; looking up a URI gives the last declaration of that URI, unless
/// a later pop took away a declaration of it.
pub proof fn lemma_lookup_after_history(
    h: Seq<(bool, (Option<Seq<char>>, Seq<char>))>,
    p: Option<Seq<char>>,
    u: Seq<char>,
)
    ensures
        after_history(h).0.contains_key(p) <==> last_declared_prefix(h, p) is Some,
        after_history(h).0.contains_key(p) ==> last_declared_prefix(h, p) == Some(
            after_history(h).0[p],
        ),
        after_history(h).1.contains_key(u) <==> last_declared_uri(h, u) is Some,
        after_history(h).1.contains_key(u) ==> last_declared_uri(h, u) == Some(after_history(h).1[u]),
    decreases h.len(),
{
    if h.len() > 0 {
        lemma_lookup_after_history(h.drop_last(), p, u);
    }
}

/// After pushing a declaration, looking up its prefix gives it, and so does
/// looking up its URI.
pub proof fn lemma_push_then_lookup(
    h: Seq<(bool, (Option<Seq<char>>, Seq<char>))>,
    d: (Option<Seq<char>>, Seq<char>),
)
    ensures
        after_history(h.push((true, d))).0.contains_key(d.0),
        after_history(h.push((true, d))).0[d.0] == d,
        after_history(h.push((true, d))).1.contains_key(d.1),
        after_history(h.push((true, d))).1[d.1] == d,
{
    assert(h.push((true, d)).drop_last() == h);
}

/// Pushing a declaration for a prefix that is not in scope and then popping
/// that prefix leaves the prefixes in scope as they were before.
pub proof fn lemma_push_then_pop(
    h: Seq<(bool, (Option<Seq<char>>, Seq<char>))>,
    d: (Option<Seq<char>>, Seq<char>),
    x: Seq<char>,
)
    requires
        !after_history(h).0.contains_key(d.0),
    ensures
        after_history(h.push((true, d)).push((false, (d.0, x)))).0 == after_history(h).0,
{
    let h1 = h.push((true, d));
    assert(h1.drop_last() == h);
    assert(h1.push((false, (d.0, x))).drop_last() == h1);
    assert(after_history(h1).0.remove(d.0) =~= after_history(h).0);
}

/// Looks up a [`NamespaceDeclaration`] by prefix or by Namespace URI — used to
/// track in-scope namespaces.
pub struct NamespaceMap {
    prefixes: DeclTable,
    uris: DeclTable,
    history: Ghost<Seq<(bool, (Option<Seq<char>>, Seq<char>))>>,
}

impl View for NamespaceMap {
    /// The declaration filed under each prefix, and the one filed under each URI.
    type V = (
        Map<Option<Seq<char>>, (Option<Seq<char>>, Seq<char>)>,
        Map<Seq<char>, (Option<Seq<char>>, Seq<char>)>,
    );

    closed spec fn view(&self) -> Self::V {
        (self.prefixes.map(), by_uri_view(self.uris.map()))
    }
}

/// The URI table seen as a map keyed by the URI itself.
spec fn by_uri_view(m: Map<Option<Seq<char>>, (Option<Seq<char>>, Seq<char>)>) -> Map<
    Seq<char>,
    (Option<Seq<char>>, Seq<char>),
> {
    Map::new(|u: Seq<char>| m.contains_key(Some(u)), |u: Seq<char>| m[Some(u)])
}

impl NamespaceMap {
    /// The map's internal invariant, which every map keeps: both tables are
    /// sound, and what they hold is what the map's history of pushes and
    /// pops gives. A caller learns it of a map by `use_type_invariant`.
    #[verifier::type_invariant]
    pub closed spec fn wf(self) -> bool {
        &&& self.prefixes.wf()
        &&& self.uris.wf()
        &&& !self.prefixes.by_uri
        &&& self.uris.by_uri
        &&& self@ == after_history(self.history@)
    }

    /// The pushes and pops, as `after_history` reads them, that made this
    /// map from a new one.
    pub closed spec fn history(self) -> Seq<(bool, (Option<Seq<char>>, Seq<char>))> {
        self.history@
    }

    /// Every declaration in the map is filed under its own prefix, and under
    /// its own URI.
    pub proof fn lemma_filed_under_own_keys(&self)
        requires
            self.wf(),
        ensures
            forall|p: Option<Seq<char>>| #[trigger] self@.0.contains_key(p) ==> self@.0[p].0 == p,
            forall|u: Seq<char>| #[trigger] self@.1.contains_key(u) ==> self@.1[u].1 == u,
    {
        self.prefixes.lemma_filed_under_key();
        self.uris.lemma_filed_under_key();
        assert forall|u: Seq<char>| #[trigger] self@.1.contains_key(u) implies self@.1[u].1 == u by {
            assert(self.uris.map().contains_key(Some(u)));
        }
    }

    /// A map that holds nothing: a new one with `xml` popped.
    fn emptied() -> (r: Self) {
        let ghost h = seq![(false, (Some(xml_prefix_chars()), Seq::<char>::empty()))];
        let prefixes = DeclTable::new(false);
        let uris = DeclTable::new(true);
        proof {
            assert(h.drop_last() =~= Seq::empty());
            reveal_with_fuel(after_history, 2);
            reveal_strlit("xml");
            assert(initial_prefixes().contains_key(Some(xml_prefix_chars())));
            assert(after_history(h).0 =~= prefixes.map());
            assert(after_history(h).1 =~= by_uri_view(uris.map()));
        }
        NamespaceMap { prefixes, uris, history: Ghost(h) }
    }

    pub fn new() -> (r: Self)
        ensures
            r@.0 == initial_prefixes(),
            r@.1 == initial_uris(),
            r.history() == Seq::<(bool, (Option<Seq<char>>, Seq<char>))>::empty(),
    {
        proof {
            reveal_strlit("xml");
            reveal_strlit("xmlns");
            reveal_strlit("http://www.w3.org/XML/1998/namespace");
            reveal_strlit("http://www.w3.org/2000/xmlns/");
            assert(is_ncname("xml"@)) by {
                assert(crate::names::grammar::spec_is_ncname_char("xml"@[1]));
                assert(crate::names::grammar::spec_is_ncname_char("xml"@[2]));
            }
            assert("xml"@ != xmlns_chars()) by {
                assert("xml"@.len() != "xmlns"@.len());
            }
            assert("http://www.w3.org/XML/1998/namespace"@ != xmlns_uri_chars()) by {
                assert("http://www.w3.org/XML/1998/namespace"@.len() != "http://www.w3.org/2000/xmlns/"@.len());
            }
        }
        let prefix = NamespacePrefix::try_from("xml").unwrap();
        let uri = NamespaceUri::try_from("http://www.w3.org/XML/1998/namespace").unwrap();
        let decl = NamespaceDeclaration::new(Some(prefix), uri).unwrap();
        let mut prefixes = DeclTable::new(false);
        let mut uris = DeclTable::new(true);
        prefixes.insert(decl.clone());
        uris.insert(decl);
        proof {
            assert(prefixes.map() =~= initial_prefixes());
            assert(by_uri_view(uris.map()) =~= initial_uris());
        }
        NamespaceMap { prefixes, uris, history: Ghost(Seq::empty()) }
    }

    pub fn push(&mut self, nsd: NamespaceDeclaration)
        ensures
            final(self)@.0 == old(self)@.0.insert(nsd@.0, nsd@),
            final(self)@.1 == old(self)@.1.insert(nsd@.1, nsd@),
            final(self).history() == old(self).history().push((true, nsd@)),
    {
        let mut m = NamespaceMap::emptied();
        std::mem::swap(&mut m, self);
        proof {
            use_type_invariant(&m);
        }
        let NamespaceMap { mut prefixes, mut uris, history } = m;
        let ghost h = history@.push((true, nsd@));
        let copy = nsd.clone();
        prefixes.insert(copy);
        uris.insert(nsd);
        proof {
            assert(h.drop_last() =~= history@);
            assert(by_uri_view(uris.map()) =~= old(self)@.1.insert(nsd@.1, nsd@));
        }
        *self = NamespaceMap { prefixes, uris, history: Ghost(h) };
    }

    /// The URI bound to `prefix`, if any: that of the last declaration of
    /// `prefix` that was not popped after.
    pub fn namespace_uri(&self, prefix: &Option<NamespacePrefix>) -> (r: Option<NamespaceUri>)
        ensures
            uri_view(r) == (if self@.0.contains_key(prefix_view(*prefix)) {
                Some(self@.0[prefix_view(*prefix)].1)
            } else {
                None
            }),
            uri_view(r) == (match last_declared_prefix(self.history(), prefix_view(*prefix)) {
                Some(d) => Some(d.1),
                None => None,
            }),
    {
        proof {
            use_type_invariant(self);
            lemma_lookup_after_history(self.history(), prefix_view(*prefix), Seq::empty());
        }
        let key = match prefix {
            Some(p) => Some(p.as_str()),
            None => None,
        };
        match self.prefixes.get(key) {
            Some(nd) => Some(nd.namespace_uri.clone()),
            None => None,
        }
    }

    /// The prefix declared for `ns_uri`, if any (`None` also for the default
    /// namespace): that of the last declaration of `ns_uri`, unless a later
    /// pop took away a declaration of it.
    pub fn prefix(&self, ns_uri: &NamespaceUri) -> (r: Option<NamespacePrefix>)
        ensures
            prefix_view(r) == (if self@.1.contains_key(ns_uri@) {
                self@.1[ns_uri@].0
            } else {
                None
            }),
            prefix_view(r) == (match last_declared_uri(self.history(), ns_uri@) {
                Some(d) => d.0,
                None => None,
            }),
    {
        proof {
            use_type_invariant(self);
            lemma_lookup_after_history(self.history(), None, ns_uri@);
        }
        match self.uris.get(Some(ns_uri.as_str())) {
            Some(nd) => clone_prefix(&nd.namespace_prefix),
            None => None,
        }
    }

    /// Remove a namespace by prefix, returning the removed declaration if any.
    /// The declaration filed under its URI goes too.
    pub fn pop_prefix(&mut self, prefix: &Option<NamespacePrefix>) -> (r: Option<
        NamespaceDeclaration,
    >)
        ensures
            r is Some <==> old(self)@.0.contains_key(prefix_view(*prefix)),
            match r {
                Some(d) => {
                    &&& d@ == old(self)@.0[prefix_view(*prefix)]
                    &&& d@.0 == prefix_view(*prefix)
                    &&& final(self)@.0 == old(self)@.0.remove(prefix_view(*prefix))
                    &&& final(self)@.1 == old(self)@.1.remove(d@.1)
                },
                None => final(self)@ == old(self)@,
            },
            final(self).history() == old(self).history().push(
                (false, (prefix_view(*prefix), Seq::<char>::empty())),
            ),
    {
        let mut m = NamespaceMap::emptied();
        std::mem::swap(&mut m, self);
        proof {
            use_type_invariant(&m);
        }
        let NamespaceMap { mut prefixes, mut uris, history } = m;
        let ghost h = history@.push((false, (prefix_view(*prefix), Seq::<char>::empty())));
        proof {
            assert(h.drop_last() =~= history@);
        }
        let key = match prefix {
            Some(p) => Some(p.as_str()),
            None => None,
        };
        match prefixes.remove(key) {
            Some(nsd) => {
                uris.remove(Some(nsd.namespace_uri.as_str()));
                proof {
                    assert(by_uri_view(uris.map()) =~= old(self)@.1.remove(nsd@.1));
                }
                *self = NamespaceMap { prefixes, uris, history: Ghost(h) };
                Some(nsd)
            },
            None => {
                proof {
                    assert(prefixes.map() =~= old(self)@.0);
                    assert(!after_history(history@).0.contains_key(prefix_view(*prefix)));
                }
                *self = NamespaceMap { prefixes, uris, history: Ghost(h) };
                None
            },
        }
    }
}

impl Clone for NamespaceMap {
    fn clone(&self) -> (r: Self)
        ensures
            r@ == self@,
            r.history() == self.history(),
    {
        proof {
            use_type_invariant(self);
        }
        NamespaceMap {
            prefixes: self.prefixes.clone(),
            uris: self.uris.clone(),
            history: Ghost(self.history@),
        }
    }
}

impl Default for NamespaceMap {
    fn default() -> (r: Self)
        ensures
            r@.0 == initial_prefixes(),
            r@.1 == initial_uris(),
            r.history() == Seq::<(bool, (Option<Seq<char>>, Seq<char>))>::empty(),
    {
        Self::new()
    }
}

} // verus!
