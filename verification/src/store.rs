use vstd::prelude::*;

use crate::diag::{diagnostic_of, range_of_loc, Diagnostic, DiagnosticError, ErrorLoc};
use crate::index::{grammar_wf, Document, ParsedGrammar};

verus! {

/// Declares dashmap's concurrent map type; Verus treats its values as
/// opaque and reasons about them through the named contents below.
#[verifier::external_type_specification]
#[verifier::external_body]
#[verifier::reject_recursive_types(K)]
#[verifier::reject_recursive_types(V)]
#[verifier::reject_recursive_types(S)]
pub struct ExDashMap<K, V, S>(dashmap::DashMap<K, V, S>);

/// What a per-URI document map holds: the latest successfully indexed
/// document of each open document, keyed by URI.
pub uninterp spec fn store_docs(m: dashmap::DashMap<String, Document>) -> Map<
    Seq<char>,
    Document,
>;

/// The contents of a store with nothing open in it.
pub open spec fn no_docs() -> Map<Seq<char>, Document> {
    Map::empty()
}

/// The document store: a concurrent map from URI to the latest fully
/// built index, replaced atomically and in full on every edit.
pub struct DocumentStore {
    pub map: dashmap::DashMap<String, Document>,
}

impl DocumentStore {
    /// The documents the store currently holds, keyed by URI.
    pub open spec fn docs(self) -> Map<Seq<char>, Document> {
        store_docs(self.map)
    }

    /// Relies on dashmap::DashMap::new: a freshly created map is empty.
    #[verifier::external_body]
    pub fn new() -> (s: DocumentStore)
        ensures
            s.docs() == no_docs(),
    {
        DocumentStore { map: dashmap::DashMap::new() }
    }

    /// Relies on dashmap::DashMap::insert: the entry under the key is
    /// replaced in full; entries under other keys are untouched.
    #[verifier::external_body]
    pub fn put(&mut self, uri: String, doc: Document)
        ensures
            store_docs(final(self).map) == store_docs(old(self).map).insert(uri@, doc),
    {
        self.map.insert(uri, doc);
    }

    /// Relies on dashmap::DashMap::get: the value stored under the key is
    /// returned, here copied out of the map's guard; the copy agrees with
    /// the stored document on every view.
    #[verifier::external_body]
    pub fn get(&self, uri: &String) -> (r: Option<Document>)
        ensures
            r matches Some(d) ==> store_docs(self.map).dom().contains(uri@) && d.same_index(
                store_docs(self.map)[uri@],
            ),
            r is None ==> !store_docs(self.map).dom().contains(uri@),
    {
        match self.map.get(uri) {
            Some(entry) => Some(entry.value().clone()),
            None => None,
        }
    }

    /// Relies on dashmap::DashMap::remove: the entry under the key, if
    /// any, is taken out; entries under other keys are untouched.
    #[verifier::external_body]
    pub fn remove(&mut self, uri: &String)
        ensures
            store_docs(final(self).map) == store_docs(old(self).map).remove(uri@),
    {
        self.map.remove(uri);
    }
}

/// Applies one edit's outcome to the store. A successful parse replaces
/// the URI's entry with a freshly built index and clears the document's
/// diagnostics; a failed parse leaves the store untouched — the last good
/// index stays queryable — and yields the failure's single positioned
/// diagnostic.
pub fn on_change(
    store: &mut DocumentStore,
    uri: String,
    text: Vec<u8>,
    parsed: Result<ParsedGrammar, DiagnosticError>,
) -> (diags: Vec<Diagnostic>)
    requires
        parsed matches Ok(g) ==> grammar_wf(g@, text@.len() as int) && text@.len() <= usize::MAX
            / 2,
        parsed matches Err(e) ==> (e.loc matches ErrorLoc::Point(line, col) ==> col
            < usize::MAX),
    ensures
        match parsed {
            Ok(g) => {
                &&& diags@.len() == 0
                &&& final(store).docs().dom() == old(store).docs().dom().insert(uri@)
                &&& final(store).docs()[uri@].wf()
                &&& final(store).docs()[uri@].indexes(text@, g@)
                &&& forall|k: Seq<char>|
                    old(store).docs().dom().contains(k) && k != uri@
                        ==> final(store).docs()[k] == old(store).docs()[k]
            },
            Err(e) => {
                &&& final(store).docs() == old(store).docs()
                &&& diags@.len() == 1
                &&& diags@[0].range == range_of_loc(e.loc)
                &&& diags@[0].message@ == e.message@
            },
        },
{
    match parsed {
        Ok(g) => {
            let doc = Document::new(text, &g);
            store.put(uri, doc);
            Vec::new()
        },
        Err(e) => {
            let d = diagnostic_of(e);
            let mut diags: Vec<Diagnostic> = Vec::new();
            diags.push(d);
            diags
        },
    }
}

} // verus!
