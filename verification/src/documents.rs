//! The manifests that are open in the editor.

use crate::table::Table;
use vstd::prelude::*;

verus! {

/// An open manifest.
#[derive(Debug)]
pub struct Document<K> {
    pub text: String,
    pub kind: K,
}

/// What a [`Document`] says.
#[verifier::ext_equal]
pub struct DocumentView<K> {
    pub text: Seq<char>,
    pub kind: K,
}

impl<K> View for Document<K> {
    type V = DocumentView<K>;

    open spec fn view(&self) -> DocumentView<K> {
        DocumentView { text: self.text@, kind: self.kind }
    }
}

/// The open manifests, by address.
pub struct Documents<K> {
    table: Table<Document<K>>,
}

impl<K> View for Documents<K> {
    type V = Map<Seq<char>, DocumentView<K>>;

    closed spec fn view(&self) -> Map<Seq<char>, DocumentView<K>> {
        self.table@.map_values(|document: Document<K>| document@)
    }
}

/// The documents after one is opened: only those of a known kind are kept.
pub open spec fn opened<K>(
    documents: Map<Seq<char>, DocumentView<K>>,
    uri: Seq<char>,
    kind: Option<K>,
    text: Seq<char>,
) -> Map<Seq<char>, DocumentView<K>> {
    match kind {
        Some(kind) => documents.insert(uri, DocumentView { text, kind }),
        None => documents,
    }
}

/// The documents after one has changed: an open one keeps its kind.
pub open spec fn changed<K>(
    documents: Map<Seq<char>, DocumentView<K>>,
    uri: Seq<char>,
    kind: Option<K>,
    text: Seq<char>,
) -> Map<Seq<char>, DocumentView<K>> {
    if documents.dom().contains(uri) {
        documents.insert(uri, DocumentView { text, kind: documents[uri].kind })
    } else {
        opened(documents, uri, kind, text)
    }
}

/// The documents after one has changed by some texts, of which the last one counts.
pub open spec fn changed_by<K>(
    documents: Map<Seq<char>, DocumentView<K>>,
    uri: Seq<char>,
    kind: Option<K>,
    texts: Seq<String>,
) -> Map<Seq<char>, DocumentView<K>> {
    if texts.len() > 0 {
        changed(documents, uri, kind, texts.last()@)
    } else {
        documents
    }
}

impl<K: Copy> Documents<K> {
    /// No address occurs twice.
    pub closed spec fn well_formed(self) -> bool {
        self.table.well_formed()
    }

    /// No documents.
    pub fn new() -> (documents: Self)
        ensures
            documents.well_formed(),
            documents@ == Map::<Seq<char>, DocumentView<K>>::empty(),
    {
        let documents = Documents { table: Table::new() };
        assert(documents@ =~= Map::<Seq<char>, DocumentView<K>>::empty());
        documents
    }

    /// An open document.
    pub fn get(&self, uri: &str) -> (document: Option<&Document<K>>)
        requires
            self.well_formed(),
        ensures
            document matches Some(d) ==> self@.dom().contains(uri@) && d@ == self@[uri@],
            document is None ==> !self@.dom().contains(uri@),
    {
        self.table.get(uri)
    }

    /// Lists the open documents and their addresses.
    pub fn list(&self) -> (list: Vec<(&String, &Document<K>)>)
        requires
            self.well_formed(),
        ensures
            forall|i: int|
                0 <= i < list@.len() ==> self@.dom().contains((#[trigger] list@[i]).0@)
                    && list@[i].1@ == self@[list@[i].0@],
            forall|uri: Seq<char>| #[trigger]
                self@.dom().contains(uri) ==> exists|i: int|
                    0 <= i < list@.len() && (#[trigger] list@[i]).0@ == uri,
    {
        let list = self.table.list();
        assert forall|uri: Seq<char>| #[trigger] self@.dom().contains(uri) implies exists|i: int|
            0 <= i < list@.len() && (#[trigger] list@[i]).0@ == uri by {
            assert(self.table@.dom().contains(uri));
        }
        list
    }

    /// Keeps a document.
    fn put(&mut self, uri: &str, document: Document<K>)
        requires
            old(self).well_formed(),
        ensures
            final(self).well_formed(),
            final(self)@ == old(self)@.insert(uri@, document@),
    {
        let ghost before = self@;
        let ghost view = document@;
        self.table.insert(uri, document);
        assert(self@ =~= before.insert(uri@, view));
    }

    /// Opens a document of the kind that its path shows.
    pub fn open(&mut self, uri: &str, kind: Option<K>, text: String)
        requires
            old(self).well_formed(),
        ensures
            final(self).well_formed(),
            final(self)@ == opened(old(self)@, uri@, kind, text@),
    {
        if let Some(kind) = kind {
            self.put(uri, Document { text, kind });
        }
    }

    /// Changes a document.
    pub fn change(&mut self, uri: &str, kind: Option<K>, text: String)
        requires
            old(self).well_formed(),
        ensures
            final(self).well_formed(),
            final(self)@ == changed(old(self)@, uri@, kind, text@),
    {
        let kind = match self.get(uri) {
            Some(document) => Some(document.kind),
            None => kind,
        };
        if let Some(kind) = kind {
            self.put(uri, Document { text, kind });
        }
    }

    /// Closes a document.
    pub fn close(&mut self, uri: &str)
        requires
            old(self).well_formed(),
        ensures
            final(self).well_formed(),
            final(self)@ == old(self)@.remove(uri@),
    {
        let ghost before = self@;
        let _ = self.table.remove(uri);
        assert(self@ =~= before.remove(uri@));
    }
}

} // verus!
