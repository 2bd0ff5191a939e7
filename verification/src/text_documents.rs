use vstd::prelude::*;

use vstd::pervasive::VecAdditionalExecFns;

use crate::text_document::spec_canonical_offset;
use crate::text_document::spec_update;
use crate::text_document::spec_update_fits;
use crate::text_document::FullTextDocument;
use crate::types::ContractViolation;
use crate::types::Range;
use crate::types::TextDocumentContentChangeEvent;

verus! {

/// One tracked document together with the identifier it is stored under.
pub struct DocumentEntry {
    pub uri: Vec<u8>,
    pub document: FullTextDocument,
}

/// One document-synchronization event, parsed into plain values. `Open`,
/// `Change` and `Close` carry their payloads; any other event kind is
/// `Other` and is reported as unhandled.
pub enum DocumentEvent {
    Open { uri: Vec<u8>, language_id: String, version: i32, text: Vec<u8> },
    Change { uri: Vec<u8>, changes: Vec<TextDocumentContentChangeEvent>, version: i32 },
    Close { uri: Vec<u8> },
    Other,
}

/// The first document stored under `uri`, if any.
pub open spec fn spec_get(entries: Seq<DocumentEntry>, uri: Seq<u8>) -> Option<FullTextDocument>
    decreases entries.len(),
{
    if entries.len() == 0 {
        None
    } else if entries[0].uri@ == uri {
        Some(entries[0].document)
    } else {
        spec_get(entries.drop_first(), uri)
    }
}

/// No two entries share an identifier.
pub open spec fn unique_uris(entries: Seq<DocumentEntry>) -> bool {
    forall|i: int, j: int|
        0 <= i < j < entries.len() ==> #[trigger] entries[i].uri@ != #[trigger] entries[j].uri@
}

/// Under unique identifiers, the lookup finds exactly the entry whose
/// identifier matches, and finds nothing when none matches.
pub proof fn lemma_spec_get_unique(entries: Seq<DocumentEntry>, uri: Seq<u8>)
    requires
        unique_uris(entries),
    ensures
        (forall|i: int| 0 <= i < entries.len() ==> #[trigger] entries[i].uri@ != uri) ==> spec_get(
            entries,
            uri,
        ) is None,
        forall|i: int|
            0 <= i < entries.len() && #[trigger] entries[i].uri@ == uri ==> spec_get(entries, uri)
                == Some(entries[i].document),
    decreases entries.len(),
{
    if entries.len() > 0 {
        let tail = entries.drop_first();
        assert(forall|i: int| 0 <= i < tail.len() ==> tail[i] == entries[i + 1]);
        assert(unique_uris(tail));
        lemma_spec_get_unique(tail, uri);
        if entries[0].uri@ != uri {
            assert forall|i: int|
                0 <= i < entries.len() && #[trigger] entries[i].uri@ == uri implies spec_get(
                entries,
                uri,
            ) == Some(entries[i].document) by {
                assert(i >= 1);
                assert(tail[i - 1] == entries[i]);
            }
        }
    }
}

/// Whether two byte strings hold the same bytes.
fn bytes_eq(a: &Vec<u8>, b: &Vec<u8>) -> (r: bool)
    ensures
        r <==> a@ == b@,
{
    if a.len() != b.len() {
        proof {
            assert(a@.len() != b@.len());
        }
        return false;
    }
    let n = a.len();
    let mut i: usize = 0;
    while i < n
        invariant
            n == a@.len(),
            n == b@.len(),
            i <= n,
            forall|k: int| 0 <= k < i ==> a@[k] == b@[k],
        decreases n - i,
    {
        if a[i] != b[i] {
            return false;
        }
        i = i + 1;
    }
    proof {
        assert(a@ =~= b@);
    }
    true
}

/// A store of documents keyed by identifier. Open, change and close events
/// create, update and destroy the corresponding document; reads return
/// nothing for unknown identifiers.
pub struct TextDocuments {
    docs: Vec<DocumentEntry>,
}

impl TextDocuments {
    /// The stored entries, in insertion order.
    pub closed spec fn spec_entries(&self) -> Seq<DocumentEntry> {
        self.docs@
    }

    /// Identifiers are unique and every stored document is well formed.
    pub open spec fn wf(&self) -> bool {
        &&& unique_uris(self.spec_entries())
        &&& forall|i: int|
            0 <= i < self.spec_entries().len() ==> #[trigger] self.spec_entries()[i].document.wf()
    }

    /// The document stored under `uri`, if any.
    pub open spec fn spec_document(&self, uri: Seq<u8>) -> Option<FullTextDocument> {
        spec_get(self.spec_entries(), uri)
    }

    /// Creates an empty store.
    pub fn new() -> (s: Self)
        ensures
            s.wf(),
            s.spec_entries().len() == 0,
            forall|uri: Seq<u8>| s.spec_document(uri) is None,
    {
        Self { docs: Vec::new() }
    }

    /// The stored entries.
    pub fn documents(&self) -> (r: &Vec<DocumentEntry>)
        ensures
            r@ == self.spec_entries(),
    {
        &self.docs
    }

    /// The index of the entry stored under `uri`, if any.
    fn find(&self, uri: &Vec<u8>) -> (r: Option<usize>)
        requires
            self.wf(),
        ensures
            match r {
                Some(i) => {
                    &&& (i as int) < self.spec_entries().len()
                    &&& self.spec_entries()[i as int].uri@ == uri@
                    &&& self.spec_document(uri@) == Some(self.spec_entries()[i as int].document)
                },
                None => self.spec_document(uri@) is None,
            },
    {
        let n = self.docs.len();
        let mut i: usize = 0;
        while i < n
            invariant
                self.wf(),
                n == self.spec_entries().len(),
                i <= n,
                forall|k: int| 0 <= k < i ==> #[trigger] self.spec_entries()[k].uri@ != uri@,
            decreases n - i,
        {
            if bytes_eq(&self.docs[i].uri, uri) {
                proof {
                    lemma_spec_get_unique(self.spec_entries(), uri@);
                }
                return Some(i);
            }
            i = i + 1;
        }
        proof {
            lemma_spec_get_unique(self.spec_entries(), uri@);
        }
        None
    }

    /// The document stored under `uri`, if any.
    pub fn get_document(&self, uri: &Vec<u8>) -> (r: Option<&FullTextDocument>)
        requires
            self.wf(),
        ensures
            match r {
                Some(d) => self.spec_document(uri@) == Some(*d),
                None => self.spec_document(uri@) is None,
            },
    {
        match self.find(uri) {
            Some(i) => Some(&self.docs[i].document),
            None => None,
        }
    }

    /// The content of the document stored under `uri`, if any, restricted
    /// to `range` as `get_content` restricts it.
    pub fn get_document_content(&self, uri: &Vec<u8>, range: Option<Range>) -> (r: Option<&[u8]>)
        requires
            self.wf(),
            match (self.spec_document(uri@), range) {
                (Some(d), Some(rg)) => spec_canonical_offset(
                    d.spec_content(),
                    d.spec_line_offsets(),
                    rg.start,
                ) <= spec_canonical_offset(d.spec_content(), d.spec_line_offsets(), rg.end),
                _ => true,
            },
        ensures
            match (self.spec_document(uri@), r) {
                (Some(d), Some(bytes)) => bytes@ == (match range {
                    Some(rg) => d.spec_content().subrange(
                        spec_canonical_offset(d.spec_content(), d.spec_line_offsets(), rg.start),
                        spec_canonical_offset(d.spec_content(), d.spec_line_offsets(), rg.end),
                    ),
                    None => d.spec_content(),
                }),
                (None, None) => true,
                _ => false,
            },
    {
        match self.find(uri) {
            Some(i) => Some(self.docs[i].document.get_content(range)),
            None => None,
        }
    }

    /// Opens a document: stores a fresh document under `uri`, replacing any
    /// existing entry for that identifier outright.
    pub fn open(&mut self, uri: Vec<u8>, language_id: String, version: i32, text: Vec<u8>)
        requires
            old(self).wf(),
            text@.len() < u32::MAX,
        ensures
            final(self).wf(),
            match final(self).spec_document(uri@) {
                Some(d) => {
                    &&& d.wf()
                    &&& d.is_synced()
                    &&& d.spec_language_id() == language_id@
                    &&& d.spec_version() == version
                    &&& d.spec_content() == text@
                },
                None => false,
            },
            forall|u: Seq<u8>|
                u != uri@ ==> final(self).spec_document(u) == old(self).spec_document(u),
    {
        let ghost old_entries = self.spec_entries();
        let ghost guri = uri@;
        let found = self.find(&uri);
        let document = FullTextDocument::new(language_id, version, text);
        let entry = DocumentEntry { uri, document };
        match found {
            Some(i) => {
                self.docs.set(i, entry);
                proof {
                    let new_entries = self.spec_entries();
                    assert(forall|k: int|
                        0 <= k < new_entries.len() && k != i ==> new_entries[k] == old_entries[k]);
                    assert(new_entries[i as int].uri@ == guri);
                    assert(unique_uris(new_entries));
                    lemma_spec_get_unique(new_entries, guri);
                    assert forall|u: Seq<u8>| u != guri implies spec_get(new_entries, u)
                        == spec_get(old_entries, u) by {
                        lemma_spec_get_unique(old_entries, u);
                        lemma_spec_get_unique(new_entries, u);
                        if exists|k: int| 0 <= k < old_entries.len() && old_entries[k].uri@ == u {
                            let k = choose|k: int|
                                0 <= k < old_entries.len() && #[trigger] old_entries[k].uri@ == u;
                            assert(k != i);
                            assert(new_entries[k].uri@ == u);
                        } else {
                            assert(forall|k: int|
                                0 <= k < old_entries.len() ==> #[trigger] old_entries[k].uri@ != u);
                            assert(forall|k: int|
                                0 <= k < new_entries.len() ==> #[trigger] new_entries[k].uri@ != u);
                        }
                    }
                }
            },
            None => {
                proof {
                    assert forall|k: int| 0 <= k < old_entries.len() implies #[trigger] old_entries[k].uri@
                        != guri by {
                        lemma_spec_get_unique(old_entries, guri);
                    }
                }
                self.docs.push(entry);
                proof {
                    let new_entries = self.spec_entries();
                    assert(forall|k: int|
                        0 <= k < old_entries.len() ==> new_entries[k] == old_entries[k]);
                    assert(new_entries[old_entries.len() as int].uri@ == guri);
                    assert(unique_uris(new_entries));
                    lemma_spec_get_unique(new_entries, guri);
                    assert forall|u: Seq<u8>| u != guri implies spec_get(new_entries, u)
                        == spec_get(old_entries, u) by {
                        lemma_spec_get_unique(old_entries, u);
                        lemma_spec_get_unique(new_entries, u);
                        if exists|k: int| 0 <= k < old_entries.len() && old_entries[k].uri@ == u {
                            let k = choose|k: int|
                                0 <= k < old_entries.len() && #[trigger] old_entries[k].uri@ == u;
                            assert(new_entries[k].uri@ == u);
                        } else {
                            assert(forall|k: int|
                                0 <= k < old_entries.len() ==> #[trigger] old_entries[k].uri@ != u);
                            assert(forall|k: int|
                                0 <= k < new_entries.len() ==> #[trigger] new_entries[k].uri@ != u);
                        }
                    }
                }
            },
        }
    }

    /// Applies change events to the document stored under `uri` and records
    /// the caller-supplied version; for an unknown identifier the event is a
    /// silent no-op. An edit with an inverted range is rejected with the
    /// contract-violation error, as `update` rejects it.
    pub fn change(
        &mut self,
        uri: &Vec<u8>,
        changes: &[TextDocumentContentChangeEvent],
        version: i32,
    ) -> (r: Result<(), ContractViolation>)
        requires
            old(self).wf(),
            match spec_get(old(self).spec_entries(), uri@) {
                Some(d) => spec_update_fits(d.spec_content(), d.spec_line_offsets(), changes@),
                None => true,
            },
        ensures
            final(self).wf(),
            match spec_get(old(self).spec_entries(), uri@) {
                None => r is Ok && final(self).spec_entries() == old(self).spec_entries(),
                Some(d) => {
                    let (st, err) = spec_update(d.spec_content(), d.spec_line_offsets(), changes@);
                    &&& match final(self).spec_document(uri@) {
                        Some(d2) => {
                            &&& d2.spec_content() == st.0
                            &&& d2.spec_line_offsets() == st.1
                            &&& d2.spec_language_id() == d.spec_language_id()
                            &&& match err {
                                None => r is Ok && d2.spec_version() == version,
                                Some(e) => r == Result::<(), ContractViolation>::Err(e)
                                    && d2.spec_version() == d.spec_version(),
                            }
                        },
                        None => false,
                    }
                    &&& forall|u: Seq<u8>|
                        u != uri@ ==> final(self).spec_document(u) == old(self).spec_document(u)
                },
            },
    {
        let ghost old_entries = self.spec_entries();
        match self.find(uri) {
            Some(i) => {
                let mut entry = self.docs.remove(i);
                let res = entry.document.update(changes, version);
                self.docs.insert(i, entry);
                proof {
                    let new_entries = self.spec_entries();
                    assert(new_entries =~= old_entries.update(i as int, new_entries[i as int]));
                    assert(forall|k: int|
                        0 <= k < new_entries.len() && k != i ==> new_entries[k] == old_entries[k]);
                    assert(new_entries[i as int].uri@ == uri@);
                    assert(unique_uris(new_entries));
                    lemma_spec_get_unique(new_entries, uri@);
                    assert forall|u: Seq<u8>| u != uri@ implies spec_get(new_entries, u)
                        == spec_get(old_entries, u) by {
                        lemma_spec_get_unique(old_entries, u);
                        lemma_spec_get_unique(new_entries, u);
                        if exists|k: int| 0 <= k < old_entries.len() && old_entries[k].uri@ == u {
                            let k = choose|k: int|
                                0 <= k < old_entries.len() && #[trigger] old_entries[k].uri@ == u;
                            assert(k != i);
                            assert(new_entries[k].uri@ == u);
                        } else {
                            assert(forall|k: int|
                                0 <= k < old_entries.len() ==> #[trigger] old_entries[k].uri@ != u);
                            assert(forall|k: int|
                                0 <= k < new_entries.len() ==> #[trigger] new_entries[k].uri@ != u);
                        }
                    }
                }
                res
            },
            None => Ok(()),
        }
    }

    /// Closes the document stored under `uri`, removing its entry; for an
    /// unknown identifier this is a no-op.
    pub fn close(&mut self, uri: &Vec<u8>)
        requires
            old(self).wf(),
        ensures
            final(self).wf(),
            final(self).spec_document(uri@) is None,
            forall|u: Seq<u8>|
                u != uri@ ==> final(self).spec_document(u) == old(self).spec_document(u),
    {
        let ghost old_entries = self.spec_entries();
        match self.find(uri) {
            Some(i) => {
                self.docs.remove(i);
                proof {
                    let new_entries = self.spec_entries();
                    assert(forall|k: int| 0 <= k < i ==> new_entries[k] == old_entries[k]);
                    assert(forall|k: int|
                        i <= k < new_entries.len() ==> new_entries[k] == old_entries[k + 1]);
                    assert(unique_uris(new_entries));
                    assert forall|k: int| 0 <= k < new_entries.len() implies #[trigger] new_entries[k].uri@
                        != uri@ by {
                        if k < i {
                            assert(old_entries[k].uri@ != old_entries[i as int].uri@);
                        } else {
                            assert(old_entries[k + 1].uri@ != old_entries[i as int].uri@);
                        }
                    }
                    lemma_spec_get_unique(new_entries, uri@);
                    assert forall|u: Seq<u8>| u != uri@ implies spec_get(new_entries, u)
                        == spec_get(old_entries, u) by {
                        lemma_spec_get_unique(old_entries, u);
                        lemma_spec_get_unique(new_entries, u);
                        if exists|k: int| 0 <= k < old_entries.len() && old_entries[k].uri@ == u {
                            let k = choose|k: int|
                                0 <= k < old_entries.len() && #[trigger] old_entries[k].uri@ == u;
                            assert(k != i);
                            if k < i {
                                assert(new_entries[k].uri@ == u);
                            } else {
                                assert(new_entries[k - 1].uri@ == u);
                            }
                        } else {
                            assert(forall|k: int|
                                0 <= k < old_entries.len() ==> #[trigger] old_entries[k].uri@ != u);
                            assert(forall|k: int|
                                0 <= k < new_entries.len() ==> #[trigger] new_entries[k].uri@ != u);
                        }
                    }
                }
            },
            None => {},
        }
    }

    /// Routes one parsed document-synchronization event to the matching
    /// store operation. Open, change and close events are handled and
    /// reported with `true`; any other event kind is ignored and reported
    /// with `false` so another collaborator can process it. A change event
    /// whose edit carries an inverted range is rejected with the
    /// contract-violation error.
    pub fn listen(&mut self, event: DocumentEvent) -> (r: Result<bool, ContractViolation>)
        requires
            old(self).wf(),
            match event {
                DocumentEvent::Open { uri, language_id, version, text } => text@.len() < u32::MAX,
                DocumentEvent::Change { uri, changes, version } => match spec_get(
                    old(self).spec_entries(),
                    uri@,
                ) {
                    Some(d) => spec_update_fits(
                        d.spec_content(),
                        d.spec_line_offsets(),
                        changes@,
                    ),
                    None => true,
                },
                _ => true,
            },
        ensures
            final(self).wf(),
            match event {
                DocumentEvent::Open { uri, language_id, version, text } => {
                    &&& r == Result::<bool, ContractViolation>::Ok(true)
                    &&& match final(self).spec_document(uri@) {
                        Some(d) => {
                            &&& d.is_synced()
                            &&& d.spec_language_id() == language_id@
                            &&& d.spec_version() == version
                            &&& d.spec_content() == text@
                        },
                        None => false,
                    }
                    &&& forall|u: Seq<u8>|
                        u != uri@ ==> final(self).spec_document(u) == old(self).spec_document(u)
                },
                DocumentEvent::Change { uri, changes, version } => match spec_get(
                    old(self).spec_entries(),
                    uri@,
                ) {
                    None => r == Result::<bool, ContractViolation>::Ok(true)
                        && final(self).spec_entries() == old(self).spec_entries(),
                    Some(d) => {
                        let (st, err) = spec_update(
                            d.spec_content(),
                            d.spec_line_offsets(),
                            changes@,
                        );
                        &&& match final(self).spec_document(uri@) {
                            Some(d2) => {
                                &&& d2.spec_content() == st.0
                                &&& d2.spec_line_offsets() == st.1
                                &&& d2.spec_language_id() == d.spec_language_id()
                                &&& match err {
                                    None => r == Result::<bool, ContractViolation>::Ok(true)
                                        && d2.spec_version() == version,
                                    Some(e) => r == Result::<bool, ContractViolation>::Err(e)
                                        && d2.spec_version() == d.spec_version(),
                                }
                            },
                            None => false,
                        }
                        &&& forall|u: Seq<u8>|
                            u != uri@ ==> final(self).spec_document(u)
                                == old(self).spec_document(u)
                    },
                },
                DocumentEvent::Close { uri } => {
                    &&& r == Result::<bool, ContractViolation>::Ok(true)
                    &&& final(self).spec_document(uri@) is None
                    &&& forall|u: Seq<u8>|
                        u != uri@ ==> final(self).spec_document(u) == old(self).spec_document(u)
                },
                DocumentEvent::Other => r == Result::<bool, ContractViolation>::Ok(false)
                    && final(self).spec_entries() == old(self).spec_entries(),
            },
    {
        match event {
            DocumentEvent::Open { uri, language_id, version, text } => {
                self.open(uri, language_id, version, text);
                Ok(true)
            },
            DocumentEvent::Change { uri, changes, version } => {
                match self.change(&uri, changes.as_slice(), version) {
                    Ok(()) => Ok(true),
                    Err(e) => Err(e),
                }
            },
            DocumentEvent::Close { uri } => {
                self.close(&uri);
                Ok(true)
            },
            DocumentEvent::Other => Ok(false),
        }
    }

    /// The language tag of the document stored under `uri`, if any.
    pub fn get_document_language(&self, uri: &Vec<u8>) -> (r: Option<&str>)
        requires
            self.wf(),
        ensures
            match (self.spec_document(uri@), r) {
                (Some(d), Some(lang)) => lang@ == d.spec_language_id(),
                (None, None) => true,
                _ => false,
            },
    {
        match self.find(uri) {
            Some(i) => Some(self.docs[i].document.language_id()),
            None => None,
        }
    }
}

} // verus!
