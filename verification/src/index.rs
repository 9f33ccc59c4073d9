//! The document index: one Bloom filter per document key, in the order in
//! which the keys were first inserted.

use crate::bloom::{BloomFilter, FilterView};
use crate::errors::Error;
use crate::sizing::{valid_rate, ErrorRate};
use crate::snapshot::{document_of, Snapshot, SnapshotEntry};
use crate::tokens::{normalize, token_views, tokens_of, Token};
use vstd::prelude::*;

verus! {

/// What the index holds of one document: its key and its filter.
pub struct DocumentView {
    pub key: Seq<char>,
    pub filter: FilterView,
}

/// What an index is: its target false-positive rate and its documents in
/// insertion order.
pub struct IndexView {
    pub error_rate: u32,
    pub documents: Seq<DocumentView>,
}

/// The test that a document passes when its filter reports every one of
/// `tokens`.
pub open spec fn reports(tokens: Seq<Seq<char>>) -> spec_fn(DocumentView) -> bool {
    |d: DocumentView| d.filter.holds_all(tokens)
}

/// The key of a document.
pub open spec fn key_of() -> spec_fn(DocumentView) -> Seq<char> {
    |d: DocumentView| d.key
}

impl IndexView {
    /// The rate is valid, every filter is well formed, and no key occurs
    /// twice.
    pub open spec fn wf(self) -> bool {
        &&& valid_rate(self.error_rate)
        &&& forall|d: int| 0 <= d < self.documents.len() ==> (#[trigger] self.documents[d]).filter.wf()
        &&& forall|d: int, e: int|
            0 <= d < self.documents.len() && 0 <= e < self.documents.len() && d != e ==> (
            #[trigger] self.documents[d]).key != (#[trigger] self.documents[e]).key
    }

    /// The index without documents.
    pub open spec fn empty(error_rate: u32) -> IndexView {
        IndexView { error_rate, documents: Seq::empty() }
    }

    /// The keys in insertion order.
    pub open spec fn keys(self) -> Seq<Seq<char>> {
        self.documents.map_values(key_of())
    }

    /// Whether a document is stored under `key`.
    pub open spec fn has_key(self, key: Seq<char>) -> bool {
        exists|d: int| 0 <= d < self.documents.len() && (#[trigger] self.documents[d]).key == key
    }

    /// The place of the document stored under `key`.
    pub open spec fn slot(self, key: Seq<char>) -> int
        recommends
            self.has_key(key),
    {
        choose|d: int| 0 <= d < self.documents.len() && (#[trigger] self.documents[d]).key == key
    }

    /// The index after a document with the given filter was stored under
    /// `key`: a key that is present keeps its place and gets the new filter, a
    /// new key comes last.
    pub open spec fn stored(self, key: Seq<char>, filter: FilterView) -> IndexView {
        let document = DocumentView { key, filter };
        IndexView {
            error_rate: self.error_rate,
            documents: if self.has_key(key) {
                self.documents.update(self.slot(key), document)
            } else {
                self.documents.push(document)
            },
        }
    }

    /// The index after `content` was inserted under `key`: the document's
    /// filter is built from the tokens of the content at the index's rate.
    pub open spec fn inserted(self, key: Seq<char>, content: Seq<char>) -> IndexView {
        self.stored(key, FilterView::built(tokens_of(content), self.error_rate))
    }

    /// The keys of the documents whose filters report every one of `tokens`,
    /// in insertion order.
    pub open spec fn hits(self, tokens: Seq<Seq<char>>) -> Seq<Seq<char>> {
        self.documents.filter(reports(tokens)).map_values(key_of())
    }

    /// What a search for the given tokens returns: the hits, or nothing where
    /// there is no token or no hit.
    pub open spec fn found(self, tokens: Seq<Seq<char>>) -> Option<Seq<Seq<char>>> {
        if tokens.len() == 0 || self.hits(tokens).len() == 0 {
            None
        } else {
            Some(self.hits(tokens))
        }
    }

    /// What a search for the given query returns.
    pub open spec fn search(self, query: Seq<char>) -> Option<Seq<Seq<char>>> {
        self.found(tokens_of(query))
    }
}

/// The character sequences of the keys that a search hands out.
pub open spec fn key_views(keys: Seq<&String>) -> Seq<Seq<char>> {
    keys.map_values(|k: &String| k@)
}

/// One stored document.
struct Document {
    key: String,
    filter: BloomFilter,
}

impl View for Document {
    type V = DocumentView;

    closed spec fn view(&self) -> DocumentView {
        DocumentView { key: self.key@, filter: self.filter@ }
    }
}

/// An index of documents by their tokens.
pub struct DocumentIndex {
    error_rate: ErrorRate,
    documents: Vec<Document>,
}

impl View for DocumentIndex {
    type V = IndexView;

    closed spec fn view(&self) -> IndexView {
        IndexView {
            error_rate: self.error_rate@,
            documents: self.documents@.map_values(|d: Document| d@),
        }
    }
}

/// Whether the filter reports every one of `tokens`.
fn reports_all(filter: &BloomFilter, tokens: &Vec<Token>) -> (all: bool)
    requires
        filter.wf(),
    ensures
        all == filter@.holds_all(token_views(tokens@)),
{
    let mut t: usize = 0;
    while t < tokens.len()
        invariant
            t <= tokens.len(),
            filter.wf(),
            forall|w: int| 0 <= w < t ==> filter@.holds(#[trigger] token_views(tokens@)[w]),
        decreases tokens.len() - t,
    {
        if !filter.contains(&tokens[t]) {
            assert(!filter@.holds(token_views(tokens@)[t as int]));
            return false;
        }
        t += 1;
    }
    true
}

impl DocumentIndex {
    /// The invariant of the representation; it implies that of the view.
    pub closed spec fn wf(&self) -> bool {
        &&& self@.wf()
        &&& forall|d: int| 0 <= d < self.documents.len() ==> (#[trigger] self.documents[d]).filter.wf()
    }

    /// A well-formed index has a well-formed view.
    pub proof fn lemma_view_wf(&self)
        requires
            self.wf(),
        ensures
            self@.wf(),
    {
    }

    /// The index without documents.
    pub fn new(error_rate: ErrorRate) -> (index: DocumentIndex)
        requires
            error_rate.wf(),
        ensures
            index.wf(),
            index@ == IndexView::empty(error_rate@),
    {
        let index = DocumentIndex { error_rate, documents: Vec::new() };
        assert(index@.documents =~= Seq::empty());
        index
    }

    /// The target false-positive rate of every filter that the index builds.
    pub fn error_rate(&self) -> (rate: ErrorRate)
        ensures
            rate@ == self@.error_rate,
    {
        self.error_rate
    }

    /// The number of documents.
    pub fn len(&self) -> (count: usize)
        ensures
            count == self@.documents.len(),
    {
        self.documents.len()
    }

    /// The place of the document stored under `key`, if there is one.
    fn find(&self, key: &String) -> (place: Option<usize>)
        requires
            self.wf(),
        ensures
            place is Some <==> self@.has_key(key@),
            place matches Some(d) ==> d < self@.documents.len() && d == self@.slot(key@),
    {
        let mut d: usize = 0;
        while d < self.documents.len()
            invariant
                d <= self.documents.len(),
                self.wf(),
                forall|w: int| 0 <= w < d ==> (#[trigger] self@.documents[w]).key != key@,
            decreases self.documents.len() - d,
        {
            if self.documents[d].key == *key {
                assert(self@.documents[d as int].key == key@);
                return Some(d);
            }
            d += 1;
        }
        None
    }

    /// Stores the filter of `content` under `key`. A key that is present
    /// keeps its place and loses its former filter; a new key comes last.
    pub fn insert(&mut self, key: String, content: &str)
        requires
            old(self).wf(),
        ensures
            final(self).wf(),
            final(self)@ == old(self)@.inserted(key@, content@),
    {
        let tokens = normalize(content);
        let filter = BloomFilter::build(&tokens, self.error_rate);
        proof {
            filter.lemma_view_wf();
        }
        let place = self.find(&key);
        let ghost document = DocumentView { key: key@, filter: filter@ };
        match place {
            Some(d) => {
                self.documents.set(d, Document { key, filter });
                assert(self@.documents =~= old(self)@.documents.update(d as int, document));
            },
            None => {
                self.documents.push(Document { key, filter });
                assert(self@.documents =~= old(self)@.documents.push(document));
            },
        }
    }

    /// The snapshot of the index: its rate and, in insertion order, every
    /// key with the parts of its filter.
    pub fn serialize(&self) -> (snapshot: Snapshot)
        requires
            self.wf(),
        ensures
            snapshot.valid(),
            snapshot.index() == self@,
    {
        let mut entries: Vec<SnapshotEntry> = Vec::new();
        let mut d: usize = 0;
        while d < self.documents.len()
            invariant
                d <= self.documents.len(),
                self.wf(),
                entries.len() == d,
                forall|w: int|
                    0 <= w < d ==> (#[trigger] entries[w]).filter.valid() && document_of()(
                        entries[w],
                    ) == self@.documents[w],
            decreases self.documents.len() - d,
        {
            let key: String = self.documents[d].key.clone();
            let filter = self.documents[d].filter.to_parts();
            entries.push(SnapshotEntry { key, filter });
            d += 1;
        }
        let snapshot = Snapshot { error_rate: self.error_rate.to_bits(), bloom_filters: entries };
        proof {
            assert(snapshot.index().documents =~= self@.documents);
            assert forall|a: int, b: int|
                0 <= a < snapshot.bloom_filters.len() && 0 <= b < snapshot.bloom_filters.len() && a
                    != b implies (#[trigger] snapshot.bloom_filters[a]).key@ != (
            #[trigger] snapshot.bloom_filters[b]).key@ by {
                assert(document_of()(snapshot.bloom_filters[a]) == self@.documents[a]);
                assert(document_of()(snapshot.bloom_filters[b]) == self@.documents[b]);
            }
        }
        snapshot
    }

    /// The index that a snapshot stands for, or `MalformedSnapshot` where it
    /// stands for none.
    pub fn deserialize(snapshot: Snapshot) -> (restored: Result<DocumentIndex, Error>)
        ensures
            restored matches Ok(index) ==> index.wf() && snapshot.restored() == Ok::<
                IndexView,
                Error,
            >(index@),
            restored matches Err(error) ==> snapshot.restored() == Err::<IndexView, Error>(error),
    {
        let error_rate = match ErrorRate::from_bits(snapshot.error_rate) {
            Some(rate) => rate,
            None => {
                return Err(Error::MalformedSnapshot);
            },
        };
        let ghost all = snapshot.bloom_filters@;
        let mut index = DocumentIndex { error_rate, documents: Vec::new() };
        assert(index@.documents =~= all.take(0).map_values(document_of()));
        for entry in it: snapshot.bloom_filters
            invariant
                it.seq() == all,
                all == snapshot.bloom_filters@,
                index.wf(),
                index.error_rate@ == snapshot.error_rate,
                index@.documents == all.take(it.index()).map_values(document_of()),
                forall|w: int| 0 <= w < it.index() ==> (#[trigger] all[w]).filter.valid(),
        {
            let ghost n = it.index();
            assert(entry == all[n]);
            let SnapshotEntry { key, filter } = entry;
            if index.find(&key).is_some() {
                proof {
                    let w = index@.slot(key@);
                    assert(index@.documents[w].key == key@);
                    assert(document_of()(all[w]).key == all[n].key@);
                    assert(all[w].key@ == all[n].key@);
                }
                return Err(Error::MalformedSnapshot);
            }
            let filter = match BloomFilter::from_parts(filter) {
                Some(filter) => filter,
                None => {
                    assert(!all[n].filter.valid());
                    return Err(Error::MalformedSnapshot);
                },
            };
            proof {
                filter.lemma_view_wf();
            }
            let ghost before = index@.documents;
            index.documents.push(Document { key, filter });
            proof {
                assert(index@.documents =~= before.push(document_of()(all[n])));
                assert(all.take(n + 1).map_values(document_of()) =~= before.push(
                    document_of()(all[n]),
                ));
                assert forall|a: int, b: int|
                    0 <= a < index@.documents.len() && 0 <= b < index@.documents.len() && a
                        != b implies (#[trigger] index@.documents[a]).key != (
                #[trigger] index@.documents[b]).key by {
                    if a == n {
                        assert(before[b].key != all[n].key@);
                    } else if b == n {
                        assert(before[a].key != all[n].key@);
                    } else {
                        assert(before[a].key != before[b].key);
                    }
                }
            }
        }
        proof {
            assert(all.take(all.len() as int) =~= all);
            assert forall|a: int, b: int|
                0 <= a < all.len() && 0 <= b < all.len() && a != b implies (#[trigger] all[a]).key@
                != (#[trigger] all[b]).key@ by {
                assert(index@.documents[a].key == all[a].key@);
                assert(index@.documents[b].key == all[b].key@);
            }
        }
        Ok(index)
    }

    /// The keys of the documents whose filters report every one of `tokens`,
    /// in insertion order, or `None` where there is no token or no such
    /// document.
    pub fn search_tokens(&self, tokens: &Vec<Token>) -> (found: Option<Vec<&String>>)
        requires
            self.wf(),
        ensures
            found is Some <==> self@.found(token_views(tokens@)) is Some,
            found matches Some(keys) ==> Some(key_views(keys@)) == self@.found(token_views(tokens@)),
    {
        if tokens.len() == 0 {
            return None;
        }
        let ghost wanted = token_views(tokens@);
        let mut keys: Vec<&String> = Vec::new();
        let mut d: usize = 0;
        assert(self@.documents.take(0) =~= Seq::empty());
        while d < self.documents.len()
            invariant
                d <= self.documents.len(),
                self.wf(),
                wanted == token_views(tokens@),
                key_views(keys@) == self@.documents.take(d as int).filter(reports(wanted)).map_values(
                    key_of(),
                ),
            decreases self.documents.len() - d,
        {
            let ghost before = self@.documents.take(d as int);
            let ghost document = self@.documents[d as int];
            proof {
                let whole = before.push(document);
                assert(self@.documents.take(d + 1) =~= whole);
                assert(document.filter == self.documents[d as int].filter@);
                before.lemma_filter_push(document, reports(wanted));
            }
            if reports_all(&self.documents[d].filter, tokens) {
                let ghost prior = keys@;
                keys.push(&self.documents[d].key);
                assert(key_views(keys@) =~= key_views(prior).push(document.key));
                assert(before.filter(reports(wanted)).push(document).map_values(key_of())
                    =~= before.filter(reports(wanted)).map_values(key_of()).push(document.key));
            }
            d += 1;
        }
        assert(self@.documents.take(d as int) =~= self@.documents);
        if keys.len() == 0 {
            None
        } else {
            Some(keys)
        }
    }

    /// The keys of the documents that may hold every keyword of `query`, in
    /// insertion order, or `None` where the query holds no token or no
    /// document matches.
    pub fn search(&self, query: &str) -> (found: Option<Vec<&String>>)
        requires
            self.wf(),
        ensures
            found is Some <==> self@.search(query@) is Some,
            found matches Some(keys) ==> Some(key_views(keys@)) == self@.search(query@),
    {
        let tokens = normalize(query);
        self.search_tokens(&tokens)
    }
}

} // verus!
