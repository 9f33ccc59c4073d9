//! The snapshot of an index: the plain values from which the index can be
//! rebuilt bit for bit.

use crate::bloom::FilterParts;
use crate::errors::Error;
use crate::index::{DocumentView, IndexView};
use crate::sizing::valid_rate;
use vstd::prelude::*;

verus! {

/// One document of a snapshot: its key and the parts of its filter.
pub struct SnapshotEntry {
    pub key: String,
    pub filter: FilterParts,
}

/// A whole index as plain values: the bit pattern of its rate and its
/// documents in insertion order.
pub struct Snapshot {
    pub error_rate: u32,
    pub bloom_filters: Vec<SnapshotEntry>,
}

/// The document that an entry stands for.
pub open spec fn document_of() -> spec_fn(SnapshotEntry) -> DocumentView {
    |e: SnapshotEntry| DocumentView { key: e.key@, filter: e.filter.filter() }
}

impl Snapshot {
    /// Whether the snapshot stands for an index: the rate lies above zero and
    /// below one, every entry's parts stand for a filter, and no key occurs
    /// twice.
    pub open spec fn valid(&self) -> bool {
        &&& valid_rate(self.error_rate)
        &&& forall|d: int|
            0 <= d < self.bloom_filters.len() ==> (#[trigger] self.bloom_filters[d]).filter.valid()
        &&& forall|d: int, e: int|
            0 <= d < self.bloom_filters.len() && 0 <= e < self.bloom_filters.len() && d != e ==> (
            #[trigger] self.bloom_filters[d]).key@ != (#[trigger] self.bloom_filters[e]).key@
    }

    /// The index that the snapshot stands for.
    pub open spec fn index(&self) -> IndexView {
        IndexView {
            error_rate: self.error_rate,
            documents: self.bloom_filters@.map_values(document_of()),
        }
    }

    /// What restoring the snapshot gives: the index that it stands for, or
    /// `MalformedSnapshot` where it stands for none.
    pub open spec fn restored(&self) -> Result<IndexView, Error> {
        if self.valid() {
            Ok(self.index())
        } else {
            Err(Error::MalformedSnapshot)
        }
    }
}

} // verus!
