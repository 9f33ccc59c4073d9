//! The index as a program uses it: built from what the file system gave,
//! searched by keywords, dumped to a snapshot and restored from one.

use crate::errors::Error;
use crate::index::{key_views, DocumentIndex, IndexView};
use crate::ingest::{
    decode, entries_outcome, entry_outcome, file_outcome, ordered, sort_entries, source_outcome,
    Entry, EntryKind, Outcome, Reading, Source,
};
use crate::sizing::ErrorRate;
use crate::snapshot::Snapshot;
use vstd::prelude::*;

verus! {

/// A full-text search index over files.
pub struct FsIndex {
    index: DocumentIndex,
}

impl View for FsIndex {
    type V = IndexView;

    closed spec fn view(&self) -> IndexView {
        self.index@
    }
}

impl FsIndex {
    /// The invariant of the representation; it implies that of the view.
    pub closed spec fn wf(&self) -> bool {
        self.index.wf()
    }

    /// A well-formed index has a well-formed view.
    pub proof fn lemma_view_wf(&self)
        requires
            self.wf(),
        ensures
            self@.wf(),
    {
        self.index.lemma_view_wf();
    }

    /// The empty index whose filters will aim at the given false-positive
    /// rate.
    pub fn new(error_rate: ErrorRate) -> (index: FsIndex)
        requires
            error_rate.wf(),
        ensures
            index.wf(),
            index@ == IndexView::empty(error_rate@),
    {
        FsIndex { index: DocumentIndex::new(error_rate) }
    }

    /// Ingests one file: its text is inserted under its path. Where reading
    /// failed or the bytes are not text, the index stays as it is.
    pub fn index_file(&mut self, path: String, reading: Reading) -> (done: Result<(), Error>)
        requires
            old(self).wf(),
        ensures
            final(self).wf(),
            final(self)@ == file_outcome(old(self)@, path@, reading).index,
            done is Ok <==> file_outcome(old(self)@, path@, reading).error is None,
            done matches Err(error) ==> file_outcome(old(self)@, path@, reading).error == Some(
                error,
            ),
    {
        match reading {
            Reading::Bytes(bytes) => match decode(bytes) {
                Some(text) => {
                    self.index.insert(path, text.as_str());
                    Ok(())
                },
                None => Err(Error::InvalidEncoding),
            },
            Reading::Failed(failure) => Err(Error::from(failure)),
        }
    }

    /// Ingests one directory entry: a regular file is ingested, and passed
    /// over where it is not text; what is no regular file is passed over.
    pub fn index_entry(&mut self, entry: Entry) -> (done: Result<(), Error>)
        requires
            old(self).wf(),
        ensures
            final(self).wf(),
            final(self)@ == entry_outcome(old(self)@, entry).index,
            done is Ok <==> entry_outcome(old(self)@, entry).error is None,
            done matches Err(error) ==> entry_outcome(old(self)@, entry).error == Some(error),
    {
        let Entry { path, kind } = entry;
        match kind {
            EntryKind::File(reading) => match self.index_file(path, reading) {
                Ok(()) => Ok(()),
                Err(error) => if error.is_skippable() {
                    Ok(())
                } else {
                    Err(error)
                },
            },
            EntryKind::Other => Ok(()),
            EntryKind::Unknown(failure) => Err(Error::from(failure)),
        }
    }

    /// Ingests the entries of a directory in the order of their paths, up to
    /// the first error. What was ingested before an error stays.
    pub fn index_directory(&mut self, entries: Vec<Entry>) -> (done: Result<(), Error>)
        requires
            old(self).wf(),
        ensures
            final(self).wf(),
            final(self)@ == entries_outcome(old(self)@, ordered(entries@)).index,
            done is Ok <==> entries_outcome(old(self)@, ordered(entries@)).error is None,
            done matches Err(error) ==> entries_outcome(old(self)@, ordered(entries@)).error
                == Some(error),
    {
        let sorted = sort_entries(entries);
        let ghost all = sorted@;
        let ghost goal = entries_outcome(self@, all);
        assert(all.skip(0) =~= all);
        for entry in it: sorted
            invariant
                it.seq() == all,
                self.wf(),
                goal == entries_outcome(old(self)@, ordered(entries@)),
                goal == entries_outcome(self@, all.skip(it.index())),
        {
            let ghost rest = all.skip(it.index());
            proof {
                assert(rest.first() == entry);
                assert(rest.drop_first() =~= all.skip(it.index() + 1));
            }
            match self.index_entry(entry) {
                Ok(()) => {},
                Err(error) => {
                    return Err(error);
                },
            }
        }
        Ok(())
    }

    /// Ingests a file or the files at the first level of a directory.
    pub fn ingest(&mut self, source: Source) -> (done: Result<(), Error>)
        requires
            old(self).wf(),
        ensures
            final(self).wf(),
            final(self)@ == source_outcome(old(self)@, source).index,
            done is Ok <==> source_outcome(old(self)@, source).error is None,
            done matches Err(error) ==> source_outcome(old(self)@, source).error == Some(error),
    {
        match source {
            Source::File { path, reading } => self.index_file(path, reading),
            Source::Directory { entries } => self.index_directory(entries),
            Source::Unlisted { failure } => Err(Error::from(failure)),
            Source::Unsupported => Err(Error::UnsupportedSource),
        }
    }

    /// The paths of the files that may hold every keyword, in the order in
    /// which they were first ingested, or `None` where nothing matches.
    pub fn search(&self, keywords: &str) -> (found: Option<Vec<&String>>)
        requires
            self.wf(),
        ensures
            found is Some <==> self@.search(keywords@) is Some,
            found matches Some(keys) ==> Some(key_views(keys@)) == self@.search(keywords@),
    {
        self.index.search(keywords)
    }

    /// The index that a snapshot stands for, or `MalformedSnapshot`.
    pub fn restore(snapshot: Snapshot) -> (restored: Result<FsIndex, Error>)
        ensures
            restored matches Ok(index) ==> index.wf() && snapshot.restored() == Ok::<
                IndexView,
                Error,
            >(index@),
            restored matches Err(error) ==> snapshot.restored() == Err::<IndexView, Error>(error),
    {
        match DocumentIndex::deserialize(snapshot) {
            Ok(index) => Ok(FsIndex { index }),
            Err(error) => Err(error),
        }
    }

    /// The snapshot of the index.
    pub fn dump(&self) -> (snapshot: Snapshot)
        requires
            self.wf(),
        ensures
            snapshot.valid(),
            snapshot.index() == self@,
    {
        self.index.serialize()
    }
}

} // verus!
