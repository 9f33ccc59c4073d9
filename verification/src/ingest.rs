//! Ingestion: what becomes of an index when a file or the files of a
//! directory are fed to it, given what reading them gave.
//!
//! The caller reads; this module decides. A file that is not text fails a
//! single-file ingestion and is passed over in a directory; every other
//! failure ends the ingestion. The entries of a directory are taken in the
//! order of their paths, so that the same directory always gives the same
//! index.

use crate::errors::{error_of, Error, IoFailure};
use crate::index::IndexView;
use vstd::prelude::*;
use vstd::utf8::{decode_utf8, encode_utf8, valid_utf8};

verus! {

/// What reading a file gave: its bytes, or why it failed.
pub enum Reading {
    Bytes(Vec<u8>),
    Failed(IoFailure),
}

/// What a directory entry turned out to be.
pub enum EntryKind {
    /// A regular file, with what reading it gave.
    File(Reading),
    /// Anything that is not a regular file, a subdirectory for one.
    Other,
    /// Nothing could be learnt of it.
    Unknown(IoFailure),
}

/// One entry of a directory.
pub struct Entry {
    pub path: String,
    pub kind: EntryKind,
}

/// What the source of an ingestion turned out to be.
pub enum Source {
    /// A regular file, with what reading it gave.
    File { path: String, reading: Reading },
    /// A directory, with its entries at the first level in any order.
    Directory { entries: Vec<Entry> },
    /// A directory whose entries could not be listed.
    Unlisted { failure: IoFailure },
    /// Neither a file nor a directory.
    Unsupported,
}

/// The text that a reading holds, or the error that it stands for: bytes
/// that are not valid UTF-8 are an encoding error.
pub open spec fn text_of(reading: Reading) -> Result<Seq<char>, Error> {
    match reading {
        Reading::Bytes(bytes) => if valid_utf8(bytes@) {
            Ok(decode_utf8(bytes@))
        } else {
            Err(Error::InvalidEncoding)
        },
        Reading::Failed(failure) => Err(error_of(failure)),
    }
}

/// An index together with the error that ended an ingestion, if one did.
pub struct Outcome {
    pub index: IndexView,
    pub error: Option<Error>,
}

/// The outcome of ingesting one file: its text is inserted under its path,
/// or the index stays as it is and the error is reported.
pub open spec fn file_outcome(index: IndexView, path: Seq<char>, reading: Reading) -> Outcome {
    match text_of(reading) {
        Ok(text) => Outcome { index: index.inserted(path, text), error: None },
        Err(error) => Outcome { index, error: Some(error) },
    }
}

/// The outcome of one directory entry: a regular file is ingested, and
/// passed over where it is not text; what is no regular file is passed
/// over; an entry of which nothing could be learnt ends the ingestion.
pub open spec fn entry_outcome(index: IndexView, entry: Entry) -> Outcome {
    match entry.kind {
        EntryKind::File(reading) => {
            let outcome = file_outcome(index, entry.path@, reading);
            if outcome.error matches Some(error) && error.skippable() {
                Outcome { index, error: None }
            } else {
                outcome
            }
        },
        EntryKind::Other => Outcome { index, error: None },
        EntryKind::Unknown(failure) => Outcome { index, error: Some(error_of(failure)) },
    }
}

/// The outcome of the entries taken one after the other, up to the first
/// error.
pub open spec fn entries_outcome(index: IndexView, entries: Seq<Entry>) -> Outcome
    decreases entries.len(),
{
    if entries.len() == 0 {
        Outcome { index, error: None }
    } else {
        let first = entry_outcome(index, entries.first());
        if first.error is Some {
            first
        } else {
            entries_outcome(first.index, entries.drop_first())
        }
    }
}

/// Whether the byte string `a` comes before `b` or equals it, in
/// lexicographic order.
pub open spec fn precedes(a: Seq<u8>, b: Seq<u8>) -> bool
    decreases a.len(),
{
    if a.len() == 0 {
        true
    } else if b.len() == 0 {
        false
    } else if a.first() != b.first() {
        a.first() < b.first()
    } else {
        precedes(a.drop_first(), b.drop_first())
    }
}

/// The bytes by which an entry is ordered: the UTF-8 encoding of its path.
pub open spec fn path_bytes(entry: Entry) -> Seq<u8> {
    encode_utf8(entry.path@)
}

/// Where `entry` goes into `sorted`: behind the last entry that precedes it
/// or has the same path.
pub open spec fn place(sorted: Seq<Entry>, entry: Entry) -> int
    decreases sorted.len(),
{
    if sorted.len() == 0 || precedes(path_bytes(sorted.last()), path_bytes(entry)) {
        sorted.len() as int
    } else {
        place(sorted.drop_last(), entry)
    }
}

/// The entries in the order of their paths; entries with the same path keep
/// their order.
pub open spec fn ordered(entries: Seq<Entry>) -> Seq<Entry>
    decreases entries.len(),
{
    if entries.len() == 0 {
        entries
    } else {
        let sorted = ordered(entries.drop_last());
        sorted.insert(place(sorted, entries.last()), entries.last())
    }
}

/// The outcome of ingesting a source.
pub open spec fn source_outcome(index: IndexView, source: Source) -> Outcome {
    match source {
        Source::File { path, reading } => file_outcome(index, path@, reading),
        Source::Directory { entries } => entries_outcome(index, ordered(entries@)),
        Source::Unlisted { failure } => Outcome { index, error: Some(error_of(failure)) },
        Source::Unsupported => Outcome { index, error: Some(Error::UnsupportedSource) },
    }
}

/// `String::from_utf8`: the text that the bytes encode, or `None` where they
/// are not valid UTF-8.
#[verifier::external_body]
pub(crate) fn decode(bytes: Vec<u8>) -> (text: Option<String>)
    ensures
        text is Some <==> valid_utf8(bytes@),
        text matches Some(t) ==> t@ == decode_utf8(bytes@),
{
    match String::from_utf8(bytes) {
        Ok(text) => Some(text),
        Err(_) => None,
    }
}

/// Bytes that agree up to `n` are ordered as their remainders are.
proof fn lemma_precedes_skip(a: Seq<u8>, b: Seq<u8>, n: int)
    requires
        0 <= n <= a.len(),
        n <= b.len(),
        a.take(n) == b.take(n),
    ensures
        precedes(a, b) == precedes(a.skip(n), b.skip(n)),
    decreases n,
{
    if n == 0 {
        assert(a.skip(0) =~= a);
        assert(b.skip(0) =~= b);
    } else {
        assert(a.first() == a.take(n)[0]);
        assert(b.first() == b.take(n)[0]);
        assert(a.drop_first().take(n - 1) =~= a.take(n).drop_first());
        assert(b.drop_first().take(n - 1) =~= b.take(n).drop_first());
        lemma_precedes_skip(a.drop_first(), b.drop_first(), n - 1);
        assert(a.drop_first().skip(n - 1) =~= a.skip(n));
        assert(b.drop_first().skip(n - 1) =~= b.skip(n));
    }
}

/// Whether the path `a` comes before the path `b` or equals it.
pub fn path_precedes(a: &String, b: &String) -> (before: bool)
    ensures
        before == precedes(encode_utf8(a@), encode_utf8(b@)),
{
    let x = a.as_str().as_bytes();
    let y = b.as_str().as_bytes();
    let mut n: usize = 0;
    assert(x@.take(0) =~= y@.take(0));
    while n < x.len() && n < y.len()
        invariant
            n <= x.len(),
            n <= y.len(),
            x@ == encode_utf8(a@),
            y@ == encode_utf8(b@),
            x@.take(n as int) == y@.take(n as int),
        decreases x.len() - n,
    {
        if x[n] != y[n] {
            proof {
                lemma_precedes_skip(x@, y@, n as int);
            }
            return x[n] < y[n];
        }
        assert(x@.take(n + 1) =~= x@.take(n as int).push(x@[n as int]));
        assert(y@.take(n + 1) =~= y@.take(n as int).push(y@[n as int]));
        n += 1;
    }
    proof {
        lemma_precedes_skip(x@, y@, n as int);
    }
    n == x.len()
}

/// Puts the entries into the order of their paths.
pub fn sort_entries(entries: Vec<Entry>) -> (sorted: Vec<Entry>)
    ensures
        sorted@ == ordered(entries@),
{
    let ghost all = entries@;
    let mut sorted: Vec<Entry> = Vec::new();
    assert(all.take(0) =~= Seq::empty());
    for entry in it: entries
        invariant
            it.seq() == all,
            sorted@ == ordered(all.take(it.index())),
    {
        let ghost n = it.index();
        let ghost before = sorted@;
        let mut p: usize = sorted.len();
        assert(before.take(p as int) =~= before);
        while p > 0 && !path_precedes(&sorted[p - 1].path, &entry.path)
            invariant
                p <= sorted.len(),
                sorted@ == before,
                place(before, entry) == place(before.take(p as int), entry),
            decreases p,
        {
            assert(before.take(p as int).drop_last() =~= before.take(p - 1));
            p -= 1;
        }
        sorted.insert(p, entry);
        proof {
            assert(all.take(n + 1).drop_last() =~= all.take(n));
            assert(all.take(n + 1).last() == entry);
        }
    }
    assert(all.take(all.len() as int) =~= all);
    sorted
}

} // verus!
