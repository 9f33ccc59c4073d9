//! What holds of every index, stated over the views of the library's types
//! and proved.

use crate::bloom::{bit_at, packed, unpacked, FilterView};
use crate::errors::Error;
use crate::hash::{lemma_probe_in_range, probe};
use crate::index::{key_of, reports, DocumentView, IndexView};
use crate::ingest::{
    entry_outcome, file_outcome, ordered, path_bytes, place, precedes, Entry, EntryKind, Outcome,
    Reading,
};
use crate::sizing::{
    bits_per_token, doublings, filter_bits, log2_fraction, log2_inverse, raised, scale,
    significand, valid_rate,
};
use vstd::arithmetic::power2::{lemma2_to64, lemma_pow2_strictly_increases, lemma_pow2_unfold, pow2};
use crate::snapshot::{document_of, Snapshot};
use crate::tokens::{closed_words, folded, is_whitespace, open_word, tokens_of};
use vstd::prelude::*;
use vstd::utf8::valid_utf8;

verus! {

/// A bit that is set stays set when a token is inserted.
pub proof fn law_bits_are_never_cleared(filter: FilterView, token: Seq<char>, j: int)
    requires
        0 <= j < filter.bits.len(),
        filter.bits[j],
    ensures
        filter.with_token(token).bits[j],
{
}

/// A token that was inserted is reported.
pub proof fn law_inserted_token_is_reported(filter: FilterView, token: Seq<char>)
    requires
        filter.wf(),
    ensures
        filter.with_token(token).holds(token),
{
    let after = filter.with_token(token);
    assert forall|i: nat| i < after.probes implies after.bits[#[trigger] probe(
        token,
        i,
        after.bits.len(),
    ) as int] by {
        lemma_probe_in_range(token, i, filter.bits.len());
        assert(filter.marked(token, probe(token, i, filter.bits.len()) as int));
    }
}

/// Inserting a token a second time changes nothing.
pub proof fn law_insertion_is_idempotent(filter: FilterView, token: Seq<char>)
    ensures
        filter.with_token(token).with_token(token) == filter.with_token(token),
{
    let once = filter.with_token(token);
    let twice = once.with_token(token);
    assert forall|j: int| 0 <= j < once.bits.len() implies once.bits[j] == twice.bits[j] by {
        if once.marked(token, j) {
            assert(filter.marked(token, j));
        }
    }
    assert(once.bits =~= twice.bits);
}

/// The filter that is built from the tokens of a document reports every one
/// of them.
pub proof fn law_built_filter_reports_its_tokens(tokens: Seq<Seq<char>>, rate: u32, t: int)
    requires
        0 <= t < tokens.len(),
    ensures
        FilterView::built(tokens, rate).wf(),
        FilterView::built(tokens, rate).holds(tokens[t]),
{
    let built = FilterView::built(tokens, rate);
    let size = built.bits.len();
    assert forall|i: nat| i < built.probes implies built.bits[#[trigger] probe(
        tokens[t],
        i,
        size,
    ) as int] by {
        lemma_probe_in_range(tokens[t], i, size);
    }
}

/// Storing a document keeps an index well formed.
pub proof fn law_insertion_keeps_well_formed(index: IndexView, key: Seq<char>, content: Seq<char>)
    requires
        index.wf(),
    ensures
        index.inserted(key, content).wf(),
{
    let after = index.inserted(key, content);
    let filter = FilterView::built(tokens_of(content), index.error_rate);
    assert(filter.wf());
    if index.has_key(key) {
        let s = index.slot(key);
        assert forall|d: int, e: int|
            0 <= d < after.documents.len() && 0 <= e < after.documents.len() && d != e implies (
        #[trigger] after.documents[d]).key != (#[trigger] after.documents[e]).key by {
            assert(after.documents[d].key == index.documents[d].key);
            assert(after.documents[e].key == index.documents[e].key);
        }
    } else {
        assert forall|d: int, e: int|
            0 <= d < after.documents.len() && 0 <= e < after.documents.len() && d != e implies (
        #[trigger] after.documents[d]).key != (#[trigger] after.documents[e]).key by {
            if d < index.documents.len() {
                assert(after.documents[d] == index.documents[d]);
            }
            if e < index.documents.len() {
                assert(after.documents[e] == index.documents[e]);
            }
        }
    }
}

/// A document is among the hits exactly when its filter reports every token
/// of the search: the keywords are joined by "and".
pub proof fn law_and_semantics(index: IndexView, tokens: Seq<Seq<char>>, d: int)
    requires
        index.wf(),
        0 <= d < index.documents.len(),
    ensures
        index.hits(tokens).contains(index.documents[d].key) <==> index.documents[d].filter.holds_all(
            tokens,
        ),
{
    let passing = index.documents.filter(reports(tokens));
    let document = index.documents[d];
    if document.filter.holds_all(tokens) {
        index.documents.lemma_filter_contains(reports(tokens), d);
        let w = choose|w: int| 0 <= w < passing.len() && passing[w] == document;
        assert(index.hits(tokens)[w] == document.key);
    }
    if index.hits(tokens).contains(document.key) {
        let w = choose|w: int| 0 <= w < index.hits(tokens).len() && index.hits(tokens)[w] == document.key;
        let other = passing[w];
        assert(passing.contains(other));
        index.documents.lemma_filter_contains_rev(reports(tokens), other);
        let e = choose|e: int| 0 <= e < index.documents.len() && index.documents[e] == other;
        assert(index.documents[e].key == index.documents[d].key);
        assert(e == d);
        index.documents.lemma_filter_pred(reports(tokens), w);
    }
}

/// No false negatives: once a document is inserted, a search for tokens that
/// all occur in its content finds its key.
pub proof fn law_no_false_negatives(
    index: IndexView,
    key: Seq<char>,
    content: Seq<char>,
    tokens: Seq<Seq<char>>,
)
    requires
        index.wf(),
        tokens.len() > 0,
        forall|t: int| 0 <= t < tokens.len() ==> tokens_of(content).contains(#[trigger] tokens[t]),
    ensures
        index.inserted(key, content).found(tokens) matches Some(keys) && keys.contains(key),
{
    let after = index.inserted(key, content);
    law_insertion_keeps_well_formed(index, key, content);
    let filter = FilterView::built(tokens_of(content), index.error_rate);
    let d = if index.has_key(key) {
        index.slot(key)
    } else {
        index.documents.len() as int
    };
    assert(after.documents[d] == DocumentView { key, filter });
    assert forall|t: int| 0 <= t < tokens.len() implies filter.holds(#[trigger] tokens[t]) by {
        let w = choose|w: int| 0 <= w < tokens_of(content).len() && tokens_of(content)[w] == tokens[t];
        law_built_filter_reports_its_tokens(tokens_of(content), index.error_rate, w);
    }
    law_and_semantics(after, tokens, d);
}

/// No false negatives, for one token of the content.
pub proof fn law_no_false_negatives_for_a_token(
    index: IndexView,
    key: Seq<char>,
    content: Seq<char>,
    token: Seq<char>,
)
    requires
        index.wf(),
        tokens_of(content).contains(token),
    ensures
        index.inserted(key, content).found(seq![token]) matches Some(keys) && keys.contains(key),
{
    law_no_false_negatives(index, key, content, seq![token]);
}

/// No false negatives, for a query: a query whose tokens all occur in the
/// content of a document finds the document.
pub proof fn law_no_false_negatives_for_a_query(
    index: IndexView,
    key: Seq<char>,
    content: Seq<char>,
    query: Seq<char>,
)
    requires
        index.wf(),
        tokens_of(query).len() > 0,
        forall|t: int|
            0 <= t < tokens_of(query).len() ==> tokens_of(content).contains(
                #[trigger] tokens_of(query)[t],
            ),
    ensures
        index.inserted(key, content).search(query) matches Some(keys) && keys.contains(key),
{
    law_no_false_negatives(index, key, content, tokens_of(query));
}

/// A hit stays a hit when a document is inserted under another key.
pub proof fn law_hits_survive_other_insertions(
    index: IndexView,
    key: Seq<char>,
    other: Seq<char>,
    content: Seq<char>,
    tokens: Seq<Seq<char>>,
)
    requires
        index.wf(),
        key != other,
        index.hits(tokens).contains(key),
    ensures
        index.inserted(other, content).hits(tokens).contains(key),
{
    let after = index.inserted(other, content);
    law_insertion_keeps_well_formed(index, other, content);
    let passing = index.documents.filter(reports(tokens));
    let w = choose|w: int| 0 <= w < index.hits(tokens).len() && index.hits(tokens)[w] == key;
    let document = passing[w];
    assert(passing.contains(document));
    index.documents.lemma_filter_contains_rev(reports(tokens), document);
    index.documents.lemma_filter_pred(reports(tokens), w);
    let d = choose|d: int| 0 <= d < index.documents.len() && index.documents[d] == document;
    if index.has_key(other) {
        assert(index.slot(other) != d);
    }
    assert(after.documents[d] == document);
    law_and_semantics(after, tokens, d);
}

/// Insertion order is kept: a new key comes last, and a key that is present
/// keeps its place.
pub proof fn law_insertion_keeps_order(index: IndexView, key: Seq<char>, content: Seq<char>)
    requires
        index.wf(),
    ensures
        index.has_key(key) ==> index.inserted(key, content).keys() == index.keys(),
        !index.has_key(key) ==> index.inserted(key, content).keys() == index.keys().push(key),
{
    let after = index.inserted(key, content);
    if index.has_key(key) {
        assert(after.keys() =~= index.keys());
    } else {
        assert(after.keys() =~= index.keys().push(key));
    }
}

/// The hits come in insertion order: of two hits, the one that comes first
/// was inserted first.
pub proof fn law_hits_are_in_insertion_order(index: IndexView, tokens: Seq<Seq<char>>)
    requires
        index.wf(),
    ensures
        index.hits(tokens).len() <= index.documents.len(),
        index.documents.len() > 0 ==> index.hits(tokens) == (IndexView {
            error_rate: index.error_rate,
            documents: index.documents.drop_last(),
        }).hits(tokens) + if index.documents.last().filter.holds_all(tokens) {
            seq![index.documents.last().key]
        } else {
            Seq::empty()
        },
{
    index.documents.lemma_filter_len(reports(tokens));
    if index.documents.len() > 0 {
        let rest = index.documents.drop_last();
        let last = index.documents.last();
        assert(rest.push(last) =~= index.documents);
        rest.lemma_filter_push(last, reports(tokens));
        if last.filter.holds_all(tokens) {
            assert(rest.filter(reports(tokens)).push(last).map_values(key_of())
                =~= rest.filter(reports(tokens)).map_values(key_of()) + seq![last.key]);
        } else {
            assert(rest.filter(reports(tokens)).map_values(key_of())
                =~= rest.filter(reports(tokens)).map_values(key_of()) + Seq::empty());
        }
    }
}

/// Order preservation: three documents inserted one after the other that
/// all hold the tokens of a search are found in that order.
pub proof fn law_order_is_preserved(
    rate: u32,
    first: (Seq<char>, Seq<char>),
    second: (Seq<char>, Seq<char>),
    third: (Seq<char>, Seq<char>),
    tokens: Seq<Seq<char>>,
)
    requires
        valid_rate(rate),
        first.0 != second.0,
        first.0 != third.0,
        second.0 != third.0,
        tokens.len() > 0,
        forall|t: int|
            0 <= t < tokens.len() ==> tokens_of(first.1).contains(#[trigger] tokens[t])
                && tokens_of(second.1).contains(tokens[t]) && tokens_of(third.1).contains(tokens[t]),
    ensures
        IndexView::empty(rate).inserted(first.0, first.1).inserted(second.0, second.1).inserted(
            third.0,
            third.1,
        ).found(tokens) == Some(seq![first.0, second.0, third.0]),
{
    let none = IndexView::empty(rate);
    let one = none.inserted(first.0, first.1);
    let two = one.inserted(second.0, second.1);
    let three = two.inserted(third.0, third.1);
    let a = DocumentView { key: first.0, filter: FilterView::built(tokens_of(first.1), rate) };
    let b = DocumentView { key: second.0, filter: FilterView::built(tokens_of(second.1), rate) };
    let c = DocumentView { key: third.0, filter: FilterView::built(tokens_of(third.1), rate) };
    assert(!none.has_key(first.0));
    assert(one.documents =~= seq![a]);
    assert(!one.has_key(second.0));
    assert(two.documents =~= seq![a, b]);
    assert(!two.has_key(third.0));
    assert(three.documents =~= seq![a, b, c]);
    assert forall|t: int| 0 <= t < tokens.len() implies a.filter.holds(#[trigger] tokens[t])
        && b.filter.holds(tokens[t]) && c.filter.holds(tokens[t]) by {
        let content = tokens_of(first.1);
        let w = choose|w: int| 0 <= w < content.len() && content[w] == tokens[t];
        law_built_filter_reports_its_tokens(content, rate, w);
        let content = tokens_of(second.1);
        let w = choose|w: int| 0 <= w < content.len() && content[w] == tokens[t];
        law_built_filter_reports_its_tokens(content, rate, w);
        let content = tokens_of(third.1);
        let w = choose|w: int| 0 <= w < content.len() && content[w] == tokens[t];
        law_built_filter_reports_its_tokens(content, rate, w);
    }
    let p = reports(tokens);
    assert(p(a) && p(b) && p(c));
    Seq::<DocumentView>::empty().lemma_filter_push(a, p);
    assert(Seq::<DocumentView>::empty().filter(p) =~= Seq::empty()) by {
        Seq::<DocumentView>::empty().lemma_filter_len(p);
    }
    assert(Seq::<DocumentView>::empty().push(a) =~= seq![a]);
    seq![a].lemma_filter_push(b, p);
    assert(seq![a].push(b) =~= seq![a, b]);
    seq![a, b].lemma_filter_push(c, p);
    assert(seq![a, b].push(c) =~= seq![a, b, c]);
    assert(three.documents.filter(p) =~= seq![a, b, c]);
    assert(three.hits(tokens) =~= seq![first.0, second.0, third.0]);
}

/// The no-match signal: a search never returns an empty list, and it
/// returns nothing exactly when the query holds no token or no filter
/// reports all of its tokens.
pub proof fn law_no_match_signal(index: IndexView, query: Seq<char>)
    requires
        index.wf(),
    ensures
        index.search(query) matches Some(keys) ==> keys.len() > 0,
        index.search(query) is None <==> tokens_of(query).len() == 0 || forall|d: int|
            0 <= d < index.documents.len() ==> !(#[trigger] index.documents[d]).filter.holds_all(
                tokens_of(query),
            ),
{
    let tokens = tokens_of(query);
    if tokens.len() > 0 {
        if exists|d: int|
            0 <= d < index.documents.len() && (#[trigger] index.documents[d]).filter.holds_all(
                tokens,
            ) {
            let d = choose|d: int|
                0 <= d < index.documents.len() && (#[trigger] index.documents[d]).filter.holds_all(
                    tokens,
                );
            law_and_semantics(index, tokens, d);
        }
        if index.hits(tokens).len() > 0 {
            let passing = index.documents.filter(reports(tokens));
            index.documents.lemma_filter_pred(reports(tokens), 0);
            assert(passing.contains(passing[0]));
            index.documents.lemma_filter_contains_rev(reports(tokens), passing[0]);
        }
    }
}

/// Round trip: restoring the snapshot of an index gives that index, so
/// every search on it gives what it gave on the original.
pub proof fn law_round_trip(index: IndexView, snapshot: Snapshot, query: Seq<char>)
    requires
        snapshot.valid(),
        snapshot.index() == index,
    ensures
        snapshot.restored() == Ok::<IndexView, Error>(index),
        snapshot.restored()->Ok_0.search(query) == index.search(query),
{
}

proof fn lemma_equal_bits(a: u8, b: u8)
    by (bit_vector)
    requires
        (a >> 0u8) & 1u8 == (b >> 0u8) & 1u8,
        (a >> 1u8) & 1u8 == (b >> 1u8) & 1u8,
        (a >> 2u8) & 1u8 == (b >> 2u8) & 1u8,
        (a >> 3u8) & 1u8 == (b >> 3u8) & 1u8,
        (a >> 4u8) & 1u8 == (b >> 4u8) & 1u8,
        (a >> 5u8) & 1u8 == (b >> 5u8) & 1u8,
        (a >> 6u8) & 1u8 == (b >> 6u8) & 1u8,
        (a >> 7u8) & 1u8 == (b >> 7u8) & 1u8,
    ensures
        a == b,
{
}

proof fn lemma_bit_is_zero_or_one(a: u8, t: u8)
    by (bit_vector)
    requires
        t < 8,
    ensures
        (a >> t) & 1u8 == 0u8 || (a >> t) & 1u8 == 1u8,
{
}

proof fn lemma_same_bit(a: Seq<u8>, b: Seq<u8>, size: nat, n: int, t: u8)
    requires
        packed(a, size),
        packed(b, size),
        unpacked(a, size) == unpacked(b, size),
        0 <= n < a.len(),
        t < 8,
    ensures
        (a[n] >> t) & 1u8 == (b[n] >> t) & 1u8,
{
    let j = 8 * n + t;
    assert(j / 8 == n && j % 8 == t);
    lemma_bit_is_zero_or_one(a[n], t);
    lemma_bit_is_zero_or_one(b[n], t);
    if j < size {
        assert(unpacked(a, size)[j] == bit_at(a, j));
        assert(unpacked(b, size)[j] == bit_at(b, j));
    } else {
        assert(!bit_at(a, j));
        assert(!bit_at(b, j));
    }
}

/// A bit array has one packed form only.
pub proof fn law_packed_form_is_unique(a: Seq<u8>, b: Seq<u8>, size: nat)
    requires
        packed(a, size),
        packed(b, size),
        unpacked(a, size) == unpacked(b, size),
    ensures
        a == b,
{
    assert forall|n: int| 0 <= n < a.len() implies a[n] == b[n] by {
        lemma_same_bit(a, b, size, n, 0);
        lemma_same_bit(a, b, size, n, 1);
        lemma_same_bit(a, b, size, n, 2);
        lemma_same_bit(a, b, size, n, 3);
        lemma_same_bit(a, b, size, n, 4);
        lemma_same_bit(a, b, size, n, 5);
        lemma_same_bit(a, b, size, n, 6);
        lemma_same_bit(a, b, size, n, 7);
        lemma_equal_bits(a[n], b[n]);
    }
    assert(a =~= b);
}

/// An index has one snapshot only: two snapshots that stand for the same
/// index hold the same rate and, entry by entry, the same keys and parts.
pub proof fn law_snapshot_is_unique(a: Snapshot, b: Snapshot, d: int)
    requires
        a.valid(),
        b.valid(),
        a.index() == b.index(),
        0 <= d < a.bloom_filters.len(),
    ensures
        a.error_rate == b.error_rate,
        a.bloom_filters.len() == b.bloom_filters.len(),
        a.bloom_filters[d].key@ == b.bloom_filters[d].key@,
        a.bloom_filters[d].filter.key_size == b.bloom_filters[d].filter.key_size,
        a.bloom_filters[d].filter.bitfield_size == b.bloom_filters[d].filter.bitfield_size,
        a.bloom_filters[d].filter.bitfield@ == b.bloom_filters[d].filter.bitfield@,
{
    assert(a.index().documents.len() == a.bloom_filters@.len());
    assert(b.index().documents.len() == b.bloom_filters@.len());
    let x = a.bloom_filters@[d];
    let y = b.bloom_filters@[d];
    assert(a.index().documents[d] == document_of()(x));
    assert(b.index().documents[d] == document_of()(y));
    assert(x.filter.filter() == y.filter.filter());
    assert(x.filter.filter().bits.len() == x.filter.bitfield_size);
    assert(y.filter.filter().bits.len() == y.filter.bitfield_size);
    assert(x.filter.valid() && y.filter.valid());
    law_packed_form_is_unique(x.filter.bitfield@, y.filter.bitfield@, x.filter.bitfield_size as nat);
}

/// A snapshot that stands for an index stands for a well-formed one.
pub proof fn law_valid_snapshot_is_a_well_formed_index(snapshot: Snapshot)
    requires
        snapshot.valid(),
    ensures
        snapshot.index().wf(),
{
}

/// A file that is not text fails a single-file ingestion with an encoding
/// error and leaves the index as it was.
pub proof fn law_single_file_that_is_not_text_is_fatal(
    index: IndexView,
    path: Seq<char>,
    bytes: Vec<u8>,
)
    requires
        !valid_utf8(bytes@),
    ensures
        file_outcome(index, path, Reading::Bytes(bytes)) == (Outcome {
            index,
            error: Some(Error::InvalidEncoding),
        }),
{
}

/// A file of a directory that is not text is passed over: the index stays as
/// it was and the ingestion goes on.
pub proof fn law_directory_file_that_is_not_text_is_skipped(
    index: IndexView,
    path: String,
    bytes: Vec<u8>,
)
    requires
        !valid_utf8(bytes@),
    ensures
        entry_outcome(index, Entry { path, kind: EntryKind::File(Reading::Bytes(bytes)) }) == (
        Outcome { index, error: None }),
{
}

/// A number below 2^32 is raised to a number from 2^31 up to 2^32, by as
/// many doublings as are counted.
proof fn lemma_raised(x: nat)
    requires
        0 < x < 0x1_0000_0000,
    ensures
        0x8000_0000 <= raised(x) < 0x1_0000_0000,
        raised(x) == x * pow2(doublings(x)),
    decreases 0x1_0000_0000 - x,
{
    if x < 0x8000_0000 {
        lemma_raised(2 * x);
        let d = doublings(2 * x);
        assert(doublings(x) == d + 1);
        lemma_pow2_unfold(d + 1);
        assert(pow2(d + 1) == 2 * pow2(d));
        assert((2 * x) * pow2(d) == x * (2 * pow2(d))) by (nonlinear_arith);
    } else {
        assert(pow2(0) == 1) by {
            lemma2_to64();
        }
        assert(x * 1 == x);
    }
}

/// The logarithm of a rate below one is above zero.
proof fn lemma_logarithm_is_positive(bits: u32)
    requires
        valid_rate(bits),
    ensures
        log2_inverse(bits) > 0,
{
    let s = significand(bits);
    let d = doublings(s);
    lemma_raised(s);
    lemma_fraction_is_below_one(raised(s), 0x8000_0000);
    if bits / 0x80_0000 != 0 && d < 8 {
        lemma2_to64();
        if d < 7 {
            lemma_pow2_strictly_increases(d, 7);
        }
        assert(s * pow2(d) < 0x100_0000 * 128) by (nonlinear_arith)
            requires
                s < 0x100_0000,
                pow2(d) <= 128,
        ;
    }
}

/// The fraction of a logarithm stays below one.
proof fn lemma_fraction_is_below_one(x: nat, weight: nat)
    ensures
        weight > 0 ==> log2_fraction(x, weight) < 2 * weight,
        weight == 0 ==> log2_fraction(x, weight) == 0,
    decreases weight,
{
    if weight > 0 {
        if x * x >= 0x8000_0000_0000_0000 {
            lemma_fraction_is_below_one(x * x / 0x1_0000_0000, weight / 2);
        } else {
            lemma_fraction_is_below_one(x * x / 0x8000_0000, weight / 2);
        }
    }
}

/// The logarithm of a rate is right to the unit: the rate is a number from
/// 2^31 up to 2^32 times two to the power of minus `scale + doublings`, so
/// that `log2(1 / rate)` lies above `scale + doublings - 32` and not above
/// `scale + doublings - 31`; and so does what is computed for it.
pub proof fn law_logarithm_is_right_to_the_unit(bits: u32)
    requires
        valid_rate(bits),
    ensures
        0x8000_0000 <= raised(significand(bits)) < 0x1_0000_0000,
        raised(significand(bits)) == significand(bits) * pow2(doublings(significand(bits))),
        (scale(bits) + doublings(significand(bits)) - 32) * 0x1_0000_0000 < log2_inverse(bits) <= (
        scale(bits) + doublings(significand(bits)) - 31) * 0x1_0000_0000,
{
    lemma_raised(significand(bits));
    lemma_fraction_is_below_one(raised(significand(bits)), 0x8000_0000);
}

/// More distinct tokens never get fewer bits.
pub proof fn law_more_tokens_get_no_fewer_bits(fewer: nat, more: nat, bits: u32)
    requires
        valid_rate(bits),
        fewer <= more,
    ensures
        filter_bits(fewer, bits) <= filter_bits(more, bits),
{
    lemma_logarithm_is_positive(bits);
    let per = bits_per_token(bits);
    assert(log2_inverse(bits) * 6196328019 >= 0) by (nonlinear_arith)
        requires
            log2_inverse(bits) >= 0,
    ;
    assert(per >= 0);
    assert(fewer * per <= more * per) by (nonlinear_arith)
        requires
            fewer <= more,
            per >= 0,
    ;
}

/// The run that ends a text holds no whitespace.
proof fn lemma_open_word(s: Seq<char>, c: int)
    requires
        0 <= c < open_word(s).len(),
    ensures
        !is_whitespace(open_word(s)[c]),
    decreases s.len(),
{
    if s.len() > 0 && !is_whitespace(s.last()) {
        if c < open_word(s.drop_last()).len() {
            lemma_open_word(s.drop_last(), c);
        }
    }
}

/// The runs that whitespace follows are not empty and hold no whitespace.
proof fn lemma_closed_words(s: Seq<char>, t: int, c: int)
    requires
        0 <= t < closed_words(s).len(),
        0 <= c < closed_words(s)[t].len(),
    ensures
        !is_whitespace(closed_words(s)[t][c]),
    decreases s.len(),
{
    if s.len() > 0 {
        let rest = s.drop_last();
        if t < closed_words(rest).len() {
            lemma_closed_words(rest, t, c);
        } else {
            lemma_open_word(rest, c);
        }
    }
}

proof fn lemma_closed_words_are_not_empty(s: Seq<char>, t: int)
    requires
        0 <= t < closed_words(s).len(),
    ensures
        closed_words(s)[t].len() > 0,
    decreases s.len(),
{
    if s.len() > 0 {
        let rest = s.drop_last();
        if t < closed_words(rest).len() {
            lemma_closed_words_are_not_empty(rest, t);
        }
    }
}

/// A token is never empty and holds no whitespace.
pub proof fn law_tokens_are_words(text: Seq<char>, t: int)
    requires
        0 <= t < tokens_of(text).len(),
    ensures
        tokens_of(text)[t].len() > 0,
        forall|c: int| 0 <= c < tokens_of(text)[t].len() ==> !is_whitespace(tokens_of(text)[t][c]),
{
    let s = folded(text);
    if t < closed_words(s).len() {
        lemma_closed_words_are_not_empty(s, t);
    }
    assert forall|c: int| 0 <= c < tokens_of(text)[t].len() implies !is_whitespace(
        tokens_of(text)[t][c],
    ) by {
        if t < closed_words(s).len() {
            lemma_closed_words(s, t, c);
        } else {
            lemma_open_word(s, c);
        }
    }
}

/// Of two byte strings, one precedes the other.
pub proof fn law_paths_are_totally_ordered(a: Seq<u8>, b: Seq<u8>)
    ensures
        precedes(a, b) || precedes(b, a),
    decreases a.len(),
{
    if a.len() > 0 && b.len() > 0 && a.first() == b.first() {
        law_paths_are_totally_ordered(a.drop_first(), b.drop_first());
    }
}

/// What precedes a byte string precedes what the byte string precedes.
pub proof fn law_path_order_is_transitive(a: Seq<u8>, b: Seq<u8>, c: Seq<u8>)
    requires
        precedes(a, b),
        precedes(b, c),
    ensures
        precedes(a, c),
    decreases a.len(),
{
    if a.len() > 0 && b.len() > 0 && c.len() > 0 {
        if a.first() == b.first() && b.first() == c.first() {
            law_path_order_is_transitive(a.drop_first(), b.drop_first(), c.drop_first());
        }
    }
}

/// Whether every entry precedes all that follow it.
pub open spec fn in_path_order(entries: Seq<Entry>) -> bool {
    forall|i: int, j: int|
        0 <= i < j < entries.len() ==> precedes(
            path_bytes(#[trigger] entries[i]),
            path_bytes(#[trigger] entries[j]),
        )
}

/// Where an entry goes: behind an entry that precedes it, before entries
/// that it comes before.
proof fn lemma_place(sorted: Seq<Entry>, entry: Entry)
    ensures
        0 <= place(sorted, entry) <= sorted.len(),
        place(sorted, entry) > 0 ==> precedes(
            path_bytes(sorted[place(sorted, entry) - 1]),
            path_bytes(entry),
        ),
        forall|q: int|
            place(sorted, entry) <= q < sorted.len() ==> precedes(
                path_bytes(entry),
                path_bytes(#[trigger] sorted[q]),
            ),
    decreases sorted.len(),
{
    if sorted.len() > 0 && !precedes(path_bytes(sorted.last()), path_bytes(entry)) {
        lemma_place(sorted.drop_last(), entry);
        law_paths_are_totally_ordered(path_bytes(sorted.last()), path_bytes(entry));
        assert forall|q: int| place(sorted, entry) <= q < sorted.len() implies precedes(
            path_bytes(entry),
            path_bytes(#[trigger] sorted[q]),
        ) by {
            if q < sorted.len() - 1 {
                assert(sorted.drop_last()[q] == sorted[q]);
            }
        }
    }
}

/// The entries of a directory are taken in the order of their paths, and
/// they are the entries that were given: none is lost, none is added.
pub proof fn law_entries_are_taken_in_path_order(entries: Seq<Entry>)
    ensures
        in_path_order(ordered(entries)),
        ordered(entries).to_multiset() == entries.to_multiset(),
        ordered(entries).len() == entries.len(),
    decreases entries.len(),
{
    broadcast use vstd::seq_lib::group_to_multiset_ensures;

    if entries.len() > 0 {
        let rest = entries.drop_last();
        let last = entries.last();
        law_entries_are_taken_in_path_order(rest);
        let sorted = ordered(rest);
        let p = place(sorted, last);
        lemma_place(sorted, last);
        let all = sorted.insert(p, last);
        assert forall|i: int, j: int| 0 <= i < j < all.len() implies precedes(
            path_bytes(#[trigger] all[i]),
            path_bytes(#[trigger] all[j]),
        ) by {
            if j < p {
                assert(all[i] == sorted[i] && all[j] == sorted[j]);
            } else if j == p {
                assert(all[i] == sorted[i]);
                if i < p - 1 {
                    law_path_order_is_transitive(
                        path_bytes(sorted[i]),
                        path_bytes(sorted[p - 1]),
                        path_bytes(last),
                    );
                }
            } else if i == p {
                assert(all[j] == sorted[j - 1]);
            } else if i < p {
                assert(all[i] == sorted[i] && all[j] == sorted[j - 1]);
            } else {
                assert(all[i] == sorted[i - 1] && all[j] == sorted[j - 1]);
            }
        }
        assert(all.remove(p) =~= sorted);
        assert(all[p] == last);
        assert(all.contains(last));
        assert(all.to_multiset() =~= sorted.to_multiset().insert(last));
        assert(rest.push(last) =~= entries);
        assert(entries.to_multiset() =~= rest.to_multiset().insert(last));
    }
}

} // verus!
