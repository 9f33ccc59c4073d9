//! The Bloom filter of one document: a packed bit array and the number of
//! probes that every token makes into it. Bits are only ever set.

use crate::hash::{first_hash, hashes, locate, probe, second_hash};
use crate::sizing::{filter_bits, filter_probes, filter_size, ErrorRate};
use crate::tokens::{token_views, Token};
use vstd::prelude::*;

verus! {

/// What a filter is: its number of probes per token and its bits.
pub struct FilterView {
    pub probes: nat,
    pub bits: Seq<bool>,
}

impl FilterView {
    /// A filter has at least one probe and at least one bit.
    pub open spec fn wf(self) -> bool {
        self.probes >= 1 && self.bits.len() >= 1
    }

    /// Whether one of the first `limit` probes of `token` lands on bit `j`.
    pub open spec fn marked_within(self, token: Seq<char>, j: int, limit: nat) -> bool {
        exists|i: nat| i < limit && probe(token, i, self.bits.len()) == j
    }

    /// Whether a probe of `token` lands on bit `j`.
    pub open spec fn marked(self, token: Seq<char>, j: int) -> bool {
        self.marked_within(token, j, self.probes)
    }

    /// Whether the filter reports `token`: every bit that the token probes is
    /// set.
    pub open spec fn holds(self, token: Seq<char>) -> bool {
        forall|i: nat| i < self.probes ==> self.bits[#[trigger] probe(token, i, self.bits.len()) as int]
    }

    /// Whether the filter reports every one of `tokens`.
    pub open spec fn holds_all(self, tokens: Seq<Seq<char>>) -> bool {
        forall|t: int| 0 <= t < tokens.len() ==> self.holds(#[trigger] tokens[t])
    }

    /// The filter after `token` was inserted: the bits that the token probes
    /// are set, the others are as they were.
    pub open spec fn with_token(self, token: Seq<char>) -> FilterView {
        FilterView {
            probes: self.probes,
            bits: Seq::new(self.bits.len(), |j: int| self.bits[j] || self.marked(token, j)),
        }
    }

    /// The filter of `size` bits and `probes` probes that holds exactly
    /// `tokens`: a bit is set where a probe of one of the tokens lands.
    pub open spec fn of_tokens(tokens: Seq<Seq<char>>, probes: nat, size: nat) -> FilterView {
        FilterView {
            probes,
            bits: Seq::new(
                size,
                |j: int|
                    exists|t: int, i: nat|
                        0 <= t < tokens.len() && i < probes && #[trigger] probe(tokens[t], i, size)
                            == j,
            ),
        }
    }

    /// The filter that a document with the given tokens gets at the given
    /// rate: sized for the number of distinct tokens, holding all of them.
    pub open spec fn built(tokens: Seq<Seq<char>>, rate: u32) -> FilterView {
        let distinct = tokens.to_set().len();
        let size = filter_bits(distinct, rate);
        FilterView::of_tokens(tokens, filter_probes(distinct, size), size)
    }
}

/// Bit `j` of a packed bit array: bit `j % 8` of byte `j / 8`, the lowest bit
/// of a byte first.
pub open spec fn bit_at(bytes: Seq<u8>, j: int) -> bool {
    (bytes[j / 8] >> ((j % 8) as u8)) & 1u8 == 1u8
}

/// Whether `bytes` is the packed form of a bit array of `size` bits: as many
/// bytes as the bits need, and no bit set beyond the last one.
pub open spec fn packed(bytes: Seq<u8>, size: nat) -> bool {
    &&& bytes.len() == (size + 7) / 8
    &&& forall|j: int| size <= j < 8 * bytes.len() ==> !#[trigger] bit_at(bytes, j)
}

/// The bits that a packed bit array of `size` bits holds.
pub open spec fn unpacked(bytes: Seq<u8>, size: nat) -> Seq<bool> {
    Seq::new(size, |j: int| bit_at(bytes, j))
}

/// The three values that stand for a filter in a snapshot: the number of
/// probes, the packed bit array and the number of bits.
pub struct FilterParts {
    pub key_size: usize,
    pub bitfield: Vec<u8>,
    pub bitfield_size: usize,
}

impl FilterParts {
    /// Whether the parts stand for a filter: at least one probe and one bit,
    /// and the bit array packed.
    pub open spec fn valid(&self) -> bool {
        &&& self.key_size >= 1
        &&& self.bitfield_size >= 1
        &&& packed(self.bitfield@, self.bitfield_size as nat)
    }

    /// The filter that the parts stand for.
    pub open spec fn filter(&self) -> FilterView {
        FilterView {
            probes: self.key_size as nat,
            bits: unpacked(self.bitfield@, self.bitfield_size as nat),
        }
    }
}

/// The Bloom filter of one document.
pub struct BloomFilter {
    key_size: usize,
    bitfield: Vec<u8>,
    bitfield_size: usize,
}

impl View for BloomFilter {
    type V = FilterView;

    closed spec fn view(&self) -> FilterView {
        FilterView {
            probes: self.key_size as nat,
            bits: unpacked(self.bitfield@, self.bitfield_size as nat),
        }
    }
}

proof fn lemma_set_bit(b: u8, s: u8, t: u8)
    by (bit_vector)
    requires
        s < 8,
        t < 8,
    ensures
        ((b | (1u8 << s)) >> t) & 1u8 == 1u8 <==> (t == s || (b >> t) & 1u8 == 1u8),
{
}

proof fn lemma_clear_byte(t: u8)
    by (bit_vector)
    requires
        t < 8,
    ensures
        (0u8 >> t) & 1u8 != 1u8,
{
}

proof fn lemma_test_bit(b: u8, t: u8)
    by (bit_vector)
    requires
        t < 8,
    ensures
        ((b >> t) & 1u8 == 1u8) <==> (b & (1u8 << t) != 0u8),
{
}

/// Inserting one more token into the filter of some tokens gives the filter
/// of all of them.
proof fn lemma_of_tokens_push(tokens: Seq<Seq<char>>, token: Seq<char>, probes: nat, size: nat)
    ensures
        FilterView::of_tokens(tokens, probes, size).with_token(token) == FilterView::of_tokens(
            tokens.push(token),
            probes,
            size,
        ),
{
    let before = FilterView::of_tokens(tokens, probes, size);
    let after = FilterView::of_tokens(tokens.push(token), probes, size);
    let more = tokens.push(token);
    assert forall|j: int| 0 <= j < size implies before.with_token(token).bits[j] == after.bits[j] by {
        if before.bits[j] {
            let (t, i) = choose|t: int, i: nat|
                0 <= t < tokens.len() && i < probes && #[trigger] probe(tokens[t], i, size) == j;
            assert(probe(more[t], i, size) == j);
        }
        if before.marked(token, j) {
            let i = choose|i: nat| i < probes && probe(token, i, size) == j;
            assert(probe(more[tokens.len() as int], i, size) == j);
        }
        if after.bits[j] {
            let (t, i) = choose|t: int, i: nat|
                0 <= t < more.len() && i < probes && #[trigger] probe(more[t], i, size) == j;
            if t < tokens.len() {
                assert(probe(tokens[t], i, size) == j);
            } else {
                assert(probe(token, i, size) == j);
            }
        }
    }
    assert(before.with_token(token).bits =~= after.bits);
}

/// Whether two tokens are the same sequence of characters.
pub fn same_token(a: &Token, b: &Token) -> (same: bool)
    ensures
        same == (a@ == b@),
{
    if a.len() != b.len() {
        return false;
    }
    let mut i: usize = 0;
    while i < a.len()
        invariant
            i <= a.len(),
            a.len() == b.len(),
            a@.take(i as int) == b@.take(i as int),
        decreases a.len() - i,
    {
        if a[i] != b[i] {
            return false;
        }
        assert(a@.take(i + 1) =~= a@.take(i as int).push(a@[i as int]));
        assert(b@.take(i + 1) =~= b@.take(i as int).push(b@[i as int]));
        i += 1;
    }
    assert(a@.take(i as int) =~= a@);
    assert(b@.take(i as int) =~= b@);
    true
}

/// The bucket in which a token is looked up when distinct tokens are
/// counted.
spec fn bucket_of(token: Seq<char>, buckets: nat) -> int {
    first_hash(token) as int % buckets as int
}

/// Whether the bucket of `token` lists a place at which `all` holds it.
spec fn listed(buckets: Seq<Vec<usize>>, all: Seq<Seq<char>>, token: Seq<char>) -> bool {
    exists|w: int|
        0 <= w < buckets[bucket_of(token, buckets.len())].len() && 0 <= (
        #[trigger] buckets[bucket_of(token, buckets.len())][w]) < all.len()
            && all[buckets[bucket_of(token, buckets.len())][w] as int] == token
}

/// Whether every bucket lists only places below `limit`, each of a token
/// that is kept and belongs to the bucket.
spec fn sound(buckets: Seq<Vec<usize>>, all: Seq<Seq<char>>, kept: Seq<Seq<char>>, limit: int) -> bool {
    forall|b: int, w: int|
        0 <= b < buckets.len() && 0 <= w < buckets[b].len() ==> {
            let place = #[trigger] buckets[b][w];
            &&& place < limit
            &&& kept.contains(all[place as int])
            &&& bucket_of(all[place as int], buckets.len()) == b
        }
}

/// The number of distinct tokens among `tokens`.
pub fn distinct(tokens: &Vec<Token>) -> (count: usize)
    ensures
        count == token_views(tokens@).to_set().len(),
{
    let ghost all = token_views(tokens@);
    let size: usize = tokens.len();
    if size == 0 {
        assert(all.to_set() =~= Set::empty());
        return 0;
    }
    let mut buckets: Vec<Vec<usize>> = Vec::new();
    let mut b: usize = 0;
    while b < size
        invariant
            b <= size,
            buckets.len() == b,
            forall|w: int| 0 <= w < b ==> (#[trigger] buckets[w]).len() == 0,
        decreases size - b,
    {
        buckets.push(Vec::new());
        b += 1;
    }
    let mut count: usize = 0;
    let ghost mut kept: Seq<Seq<char>> = Seq::empty();
    let mut n: usize = 0;
    assert(all.take(0) =~= Seq::empty());
    while n < size
        invariant
            n <= size,
            size == tokens.len(),
            all == token_views(tokens@),
            buckets.len() == size,
            count == kept.len(),
            count <= n,
            sound(buckets@, all, kept, n as int),
            forall|q: int| 0 <= q < kept.len() ==> listed(buckets@, all, #[trigger] kept[q]),
            kept.no_duplicates(),
            kept.to_set() == all.take(n as int).to_set(),
        decreases size - n,
    {
        let ghost token = all[n as int];
        let (h1, _) = hashes(&tokens[n]);
        let b: usize = (h1 % (size as u64)) as usize;
        assert(b == bucket_of(token, size as nat));
        let mut found: bool = false;
        let mut w: usize = 0;
        while w < buckets[b as usize].len() && !found
            invariant
                w <= buckets[b as int].len(),
                n < size,
                b < size,
                size == tokens.len(),
                buckets.len() == size,
                all == token_views(tokens@),
                token == all[n as int],
                sound(buckets@, all, kept, n as int),
                found ==> kept.contains(token),
                !found ==> forall|v: int| 0 <= v < w ==> all[(#[trigger] buckets[b as int][v]) as int] != token,
            decreases buckets[b as int].len() - w + if found { 0int } else { 1int },
        {
            let place: usize = buckets[b][w];
            assert(place < n && kept.contains(all[place as int]));
            if same_token(&tokens[place], &tokens[n]) {
                found = true;
            } else {
                w += 1;
            }
        }
        proof {
            all.take(n as int).lemma_push_to_set_commute(token);
            assert(all.take(n as int).push(token) =~= all.take(n + 1));
            if found {
                assert(kept.to_set().insert(token) =~= kept.to_set());
            } else {
                if kept.contains(token) {
                    let q = choose|q: int| 0 <= q < kept.len() && kept[q] == token;
                    assert(listed(buckets@, all, kept[q]));
                    assert(false);
                }
                kept.lemma_push_to_set_commute(token);
            }
        }
        if !found {
            let ghost before = buckets@;
            let ghost earlier = kept;
            let mut longer: Vec<usize> = buckets[b].clone();
            assert(longer@ =~= buckets[b as int]@);
            longer.push(n);
            buckets.set(b, longer);
            count += 1;
            proof {
                kept = kept.push(token);
                assert forall|c: int, v: int|
                    0 <= c < buckets.len() && 0 <= v < buckets[c].len() implies {
                    let place = #[trigger] buckets[c][v];
                    &&& place < n + 1
                    &&& kept.contains(all[place as int])
                    &&& bucket_of(all[place as int], buckets.len() as nat) == c
                } by {
                    if c == b && v == before[b as int].len() {
                        assert(kept[kept.len() - 1] == token);
                    } else {
                        let place = before[c][v];
                        assert(buckets[c][v] == place);
                        assert(earlier.contains(all[place as int]));
                        let q = choose|q: int| 0 <= q < earlier.len() && earlier[q] == all[place as int];
                        assert(kept[q] == all[place as int]);
                    }
                }
                assert forall|q: int| 0 <= q < kept.len() implies listed(
                    buckets@,
                    all,
                    #[trigger] kept[q],
                ) by {
                    if q < earlier.len() {
                        assert(listed(before, all, earlier[q]));
                        let c = bucket_of(kept[q], size as nat);
                        let v = choose|v: int|
                            0 <= v < before[c].len() && 0 <= (#[trigger] before[c][v]) < all.len()
                                && all[before[c][v] as int] == kept[q];
                        assert(buckets[c][v] == before[c][v]);
                    } else {
                        let v = before[b as int].len() as int;
                        assert(buckets[b as int][v] == n);
                    }
                }
            }
        } else {
            assert(sound(buckets@, all, kept, n + 1));
        }
        n += 1;
    }
    proof {
        assert(all.take(n as int) =~= all);
        kept.unique_seq_to_set();
    }
    count
}

proof fn lemma_no_high_bit(b: u8, r: u8, t: u8)
    by (bit_vector)
    requires
        r <= t < 8,
        b >> r == 0u8,
    ensures
        (b >> t) & 1u8 != 1u8,
{
}

proof fn lemma_some_high_bit(b: u8, r: u8)
    by (bit_vector)
    requires
        r < 8,
        b >> r != 0u8,
    ensures
        (r <= 0u8 && (b >> 0u8) & 1u8 == 1u8) || (r <= 1u8 && (b >> 1u8) & 1u8 == 1u8) || (r <= 2u8
            && (b >> 2u8) & 1u8 == 1u8) || (r <= 3u8 && (b >> 3u8) & 1u8 == 1u8) || (r <= 4u8 && (b
            >> 4u8) & 1u8 == 1u8) || (r <= 5u8 && (b >> 5u8) & 1u8 == 1u8) || (r <= 6u8 && (b
            >> 6u8) & 1u8 == 1u8) || (r <= 7u8 && (b >> 7u8) & 1u8 == 1u8),
{
}

impl BloomFilter {
    /// The invariant of the representation: at least one probe and one bit,
    /// and the bits packed.
    pub closed spec fn wf(&self) -> bool {
        &&& self.key_size >= 1
        &&& self.bitfield_size >= 1
        &&& packed(self.bitfield@, self.bitfield_size as nat)
    }

    /// A well-formed filter has a well-formed view.
    pub proof fn lemma_view_wf(&self)
        requires
            self.wf(),
        ensures
            self@.wf(),
    {
    }

    /// The filter of `size` bits and `probes` probes with no bit set.
    fn empty(probes: usize, size: usize) -> (filter: BloomFilter)
        requires
            probes >= 1,
            size >= 1,
        ensures
            filter.wf(),
            filter@ == FilterView::of_tokens(Seq::empty(), probes as nat, size as nat),
    {
        let len: usize = size / 8 + if size % 8 == 0 {
            0
        } else {
            1
        };
        let bitfield: Vec<u8> = vec![0u8; len];
        let filter = BloomFilter { key_size: probes, bitfield, bitfield_size: size };
        proof {
            assert forall|j: int| 0 <= j < 8 * len implies !#[trigger] bit_at(filter.bitfield@, j) by {
                lemma_clear_byte((j % 8) as u8);
            }
            assert(filter@.bits =~= FilterView::of_tokens(
                Seq::empty(),
                probes as nat,
                size as nat,
            ).bits);
        }
        filter
    }

    /// The filter that the parts stand for, or `None` where they stand for
    /// none.
    pub fn from_parts(parts: FilterParts) -> (filter: Option<BloomFilter>)
        ensures
            filter is Some <==> parts.valid(),
            filter matches Some(f) ==> f.wf() && f@ == parts.filter(),
    {
        let size: usize = parts.bitfield_size;
        if parts.key_size < 1 || size < 1 {
            return None;
        }
        let len: usize = size / 8 + if size % 8 == 0 {
            0
        } else {
            1
        };
        if parts.bitfield.len() != len {
            return None;
        }
        if size % 8 != 0 {
            let last: u8 = parts.bitfield[len - 1];
            let rest: u8 = (size % 8) as u8;
            if last >> rest != 0 {
                proof {
                    lemma_some_high_bit(last, rest);
                    let t: int = if rest <= 0u8 && (last >> 0u8) & 1u8 == 1u8 {
                        0
                    } else if rest <= 1u8 && (last >> 1u8) & 1u8 == 1u8 {
                        1
                    } else if rest <= 2u8 && (last >> 2u8) & 1u8 == 1u8 {
                        2
                    } else if rest <= 3u8 && (last >> 3u8) & 1u8 == 1u8 {
                        3
                    } else if rest <= 4u8 && (last >> 4u8) & 1u8 == 1u8 {
                        4
                    } else if rest <= 5u8 && (last >> 5u8) & 1u8 == 1u8 {
                        5
                    } else if rest <= 6u8 && (last >> 6u8) & 1u8 == 1u8 {
                        6
                    } else {
                        7
                    };
                    let j: int = 8 * (len - 1) + t;
                    assert(j / 8 == len - 1 && j % 8 == t);
                    assert(bit_at(parts.bitfield@, j));
                    assert(size <= j < 8 * len);
                }
                return None;
            }
            proof {
                assert forall|j: int| size <= j < 8 * len implies !#[trigger] bit_at(
                    parts.bitfield@,
                    j,
                ) by {
                    assert(j / 8 == len - 1);
                    lemma_no_high_bit(last, rest, (j % 8) as u8);
                }
            }
        }
        Some(
            BloomFilter {
                key_size: parts.key_size,
                bitfield: parts.bitfield,
                bitfield_size: size,
            },
        )
    }

    /// The parts that stand for the filter in a snapshot.
    pub fn to_parts(&self) -> (parts: FilterParts)
        requires
            self.wf(),
        ensures
            parts.valid(),
            parts.filter() == self@,
    {
        let bitfield: Vec<u8> = self.bitfield.clone();
        assert(bitfield@ =~= self.bitfield@);
        FilterParts { key_size: self.key_size, bitfield, bitfield_size: self.bitfield_size }
    }

    /// The filter of a document with the given tokens at the given rate: it is
    /// sized for the number of distinct tokens and holds all of them.
    pub fn build(tokens: &Vec<Token>, rate: ErrorRate) -> (filter: BloomFilter)
        requires
            rate.wf(),
        ensures
            filter.wf(),
            filter@ == FilterView::built(token_views(tokens@), rate@),
    {
        let count: usize = distinct(tokens);
        let (size, probes) = filter_size(count, rate);
        let mut filter = BloomFilter::empty(probes, size);
        let ghost all = token_views(tokens@);
        let mut n: usize = 0;
        assert(all.take(0) =~= Seq::empty());
        while n < tokens.len()
            invariant
                n <= tokens.len(),
                all == token_views(tokens@),
                filter.wf(),
                filter@ == FilterView::of_tokens(all.take(n as int), probes as nat, size as nat),
            decreases tokens.len() - n,
        {
            filter.insert(&tokens[n]);
            proof {
                lemma_of_tokens_push(all.take(n as int), all[n as int], probes as nat, size as nat);
                assert(all.take(n as int).push(all[n as int]) =~= all.take(n + 1));
            }
            n += 1;
        }
        assert(all.take(n as int) =~= all);
        filter
    }

    /// Sets the bits that `token` probes.
    pub fn insert(&mut self, token: &Token)
        requires
            old(self).wf(),
        ensures
            final(self).wf(),
            final(self)@ == old(self)@.with_token(token@),
    {
        let (h1, h2) = hashes(token);
        let size: usize = self.bitfield_size;
        let probes: usize = self.key_size;
        let ghost before = self.bitfield@;
        let mut i: usize = 0;
        while i < probes
            invariant
                i <= probes,
                h1 == first_hash(token@),
                h2 == second_hash(token@),
                size == self.bitfield_size == old(self).bitfield_size,
                probes == self.key_size == old(self).key_size,
                before == old(self).bitfield@,
                self.wf(),
                forall|j: int|
                    0 <= j < size ==> (#[trigger] bit_at(self.bitfield@, j) <==> bit_at(before, j)
                        || old(self)@.marked_within(token@, j, i as nat)),
            decreases probes - i,
        {
            let p: usize = locate(h1, h2, i, size);
            let byte: u8 = self.bitfield[p / 8];
            let shift: u8 = (p % 8) as u8;
            let ghost prior = self.bitfield@;
            self.bitfield.set(p / 8, byte | (1u8 << shift));
            proof {
                assert forall|j: int| 0 <= j < 8 * prior.len() implies (#[trigger] bit_at(
                    self.bitfield@,
                    j,
                ) <==> bit_at(prior, j) || j == p) by {
                    if j / 8 == p / 8 {
                        lemma_set_bit(byte, shift, (j % 8) as u8);
                    }
                }
                assert forall|j: int| 0 <= j < size implies (#[trigger] bit_at(self.bitfield@, j)
                    <==> bit_at(before, j) || old(self)@.marked_within(
                    token@,
                    j,
                    (i + 1) as nat,
                )) by {
                    if old(self)@.marked_within(token@, j, (i + 1) as nat) {
                        let w = choose|w: nat|
                            w < i + 1 && probe(token@, w, old(self)@.bits.len()) == j;
                        if w < i {
                            assert(old(self)@.marked_within(token@, j, i as nat));
                        }
                    }
                    if j == p {
                        assert(probe(token@, i as nat, old(self)@.bits.len()) == j);
                    }
                }
            }
            i += 1;
        }
        proof {
            assert(self@.bits =~= old(self)@.with_token(token@).bits);
        }
    }

    /// Whether every bit that `token` probes is set. A token that was
    /// inserted is always reported; one that was not may be.
    pub fn contains(&self, token: &Token) -> (found: bool)
        requires
            self.wf(),
        ensures
            found == self@.holds(token@),
    {
        let (h1, h2) = hashes(token);
        let mut i: usize = 0;
        while i < self.key_size
            invariant
                i <= self.key_size,
                self.wf(),
                h1 == first_hash(token@),
                h2 == second_hash(token@),
                forall|w: nat|
                    w < i ==> self@.bits[#[trigger] probe(token@, w, self@.bits.len()) as int],
            decreases self.key_size - i,
        {
            let p: usize = locate(h1, h2, i, self.bitfield_size);
            let byte: u8 = self.bitfield[p / 8];
            let shift: u8 = (p % 8) as u8;
            proof {
                lemma_test_bit(byte, shift);
            }
            if byte & (1u8 << shift) == 0 {
                assert(!self@.bits[probe(token@, i as nat, self@.bits.len()) as int]);
                return false;
            }
            i += 1;
        }
        true
    }
}

} // verus!
