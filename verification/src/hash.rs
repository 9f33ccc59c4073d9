//! The two token hashes and the double-hashing scheme that turns them into
//! bit positions.

use vstd::prelude::*;

verus! {

/// Where the first hash starts.
pub const FIRST_SEED: u64 = 0xcbf2_9ce4_8422_2325;

/// The multiplier of the first hash.
pub const FIRST_FACTOR: u64 = 0x0000_0100_0000_01b3;

/// Where the second hash starts.
pub const SECOND_SEED: u64 = 0x1405_7b7e_f767_814f;

/// The multiplier of the second hash.
pub const SECOND_FACTOR: u64 = 0x9e37_79b9_7f4a_7c15;

/// Two to the power of 64: both hashes are computed modulo this number.
pub open spec fn modulus() -> int {
    0x1_0000_0000_0000_0000
}

/// One step of the first hash: add the character's code, then multiply.
pub open spec fn first_step(h: u64, c: char) -> u64 {
    (((h + c as u32) * FIRST_FACTOR) % modulus()) as u64
}

/// One step of the second hash: multiply, then add the character's code and one.
pub open spec fn second_step(h: u64, c: char) -> u64 {
    ((h * SECOND_FACTOR + c as u32 + 1) % modulus()) as u64
}

/// The first hash of a token: `first_step` over its characters from left to
/// right, starting at `FIRST_SEED`.
pub open spec fn first_hash(token: Seq<char>) -> u64
    decreases token.len(),
{
    if token.len() == 0 {
        FIRST_SEED
    } else {
        first_step(first_hash(token.drop_last()), token.last())
    }
}

/// The second hash of a token: `second_step` over its characters from left
/// to right, starting at `SECOND_SEED`.
pub open spec fn second_hash(token: Seq<char>) -> u64
    decreases token.len(),
{
    if token.len() == 0 {
        SECOND_SEED
    } else {
        second_step(second_hash(token.drop_last()), token.last())
    }
}

/// The position that two hash values give for probe number `i` in a filter
/// of `m` bits.
pub open spec fn position(h1: u64, h2: u64, i: nat, m: nat) -> nat
    recommends
        m > 0,
{
    ((h1 + i * h2) % (m as int)) as nat
}

/// The position of probe number `i` of a token in a filter of `m` bits.
pub open spec fn probe(token: Seq<char>, i: nat, m: nat) -> nat
    recommends
        m > 0,
{
    position(first_hash(token), second_hash(token), i, m)
}

/// Every probe lands inside the filter.
pub proof fn lemma_probe_in_range(token: Seq<char>, i: nat, m: nat)
    requires
        m > 0,
    ensures
        probe(token, i, m) < m,
{
    let h1 = first_hash(token);
    let h2 = second_hash(token);
    assert(0 <= h1 + i * h2) by (nonlinear_arith)
        requires
            0 <= h1,
            0 <= h2,
            0 <= i,
    ;
}

/// Computes both hashes of a token in one pass.
pub fn hashes(token: &Vec<char>) -> (h: (u64, u64))
    ensures
        h.0 == first_hash(token@),
        h.1 == second_hash(token@),
{
    let mut h1: u64 = FIRST_SEED;
    let mut h2: u64 = SECOND_SEED;
    let mut n: usize = 0;
    assert(token@.take(0) =~= Seq::<char>::empty());
    while n < token.len()
        invariant
            n <= token.len(),
            h1 == first_hash(token@.take(n as int)),
            h2 == second_hash(token@.take(n as int)),
        decreases token.len() - n,
    {
        let c: char = token[n];
        let code: u128 = c as u32 as u128;
        proof {
            assert(token@.take(n + 1).drop_last() =~= token@.take(n as int));
        }
        h1 = (((h1 as u128 + code) * (FIRST_FACTOR as u128)) % 0x1_0000_0000_0000_0000u128) as u64;
        h2 = (((h2 as u128) * (SECOND_FACTOR as u128) + code + 1) % 0x1_0000_0000_0000_0000u128) as u64;
        n += 1;
    }
    assert(token@.take(n as int) =~= token@);
    (h1, h2)
}

/// Computes the position of probe number `i` from the two hash values.
pub fn locate(h1: u64, h2: u64, i: usize, m: usize) -> (p: usize)
    requires
        m > 0,
    ensures
        p == position(h1, h2, i as nat, m as nat),
        p < m,
{
    assert(i * h2 <= 0xffff_ffff_ffff_ffff * 0xffff_ffff_ffff_ffff) by (nonlinear_arith)
        requires
            0 <= i <= 0xffff_ffff_ffff_ffff,
            0 <= h2 <= 0xffff_ffff_ffff_ffff,
    ;
    let total: u128 = h1 as u128 + (i as u128) * (h2 as u128);
    (total % (m as u128)) as usize
}

} // verus!
