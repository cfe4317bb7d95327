//! A 64-bit digest over a sequence of words, used to name transactions and blocks.

use vstd::prelude::*;

verus! {

/// Starting state of every digest.
pub const DIGEST_SEED: u64 = 0xcbf2_9ce4_8422_2325;

/// Multiplier applied after each word is folded in.
pub const DIGEST_PRIME: u64 = 0x0000_0100_0000_01b3;

/// One step of the digest: fold `w` into the running state `h`.
pub open spec fn mix(h: u64, w: u64) -> u64 {
    let x = (h ^ w).wrapping_mul(DIGEST_PRIME);
    x ^ (x >> 29u64)
}

/// The digest of a whole word sequence, folding from the first word to the last.
pub open spec fn digest_of(ws: Seq<u64>) -> u64
    decreases ws.len(),
{
    if ws.len() == 0 {
        DIGEST_SEED
    } else {
        mix(digest_of(ws.drop_last()), ws.last())
    }
}

fn mix_step(h: u64, w: u64) -> (r: u64)
    ensures
        r == mix(h, w),
{
    let x = (h ^ w).wrapping_mul(DIGEST_PRIME);
    x ^ (x >> 29u64)
}

/// Digest of the words of `ws`.
pub fn digest(ws: &Vec<u64>) -> (r: u64)
    ensures
        r == digest_of(ws@),
{
    let mut h: u64 = DIGEST_SEED;
    let mut i: usize = 0;
    while i < ws.len()
        invariant
            i <= ws.len(),
            h == digest_of(ws@.subrange(0, i as int)),
        decreases ws.len() - i,
    {
        assert(ws@.subrange(0, i as int + 1).drop_last() =~= ws@.subrange(0, i as int));
        h = mix_step(h, ws[i]);
        i = i + 1;
    }
    assert(ws@.subrange(0, ws.len() as int) =~= ws@);
    h
}

} // verus!
