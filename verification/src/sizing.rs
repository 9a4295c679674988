//! Worst-case destination capacity for encoding and decoding.

use vstd::prelude::*;

use vstd::arithmetic::div_mod::lemma_fundamental_div_mod;
use vstd::arithmetic::div_mod::lemma_hoist_over_denominator;

verus! {

/// Worst-case number of marker bytes in the frame for a payload of length
/// `n`: one per started chunk of 254 payload bytes.
pub open spec fn encode_overhead(n: nat) -> nat {
    (n + 253) / 254
}

/// Capacity that always suffices to encode a payload of length `n`: the
/// payload itself, the worst-case marker overhead, and one spare byte that
/// also covers the one-byte frame of the empty payload.
pub open spec fn encode_capacity(n: nat) -> nat {
    n + encode_overhead(n) + 1
}

/// Capacity that always suffices to decode a well-formed frame of length
/// `n >= 1`: every frame spends at least one byte on a marker that does not
/// reappear in the decoded output.
pub open spec fn decode_capacity(n: nat) -> nat
    recommends
        n >= 1,
{
    (n - 1) as nat
}

/// The worst-case marker overhead, written over quotient and remainder.
pub proof fn lemma_encode_overhead_split(n: nat)
    ensures
        encode_overhead(n) == n / 254 + if n % 254 == 0 {
            0int
        } else {
            1int
        },
{
    let q = n as int / 254;
    let r = n as int % 254;
    lemma_fundamental_div_mod(n as int, 254);
    if r == 0 {
        lemma_hoist_over_denominator(253, q, 254);
        assert(n + 253 == 253 + q * 254);
    } else {
        lemma_hoist_over_denominator(r - 1, q + 1, 254);
        assert(n + 253 == (r - 1) + (q + 1) * 254);
    }
}

/// Computes the maximum size needed to COBS encode a blind input blob.
pub fn encode_buffer(size: usize) -> (cap: usize)
    requires
        encode_capacity(size as nat) <= usize::MAX,
    ensures
        cap == encode_capacity(size as nat),
{
    proof {
        lemma_encode_overhead_split(size as nat);
    }
    let extra: usize = if size % 254 == 0 {
        0
    } else {
        1
    };
    size + size / 254 + extra + 1
}

/// Computes the maximum size needed to COBS decode a blind input frame.
///
/// Zero is not a valid frame size, so no sizing answer exists for it and the
/// precondition leaves it out.
pub fn decode_buffer(size: usize) -> (cap: usize)
    requires
        size >= 1,
    ensures
        cap == decode_capacity(size as nat),
{
    size - 1
}

} // verus!
