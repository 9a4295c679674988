//! The mathematical model of the COBS transforms.
//!
//! `encode_spec` gives the frame for a payload and `decode_from` gives the
//! payload (or the exact error) for a frame; the executable encoder and
//! decoder are verified against these functions, and the laws relating the
//! two are proved over them.

use vstd::prelude::*;

use crate::errors::DecodeError;

verus! {

/// Length of the leading run of non-sentinel bytes of `s`.
pub open spec fn nonzero_prefix(s: Seq<u8>) -> nat
    decreases s.len(),
{
    if s.len() == 0 || s[0] == 0 {
        0
    } else {
        1 + nonzero_prefix(s.skip(1))
    }
}

/// Number of payload bytes the encoder places in the chunk that opens `s`:
/// the leading non-sentinel run, capped at the maximal chunk size of 254.
pub open spec fn marker_run(s: Seq<u8>) -> nat {
    if nonzero_prefix(s) <= 254 {
        nonzero_prefix(s)
    } else {
        254
    }
}

/// The frame that encodes `payload`, chunk by chunk.
///
/// Each chunk is a marker byte `k + 1` followed by `k` non-sentinel payload
/// bytes. A chunk shorter than the maximum stands for a sentinel consumed
/// from the payload, unless it is the last chunk of the frame; a full chunk
/// (marker 255) stands for no sentinel. The empty payload encodes as the
/// single byte 1.
pub open spec fn encode_spec(payload: Seq<u8>) -> Seq<u8>
    decreases payload.len(),
{
    let k = marker_run(payload);
    if payload.len() <= k {
        seq![(payload.len() + 1) as u8] + payload
    } else if k == 254 {
        seq![255u8] + payload.take(254) + encode_spec(payload.skip(254))
    } else {
        seq![(k + 1) as u8] + payload.take(k as int) + encode_spec(payload.skip(k as int + 1))
    }
}

/// The result of decoding `frame` from offset `i` on: the decoded payload
/// bytes, or the error that classifies the malformation, with offsets
/// reported relative to the whole frame.
pub open spec fn decode_from(frame: Seq<u8>, i: int) -> Result<Seq<u8>, DecodeError>
    recommends
        0 <= i <= frame.len(),
    decreases frame.len() - i,
{
    if i >= frame.len() {
        Ok(Seq::empty())
    } else {
        let marker = frame[i];
        if marker == 0 {
            Err(DecodeError::ZeroMarker { at: i as usize })
        } else if i + marker > frame.len() {
            Err(
                DecodeError::ChunkOverflow {
                    at: i as usize,
                    marker,
                    len: frame.len() as usize,
                },
            )
        } else {
            let chunk = frame.subrange(i + 1, i + marker);
            if nonzero_prefix(chunk) < chunk.len() {
                Err(DecodeError::ZeroBinary { at: (i + 1 + nonzero_prefix(chunk)) as usize })
            } else {
                match decode_from(frame, i + marker) {
                    Ok(tail) => {
                        let sep: Seq<u8> = if i + marker < frame.len() && marker != 255 {
                            seq![0u8]
                        } else {
                            Seq::empty()
                        };
                        Ok(chunk + sep + tail)
                    },
                    Err(e) => Err(e),
                }
            }
        }
    }
}

/// The result of decoding the complete frame `frame`.
pub open spec fn decode_spec(frame: Seq<u8>) -> Result<Seq<u8>, DecodeError> {
    if frame.len() == 0 {
        Err(DecodeError::EmptyInput)
    } else {
        decode_from(frame, 0)
    }
}

/// The leading non-sentinel run is no longer than the sequence, its bytes
/// are all non-sentinel, and it ends at a sentinel if it ends early.
pub proof fn lemma_nonzero_prefix(s: Seq<u8>)
    ensures
        nonzero_prefix(s) <= s.len(),
        forall|i: int| 0 <= i < nonzero_prefix(s) ==> s[i] != 0,
        nonzero_prefix(s) < s.len() ==> s[nonzero_prefix(s) as int] == 0,
    decreases s.len(),
{
    if s.len() == 0 || s[0] == 0 {
    } else {
        lemma_nonzero_prefix(s.skip(1));
        assert forall|i: int| 0 <= i < nonzero_prefix(s) implies s[i] != 0 by {
            if i > 0 {
                assert(s.skip(1)[i - 1] == s[i]);
            }
        }
        if nonzero_prefix(s) < s.len() {
            assert(s.skip(1)[nonzero_prefix(s) as int - 1] == s[nonzero_prefix(s) as int]);
        }
    }
}

/// A sequence that opens with `k` non-sentinel bytes has a leading
/// non-sentinel run of at least `k`.
pub proof fn lemma_nonzero_prefix_at_least(s: Seq<u8>, k: nat)
    requires
        k <= s.len(),
        forall|i: int| 0 <= i < k ==> s[i] != 0,
    ensures
        nonzero_prefix(s) >= k,
    decreases s.len(),
{
    if k == 0 {
    } else {
        assert(s[0] != 0);
        assert forall|i: int| 0 <= i < k - 1 implies s.skip(1)[i] != 0 by {
            assert(s.skip(1)[i] == s[i + 1]);
        }
        lemma_nonzero_prefix_at_least(s.skip(1), (k - 1) as nat);
    }
}

/// A run of `k` non-sentinel bytes that either fills `s` or stops at a
/// sentinel is exactly the leading non-sentinel run.
pub proof fn lemma_nonzero_prefix_is(s: Seq<u8>, k: nat)
    requires
        k <= s.len(),
        forall|i: int| 0 <= i < k ==> s[i] != 0,
        k < s.len() ==> s[k as int] == 0,
    ensures
        nonzero_prefix(s) == k,
    decreases s.len(),
{
    if k == 0 {
    } else {
        assert(s[0] != 0);
        assert forall|i: int| 0 <= i < k - 1 implies s.skip(1)[i] != 0 by {
            assert(s.skip(1)[i] == s[i + 1]);
        }
        if k < s.len() {
            assert(s.skip(1)[k - 1] == s[k as int]);
        }
        lemma_nonzero_prefix_is(s.skip(1), (k - 1) as nat);
    }
}

} // verus!
