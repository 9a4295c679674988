//! The laws relating the COBS transforms: frame length bounds, sentinel
//! freedom, and the round trip between encoding and decoding.

use vstd::prelude::*;

use vstd::arithmetic::div_mod::lemma_div_by_self;
use vstd::arithmetic::div_mod::lemma_div_is_ordered;
use vstd::arithmetic::div_mod::lemma_hoist_over_denominator;
use vstd::arithmetic::div_mod::lemma_mod_sub_multiples_vanish;

use crate::errors::DecodeError;
use crate::model::decode_from;
use crate::model::decode_spec;
use crate::model::encode_spec;
use crate::model::marker_run;
use crate::model::lemma_nonzero_prefix;
use crate::model::lemma_nonzero_prefix_is;
use crate::sizing::decode_capacity;
use crate::sizing::encode_capacity;
use crate::sizing::encode_overhead;

verus! {

/// Every frame is longer than its payload: each of the payload's bytes
/// reappears in the frame, and at least one marker byte is added.
pub proof fn lemma_encode_len_min(payload: Seq<u8>)
    ensures
        encode_spec(payload).len() >= payload.len() + 1,
    decreases payload.len(),
{
    let k = marker_run(payload);
    if payload.len() <= k {
    } else if k == 254 {
        lemma_encode_len_min(payload.skip(254));
    } else {
        lemma_encode_len_min(payload.skip(k as int + 1));
    }
}

/// A payload of length `n >= 1` needs a positive marker overhead.
proof fn lemma_encode_overhead_pos(n: nat)
    requires
        n >= 1,
    ensures
        encode_overhead(n) >= 1,
{
    lemma_div_by_self(254);
    lemma_div_is_ordered(254, n as int + 253, 254);
}

/// `encode_capacity` is always sufficient: no payload encodes to a frame
/// longer than the declared worst case, and for a non-empty payload at least
/// one byte of the declared capacity is left to spare.
pub proof fn lemma_encode_capacity_sufficient(payload: Seq<u8>)
    ensures
        encode_spec(payload).len() <= encode_capacity(payload.len()),
        payload.len() >= 1 ==> encode_spec(payload).len() < encode_capacity(payload.len()),
    decreases payload.len(),
{
    let n = payload.len();
    let k = marker_run(payload);
    lemma_nonzero_prefix(payload);
    if n <= k {
        if n >= 1 {
            lemma_encode_overhead_pos(n);
        }
    } else if k == 254 {
        let tail = payload.skip(254);
        lemma_encode_capacity_sufficient(tail);
        assert(encode_overhead(n) == encode_overhead((n - 254) as nat) + 1) by {
            lemma_hoist_over_denominator(n as int - 1, 1, 254);
        }
    } else {
        let rest = payload.skip(k as int + 1);
        lemma_encode_capacity_sufficient(rest);
        lemma_encode_overhead_pos(n);
        if rest.len() >= 1 {
            assert(encode_overhead((n - k - 1) as nat) <= encode_overhead(n)) by {
                lemma_div_is_ordered(n as int - k - 1 + 253, n as int + 253, 254);
            }
        }
    }
}

/// The declared worst case of `encode_capacity` is reached: a sentinel-free
/// payload whose length is a positive multiple of 254 splits into full
/// chunks only, and its frame uses every declared byte but the one spare.
pub proof fn lemma_encode_capacity_tight(payload: Seq<u8>)
    requires
        payload.len() >= 1,
        payload.len() % 254 == 0,
        forall|i: int| 0 <= i < payload.len() ==> payload[i] != 0,
    ensures
        encode_spec(payload).len() == encode_capacity(payload.len()) - 1,
    decreases payload.len(),
{
    let n = payload.len();
    lemma_nonzero_prefix_is(payload, n);
    if n == 254 {
        assert(encode_overhead(254) == 1);
    } else {
        let tail = payload.skip(254);
        assert forall|i: int| 0 <= i < tail.len() implies tail[i] != 0 by {
            assert(tail[i] == payload[254 + i]);
        }
        lemma_mod_sub_multiples_vanish(n as int, 254);
        lemma_encode_capacity_tight(tail);
        assert(encode_overhead(n) == encode_overhead((n - 254) as nat) + 1) by {
            lemma_hoist_over_denominator(n as int - 1, 1, 254);
        }
    }
}

/// No frame decodes to a payload as long as itself: the output of a
/// successful decode from offset `i` is strictly shorter than what remains
/// of the frame.
proof fn lemma_decode_from_len(frame: Seq<u8>, i: int)
    requires
        0 <= i <= frame.len(),
        decode_from(frame, i) is Ok,
    ensures
        decode_from(frame, i)->Ok_0.len() <= if i < frame.len() {
            frame.len() - i - 1
        } else {
            0
        },
    decreases frame.len() - i,
{
    if i < frame.len() {
        let marker = frame[i];
        lemma_decode_from_len(frame, i + marker);
    }
}

/// `decode_capacity` is always sufficient: a well-formed frame never
/// decodes to more than one byte less than its own length, so
/// `decode_capacity(frame.len())` bytes of destination always hold the
/// payload.
pub proof fn lemma_decode_capacity_sufficient(frame: Seq<u8>, payload: Seq<u8>)
    requires
        frame.len() >= 1,
        decode_spec(frame) == Ok::<Seq<u8>, DecodeError>(payload),
    ensures
        payload.len() <= decode_capacity(frame.len()),
{
    lemma_decode_from_len(frame, 0);
}

/// A frame is free of the sentinel everywhere: marker bytes are 1 to 255 by
/// construction and chunk data bytes are non-sentinel runs of the payload,
/// so the sentinel can delimit frames on a byte stream unambiguously.
pub proof fn lemma_encode_sentinel_free(payload: Seq<u8>)
    ensures
        forall|i: int| 0 <= i < encode_spec(payload).len() ==> encode_spec(payload)[i] != 0,
    decreases payload.len(),
{
    let n = payload.len() as int;
    let k = marker_run(payload);
    let frame = encode_spec(payload);
    lemma_nonzero_prefix(payload);
    if n <= k {
        assert forall|i: int| 0 <= i < frame.len() implies frame[i] != 0 by {
            if i >= 1 {
                assert(frame[i] == payload[i - 1]);
            }
        }
    } else if k == 254 {
        lemma_encode_sentinel_free(payload.skip(254));
        assert forall|i: int| 0 <= i < frame.len() implies frame[i] != 0 by {
            if 1 <= i < 255 {
                assert(frame[i] == payload[i - 1]);
            } else if i >= 255 {
                assert(frame[i] == encode_spec(payload.skip(254))[i - 255]);
            }
        }
    } else {
        lemma_encode_sentinel_free(payload.skip(k as int + 1));
        assert forall|i: int| 0 <= i < frame.len() implies frame[i] != 0 by {
            if 1 <= i < k + 1 {
                assert(frame[i] == payload[i - 1]);
            } else if i >= k + 1 {
                assert(frame[i] == encode_spec(payload.skip(k as int + 1))[i - k - 1]);
            }
        }
    }
}

/// Decoding ignores everything before the offset it starts from: a suffix
/// that decodes on its own decodes the same inside a longer frame.
proof fn lemma_decode_from_shift(prefix: Seq<u8>, frame: Seq<u8>, i: int)
    requires
        0 <= i <= frame.len(),
        decode_from(frame, i) is Ok,
    ensures
        decode_from(prefix + frame, prefix.len() + i) == decode_from(frame, i),
    decreases frame.len() - i,
{
    let t = prefix + frame;
    let pl = prefix.len() as int;
    if i >= frame.len() {
    } else {
        let marker = frame[i];
        assert(t[pl + i] == marker);
        let chunk = frame.subrange(i + 1, i + marker);
        assert(t.subrange(pl + i + 1, pl + i + marker) =~= chunk);
        lemma_decode_from_shift(prefix, frame, i + marker);
    }
}

/// Round trip: decoding inverts encoding exactly, for every payload.
proof fn lemma_decode_from_encode(payload: Seq<u8>)
    ensures
        decode_from(encode_spec(payload), 0) == Ok::<Seq<u8>, DecodeError>(payload),
    decreases payload.len(),
{
    let n = payload.len() as int;
    let k = marker_run(payload) as int;
    let frame = encode_spec(payload);
    lemma_nonzero_prefix(payload);
    lemma_encode_len_min(payload);
    if n <= k {
        let marker = (n + 1) as u8;
        assert(frame[0] == marker && marker == n + 1);
        assert(frame.subrange(1, 1 + n) =~= payload);
        lemma_nonzero_prefix_is(payload, payload.len());
        assert(decode_from(frame, n + 1) == Ok::<Seq<u8>, DecodeError>(Seq::empty()));
        assert(payload + Seq::<u8>::empty() + Seq::<u8>::empty() =~= payload);
    } else if k == 254 {
        let head = payload.take(254);
        let tail = payload.skip(254);
        lemma_decode_from_encode(tail);
        lemma_encode_len_min(tail);
        lemma_decode_from_shift(seq![255u8] + head, encode_spec(tail), 0);
        assert(frame =~= (seq![255u8] + head) + encode_spec(tail));
        assert(decode_from(frame, 255) == Ok::<Seq<u8>, DecodeError>(tail));
        assert(frame[0] == 255);
        assert(frame.subrange(1, 255) =~= head);
        assert forall|i: int| 0 <= i < head.len() implies head[i] != 0 by {
            assert(head[i] == payload[i]);
        }
        lemma_nonzero_prefix_is(head, head.len());
        assert(head + Seq::<u8>::empty() + tail =~= payload);
    } else {
        let head = payload.take(k);
        let rest = payload.skip(k + 1);
        let marker = (k + 1) as u8;
        lemma_decode_from_encode(rest);
        lemma_encode_len_min(rest);
        lemma_decode_from_shift(seq![marker] + head, encode_spec(rest), 0);
        assert(frame =~= (seq![marker] + head) + encode_spec(rest));
        assert(decode_from(frame, k + 1) == Ok::<Seq<u8>, DecodeError>(rest));
        assert(frame[0] == marker && marker == k + 1);
        assert(frame.subrange(1, 1 + k) =~= head);
        assert forall|i: int| 0 <= i < head.len() implies head[i] != 0 by {
            assert(head[i] == payload[i]);
        }
        lemma_nonzero_prefix_is(head, head.len());
        assert(payload[k] == 0);
        assert(head + seq![0u8] + rest =~= payload);
    }
}

/// Round trip: for every payload, decoding its frame gives the payload
/// back, and never an error.
pub proof fn lemma_round_trip(payload: Seq<u8>)
    ensures
        decode_spec(encode_spec(payload)) == Ok::<Seq<u8>, DecodeError>(payload),
{
    lemma_encode_len_min(payload);
    lemma_decode_from_encode(payload);
}

} // verus!
