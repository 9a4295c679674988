//! The COBS encoder: a checked entry point that validates destination
//! capacity, and an unchecked core that states the capacity as a
//! precondition instead of testing it.

use vstd::prelude::*;

use crate::errors::EncodeError;
use crate::laws::lemma_encode_capacity_sufficient;
use crate::laws::lemma_encode_len_min;
use crate::model::encode_spec;
use crate::model::lemma_nonzero_prefix_at_least;
use crate::model::lemma_nonzero_prefix_is;
use crate::sizing::encode_buffer;
use crate::sizing::encode_capacity;

verus! {

/// The claim the encoder's loop maintains after reading `n` payload bytes:
/// the frame of the whole payload is the closed chunks already written
/// (everything below `marker_pos`), followed by the frame of the open
/// chunk's bytes and the unread payload — except when a full chunk has just
/// closed the frame exactly, in which case the reserved marker slot past
/// `marker_pos` is surplus and will be retracted.
spec fn encoding_in_progress(
    data: Seq<u8>,
    enc: Seq<u8>,
    marker_pos: int,
    output_pos: int,
    run_length: int,
    n: int,
) -> bool {
    let run = enc.subrange(marker_pos + 1, output_pos);
    let rem = data.skip(n);
    if n == data.len() && run_length == 1 && data[n - 1] != 0 {
        encode_spec(data) == enc.take(marker_pos)
    } else {
        encode_spec(data) == enc.take(marker_pos) + encode_spec(run + rem)
    }
}

/// Encodes an opaque data blob with COBS using 0 as the sentinel value.
/// Returns the number of bytes the encoding took.
///
/// The caller must ensure `encoded` has at least `encode_buffer(data.len())`
/// bytes: that obligation is the precondition, and every write into the
/// destination is proved in range from it, so nothing is re-validated at
/// run time.
#[verifier::loop_isolation(false)]
#[verifier::rlimit(60)]
pub fn encode_unsafe(data: &[u8], encoded: &mut [u8]) -> (len: usize)
    requires
        old(encoded)@.len() >= encode_capacity(data@.len()),
    ensures
        len == encode_spec(data@).len(),
        len <= old(encoded)@.len(),
        final(encoded)@.len() == old(encoded)@.len(),
        final(encoded)@.subrange(0, len as int) == encode_spec(data@),
        forall|j: int| len <= j < old(encoded)@.len() ==> final(encoded)@[j] == old(encoded)@[j],
{
    // The empty blob is always encoded as 0x01
    if data.len() == 0 {
        encoded[0] = 0x01;
        proof {
            assert(encode_spec(data@) =~= seq![1u8]);
            assert(encoded@.subrange(0, 1) =~= seq![1u8]);
        }
        return 1;
    }
    let ghost enc0 = encoded@;
    proof {
        lemma_encode_capacity_sufficient(data@);
    }

    // Push the bytes into the output array, skipping each marker byte and
    // backfilling it once its chunk closes
    let mut marker_pos: usize = 0;
    let mut output_pos: usize = 1;
    let mut run_length: u8 = 1;
    let mut n: usize = 0;

    proof {
        assert(encoded@.subrange(1, 1) + data@.skip(0) =~= data@);
        assert(encoded@.take(0) + encode_spec(data@) =~= encode_spec(data@));
    }

    while n < data.len()
        invariant
            n <= data@.len(),
            encoded@.len() == enc0.len(),
            marker_pos < output_pos,
            output_pos == marker_pos + run_length,
            1 <= run_length <= 254,
            output_pos <= enc0.len(),
            forall|i: int| marker_pos < i < output_pos ==> encoded@[i] != 0,
            forall|j: int|
                0 <= j < enc0.len() && (j == marker_pos || output_pos <= j) ==> encoded@[j]
                    == enc0[j],
            encoding_in_progress(
                data@,
                encoded@,
                marker_pos as int,
                output_pos as int,
                run_length as int,
                n as int,
            ),
        decreases data@.len() - n,
    {
        let ghost enc_pre = encoded@;
        let ghost run_pre = encoded@.subrange(marker_pos as int + 1, output_pos as int);
        let ghost rem_pre = data@.skip(n as int);
        proof {
            // Room in the destination: the finished frame is strictly below
            // capacity, and the loop's cursor stays below the frame's end
            // while payload bytes remain.
            lemma_encode_len_min(run_pre + rem_pre);
            assert(encoded@.take(marker_pos as int).len() == marker_pos as int);
            assert(encode_spec(data@).len() == marker_pos + encode_spec(run_pre + rem_pre).len());
            assert(output_pos + rem_pre.len() <= encode_spec(data@).len());
            assert(output_pos + 1 <= encode_spec(data@).len());
            assert(encode_spec(data@).len() + 1 <= encode_capacity(data@.len()));
        }
        let b = data[n];
        if b > 0 {
            // A non-sentinel byte extends the open chunk
            encoded[output_pos] = b;
            proof {
                assert(encoded@.subrange(marker_pos as int + 1, output_pos as int + 1) =~= run_pre
                    + seq![b]);
                assert((run_pre + seq![b]) + data@.skip(n as int + 1) =~= run_pre + rem_pre);
                assert(encoded@.take(marker_pos as int) =~= enc_pre.take(marker_pos as int));
            }
            output_pos = output_pos + 1;
            run_length = run_length + 1;

            // If an entire chunk was non-sentinel, mark and start the next chunk
            if run_length == 255 {
                let ghost enc_mid = encoded@;
                let ghost run_full = encoded@.subrange(marker_pos as int + 1, output_pos as int);
                let ghost rem_next = data@.skip(n as int + 1);
                encoded[marker_pos] = 255;
                proof {
                    assert(encoded@.subrange(marker_pos as int + 1, output_pos as int)
                        =~= run_full);
                    assert(encoded@.take(marker_pos as int) =~= enc_mid.take(marker_pos as int));
                    assert(run_full.len() == 254);
                    assert forall|i: int| 0 <= i < 254 implies (run_full + rem_next)[i] != 0 by {
                        assert(run_full[i] == enc_mid[marker_pos + 1 + i]);
                    }
                    lemma_nonzero_prefix_at_least(run_full + rem_next, 254);
                    assert(encoded@.take(output_pos as int) =~= encoded@.take(marker_pos as int)
                        + seq![255u8] + run_full);
                    if rem_next.len() == 0 {
                        // The frame is complete; the slot reserved for the
                        // next marker will be retracted after the loop.
                        assert(run_full + rem_next =~= run_full);
                        lemma_nonzero_prefix_is(run_full, 254);
                        assert(encode_spec(run_full) =~= seq![255u8] + run_full);
                        assert(encode_spec(data@) == encoded@.take(output_pos as int));
                    } else {
                        assert((run_full + rem_next).take(254) =~= run_full);
                        assert((run_full + rem_next).skip(254) =~= rem_next);
                        assert(encode_spec(run_full + rem_next) == seq![255u8] + run_full
                            + encode_spec(rem_next));
                        assert(encode_spec(data@) == encoded@.take(output_pos as int)
                            + encode_spec(rem_next));
                    }
                }
                marker_pos = output_pos;
                output_pos = output_pos + 1;
                run_length = 1;
                proof {
                    assert(encoded@.subrange(marker_pos as int + 1, output_pos as int)
                        =~= Seq::<u8>::empty());
                    assert(Seq::<u8>::empty() + data@.skip(n as int + 1) =~= data@.skip(
                        n as int + 1,
                    ));
                }
            }
        } else {
            // A sentinel byte closes the chunk; backfill its marker
            proof {
                assert forall|i: int| 0 <= i < run_pre.len() implies (run_pre + rem_pre)[i] != 0 by {
                    assert(run_pre[i] == enc_pre[marker_pos + 1 + i]);
                }
                assert((run_pre + rem_pre)[run_pre.len() as int] == 0);
                lemma_nonzero_prefix_is(run_pre + rem_pre, run_pre.len());
            }
            encoded[marker_pos] = run_length;
            proof {
                let k = run_pre.len() as int;
                assert(encoded@.subrange(marker_pos as int + 1, output_pos as int) =~= run_pre);
                assert(encoded@.take(marker_pos as int) =~= enc_pre.take(marker_pos as int));
                assert((run_pre + rem_pre).take(k) =~= run_pre);
                assert((run_pre + rem_pre).skip(k + 1) =~= data@.skip(n as int + 1));
                assert(encode_spec(run_pre + rem_pre) == seq![run_length] + run_pre + encode_spec(
                    data@.skip(n as int + 1),
                ));
                assert(encoded@.take(output_pos as int) =~= encoded@.take(marker_pos as int)
                    + seq![run_length] + run_pre);
                assert(encode_spec(data@) == encoded@.take(output_pos as int) + encode_spec(
                    data@.skip(n as int + 1),
                ));
            }
            marker_pos = output_pos;
            output_pos = output_pos + 1;
            run_length = 1;
            proof {
                assert(encoded@.subrange(marker_pos as int + 1, output_pos as int)
                    =~= Seq::<u8>::empty());
                assert(Seq::<u8>::empty() + data@.skip(n as int + 1) =~= data@.skip(n as int + 1));
            }
        }
        n = n + 1;
    }

    // Terminate any unfinished chunk
    let last_byte = data[data.len() - 1];
    if run_length > 1 || last_byte == 0 {
        let ghost enc_pre = encoded@;
        let ghost run_pre = encoded@.subrange(marker_pos as int + 1, output_pos as int);
        proof {
            assert(run_pre + data@.skip(n as int) =~= run_pre);
            assert forall|i: int| 0 <= i < run_pre.len() implies run_pre[i] != 0 by {
                assert(run_pre[i] == enc_pre[marker_pos + 1 + i]);
            }
            lemma_nonzero_prefix_is(run_pre, run_pre.len());
            assert(encode_spec(run_pre) =~= seq![run_length] + run_pre);
            assert(encode_spec(data@).len() == marker_pos + run_length);
        }
        encoded[marker_pos] = run_length;
        proof {
            assert(encoded@.subrange(marker_pos as int + 1, output_pos as int) =~= run_pre);
            assert(encoded@.take(marker_pos as int) =~= enc_pre.take(marker_pos as int));
            assert(encoded@.subrange(0, output_pos as int) =~= encoded@.take(marker_pos as int)
                + seq![run_length] + run_pre);
        }
        output_pos
    } else {
        // Just finished at the chunk boundary, revert the reserved slot
        output_pos = output_pos - 1;
        proof {
            assert(encoded@.subrange(0, output_pos as int) =~= encoded@.take(output_pos as int));
        }
        output_pos
    }
}

/// Encodes an opaque data blob with COBS using 0 as the sentinel value.
/// Returns the number of bytes the encoding took. Returns an error if the
/// output buffer is too small.
pub fn encode(data: &[u8], encoded: &mut [u8]) -> (result: Result<usize, EncodeError>)
    requires
        encode_capacity(data@.len()) <= usize::MAX,
    ensures
        match result {
            Ok(len) => {
                &&& old(encoded)@.len() >= encode_capacity(data@.len())
                &&& len == encode_spec(data@).len()
                &&& len <= old(encoded)@.len()
                &&& final(encoded)@.len() == old(encoded)@.len()
                &&& final(encoded)@.subrange(0, len as int) == encode_spec(data@)
                &&& forall|j: int|
                    len <= j < old(encoded)@.len() ==> final(encoded)@[j] == old(encoded)@[j]
            },
            Err(e) => {
                &&& old(encoded)@.len() < encode_capacity(data@.len())
                &&& e == (EncodeError::BufferTooSmall {
                    have: old(encoded)@.len() as usize,
                    want: encode_capacity(data@.len()) as usize,
                })
                &&& final(encoded)@ == old(encoded)@
            },
        },
{
    let want = encode_buffer(data.len());
    if encoded.len() < want {
        return Err(EncodeError::BufferTooSmall { have: encoded.len(), want });
    }
    Ok(encode_unsafe(data, encoded))
}

} // verus!
