//! The COBS decoder: a checked entry point that validates destination
//! capacity, and an unchecked core that states the capacity as a
//! precondition instead of testing it.

use vstd::prelude::*;

use crate::errors::DecodeError;
use crate::model::decode_from;
use crate::model::decode_spec;
use crate::model::lemma_nonzero_prefix_is;
use crate::sizing::decode_buffer;

verus! {

/// Decodes an opaque data blob with COBS using 0 as the sentinel value.
/// Returns the number of bytes the decoding took, or the error classifying
/// the malformed frame.
///
/// The caller must ensure `decoded` has at least `decode_buffer(data.len())`
/// bytes whenever `data.len() > 1`: that obligation is the precondition, and
/// every write into the destination is proved in range from it, so nothing
/// is re-validated at run time.
#[verifier::loop_isolation(false)]
#[verifier::rlimit(60)]
pub fn decode_unsafe(data: &[u8], decoded: &mut [u8]) -> (result: Result<usize, DecodeError>)
    requires
        data@.len() > 1 ==> old(decoded)@.len() >= data@.len() - 1,
    ensures
        final(decoded)@.len() == old(decoded)@.len(),
        match result {
            Ok(len) => {
                &&& len <= old(decoded)@.len()
                &&& decode_spec(data@) == Ok::<Seq<u8>, DecodeError>(
                    final(decoded)@.subrange(0, len as int),
                )
                &&& forall|j: int|
                    len <= j < old(decoded)@.len() ==> final(decoded)@[j] == old(decoded)@[j]
            },
            Err(e) => decode_spec(data@) == Err::<Seq<u8>, DecodeError>(e),
        },
{
    // The empty blob is not a valid COBS encoding
    if data.len() == 0 {
        return Err(DecodeError::EmptyInput);
    }
    // The empty text is always encoded as 0x01
    if data.len() == 1 && data[0] == 0x01 {
        proof {
            assert(data@.subrange(1, 1) =~= Seq::<u8>::empty());
            assert(data@.subrange(1, 1) + Seq::<u8>::empty() + Seq::<u8>::empty()
                =~= Seq::<u8>::empty());
            assert(decode_from(data@, 1) == Ok::<Seq<u8>, DecodeError>(Seq::empty()));
            assert(decode_from(data@, 0) == Ok::<Seq<u8>, DecodeError>(Seq::empty()));
            assert(decoded@.subrange(0, 0) =~= Seq::<u8>::empty());
        }
        return Ok(0);
    }
    let ghost dec0 = decoded@;
    proof {
        assert(decoded@.take(0) =~= Seq::<u8>::empty());
    }

    // Consume the input stream one chunk at a time
    let mut output_pos: usize = 0;
    let mut i: usize = 0;

    while i < data.len()
        invariant
            i <= data@.len(),
            output_pos <= i,
            output_pos < i || i < data@.len(),
            decoded@.len() == dec0.len(),
            forall|j: int| output_pos <= j < dec0.len() ==> decoded@[j] == dec0[j],
            match decode_from(data@, i as int) {
                Ok(tail) => decode_from(data@, 0) == Ok::<Seq<u8>, DecodeError>(
                    decoded@.take(output_pos as int) + tail,
                ),
                Err(e) => decode_from(data@, 0) == Err::<Seq<u8>, DecodeError>(e),
            },
        decreases data@.len() - i,
    {
        let ghost iter_i = i as int;
        let ghost iter_op = output_pos as int;
        let ghost dpre = decoded@;

        // Zero cannot be part of a COBS encoded stream
        let marker = data[i];
        if marker == 0 {
            return Err(DecodeError::ZeroMarker { at: i });
        }
        i = i + 1;

        // If the marker defines an overflowing chunk, abort
        if (marker as usize) - 1 > data.len() - i {
            return Err(
                DecodeError::ChunkOverflow { at: i - 1, marker, len: data.len() },
            );
        }
        let chunk_end = i + ((marker as usize) - 1);
        let ghost chunk = data@.subrange(iter_i + 1, iter_i + marker as int);

        // Consume the entire chunk, ensuring there's no sentinel in it
        while i < chunk_end
            invariant
                iter_i + 1 <= i <= chunk_end,
                chunk_end == iter_i + marker as int,
                chunk_end <= data@.len(),
                marker != 0,
                iter_op <= iter_i,
                output_pos == iter_op + (i - iter_i - 1),
                chunk == data@.subrange(iter_i + 1, iter_i + marker as int),
                decoded@.len() == dec0.len(),
                forall|j: int| iter_i < j < i ==> data@[j] != 0,
                decoded@.take(iter_op) == dpre.take(iter_op),
                decoded@.subrange(iter_op, output_pos as int) == data@.subrange(
                    iter_i + 1,
                    i as int,
                ),
                forall|j: int| output_pos <= j < dec0.len() ==> decoded@[j] == dec0[j],
            decreases chunk_end - i,
        {
            let b = data[i];
            if b == 0 {
                proof {
                    assert forall|j: int| 0 <= j < i - iter_i - 1 implies chunk[j] != 0 by {
                        assert(chunk[j] == data@[iter_i + 1 + j]);
                    }
                    assert(chunk[i - iter_i - 1] == 0);
                    lemma_nonzero_prefix_is(chunk, (i - iter_i - 1) as nat);
                }
                return Err(DecodeError::ZeroBinary { at: i });
            }
            let ghost dmid = decoded@;
            decoded[output_pos] = b;
            proof {
                assert(decoded@.take(iter_op) =~= dmid.take(iter_op));
                assert(decoded@.subrange(iter_op, output_pos + 1) =~= dmid.subrange(
                    iter_op,
                    output_pos as int,
                ) + seq![b]);
                assert(data@.subrange(iter_i + 1, i + 1) =~= data@.subrange(iter_i + 1, i as int)
                    + seq![b]);
            }
            output_pos = output_pos + 1;
            i = i + 1;
        }
        proof {
            assert forall|j: int| 0 <= j < chunk.len() implies chunk[j] != 0 by {
                assert(chunk[j] == data@[iter_i + 1 + j]);
            }
            lemma_nonzero_prefix_is(chunk, chunk.len());
            assert(decoded@.subrange(iter_op, output_pos as int) == chunk);
        }

        // If we had a partial chunk, there must be a sentinel following
        let ghost sep: Seq<u8> = if i < data@.len() && marker != 255 {
            seq![0u8]
        } else {
            Seq::<u8>::empty()
        };
        if i < data.len() && marker != 0xff {
            let ghost dmid = decoded@;
            decoded[output_pos] = 0;
            proof {
                assert(decoded@.take(iter_op) =~= dmid.take(iter_op));
                assert(decoded@.subrange(iter_op, output_pos + 1) =~= chunk + seq![0u8]);
            }
            output_pos = output_pos + 1;
        }
        proof {
            assert(decode_from(data@, iter_i) == match decode_from(data@, i as int) {
                Ok(tail) => Ok::<Seq<u8>, DecodeError>(chunk + sep + tail),
                Err(e) => Err::<Seq<u8>, DecodeError>(e),
            });
            assert(decoded@.take(output_pos as int) =~= decoded@.take(iter_op) + chunk + sep);
            assert(decoded@.take(iter_op) =~= dpre.take(iter_op));
            match decode_from(data@, i as int) {
                Ok(tail) => {
                    assert(dpre.take(iter_op) + (chunk + sep + tail) =~= decoded@.take(
                        output_pos as int,
                    ) + tail);
                },
                Err(e) => {},
            }
        }
    }
    proof {
        assert(decoded@.take(output_pos as int) + Seq::<u8>::empty() =~= decoded@.take(
            output_pos as int,
        ));
        assert(decoded@.subrange(0, output_pos as int) == decoded@.take(output_pos as int));
    }
    Ok(output_pos)
}

/// Decodes an opaque data blob with COBS using 0 as the sentinel value.
/// Returns the number of bytes the decoding took. Returns an error if the
/// output buffer is too small or if the input is malformed.
pub fn decode(data: &[u8], decoded: &mut [u8]) -> (result: Result<usize, DecodeError>)
    ensures
        final(decoded)@.len() == old(decoded)@.len(),
        match result {
            Ok(len) => {
                &&& data@.len() > 1 ==> old(decoded)@.len() >= data@.len() - 1
                &&& len <= old(decoded)@.len()
                &&& decode_spec(data@) == Ok::<Seq<u8>, DecodeError>(
                    final(decoded)@.subrange(0, len as int),
                )
                &&& forall|j: int|
                    len <= j < old(decoded)@.len() ==> final(decoded)@[j] == old(decoded)@[j]
            },
            Err(e) => {
                if data@.len() == 0 {
                    e == DecodeError::EmptyInput
                } else if data@.len() > 1 && old(decoded)@.len() < data@.len() - 1 {
                    &&& e == (DecodeError::BufferTooSmall {
                        have: old(decoded)@.len() as usize,
                        want: (data@.len() - 1) as usize,
                    })
                    &&& final(decoded)@ == old(decoded)@
                } else {
                    decode_spec(data@) == Err::<Seq<u8>, DecodeError>(e)
                }
            },
        },
{
    if data.len() == 0 {
        return Err(DecodeError::EmptyInput);
    }
    if data.len() > 1 {
        let want = decode_buffer(data.len());
        if decoded.len() < want {
            return Err(DecodeError::BufferTooSmall { have: decoded.len(), want });
        }
    }
    decode_unsafe(data, decoded)
}

} // verus!
