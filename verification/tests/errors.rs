use darkbio_cobs::decode;
use darkbio_cobs::encode;
use darkbio_cobs::DecodeError;
use darkbio_cobs::EncodeError;

#[test]
fn decode_rejects_empty_input() {
    let mut dec_buf = [0u8; 4];
    assert_eq!(decode(&[], &mut dec_buf), Err(DecodeError::EmptyInput));
}

#[test]
fn decode_rejects_zero_marker() {
    let mut dec_buf = [0u8; 4];
    assert_eq!(decode(&[0x00], &mut dec_buf), Err(DecodeError::ZeroMarker { at: 0 }));
    assert_eq!(decode(&[0x02, 5, 0x00, 1], &mut dec_buf), Err(DecodeError::ZeroMarker { at: 2 }));
}

#[test]
fn decode_rejects_overflowing_chunk() {
    let mut dec_buf = [0u8; 4];
    assert_eq!(
        decode(&[0x05, 1, 2], &mut dec_buf),
        Err(DecodeError::ChunkOverflow { at: 0, marker: 0x05, len: 3 })
    );
}

#[test]
fn decode_rejects_zero_in_chunk() {
    let mut dec_buf = [0u8; 4];
    assert_eq!(decode(&[0x03, 1, 0], &mut dec_buf), Err(DecodeError::ZeroBinary { at: 2 }));
}

#[test]
fn decode_rejects_small_buffer() {
    let mut dec_buf = [0u8; 0];
    assert_eq!(
        decode(&[0x02, 1], &mut dec_buf),
        Err(DecodeError::BufferTooSmall { have: 0, want: 1 })
    );
}

#[test]
fn encode_rejects_small_buffer() {
    let mut enc_buf = [0u8; 1];
    assert_eq!(
        encode(&[1], &mut enc_buf),
        Err(EncodeError::BufferTooSmall { have: 1, want: 3 })
    );
}
