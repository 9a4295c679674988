use darkbio_cobs::decode;
use darkbio_cobs::decode_buffer;
use darkbio_cobs::decode_unsafe;
use darkbio_cobs::encode;
use darkbio_cobs::encode_buffer;
use darkbio_cobs::encode_unsafe;

#[test]
fn encodes_short_run_exactly() {
    let data = [1, 2, 3, 4, 5];
    let mut enc_buf = vec![0u8; encode_buffer(5)];
    let len = encode(&data, &mut enc_buf).unwrap();
    assert_eq!(&enc_buf[..len], &[0x06, 1, 2, 3, 4, 5]);

    let mut dec_buf = vec![0u8; decode_buffer(len)];
    let dec_len = decode(&enc_buf[..len], &mut dec_buf).unwrap();
    assert_eq!(&dec_buf[..dec_len], &data);
}

#[test]
fn encodes_sentinels_exactly() {
    let data = [0, 1, 0, 2, 0, 0, 3];
    let mut enc_buf = vec![0u8; encode_buffer(7)];
    let len = encode(&data, &mut enc_buf).unwrap();
    assert_eq!(len, 8);
    assert_eq!(&enc_buf[..len], &[1, 2, 1, 2, 2, 1, 2, 3]);

    let mut dec_buf = vec![0u8; decode_buffer(len)];
    let dec_len = decode(&enc_buf[..len], &mut dec_buf).unwrap();
    assert_eq!(&dec_buf[..dec_len], &data);
}

#[test]
fn full_chunk_has_no_trailing_sentinel() {
    let data: Vec<u8> = (1..=254).collect();
    let mut enc_buf = vec![0u8; encode_buffer(254)];
    let len = encode(&data, &mut enc_buf).unwrap();
    assert_eq!(len, 255);
    assert_eq!(enc_buf[0], 0xff);
    assert_eq!(&enc_buf[1..len], &data[..]);
}

#[test]
fn full_chunk_then_short_chunk() {
    let data: Vec<u8> = (1..=254).chain(std::iter::once(1)).collect();
    let mut enc_buf = vec![0u8; encode_buffer(255)];
    let len = encode(&data, &mut enc_buf).unwrap();
    assert_eq!(len, 257);
    assert_eq!(enc_buf[0], 0xff);
    assert_eq!(enc_buf[255], 0x02);
    assert_eq!(enc_buf[256], 1);

    let mut dec_buf = vec![0u8; decode_buffer(len)];
    let dec_len = decode(&enc_buf[..len], &mut dec_buf).unwrap();
    assert_eq!(&dec_buf[..dec_len], &data[..]);
}

#[test]
fn single_sentinel_payload() {
    let data = [0];
    let mut enc_buf = vec![0u8; encode_buffer(1)];
    let len = encode(&data, &mut enc_buf).unwrap();
    assert_eq!(&enc_buf[..len], &[1, 1]);

    let mut dec_buf = vec![0u8; decode_buffer(len)];
    let dec_len = decode(&enc_buf[..len], &mut dec_buf).unwrap();
    assert_eq!(&dec_buf[..dec_len], &data);
}

#[test]
fn frames_are_sentinel_free() {
    let data = [7, 0, 0, 9, 0, 1, 2, 3, 0];
    let mut enc_buf = vec![0u8; encode_buffer(data.len())];
    let len = encode(&data, &mut enc_buf).unwrap();
    for &b in &enc_buf[..len] {
        assert_ne!(b, 0);
    }
}

#[test]
fn unchecked_encode_is_byte_identical() {
    let data = [0, 9, 8, 0, 0, 7];
    let mut checked = vec![0u8; encode_buffer(data.len())];
    let checked_len = encode(&data, &mut checked).unwrap();

    let mut unchecked = vec![0u8; encode_buffer(data.len())];
    let unchecked_len = encode_unsafe(&data, &mut unchecked);
    assert_eq!(checked_len, unchecked_len);
    assert_eq!(&checked[..checked_len], &unchecked[..unchecked_len]);
}

#[test]
fn unchecked_decode_is_byte_identical() {
    let frame = [3, 5, 6, 2, 4];
    let mut checked = vec![0u8; decode_buffer(frame.len())];
    let checked_len = decode(&frame, &mut checked).unwrap();

    let mut unchecked = vec![0u8; decode_buffer(frame.len())];
    let unchecked_len = decode_unsafe(&frame, &mut unchecked).unwrap();
    assert_eq!(checked_len, unchecked_len);
    assert_eq!(&checked[..checked_len], &unchecked[..unchecked_len]);
}
