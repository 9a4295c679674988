use darkbio_cobs::decode;
use darkbio_cobs::decode_buffer;
use darkbio_cobs::encode;
use darkbio_cobs::encode_buffer;

#[test]
fn test_roundtrip_empty() {
    let data = [];
    let mut enc_buf = [0u8; 1];
    let len = encode(&data, &mut enc_buf).unwrap();
    assert_eq!(len, 1);
    assert_eq!(enc_buf[0], 0x01);

    let mut dec_buf = [0u8; 0];
    let dec_len = decode(&enc_buf[..len], &mut dec_buf).unwrap();
    assert_eq!(dec_len, 0);
}

#[test]
fn test_roundtrip_no_zeros() {
    let data = [1, 2, 3, 4, 5];
    let mut enc_buf = vec![0u8; encode_buffer(5)];
    let len = encode(&data, &mut enc_buf).unwrap();

    let mut dec_buf = vec![0u8; decode_buffer(encode_buffer(5))];
    let dec_len = decode(&enc_buf[..len], &mut dec_buf).unwrap();
    assert_eq!(&dec_buf[..dec_len], &data);
}

#[test]
fn test_roundtrip_with_zeros() {
    let data = [0, 1, 0, 2, 0, 0, 3];
    let mut enc_buf = vec![0u8; encode_buffer(7)];
    let len = encode(&data, &mut enc_buf).unwrap();

    let mut dec_buf = vec![0u8; decode_buffer(encode_buffer(7))];
    let dec_len = decode(&enc_buf[..len], &mut dec_buf).unwrap();
    assert_eq!(&dec_buf[..dec_len], &data);
}

#[test]
fn test_roundtrip_254_nonzero() {
    let data: Vec<u8> = (1..=254).collect();
    let mut enc_buf = vec![0u8; encode_buffer(254)];
    let len = encode(&data, &mut enc_buf).unwrap();

    let mut dec_buf = vec![0u8; decode_buffer(enc_buf.len())];
    let dec_len = decode(&enc_buf[..len], &mut dec_buf).unwrap();
    assert_eq!(&dec_buf[..dec_len], &data[..]);
}

#[test]
fn test_roundtrip_255_nonzero() {
    let data: Vec<u8> = (1..=254).chain(std::iter::once(1)).collect();
    let mut enc_buf = vec![0u8; encode_buffer(255)];
    let len = encode(&data, &mut enc_buf).unwrap();

    let mut dec_buf = vec![0u8; decode_buffer(enc_buf.len())];
    let dec_len = decode(&enc_buf[..len], &mut dec_buf).unwrap();
    assert_eq!(&dec_buf[..dec_len], &data[..]);
}
