use darkbio_cobs::decode_buffer;
use darkbio_cobs::encode;
use darkbio_cobs::encode_buffer;

#[test]
fn encode_buffer_formula() {
    assert_eq!(encode_buffer(0), 1);
    assert_eq!(encode_buffer(1), 3);
    assert_eq!(encode_buffer(253), 255);
    assert_eq!(encode_buffer(254), 256);
    assert_eq!(encode_buffer(255), 258);
    assert_eq!(encode_buffer(508), 511);
}

#[test]
fn decode_buffer_formula() {
    assert_eq!(decode_buffer(1), 0);
    assert_eq!(decode_buffer(2), 1);
    assert_eq!(decode_buffer(256), 255);
}

#[test]
fn sizing_depends_on_length_alone() {
    assert_eq!(encode_buffer(7), encode_buffer(7));
    assert_eq!(decode_buffer(7), decode_buffer(7));
}

#[test]
fn worst_case_payload_fills_capacity_but_one() {
    let data = [1u8; 508];
    let mut enc_buf = vec![0u8; encode_buffer(508)];
    let len = encode(&data, &mut enc_buf).unwrap();
    assert_eq!(len, encode_buffer(508) - 1);
}
