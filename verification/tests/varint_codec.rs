use wasm_module_name::DecodeError;
use wasm_module_name::varint::{decode_varint, encode_varint};

#[test]
fn varint_encodes_single_byte_values() {
    assert_eq!(encode_varint(0), vec![0x00]);
    assert_eq!(encode_varint(1), vec![0x01]);
    assert_eq!(encode_varint(127), vec![0x7F]);
}

#[test]
fn varint_encodes_multibyte_values() {
    assert_eq!(encode_varint(128), vec![0x80, 0x01]);
    assert_eq!(encode_varint(300), vec![0xAC, 0x02]);
    assert_eq!(encode_varint(624485), vec![0xE5, 0x8E, 0x26]);
    assert_eq!(encode_varint(u32::MAX), vec![0xFF, 0xFF, 0xFF, 0xFF, 0x0F]);
}

#[test]
fn varint_decode_inverts_encode() {
    for v in [0u32, 1, 127, 128, 300, 624485, 0xFFFF_FFFF] {
        let b = encode_varint(v);
        let n = b.len();
        let got = decode_varint(&b, 0);
        assert_eq!(got, Ok((v, n)));
    }
}

#[test]
fn varint_decodes_at_offset() {
    let b = vec![0xAA, 0xBB, 0xE5, 0x8E, 0x26];
    assert_eq!(decode_varint(&b, 2), Ok((624485, 3)));
}

#[test]
fn varint_accepts_non_minimal_encodings() {
    assert_eq!(decode_varint(&[0x80, 0x00], 0), Ok((0, 2)));
    assert_eq!(decode_varint(&[0xE5, 0x8E, 0xA6, 0x00], 0), Ok((624485, 4)));
    // Long runs of zero continuation bytes still decode to a 32-bit value.
    assert_eq!(decode_varint(&[0x80, 0x80, 0x80, 0x80, 0x80, 0x80, 0x00], 0), Ok((0, 7)));
}

#[test]
fn varint_rejects_missing_terminator() {
    assert_eq!(decode_varint(&[], 0), Err(DecodeError::MalformedVarint));
    assert_eq!(decode_varint(&[0x80], 0), Err(DecodeError::MalformedVarint));
    assert_eq!(decode_varint(&[0xFF, 0xFF], 0), Err(DecodeError::MalformedVarint));
}

#[test]
fn varint_rejects_values_over_32_bits() {
    // 2^33 - 1 needs 33 bits.
    assert_eq!(
        decode_varint(&[0xFF, 0xFF, 0xFF, 0xFF, 0x1F], 0),
        Err(DecodeError::MalformedVarint)
    );
    // A nonzero payload bit at the sixth byte is past 32 bits however small.
    assert_eq!(
        decode_varint(&[0x80, 0x80, 0x80, 0x80, 0x80, 0x01], 0),
        Err(DecodeError::MalformedVarint)
    );
}
