use wasm_module_name::DecodeError;
use wasm_module_name::section::{parse, serialize, Container, Section};

fn header() -> Vec<u8> {
    vec![0x00, 0x61, 0x73, 0x6D, 0x01, 0x00, 0x00, 0x00]
}

#[test]
fn parse_splits_sections_in_order() {
    let mut bytes = header();
    bytes.extend_from_slice(&[1, 0]); // kind 1, empty payload
    bytes.extend_from_slice(&[3, 2, 0xAA, 0xBB]); // kind 3, two bytes
    bytes.extend_from_slice(&[0, 6, 4, b'n', b'a', b'm', b'e', 0x7F]); // custom "name"
    let c = parse(&bytes).unwrap();
    assert_eq!(c.header, header());
    assert_eq!(c.sections.len(), 3);
    match &c.sections[0] {
        Section::Standard { kind, payload } => {
            assert_eq!(*kind, 1);
            assert!(payload.is_empty());
        },
        _ => panic!("expected a standard section"),
    }
    match &c.sections[1] {
        Section::Standard { kind, payload } => {
            assert_eq!(*kind, 3);
            assert_eq!(payload, &vec![0xAA, 0xBB]);
        },
        _ => panic!("expected a standard section"),
    }
    match &c.sections[2] {
        Section::Custom { tag, payload } => {
            assert_eq!(tag, b"name");
            assert_eq!(payload, &vec![0x7F]);
        },
        _ => panic!("expected a custom section"),
    }
}

#[test]
fn parse_rejects_short_header() {
    assert_eq!(parse(&[0x00, 0x61, 0x73]).err(), Some(DecodeError::TruncatedSection));
}

#[test]
fn parse_rejects_overlong_section_length() {
    let mut bytes = header();
    bytes.extend_from_slice(&[1, 5, 0x00]); // declares 5 payload bytes, has 1
    assert_eq!(parse(&bytes).err(), Some(DecodeError::TruncatedSection));
}

#[test]
fn parse_rejects_unterminated_length() {
    let mut bytes = header();
    bytes.extend_from_slice(&[1, 0x80]); // length varint never terminates
    assert_eq!(parse(&bytes).err(), Some(DecodeError::MalformedVarint));
}

#[test]
fn parse_rejects_invalid_utf8_tag() {
    let mut bytes = header();
    bytes.extend_from_slice(&[0, 2, 1, 0xFF]); // custom section, tag = [0xFF]
    assert_eq!(parse(&bytes).err(), Some(DecodeError::InvalidUtf8));
}

#[test]
fn parse_rejects_truncated_tag() {
    let mut bytes = header();
    bytes.extend_from_slice(&[0, 1, 3]); // tag claims 3 bytes, payload has 0
    assert_eq!(parse(&bytes).err(), Some(DecodeError::TruncatedSection));
}

#[test]
fn serialize_inverts_parse_on_canonical_bytes() {
    let mut bytes = header();
    bytes.extend_from_slice(&[1, 3, 9, 8, 7]);
    bytes.extend_from_slice(&[0, 7, 4, b'n', b'a', b'm', b'e', 0xDE, 0xAD]);
    bytes.extend_from_slice(&[11, 1, 0x55]);
    let c = parse(&bytes).unwrap();
    assert_eq!(serialize(&c).unwrap(), bytes);
}

#[test]
fn serialize_recomputes_multibyte_lengths() {
    let c = Container {
        header: header(),
        sections: vec![Section::Standard { kind: 3, payload: vec![7; 130] }],
    };
    let out = serialize(&c).unwrap();
    let mut expected = header();
    expected.extend_from_slice(&[3, 0x82, 0x01]); // 130 as a two-byte varint
    expected.extend_from_slice(&[7; 130]);
    assert_eq!(out, expected);
}

#[test]
fn serialize_frames_custom_sections() {
    let c = Container {
        header: header(),
        sections: vec![Section::Custom { tag: b"name".to_vec(), payload: vec![0x01, 0x02] }],
    };
    let out = serialize(&c).unwrap();
    let mut expected = header();
    expected.extend_from_slice(&[0, 7, 4, b'n', b'a', b'm', b'e', 0x01, 0x02]);
    assert_eq!(out, expected);
}
