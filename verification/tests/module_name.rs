use wasm_module_name::DecodeError;
use wasm_module_name::modname::{
    get_module_name, get_module_name_bytes, set_module_name, set_module_name_bytes,
};
use wasm_module_name::section::parse;

fn header() -> Vec<u8> {
    vec![0x00, 0x61, 0x73, 0x6D, 0x01, 0x00, 0x00, 0x00]
}

// header + one unrelated standard section (kind 1, empty payload)
fn no_name_container() -> Vec<u8> {
    let mut bytes = header();
    bytes.extend_from_slice(&[1, 0]);
    bytes
}

// A naming section holding module name "old" (id 0) and a function-names
// subsection (id 1) with three entries.
fn fn_names_payload() -> Vec<u8> {
    vec![3, 0, 1, b'f', 1, 1, b'g', 2, 1, b'h']
}

fn named_container() -> Vec<u8> {
    let mut bytes = header();
    let mut subs: Vec<u8> = Vec::new();
    subs.extend_from_slice(&[0, 4, 3, b'o', b'l', b'd']); // id 0: "old"
    subs.push(1);
    subs.push(fn_names_payload().len() as u8);
    subs.extend_from_slice(&fn_names_payload()); // id 1: three entries
    let mut payload: Vec<u8> = vec![4, b'n', b'a', b'm', b'e'];
    payload.extend_from_slice(&subs);
    bytes.push(0);
    bytes.push(payload.len() as u8);
    bytes.extend_from_slice(&payload);
    bytes
}

#[test]
fn get_reports_absence_without_naming_section() {
    assert_eq!(get_module_name_bytes(&no_name_container()), Ok(None));
}

#[test]
fn get_reports_absence_without_module_subsection() {
    let mut bytes = header();
    // naming section with only a function-names subsection
    bytes.extend_from_slice(&[0, 8, 4, b'n', b'a', b'm', b'e', 1, 1, 0]);
    assert_eq!(get_module_name_bytes(&bytes), Ok(None));
}

#[test]
fn get_reads_existing_module_name() {
    assert_eq!(get_module_name_bytes(&named_container()), Ok(Some(b"old".to_vec())));
}

#[test]
fn get_ignores_bytes_after_the_name_string() {
    let mut bytes = header();
    // id-0 payload: varint(2) + "hi" + one stray byte
    bytes.extend_from_slice(&[0, 11, 4, b'n', b'a', b'm', b'e', 0, 4, 2, b'h', b'i', 99]);
    assert_eq!(get_module_name_bytes(&bytes), Ok(Some(b"hi".to_vec())));
}

#[test]
fn set_appends_exactly_one_naming_section() {
    let out = set_module_name_bytes(&no_name_container(), b"alpha").unwrap();
    let mut expected = no_name_container();
    expected.extend_from_slice(&[
        0, 13, 4, b'n', b'a', b'm', b'e', 0, 6, 5, b'a', b'l', b'p', b'h', b'a',
    ]);
    assert_eq!(out, expected);
    assert_eq!(get_module_name_bytes(&out), Ok(Some(b"alpha".to_vec())));
}

#[test]
fn set_replaces_name_and_passes_function_names_through() {
    let out = set_module_name_bytes(&named_container(), b"new").unwrap();
    let mut expected = header();
    let mut subs: Vec<u8> = Vec::new();
    subs.extend_from_slice(&[0, 4, 3, b'n', b'e', b'w']);
    subs.push(1);
    subs.push(fn_names_payload().len() as u8);
    subs.extend_from_slice(&fn_names_payload());
    let mut payload: Vec<u8> = vec![4, b'n', b'a', b'm', b'e'];
    payload.extend_from_slice(&subs);
    expected.push(0);
    expected.push(payload.len() as u8);
    expected.extend_from_slice(&payload);
    assert_eq!(out, expected);
    assert_eq!(get_module_name_bytes(&out), Ok(Some(b"new".to_vec())));
}

#[test]
fn set_then_get_round_trips() {
    for name in [&b""[..], b"m", b"a longer module name"] {
        let out = set_module_name_bytes(&no_name_container(), name).unwrap();
        assert_eq!(get_module_name_bytes(&out), Ok(Some(name.to_vec())));
        let out2 = set_module_name_bytes(&named_container(), name).unwrap();
        assert_eq!(get_module_name_bytes(&out2), Ok(Some(name.to_vec())));
    }
}

#[test]
fn set_is_idempotent() {
    let once = set_module_name_bytes(&named_container(), b"twice").unwrap();
    let again = set_module_name_bytes(&once, b"twice").unwrap();
    assert_eq!(once, again);
    let created = set_module_name_bytes(&no_name_container(), b"twice").unwrap();
    let created_again = set_module_name_bytes(&created, b"twice").unwrap();
    assert_eq!(created, created_again);
}

#[test]
fn set_is_idempotent_with_subsections_out_of_order() {
    // function-names subsection first, module name second
    let mut bytes = header();
    let mut subs: Vec<u8> = Vec::new();
    subs.extend_from_slice(&[1, 2, 0xAB, 0xCD]);
    subs.extend_from_slice(&[0, 4, 3, b'o', b'l', b'd']);
    let mut payload: Vec<u8> = vec![4, b'n', b'a', b'm', b'e'];
    payload.extend_from_slice(&subs);
    bytes.push(0);
    bytes.push(payload.len() as u8);
    bytes.extend_from_slice(&payload);
    let once = set_module_name_bytes(&bytes, b"x").unwrap();
    let again = set_module_name_bytes(&once, b"x").unwrap();
    assert_eq!(once, again);
    // the replacement stays in place: the id-1 subsection still comes first
    let mut expected = header();
    let mut subs2: Vec<u8> = Vec::new();
    subs2.extend_from_slice(&[1, 2, 0xAB, 0xCD]);
    subs2.extend_from_slice(&[0, 2, 1, b'x']);
    let mut payload2: Vec<u8> = vec![4, b'n', b'a', b'm', b'e'];
    payload2.extend_from_slice(&subs2);
    expected.push(0);
    expected.push(payload2.len() as u8);
    expected.extend_from_slice(&payload2);
    assert_eq!(once, expected);
}

#[test]
fn set_passes_other_sections_through_byte_identically() {
    // standard sections on both sides of the naming section
    let mut bytes = header();
    let before = [2, 3, 0x10, 0x20, 0x30];
    let after = [9, 1, 0x44];
    bytes.extend_from_slice(&before);
    bytes.extend_from_slice(&[0, 7, 4, b'n', b'a', b'm', b'e', 0, 0]); // empty id-0
    bytes.extend_from_slice(&after);
    let out = set_module_name_bytes(&bytes, b"mid").unwrap();
    assert_eq!(&out[8..8 + before.len()], &before);
    assert_eq!(&out[out.len() - after.len()..], &after);
    assert_eq!(&out[..8], &header()[..]);
    assert_eq!(get_module_name_bytes(&out), Ok(Some(b"mid".to_vec())));
}

#[test]
fn set_inserts_module_subsection_in_front_of_others() {
    // naming section with only a function-names subsection
    let mut bytes = header();
    bytes.extend_from_slice(&[0, 9, 4, b'n', b'a', b'm', b'e', 1, 2, 0xAB, 0xCD]);
    let out = set_module_name_bytes(&bytes, b"hi").unwrap();
    let mut expected = header();
    expected.extend_from_slice(&[
        0, 14, 4, b'n', b'a', b'm', b'e', 0, 3, 2, b'h', b'i', 1, 2, 0xAB, 0xCD,
    ]);
    assert_eq!(out, expected);
}

#[test]
fn container_level_get_and_set_agree_with_byte_level() {
    let c = parse(&named_container()).unwrap();
    assert_eq!(get_module_name(&c), Ok(Some(b"old".to_vec())));
    let m = set_module_name(c, b"fresh").unwrap();
    assert_eq!(get_module_name(&m), Ok(Some(b"fresh".to_vec())));
}

#[test]
fn get_rejects_truncated_subsection() {
    let mut bytes = header();
    // subsection declares 5 payload bytes, only 2 remain
    bytes.extend_from_slice(&[0, 9, 4, b'n', b'a', b'm', b'e', 0, 5, 1, 2]);
    assert_eq!(get_module_name_bytes(&bytes), Err(DecodeError::TruncatedSubsection));
}

#[test]
fn get_rejects_truncated_name_string() {
    let mut bytes = header();
    // id-0 payload declares a 5-byte string, holds 1
    bytes.extend_from_slice(&[0, 9, 4, b'n', b'a', b'm', b'e', 0, 2, 5, b'a']);
    assert_eq!(get_module_name_bytes(&bytes), Err(DecodeError::TruncatedSubsection));
}

#[test]
fn get_rejects_malformed_subsection_length() {
    let mut bytes = header();
    // subsection length varint never terminates
    bytes.extend_from_slice(&[0, 6, 4, b'n', b'a', b'm', b'e', 0x80]);
    // the unterminated varint is the subsection id 0x80's length field
    let mut withid = header();
    withid.extend_from_slice(&[0, 6, 4, b'n', b'a', b'm', b'e', 0]);
    assert_eq!(get_module_name_bytes(&bytes), Err(DecodeError::MalformedVarint));
    assert_eq!(get_module_name_bytes(&withid), Err(DecodeError::MalformedVarint));
}

#[test]
fn set_reports_errors_of_undecodable_naming_section() {
    let mut bytes = header();
    bytes.extend_from_slice(&[0, 7, 4, b'n', b'a', b'm', b'e', 0, 5]); // truncated
    assert_eq!(set_module_name_bytes(&bytes, b"x"), Err(DecodeError::TruncatedSubsection));
}
