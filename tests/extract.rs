use oracle_decompile::compiled::{extract_bytecode, is_bytecode};
use oracle_decompile::options::{V1DecompileOptions, V1RenamingType};
use oracle_decompile::payload::{render_resolution, split_payload, split_payload_any_newline};

#[test]
fn recognizes_chunk_signatures() {
    assert!(is_bytecode(&[0x1b, b'L', b'u', b'a', 0x51]));
    assert!(is_bytecode(&[0x1b, b'L', b'J', 0x1, 0]));
    assert!(is_bytecode(&[0x1b, b'L', b'J', 0x2, 0]));
    assert!(is_bytecode(&[3, 0, 0, 0, 0]));
    assert!(is_bytecode(&[6, 1, 2, 3, 4, 5]));
    assert!(!is_bytecode(&[7, 0, 0, 0, 0]));
    assert!(!is_bytecode(&[2, 0, 0, 0, 0]));
    assert!(!is_bytecode(&[0x1b, b'L', b'J', 0x3, 0]));
    assert!(!is_bytecode(&[0x1b, b'L', b'u', b'a']));
    assert!(!is_bytecode(&[4, 0, 0, 0]));
    assert!(!is_bytecode(&[]));
}

#[test]
fn raw_bytecode_is_base64_encoded() {
    let raw = [0x1b, b'L', b'u', b'a', 0];
    let (b, h) = extract_bytecode(&raw).unwrap();
    assert_eq!(b, b"G0x1YQA=".to_vec());
    assert!(h.is_none());
}

#[test]
fn base64_text_of_bytecode_is_kept() {
    let (b, h) = extract_bytecode(b"G0x1YQA=").unwrap();
    assert_eq!(b, b"G0x1YQA=".to_vec());
    assert!(h.is_none());
}

#[test]
fn header_convention_with_lf() {
    let (b, h) = extract_bytecode(b"x\n-- Bytecode (Base64):\n-- QUJD\n\nold").unwrap();
    assert_eq!(b, b"QUJD".to_vec());
    assert_eq!(h.unwrap(), b"x\n-- Bytecode (Base64):\n-- ".to_vec());
}

#[test]
fn header_convention_with_crlf() {
    let (b, h) = extract_bytecode(b"-- Bytecode (Base64):\r\n-- QUJD\r\n\r\nold").unwrap();
    assert_eq!(b, b"QUJD".to_vec());
    assert_eq!(h.unwrap(), b"-- Bytecode (Base64):\r\n-- ".to_vec());
}

#[test]
fn invalid_utf8_is_replaced_before_the_search() {
    let mut input = vec![0xffu8, b'\n'];
    input.extend_from_slice(b"-- Bytecode (Base64):\n-- QUJD");
    let (b, h) = extract_bytecode(&input).unwrap();
    assert_eq!(b, b"QUJD".to_vec());
    let mut expected = "\u{FFFD}\n".as_bytes().to_vec();
    expected.extend_from_slice(b"-- Bytecode (Base64):\n-- ");
    assert_eq!(h.unwrap(), expected);
}

#[test]
fn no_bytecode_found() {
    assert!(extract_bytecode(b"print('hello')").is_none());
    assert!(extract_bytecode(b"").is_none());
}

#[test]
fn payload_split_at_first_marker() {
    let n = split_payload(b"a-- Bytecode (Base64):\n-- XYZ\nrest-- Bytecode (Base64):\n-- Q").unwrap();
    assert_eq!(n.header, b"a-- Bytecode (Base64):\n-- ".to_vec());
    assert_eq!(n.bytecode, b"XYZ".to_vec());
}

#[test]
fn payload_runs_to_end_without_newline() {
    let n = split_payload(b"-- Bytecode (Base64):\n-- XYZ").unwrap();
    assert_eq!(n.bytecode, b"XYZ".to_vec());
    let e = split_payload(b"-- Bytecode (Base64):\n-- ").unwrap();
    assert!(e.bytecode.is_empty());
}

#[test]
fn payload_marker_absent() {
    assert!(split_payload(b"local x = 1").is_none());
    assert!(split_payload(b"-- Bytecode (Base64):\r\n-- QUJD").is_none());
    assert!(split_payload(b"").is_none());
}

#[test]
fn any_newline_split_stops_at_carriage_return() {
    let n = split_payload_any_newline(b"-- Bytecode (Base64):\n-- AB\rCD").unwrap();
    assert_eq!(n.bytecode, b"AB".to_vec());
}

#[test]
fn renders_success_and_failure() {
    let ok = render_resolution(b"H:", b"QUJD", &Ok("print(1)".to_string()));
    assert_eq!(ok, b"H:QUJD\n\n-- decompilation:\nprint(1)\n".to_vec());
    let err = render_resolution(b"H:", b"QUJD", &Err("boom".to_string()));
    assert_eq!(err, b"H:QUJD\n\n-- decompilation failed:\n-- boom\n".to_vec());
}

#[test]
fn renaming_type_wire_names() {
    assert_eq!(V1RenamingType::NoRenaming.wire_name(), "NONE");
    assert_eq!(V1RenamingType::Unique.wire_name(), "UNIQUE");
    assert_eq!(V1RenamingType::UniqueValueBased.wire_name(), "UNIQUE_VALUE_BASED");
    let o = V1DecompileOptions::default();
    assert!(o.renaming_type.is_none());
}
