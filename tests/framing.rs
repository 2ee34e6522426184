use siphonophore::payload::{decode_doc_id, encode_with_doc_id};

#[test]
fn encode_prefixes_length_and_id() {
    let wire = encode_with_doc_id("docA", &[7, 8]);
    assert_eq!(&wire[..], &[4, b'd', b'o', b'c', b'A', 7, 8][..]);
}

#[test]
fn encode_empty_id_and_payload() {
    let wire = encode_with_doc_id("", &[]);
    assert_eq!(&wire[..], &[0u8][..]);
}

#[test]
fn encode_truncates_long_id() {
    let id = "a".repeat(300);
    let wire = encode_with_doc_id(&id, &[1]);
    assert_eq!(wire.len(), 1 + 255 + 1);
    assert_eq!(wire[0], 255);
    let (got, rest) = decode_doc_id(&wire).unwrap();
    assert_eq!(got, &id[..255]);
    assert_eq!(rest, &[1u8][..]);
}

#[test]
fn decode_round_trip() {
    let wire = encode_with_doc_id("d", &[0, 2, 9, 9]);
    let (id, payload) = decode_doc_id(&wire).unwrap();
    assert_eq!(id, "d");
    assert_eq!(payload, &[0u8, 2, 9, 9][..]);
}

#[test]
fn decode_round_trip_unicode_id() {
    let wire = encode_with_doc_id("héllo", &[5]);
    assert_eq!(wire[0], 6);
    let (id, payload) = decode_doc_id(&wire).unwrap();
    assert_eq!(id, "héllo");
    assert_eq!(payload, &[5u8][..]);
}

#[test]
fn decode_rejects_short_frame() {
    assert!(decode_doc_id(&[0xFF, 0x41]).is_none());
}

#[test]
fn decode_rejects_empty_frame() {
    assert!(decode_doc_id(&[]).is_none());
}

#[test]
fn decode_rejects_invalid_utf8() {
    assert!(decode_doc_id(&[2, 0xC3, 0x28, 1]).is_none());
}

#[test]
fn decode_empty_payload() {
    let (id, payload) = decode_doc_id(&[1, b'x']).unwrap();
    assert_eq!(id, "x");
    assert!(payload.is_empty());
}

#[test]
fn truncation_inside_a_character_does_not_decode() {
    let id = format!("{}é", "a".repeat(254));
    let wire = encode_with_doc_id(&id, &[1]);
    assert_eq!(wire[0], 255);
    assert!(decode_doc_id(&wire).is_none());
}
