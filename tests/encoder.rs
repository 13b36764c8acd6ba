use zkdnssec::encoder::BinEncoder;
use zkdnssec::error::DnsError;
use zkdnssec::name::Name;

fn wire(text: &str) -> Vec<u8> {
    let mut out = Vec::new();
    for part in text.trim_end_matches('.').split('.') {
        out.push(part.len() as u8);
        out.extend_from_slice(part.as_bytes());
    }
    out.push(0);
    out
}

#[test]
fn encoder_writes_integers_big_endian() {
    let mut e = BinEncoder::new();
    assert!(e.is_empty());
    e.emit(7).unwrap();
    e.emit_u16(0x1234).unwrap();
    e.emit_u32(0xDEADBEEF).unwrap();
    e.emit_vec(&[1, 2]).unwrap();
    assert_eq!(e.offset(), 9);
    assert_eq!(e.len(), 9);
    assert_eq!(e.into_bytes(), vec![7, 0x12, 0x34, 0xDE, 0xAD, 0xBE, 0xEF, 1, 2]);
}

#[test]
fn encoder_character_data_is_length_prefixed() {
    let mut e = BinEncoder::new();
    e.emit_character_data(b"hi").unwrap();
    assert_eq!(e.slice_of(0, 3), &[2, b'h', b'i']);
    let long = vec![0u8; 256];
    assert_eq!(e.emit_character_data(&long).unwrap_err(), DnsError::CharacterDataTooLong);
    assert_eq!(e.len(), 3);
    let max = vec![9u8; 255];
    e.emit_character_data(&max).unwrap();
    assert_eq!(e.len(), 3 + 256);
}

#[test]
fn encoder_set_offset_truncates() {
    let mut e = BinEncoder::new();
    e.emit_vec(&[1, 2, 3, 4]).unwrap();
    e.set_offset(2);
    assert_eq!(e.into_bytes(), vec![1, 2]);
}

#[test]
fn canonical_emission_writes_every_label() {
    let name = Name::from_ascii("www.example.com.").unwrap();
    let mut e = BinEncoder::new();
    e.set_canonical_names(true);
    name.emit_as_canonical(&mut e, true).unwrap();
    name.emit_as_canonical(&mut e, true).unwrap();
    let one = wire("www.example.com.");
    assert_eq!(one.len(), 3 + 1 + 7 + 1 + 3 + 1 + 1);
    let mut two = one.clone();
    two.extend_from_slice(&one);
    let out = e.into_bytes();
    assert_eq!(out, two);
    assert!(!out.iter().any(|b| *b >= 0xC0));
}

#[test]
fn compressed_emission_points_back() {
    let name = Name::from_ascii("example.com.").unwrap();
    let www = Name::from_ascii("www.example.com.").unwrap();
    let mut e = BinEncoder::new();
    name.emit_as_canonical(&mut e, false).unwrap();
    name.emit_as_canonical(&mut e, false).unwrap();
    www.emit_as_canonical(&mut e, false).unwrap();
    let mut expected = wire("example.com.");
    expected.extend_from_slice(&[0xC0, 0x00]);
    expected.extend_from_slice(&[3, b'w', b'w', b'w', 0xC0, 0x00]);
    assert_eq!(e.into_bytes(), expected);
}

#[test]
fn compressed_emission_is_never_longer_than_canonical() {
    let name = Name::from_ascii("mail.example.org.").unwrap();
    let mut c = BinEncoder::new();
    let mut n = BinEncoder::new();
    for _ in 0..3 {
        name.emit_as_canonical(&mut c, true).unwrap();
        name.emit_as_canonical(&mut n, false).unwrap();
    }
    assert_eq!(c.len(), 3 * wire("mail.example.org.").len());
    assert!(n.len() <= c.len());
    assert_eq!(n.len(), wire("mail.example.org.").len() + 2 + 2);
}

#[test]
fn emit_with_lowercase_folds_case() {
    let name = Name::from_ascii("WWW.Example.COM.").unwrap();
    let mut e = BinEncoder::new();
    e.set_canonical_names(true);
    name.emit_with_lowercase(&mut e, true).unwrap();
    assert_eq!(e.into_bytes(), wire("www.example.com."));
}

#[test]
fn label_pointer_lookup_finds_recorded_suffix() {
    let mut e = BinEncoder::new();
    e.emit_vec(&[3, b'c', b'o', b'm', 3, b'c', b'o', b'm']).unwrap();
    assert_eq!(e.get_label_pointer(4, 8), None);
    e.store_label_pointer(0, 4);
    assert_eq!(e.get_label_pointer(4, 8), Some(0));
}

#[test]
fn unrestricted_character_data_wraps_length() {
    let mut e = BinEncoder::new();
    let data = vec![1u8; 300];
    e.emit_character_data_unrestricted(&data).unwrap();
    let out = e.into_bytes();
    assert_eq!(out[0], (300 % 256) as u8);
    assert_eq!(out.len(), 301);
}
