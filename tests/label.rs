use zkdnssec::error::DnsError;
use zkdnssec::label::Label;

#[test]
fn label_from_bytes_round_trips_every_valid_length() {
    for n in 1..=63usize {
        let bytes: Vec<u8> = (0..n).map(|i| (i % 251) as u8).collect();
        let label = Label::from_raw_bytes(&bytes).unwrap();
        assert_eq!(label.as_bytes(), bytes.as_slice());
    }
}

#[test]
fn label_from_bytes_refuses_empty_and_too_long() {
    assert_eq!(Label::from_raw_bytes(&[]).unwrap_err(), DnsError::InvalidLabelLength);
    let long = vec![b'a'; 64];
    assert_eq!(Label::from_raw_bytes(&long).unwrap_err(), DnsError::InvalidLabelLength);
}

#[test]
fn label_from_ascii_accepts_safe_text() {
    assert_eq!(Label::from_ascii("a-b_c9").unwrap().as_bytes(), b"a-b_c9");
    assert_eq!(Label::from_ascii("*").unwrap().as_bytes(), b"*");
    assert_eq!(Label::from_ascii("*ab").unwrap().as_bytes(), b"*ab");
}

#[test]
fn label_from_ascii_refuses_unsafe_text() {
    assert_eq!(Label::from_ascii("-ab").unwrap_err(), DnsError::MalformedLabel);
    assert_eq!(Label::from_ascii("a*").unwrap_err(), DnsError::MalformedLabel);
    assert_eq!(Label::from_ascii("a.b").unwrap_err(), DnsError::MalformedLabel);
    assert_eq!(Label::from_ascii(".").unwrap_err(), DnsError::MalformedLabel);
    assert_eq!(Label::from_ascii("").unwrap_err(), DnsError::MalformedLabel);
    assert_eq!(Label::from_ascii("caf\u{e9}").unwrap_err(), DnsError::MalformedLabel);
    let long = "a".repeat(64);
    assert_eq!(Label::from_ascii(&long).unwrap_err(), DnsError::InvalidLabelLength);
}

#[test]
fn label_equality_ignores_ascii_case() {
    let a = Label::from_ascii("ExAmple").unwrap();
    let b = Label::from_ascii("example").unwrap();
    let c = Label::from_ascii("exampla").unwrap();
    assert!(a == b);
    assert!(a.eq_ignore_ascii_case(&b));
    assert!(a != c);
    assert_eq!(a.to_lowercase().as_bytes(), b"example");
    assert_eq!(a.as_bytes(), b"ExAmple");
}

#[test]
fn label_wildcard_is_star() {
    assert_eq!(Label::wildcard().as_bytes(), b"*");
}

#[test]
fn label_write_ascii_escapes() {
    let label = Label::from_raw_bytes(b"-a\x01 .").unwrap();
    let mut out = Vec::new();
    label.write_ascii(&mut out);
    assert_eq!(out, b"\\-a\\001\\040\\.".to_vec());
    let plain = Label::from_raw_bytes(b"*x-1").unwrap();
    let mut out = b">".to_vec();
    plain.write_ascii(&mut out);
    assert_eq!(out, b">*x-1".to_vec());
}
