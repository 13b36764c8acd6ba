use zkdnssec::error::DnsError;
use zkdnssec::label::Label;
use zkdnssec::name::Name;

fn labels_of(name: &Name) -> Vec<Vec<u8>> {
    let mut out = Vec::new();
    let mut it = name.iter();
    while let Some(l) = it.next() {
        out.push(l.to_vec());
    }
    out
}

#[test]
fn name_num_labels_skips_leading_wildcard() {
    let name = Name::from_labels(vec![b"*" as &[u8], b"example", b"com"]).unwrap();
    assert_eq!(name.num_labels(), 2);
    let plain = Name::from_labels(vec![b"www" as &[u8], b"example", b"com"]).unwrap();
    assert_eq!(plain.num_labels(), 3);
    let inner = Name::from_labels(vec![b"a" as &[u8], b"*", b"com"]).unwrap();
    assert_eq!(inner.num_labels(), 3);
}

#[test]
fn name_from_labels_is_fully_qualified() {
    let name = Name::from_labels(vec![b"example" as &[u8], b"com"]).unwrap();
    assert!(name.is_fqdn());
    assert_eq!(labels_of(&name), vec![b"example".to_vec(), b"com".to_vec()]);
    assert_eq!(name.len(), 12);
}

#[test]
fn name_from_labels_refuses_bad_labels() {
    assert_eq!(
        Name::from_labels(vec![b"" as &[u8], b"com"]).unwrap_err(),
        DnsError::InvalidLabelLength
    );
    let long = vec![b'a'; 64];
    assert_eq!(
        Name::from_labels(vec![long.as_slice()]).unwrap_err(),
        DnsError::InvalidLabelLength
    );
}

#[test]
fn name_longer_than_255_octets_is_refused() {
    let label = vec![b'a'; 63];
    let four: Vec<&[u8]> = vec![&label, &label, &label];
    let ok = Name::from_labels(four).unwrap();
    assert_eq!(ok.len(), 3 * 64);
    let five: Vec<&[u8]> = vec![&label, &label, &label, &label];
    assert_eq!(Name::from_labels(five).unwrap_err(), DnsError::NameTooLong);
    let appended = ok.clone().append_label(Label::from_raw_bytes(&label).unwrap());
    assert_eq!(appended.unwrap_err(), DnsError::NameTooLong);
}

#[test]
fn name_from_ascii_parses_text() {
    let name = Name::from_ascii("www.Example.com.").unwrap();
    assert!(name.is_fqdn());
    assert_eq!(
        labels_of(&name),
        vec![b"www".to_vec(), b"Example".to_vec(), b"com".to_vec()]
    );
    let relative = Name::from_ascii("example.com").unwrap();
    assert!(!relative.is_fqdn());
    assert_eq!(labels_of(&relative).len(), 2);
    let root = Name::from_ascii(".").unwrap();
    assert!(root.is_root());
    assert!(root.is_empty());
    assert_eq!(root.len(), 1);
}

#[test]
fn name_from_ascii_reads_escapes() {
    let name = Name::from_ascii("a\\_b.com.").unwrap();
    assert_eq!(labels_of(&name), vec![b"a_b".to_vec(), b"com".to_vec()]);
    assert_eq!(Name::from_ascii("a\\.b.com.").unwrap_err(), DnsError::MalformedLabel);
    let octal = Name::from_ascii("x\\101y\\065.").unwrap();
    assert_eq!(labels_of(&octal), vec![b"xAy5".to_vec()]);
}

#[test]
fn name_from_ascii_refuses_bad_text() {
    assert_eq!(Name::from_ascii("a b.").unwrap_err(), DnsError::UnrecognizedChar);
    assert_eq!(Name::from_ascii("a\\9").unwrap_err(), DnsError::InvalidEscape);
    assert_eq!(Name::from_ascii("a\\4x").unwrap_err(), DnsError::InvalidEscape);
    assert_eq!(Name::from_ascii("a\\777.").unwrap_err(), DnsError::InvalidEscape);
    assert_eq!(Name::from_ascii("a..b").unwrap_err(), DnsError::MalformedLabel);
    assert_eq!(Name::from_ascii("-a.com").unwrap_err(), DnsError::MalformedLabel);
}

#[test]
fn name_to_ascii_round_trips() {
    let name = Name::from_ascii("www.example.com.").unwrap();
    assert_eq!(name.to_ascii(), b"www.example.com.".to_vec());
    let relative = Name::from_ascii("a_b.com").unwrap();
    assert_eq!(relative.to_ascii(), b"a_b.com".to_vec());
    let dotted = Name::from_labels(vec![b"a.b" as &[u8], b"com"]).unwrap();
    assert_eq!(dotted.to_ascii(), b"a\\.b.com.".to_vec());
    assert_eq!(Name::root().to_ascii(), b".".to_vec());
}

#[test]
fn name_to_lowercase_folds_every_label() {
    let name = Name::from_ascii("WwW.ExAmple.COM.").unwrap();
    let lower = name.to_lowercase();
    assert_eq!(lower.to_ascii(), b"www.example.com.".to_vec());
    assert!(lower.is_fqdn());
    assert!(name != lower);
    assert!(lower == Name::from_ascii("www.example.com.").unwrap());
}

#[test]
fn name_trim_to_keeps_rightmost_labels() {
    let name = Name::from_ascii("a.b.c.d").unwrap();
    let two = name.trim_to(2);
    assert_eq!(two.to_ascii(), b"c.d.".to_vec());
    assert!(name.trim_to(0).is_root());
    let all = name.trim_to(9);
    assert!(all == name);
}

#[test]
fn name_append_name_and_domain() {
    let head = Name::from_ascii("www").unwrap();
    let tail = Name::from_ascii("example.com.").unwrap();
    let joined = head.clone().append_name(&tail).unwrap();
    assert_eq!(joined.to_ascii(), b"www.example.com.".to_vec());
    let relative_tail = Name::from_ascii("example.com").unwrap();
    let rel = head.clone().append_name(&relative_tail).unwrap();
    assert!(!rel.is_fqdn());
    let dom = head.append_domain(&relative_tail).unwrap();
    assert!(dom.is_fqdn());
    let mut n = Name::new();
    assert!(!n.is_fqdn());
    n.set_fqdn(true);
    assert!(n.is_root());
}

#[test]
fn label_iter_walks_every_label_once() {
    let name = Name::from_ascii("x.y.z.").unwrap();
    let mut it = name.iter();
    assert_eq!(it.next(), Some(&b"x"[..]));
    assert_eq!(it.next(), Some(&b"y"[..]));
    assert_eq!(it.next(), Some(&b"z"[..]));
    assert_eq!(it.next(), None);
    assert_eq!(it.next(), None);
    assert_eq!(name.label_at(1), b"y");
}
