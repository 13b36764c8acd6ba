use zkdnssec::error::DnsError;
use zkdnssec::message::{canonical_less, construct_rrset_message_with_sig, determine_name, sort_rdata};
use zkdnssec::name::Name;
use zkdnssec::rdata::{to_bytes, DNSSECRData, RData, Record, DNSKEY, RRSIG, SIG, TXT};
use zkdnssec::types::{Algorithm, DNSClass, RecordType};

fn name(text: &str) -> Name {
    Name::from_ascii(text).unwrap()
}

fn wire(text: &str) -> Vec<u8> {
    let mut out = Vec::new();
    for part in text.trim_end_matches('.').split('.') {
        out.push(part.len() as u8);
        out.extend_from_slice(part.as_bytes());
    }
    out.push(0);
    out
}

fn sig(num_labels: u8, signer: &str) -> SIG {
    SIG {
        type_covered: RecordType::TXT,
        algorithm: Algorithm::ECDSAP256SHA256,
        num_labels,
        original_ttl: 3600,
        sig_expiration: 0x6500_0000,
        sig_inception: 0x6400_0000,
        key_tag: 0x1234,
        signer_name: name(signer),
        sig: vec![0xAA; 64],
    }
}

fn txt_record(owner: &str, text: &[u8]) -> Record {
    Record {
        name_labels: name(owner),
        rr_type: RecordType::TXT,
        dns_class: DNSClass::IN,
        ttl: 300,
        rdata: Some(TXT::new(vec![text.to_vec()]).into_rdata()),
    }
}

fn prefix(num_labels: u8) -> Vec<u8> {
    let mut out = vec![0x00, 0x10, 13, num_labels, 0x00, 0x00, 0x0E, 0x10];
    out.extend_from_slice(&[0x65, 0, 0, 0, 0x64, 0, 0, 0, 0x12, 0x34]);
    out.extend_from_slice(&wire("example.com."));
    out
}

fn block(owner: &str, rdata: &[u8]) -> Vec<u8> {
    let mut out = wire(owner);
    out.extend_from_slice(&[0x00, 0x10, 0x00, 0x01, 0x00, 0x00, 0x0E, 0x10]);
    out.extend_from_slice(&(rdata.len() as u16).to_be_bytes());
    out.extend_from_slice(rdata);
    out
}

#[test]
fn determine_name_contracts_to_wildcard() {
    let n = name("a.b.c.d.");
    let two = determine_name(&n, 2).unwrap();
    assert_eq!(two.to_ascii(), b"*.c.d.".to_vec());
    let four = determine_name(&n, 4).unwrap();
    assert!(four == n);
    assert_eq!(determine_name(&n, 5).unwrap_err(), DnsError::InvalidLabelCount);
    let zero = determine_name(&n, 0).unwrap();
    assert_eq!(zero.to_ascii(), b"*.".to_vec());
}

#[test]
fn determine_name_on_wildcard_owner() {
    let n = name("*.example.com.");
    assert!(determine_name(&n, 2).unwrap() == n);
    assert_eq!(determine_name(&n, 1).unwrap().to_ascii(), b"*.com.".to_vec());
    assert_eq!(determine_name(&n, 3).unwrap_err(), DnsError::InvalidLabelCount);
}

#[test]
fn signed_data_for_wildcard_txt_record() {
    let records = vec![txt_record("sub.example.com.", b"hello")];
    let out = construct_rrset_message_with_sig(&name("sub.example.com."), DNSClass::IN, &sig(2, "example.com."), &records)
        .unwrap();
    let mut expected = prefix(2);
    expected.extend_from_slice(&block("*.example.com.", b"\x05hello"));
    assert_eq!(out, expected);
}

#[test]
fn signed_data_is_the_same_twice() {
    let records = vec![txt_record("sub.example.com.", b"hello"), txt_record("sub.example.com.", b"abc")];
    let s = sig(3, "example.com.");
    let owner = name("sub.example.com.");
    let first = construct_rrset_message_with_sig(&owner, DNSClass::IN, &s, &records).unwrap();
    let second = construct_rrset_message_with_sig(&owner, DNSClass::IN, &s, &records).unwrap();
    assert_eq!(first, second);
}

#[test]
fn signed_data_selects_and_sorts_the_rrset() {
    let mut other_class = txt_record("sub.example.com.", b"zz");
    other_class.dns_class = DNSClass::CH;
    let mut other_type = txt_record("sub.example.com.", b"yy");
    other_type.rr_type = RecordType::A;
    let records = vec![
        txt_record("sub.example.com.", b"b"),
        other_class,
        txt_record("other.example.com.", b"x"),
        other_type,
        txt_record("sub.example.com.", b"a"),
        txt_record("sub.example.com.", b"ab"),
    ];
    let out = construct_rrset_message_with_sig(&name("sub.example.com."), DNSClass::IN, &sig(3, "Example.COM."), &records)
        .unwrap();
    let mut expected = prefix(3);
    expected.extend_from_slice(&block("sub.example.com.", b"\x01a"));
    expected.extend_from_slice(&block("sub.example.com.", b"\x01b"));
    expected.extend_from_slice(&block("sub.example.com.", b"\x02ab"));
    assert_eq!(out, expected);
}

#[test]
fn signed_data_lowercases_owner_name() {
    let records = vec![txt_record("SUB.Example.com.", b"hi")];
    let out = construct_rrset_message_with_sig(&name("SUB.Example.com."), DNSClass::IN, &sig(3, "example.com."), &records)
        .unwrap();
    let mut expected = prefix(3);
    expected.extend_from_slice(&block("sub.example.com.", b"\x02hi"));
    assert_eq!(out, expected);
}

#[test]
fn signed_data_with_no_matching_record_is_prefix_only() {
    let records = vec![txt_record("x.example.com.", b"hi")];
    let out = construct_rrset_message_with_sig(&name("sub.example.com."), DNSClass::IN, &sig(3, "example.com."), &records)
        .unwrap();
    assert_eq!(out, prefix(3));
}

#[test]
fn signed_data_refusals() {
    let owner = name("sub.example.com.");
    let records = vec![txt_record("sub.example.com.", b"hi")];
    assert_eq!(
        construct_rrset_message_with_sig(&owner, DNSClass::IN, &sig(4, "example.com."), &records).unwrap_err(),
        DnsError::InvalidLabelCount
    );
    let mut empty = txt_record("sub.example.com.", b"hi");
    empty.rdata = None;
    assert_eq!(
        construct_rrset_message_with_sig(&owner, DNSClass::IN, &sig(3, "example.com."), &[empty]).unwrap_err(),
        DnsError::MissingRecordData
    );
    let long = txt_record("sub.example.com.", &vec![b'x'; 256]);
    assert_eq!(
        construct_rrset_message_with_sig(&owner, DNSClass::IN, &sig(3, "example.com."), &[long]).unwrap_err(),
        DnsError::CharacterDataTooLong
    );
}

#[test]
fn canonical_order_of_rdata() {
    assert!(canonical_less(b"a", b"b"));
    assert!(canonical_less(b"a", b"ab"));
    assert!(canonical_less(b"", b"\x00"));
    assert!(!canonical_less(b"ab", b"ab"));
    assert!(!canonical_less(b"b", b"ab"));
    let sorted = sort_rdata(vec![b"c".to_vec(), b"ab".to_vec(), b"a".to_vec(), b"ab".to_vec()]);
    assert_eq!(sorted, vec![b"a".to_vec(), b"ab".to_vec(), b"ab".to_vec(), b"c".to_vec()]);
}

#[test]
fn record_type_and_class_codes() {
    assert_eq!(u16::from(RecordType::TXT), 16);
    assert_eq!(u16::from(RecordType::RRSIG), 46);
    assert_eq!(RecordType::from(16u16), RecordType::TXT);
    assert_eq!(RecordType::from(251u16), RecordType::IXFR);
    assert_eq!(RecordType::from(9999u16), RecordType::Unknown(9999));
    assert_eq!(u16::from(RecordType::Unknown(9999)), 9999);
    assert_eq!(u16::from(DNSClass::IN), 1);
    assert_eq!(u16::from(DNSClass::OPT(100)), 512);
    assert_eq!(u16::from(DNSClass::OPT(4096)), 4096);
    assert_eq!(u8::from(Algorithm::ECDSAP256SHA256), 13);
    assert_eq!(u8::from(Algorithm::RSASHA256), 8);
}

#[test]
fn txt_and_dnskey_wire_forms() {
    let txt = TXT::new(vec![b"ab".to_vec(), b"".to_vec()]);
    assert_eq!(to_bytes(&txt).unwrap(), vec![2, b'a', b'b', 0]);
    assert_eq!(txt.txt_data().len(), 2);
    let too_long = TXT::new(vec![vec![0u8; 256]]);
    assert_eq!(to_bytes(&too_long).unwrap_err(), DnsError::CharacterDataTooLong);
    let key = DNSKEY::new(true, true, false, Algorithm::ECDSAP256SHA256, vec![9, 8]);
    assert_eq!(key.flags(), 0x0101);
    assert!(key.zone_key() && key.secure_entry_point() && !key.revoke());
    assert_eq!(key.algorithm(), Algorithm::ECDSAP256SHA256);
    assert_eq!(key.public_key(), &[9, 8]);
    assert_eq!(to_bytes(&key).unwrap(), vec![0x01, 0x01, 3, 13, 9, 8]);
    let revoked = DNSKEY::new(false, false, true, Algorithm::RSASHA256, vec![]);
    assert_eq!(revoked.flags(), 0x0080);
}

#[test]
fn sig_wire_form_lowercases_signer_in_canonical_mode() {
    let s = sig(2, "Example.COM.");
    let mut expected = vec![0x00, 0x10, 13, 2, 0x00, 0x00, 0x0E, 0x10];
    expected.extend_from_slice(&[0x65, 0, 0, 0, 0x64, 0, 0, 0, 0x12, 0x34]);
    expected.extend_from_slice(&wire("example.com."));
    expected.extend_from_slice(&[0xAA; 64]);
    let mut e = zkdnssec::encoder::BinEncoder::new();
    DNSSECRData::SIG(s.clone()).emit(&mut e).unwrap();
    assert!(!e.is_canonical_names());
    assert_eq!(e.into_bytes(), expected);
    let rr = RData::RRSIG(RRSIG(s.clone()));
    let mut raw = to_bytes(&rr).unwrap();
    raw.truncate(18 + 13);
    let mut upper = expected[..18].to_vec();
    upper.extend_from_slice(&wire("Example.COM."));
    assert_eq!(raw, upper);
    assert_eq!(s.num_labels(), 2);
    assert_eq!(s.key_tag(), 0x1234);
    assert_eq!(s.sig().len(), 64);
}

#[test]
fn record_getters_and_dnskey_data() {
    let r = txt_record("a.example.", b"x");
    assert_eq!(r.dns_class(), DNSClass::IN);
    assert_eq!(r.record_type(), RecordType::TXT);
    assert!(*r.name() == name("a.example."));
    assert!(r.data().is_some());
    let key = DNSKEY::new(true, false, false, Algorithm::ECDSAP256SHA256, vec![1, 2, 3]);
    let mut e = zkdnssec::encoder::BinEncoder::new();
    DNSSECRData::DNSKEY(key).emit(&mut e).unwrap();
    assert_eq!(e.into_bytes(), vec![0x01, 0x00, 3, 13, 1, 2, 3]);
}
