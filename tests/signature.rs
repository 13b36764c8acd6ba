use p256::ecdsa::signature::Signer;
use p256::ecdsa::{Signature, SigningKey};
use zkdnssec::message::construct_rrset_message_with_sig;
use zkdnssec::name::Name;
use zkdnssec::rdata::{Record, SIG, TXT};
use zkdnssec::types::{Algorithm, DNSClass, RecordType};
use zkdnssec::verify::{to_sec1, verify_ecdsa_signature, verify_rrsig};

fn signing_key() -> SigningKey {
    let mut secret = [0u8; 32];
    for (i, b) in secret.iter_mut().enumerate() {
        *b = (i as u8) + 1;
    }
    SigningKey::from_slice(&secret).unwrap()
}

fn tagged_key(key: &SigningKey) -> Vec<u8> {
    key.verifying_key().to_encoded_point(false).as_bytes().to_vec()
}

fn sign(key: &SigningKey, message: &[u8]) -> Vec<u8> {
    let s: Signature = key.sign(message);
    s.to_bytes().to_vec()
}

fn rrset() -> (Name, SIG, Vec<Record>) {
    let owner = Name::from_ascii("sub.example.com.").unwrap();
    let sig = SIG {
        type_covered: RecordType::TXT,
        algorithm: Algorithm::ECDSAP256SHA256,
        num_labels: 2,
        original_ttl: 3600,
        sig_expiration: 1_700_000_000,
        sig_inception: 1_690_000_000,
        key_tag: 4242,
        signer_name: Name::from_ascii("example.com.").unwrap(),
        sig: vec![],
    };
    let record = Record {
        name_labels: owner.clone(),
        rr_type: RecordType::TXT,
        dns_class: DNSClass::IN,
        ttl: 60,
        rdata: Some(TXT::new(vec![b"v=spf1 -all".to_vec()]).into_rdata()),
    };
    (owner, sig, vec![record])
}

#[test]
fn sec1_form_adds_tag_to_raw_key() {
    let raw = vec![7u8; 64];
    let tagged = to_sec1(&raw);
    assert_eq!(tagged.len(), 65);
    assert_eq!(tagged[0], 4);
    assert_eq!(&tagged[1..], raw.as_slice());
    let other = vec![4u8; 65];
    assert_eq!(to_sec1(&other), other);
}

#[test]
fn raw_and_tagged_keys_verify_alike() {
    let key = signing_key();
    let tagged = tagged_key(&key);
    let raw = tagged[1..].to_vec();
    let message = b"some message".to_vec();
    let good = sign(&key, &message);
    assert!(verify_ecdsa_signature(tagged.clone(), message.clone(), good.clone()));
    assert!(verify_ecdsa_signature(raw.clone(), message.clone(), good.clone()));
    let mut bad = good.clone();
    bad[10] ^= 1;
    assert_eq!(
        verify_ecdsa_signature(raw, message.clone(), bad.clone()),
        verify_ecdsa_signature(tagged, message, bad)
    );
}

#[test]
fn malformed_inputs_do_not_verify() {
    let key = signing_key();
    let tagged = tagged_key(&key);
    let message = b"m".to_vec();
    let good = sign(&key, &message);
    assert!(!verify_ecdsa_signature(vec![1, 2, 3], message.clone(), good.clone()));
    assert!(!verify_ecdsa_signature(tagged.clone(), message.clone(), good[..63].to_vec()));
    assert!(!verify_ecdsa_signature(tagged, message, vec![0u8; 64]));
}

#[test]
fn rrset_signature_verifies_end_to_end() {
    let key = signing_key();
    let (owner, sig, records) = rrset();
    let message = construct_rrset_message_with_sig(&owner, DNSClass::IN, &sig, &records).unwrap();
    let signature = sign(&key, &message);
    let tagged = tagged_key(&key);
    assert!(verify_rrsig(tagged.clone(), &owner, DNSClass::IN, &sig, &records, signature.clone()));
    assert!(verify_rrsig(tagged[1..].to_vec(), &owner, DNSClass::IN, &sig, &records, signature.clone()));
    let mut wrong = sig.clone();
    wrong.num_labels = 5;
    assert!(!verify_rrsig(tagged, &owner, DNSClass::IN, &wrong, &records, signature));
}

#[test]
fn tampering_any_byte_breaks_the_signature() {
    let key = signing_key();
    let (owner, sig, records) = rrset();
    let message = construct_rrset_message_with_sig(&owner, DNSClass::IN, &sig, &records).unwrap();
    let signature = sign(&key, &message);
    let tagged = tagged_key(&key);
    assert!(verify_ecdsa_signature(tagged.clone(), message.clone(), signature.clone()));
    for i in 0..message.len() {
        let mut changed = message.clone();
        changed[i] ^= 0x01;
        assert!(!verify_ecdsa_signature(tagged.clone(), changed, signature.clone()));
    }
}

#[test]
fn tampered_record_breaks_the_rrset_signature() {
    let key = signing_key();
    let (owner, sig, records) = rrset();
    let message = construct_rrset_message_with_sig(&owner, DNSClass::IN, &sig, &records).unwrap();
    let signature = sign(&key, &message);
    let mut forged = records.clone();
    forged[0].rdata = Some(TXT::new(vec![b"v=spf1 +all".to_vec()]).into_rdata());
    assert!(!verify_rrsig(tagged_key(&key), &owner, DNSClass::IN, &sig, &forged, signature));
}
