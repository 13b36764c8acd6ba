use vstd::prelude::*;
use crate::message::{construct_rrset_message_with_sig, records_encodable, signed_data};
use crate::name::Name;
use crate::rdata::{Record, SIG};
use crate::types::DNSClass;

verus! {

/// Whether ECDSA P-256 with SHA-256 accepts `sig` (the 64 octets r ‖ s) as a
/// signature of `msg` under the SEC1-encoded public key `key`. False when the
/// key or the signature does not parse.
pub uninterp spec fn p256_accepts(key: Seq<u8>, msg: Seq<u8>, sig: Seq<u8>) -> bool;

/// Relies on p256's `VerifyingKey::from_sec1_bytes` and `Signature::try_from`
/// to parse, and on `Verifier::verify` to check: the verdict depends on the
/// three byte strings alone, and a signature of other than 64 octets does
/// not parse.
#[verifier::external_body]
fn p256_verify(key: &[u8], msg: &[u8], sig: &[u8]) -> (r: bool)
    ensures
        r == p256_accepts(key@, msg@, sig@),
        sig@.len() != 64 ==> !r,
{
    match p256::ecdsa::VerifyingKey::from_sec1_bytes(key) {
        Ok(key) => match p256::ecdsa::Signature::try_from(sig) {
            Ok(sig) => ecdsa::signature::Verifier::verify(&key, msg, &sig).is_ok(),
            Err(_) => false,
        },
        Err(_) => false,
    }
}

/// The SEC1 form of a public key: 64 octets are the raw coordinates X ‖ Y and
/// get the uncompressed-point tag 0x04 in front; other keys are taken as
/// they are.
pub open spec fn sec1_form(public_key: Seq<u8>) -> Seq<u8> {
    if public_key.len() == 64 {
        seq![4u8] + public_key
    } else {
        public_key
    }
}

/// The key in SEC1 form.
pub fn to_sec1(public_key: &[u8]) -> (r: Vec<u8>)
    ensures
        r@ == sec1_form(public_key@),
{
    let mut buf: Vec<u8> = Vec::with_capacity(65);
    if public_key.len() == 64 {
        buf.push(4u8);
    }
    let ghost start = buf@;
    let mut i: usize = 0;
    while i < public_key.len()
        invariant
            i <= public_key@.len(),
            buf@ == start + public_key@.subrange(0, i as int),
            start == if public_key@.len() == 64 {
                seq![4u8]
            } else {
                Seq::<u8>::empty()
            },
        decreases public_key@.len() - i,
    {
        buf.push(public_key[i]);
        i += 1;
        assert(buf@ =~= start + public_key@.subrange(0, i as int));
    }
    assert(public_key@.subrange(0, public_key@.len() as int) =~= public_key@);
    assert(buf@ =~= sec1_form(public_key@));
    buf
}

/// Whether `signature` is a valid ECDSA P-256/SHA-256 signature of `message`
/// under `public_key`, given in SEC1 form or as the 64 raw coordinate octets.
/// Any parse failure counts as not valid.
pub fn verify_ecdsa_signature(public_key: Vec<u8>, message: Vec<u8>, signature: Vec<u8>) -> (r: bool)
    ensures
        r == p256_accepts(sec1_form(public_key@), message@, signature@),
        signature@.len() != 64 ==> !r,
{
    let sec1_pubkey = to_sec1(public_key.as_slice());
    p256_verify(sec1_pubkey.as_slice(), message.as_slice(), signature.as_slice())
}

/// Whether `signature` signs the record set of `records` with owner `name`
/// and class `dns_class`, as described by `rrsig`, under `public_key`. A
/// record set that cannot be put in signed form is not valid.
pub fn verify_rrsig(
    public_key: Vec<u8>,
    name: &Name,
    dns_class: DNSClass,
    rrsig: &SIG,
    records: &[Record],
    signature: Vec<u8>,
) -> (r: bool)
    requires
        name.wf(),
        rrsig.signer_name.wf(),
        records_encodable(records@),
    ensures
        r == match signed_data(*name, dns_class, *rrsig, records@) {
            Ok(message) => p256_accepts(sec1_form(public_key@), message, signature@),
            Err(_) => false,
        },
{
    match construct_rrset_message_with_sig(name, dns_class, rrsig, records) {
        Ok(message) => verify_ecdsa_signature(public_key, message, signature),
        Err(_) => false,
    }
}

/// A 64-octet key and the same key behind the 0x04 tag verify alike: the
/// tag is put in front of a raw key before any check.
pub proof fn lemma_raw_key_same_as_tagged(public_key: Seq<u8>, message: Seq<u8>, signature: Seq<u8>)
    requires
        public_key.len() == 64,
    ensures
        p256_accepts(sec1_form(public_key), message, signature) == p256_accepts(
            sec1_form(seq![4u8] + public_key),
            message,
            signature,
        ),
{
    assert(sec1_form(seq![4u8] + public_key) == seq![4u8] + public_key);
}

} // verus!
