use vstd::prelude::*;
use crate::encoder::{u16_be, u32_be, BinEncoder, EncoderView};
use crate::error::DnsError;
use crate::label::lower_bytes;
use crate::name::{emit_name, wire_labels, Name};
use crate::types::{
    algorithm_code, class_code, record_type_code, Algorithm, DNSClass, RecordType,
};

verus! {

/// A value with a wire form.
pub trait BinEncodable {
    /// The value can be written (its names are well formed).
    spec fn encodable(&self) -> bool;

    /// The encoder after writing the value into `before`, or the error that
    /// refuses it.
    spec fn emitted(&self, before: EncoderView) -> Result<EncoderView, DnsError>;

    /// Writes the value; on an error the encoder is left as it was.
    fn emit(&self, encoder: &mut BinEncoder) -> (r: Result<(), DnsError>)
        requires
            self.encodable(),
            old(encoder).wf(),
        ensures
            final(encoder).wf(),
            match self.emitted(old(encoder)@) {
                Ok(v) => r.is_ok() && final(encoder)@ == v,
                Err(e) => r == Err::<(), DnsError>(e) && final(encoder)@ == old(encoder)@,
            },
    ;
}

/// The encoder after appending `b` to what it holds.
pub open spec fn appended(before: EncoderView, b: Seq<u8>) -> EncoderView {
    EncoderView { bytes: before.bytes + b, ..before }
}

/// The value written into a fresh encoder with compression on.
pub open spec fn fresh_encoder() -> EncoderView {
    EncoderView { bytes: Seq::empty(), table: Seq::empty(), canonical: false }
}

/// The value alone in wire form.
pub fn to_bytes<T: BinEncodable>(value: &T) -> (r: Result<Vec<u8>, DnsError>)
    requires
        value.encodable(),
    ensures
        match value.emitted(fresh_encoder()) {
            Ok(v) => r.is_ok() && r.unwrap()@ == v.bytes,
            Err(e) => r == Err::<Vec<u8>, DnsError>(e),
        },
{
    let mut encoder = BinEncoder::new();
    assert(encoder@ == fresh_encoder());
    match value.emit(&mut encoder) {
        Ok(()) => Ok(encoder.into_bytes()),
        Err(e) => Err(e),
    }
}

impl BinEncodable for RecordType {
    open spec fn encodable(&self) -> bool {
        true
    }

    open spec fn emitted(&self, before: EncoderView) -> Result<EncoderView, DnsError> {
        Ok(appended(before, u16_be(record_type_code(*self))))
    }

    fn emit(&self, encoder: &mut BinEncoder) -> (r: Result<(), DnsError>) {
        encoder.emit_u16(u16::from(*self))
    }
}

impl BinEncodable for DNSClass {
    open spec fn encodable(&self) -> bool {
        true
    }

    open spec fn emitted(&self, before: EncoderView) -> Result<EncoderView, DnsError> {
        Ok(appended(before, u16_be(class_code(*self))))
    }

    fn emit(&self, encoder: &mut BinEncoder) -> (r: Result<(), DnsError>) {
        encoder.emit_u16(u16::from(*self))
    }
}

impl BinEncodable for Algorithm {
    open spec fn encodable(&self) -> bool {
        true
    }

    open spec fn emitted(&self, before: EncoderView) -> Result<EncoderView, DnsError> {
        Ok(appended(before, seq![algorithm_code(*self)]))
    }

    fn emit(&self, encoder: &mut BinEncoder) -> (r: Result<(), DnsError>) {
        let r = encoder.emit(u8::from(*self));
        assert(encoder@.bytes =~= old(encoder)@.bytes + seq![algorithm_code(*self)]);
        r
    }
}

/// Character-strings in wire form, each as a length octet and its octets
/// (the layout of labels).
pub open spec fn character_strings(ss: Seq<Seq<u8>>) -> Seq<u8> {
    wire_labels(ss)
}

/// Text record data: a sequence of character-strings.
#[derive(Debug, Clone)]
pub struct TXT {
    pub txt_data: Vec<Vec<u8>>,
}

impl TXT {
    /// The strings' octets.
    pub open spec fn strings(&self) -> Seq<Seq<u8>> {
        self.txt_data@.map_values(|v: Vec<u8>| v@)
    }

    /// Text data holding the given strings.
    pub fn new(txt_data: Vec<Vec<u8>>) -> (r: Self)
        ensures
            r.txt_data@ == txt_data@,
    {
        TXT { txt_data }
    }

    /// The strings.
    pub fn txt_data(&self) -> (r: &[Vec<u8>])
        ensures
            r@ == self.txt_data@,
    {
        self.txt_data.as_slice()
    }

    /// The text data as record data.
    pub fn into_rdata(self) -> (r: RData)
        ensures
            r == RData::TXT(self),
    {
        RData::TXT(self)
    }
}

impl BinEncodable for TXT {
    open spec fn encodable(&self) -> bool {
        true
    }

    open spec fn emitted(&self, before: EncoderView) -> Result<EncoderView, DnsError> {
        if exists|i: int| 0 <= i < self.strings().len() && #[trigger] self.strings()[i].len() > 255 {
            Err(DnsError::CharacterDataTooLong)
        } else {
            Ok(appended(before, character_strings(self.strings())))
        }
    }

    fn emit(&self, encoder: &mut BinEncoder) -> (r: Result<(), DnsError>) {
        let ghost ss = self.strings();
        let n = self.txt_data.len();
        let mut k: usize = 0;
        while k < n
            invariant
                n == ss.len(),
                ss == self.strings(),
                k <= n,
                encoder.wf(),
                *encoder == *old(encoder),
                forall|i: int| 0 <= i < k ==> #[trigger] ss[i].len() <= 255,
            decreases n - k,
        {
            if self.txt_data[k].len() > 255 {
                assert(ss[k as int].len() > 255);
                return Err(DnsError::CharacterDataTooLong);
            }
            k += 1;
        }
        let ghost before = encoder@;
        let mut i: usize = 0;
        assert(ss.take(0) =~= Seq::<Seq<u8>>::empty());
        while i < n
            invariant
                n == ss.len(),
                ss == self.strings(),
                i <= n,
                forall|j: int| 0 <= j < n ==> #[trigger] ss[j].len() <= 255,
                encoder.wf(),
                before == old(encoder)@,
                encoder@ == appended(before, character_strings(ss.take(i as int))),
            decreases n - i,
        {
            let _ = encoder.emit_character_data(self.txt_data[i].as_slice());
            proof {
                assert(ss.take(i + 1).drop_last() =~= ss.take(i as int));
                assert(ss.take(i + 1).last() == ss[i as int]);
                assert(encoder@.bytes =~= before.bytes + character_strings(ss.take(i + 1)));
            }
            i += 1;
        }
        assert(ss.take(n as int) =~= ss);
        Ok(())
    }
}

/// The flags field of a key: zone key 0x0100, secure entry point 0x0001,
/// revoked 0x0080.
pub open spec fn key_flags(zone_key: bool, secure_entry_point: bool, revoke: bool) -> u16 {
    ((if zone_key {
        0x0100int
    } else {
        0
    }) + (if secure_entry_point {
        0x0001int
    } else {
        0
    }) + (if revoke {
        0x0080int
    } else {
        0
    })) as u16
}

/// Key record data.
#[derive(Debug, Clone)]
pub struct DNSKEY {
    zone_key: bool,
    secure_entry_point: bool,
    revoke: bool,
    algorithm: Algorithm,
    public_key: Vec<u8>,
}

impl DNSKEY {
    /// The flags field.
    pub closed spec fn spec_flags(&self) -> u16 {
        key_flags(self.zone_key, self.secure_entry_point, self.revoke)
    }

    /// The algorithm.
    pub closed spec fn spec_algorithm(&self) -> Algorithm {
        self.algorithm
    }

    /// The key material.
    pub closed spec fn spec_public_key(&self) -> Seq<u8> {
        self.public_key@
    }

    /// A key with the given flags, algorithm and material.
    pub fn new(
        zone_key: bool,
        secure_entry_point: bool,
        revoke: bool,
        algorithm: Algorithm,
        public_key: Vec<u8>,
    ) -> (r: Self)
        ensures
            r.spec_flags() == key_flags(zone_key, secure_entry_point, revoke),
            r.spec_algorithm() == algorithm,
            r.spec_public_key() == public_key@,
            r.zone_key() == zone_key,
            r.secure_entry_point() == secure_entry_point,
            r.revoke() == revoke,
    {
        DNSKEY { zone_key, secure_entry_point, revoke, algorithm, public_key }
    }

    /// Whether the key is a zone key.
    #[verifier::when_used_as_spec(spec_zone_key)]
    pub fn zone_key(&self) -> (r: bool)
        ensures
            r == self.spec_zone_key(),
    {
        self.zone_key
    }

    pub closed spec fn spec_zone_key(&self) -> bool {
        self.zone_key
    }

    /// Whether the key is a secure entry point.
    #[verifier::when_used_as_spec(spec_secure_entry_point)]
    pub fn secure_entry_point(&self) -> (r: bool)
        ensures
            r == self.spec_secure_entry_point(),
    {
        self.secure_entry_point
    }

    pub closed spec fn spec_secure_entry_point(&self) -> bool {
        self.secure_entry_point
    }

    /// Whether the key is revoked.
    #[verifier::when_used_as_spec(spec_revoke)]
    pub fn revoke(&self) -> (r: bool)
        ensures
            r == self.spec_revoke(),
    {
        self.revoke
    }

    pub closed spec fn spec_revoke(&self) -> bool {
        self.revoke
    }

    /// The flags field: zone key 0x0100, secure entry point 0x0001, revoked
    /// 0x0080.
    pub fn flags(&self) -> (r: u16)
        ensures
            r == self.spec_flags(),
            r == key_flags(self.zone_key(), self.secure_entry_point(), self.revoke()),
    {
        let mut flags: u16 = 0;
        if self.zone_key() {
            flags = flags + 0x0100;
        }
        if self.secure_entry_point() {
            flags = flags + 0x0001;
        }
        if self.revoke() {
            flags = flags + 0x0080;
        }
        flags
    }

    /// The algorithm.
    pub fn algorithm(&self) -> (r: Algorithm)
        ensures
            r == self.spec_algorithm(),
    {
        self.algorithm
    }

    /// The key material.
    pub fn public_key(&self) -> (r: &[u8])
        ensures
            r@ == self.spec_public_key(),
    {
        self.public_key.as_slice()
    }
}

impl BinEncodable for DNSKEY {
    open spec fn encodable(&self) -> bool {
        true
    }

    /// Flags, the protocol octet 3, the algorithm, then the key material.
    open spec fn emitted(&self, before: EncoderView) -> Result<EncoderView, DnsError> {
        Ok(appended(
            before,
            u16_be(self.spec_flags()) + seq![3u8, algorithm_code(self.spec_algorithm())]
                + self.spec_public_key(),
        ))
    }

    fn emit(&self, encoder: &mut BinEncoder) -> (r: Result<(), DnsError>) {
        let _ = encoder.emit_u16(self.flags());
        let _ = encoder.emit(3);
        let _ = self.algorithm().emit(encoder);
        let _ = encoder.emit_vec(self.public_key());
        assert(encoder@.bytes =~= old(encoder)@.bytes + (u16_be(self.spec_flags()) + seq![
            3u8,
            algorithm_code(self.spec_algorithm()),
        ] + self.spec_public_key()));
        Ok(())
    }
}

/// The fixed fields of signature data: type covered, algorithm, labels,
/// original TTL, expiration, inception and key tag, in network byte order.
pub open spec fn sig_fixed_fields(s: SIG) -> Seq<u8> {
    u16_be(record_type_code(s.type_covered)) + seq![algorithm_code(s.algorithm), s.num_labels]
        + u32_be(s.original_ttl) + u32_be(s.sig_expiration) + u32_be(s.sig_inception) + u16_be(
        s.key_tag,
    )
}

/// The labels folded to lower case.
pub open spec fn lower_labels(ls: Seq<Seq<u8>>) -> Seq<Seq<u8>> {
    ls.map_values(|l: Seq<u8>| lower_bytes(l))
}

/// Signature metadata and the signature itself (SIG and RRSIG data).
#[derive(Debug, Clone)]
pub struct SIG {
    pub type_covered: RecordType,
    pub algorithm: Algorithm,
    pub num_labels: u8,
    pub original_ttl: u32,
    pub sig_expiration: u32,
    pub sig_inception: u32,
    pub key_tag: u16,
    pub signer_name: Name,
    pub sig: Vec<u8>,
}

impl SIG {
    /// The number of labels of the owner name that was signed, not counting
    /// a leading wildcard.
    pub fn num_labels(&self) -> (r: u8)
        ensures
            r == self.num_labels,
    {
        self.num_labels
    }

    /// The type of the records signed.
    pub fn type_covered(&self) -> (r: RecordType)
        ensures
            r == self.type_covered,
    {
        self.type_covered
    }

    /// The signing algorithm.
    pub fn algorithm(&self) -> (r: Algorithm)
        ensures
            r == self.algorithm,
    {
        self.algorithm
    }

    /// The TTL of the records when they were signed.
    pub fn original_ttl(&self) -> (r: u32)
        ensures
            r == self.original_ttl,
    {
        self.original_ttl
    }

    /// When the signature stops being valid, in seconds since 1970.
    pub fn sig_expiration(&self) -> (r: u32)
        ensures
            r == self.sig_expiration,
    {
        self.sig_expiration
    }

    /// When the signature starts being valid, in seconds since 1970.
    pub fn sig_inception(&self) -> (r: u32)
        ensures
            r == self.sig_inception,
    {
        self.sig_inception
    }

    /// The tag of the key that signed.
    pub fn key_tag(&self) -> (r: u16)
        ensures
            r == self.key_tag,
    {
        self.key_tag
    }

    /// The owner name of the key that signed.
    pub fn signer_name(&self) -> (r: &Name)
        ensures
            r == &self.signer_name,
    {
        &self.signer_name
    }

    /// The signature octets.
    pub fn sig(&self) -> (r: &[u8])
        ensures
            r@ == self.sig@,
    {
        self.sig.as_slice()
    }
}

impl BinEncodable for SIG {
    open spec fn encodable(&self) -> bool {
        self.signer_name.wf()
    }

    /// The fixed fields, the signer's name (folded to lower case in canonical
    /// mode), then the signature.
    open spec fn emitted(&self, before: EncoderView) -> Result<EncoderView, DnsError> {
        let named = emit_name(
            before.bytes + sig_fixed_fields(*self),
            before.table,
            if before.canonical {
                lower_labels(self.signer_name.labels())
            } else {
                self.signer_name.labels()
            },
            before.canonical,
        );
        Ok(EncoderView { bytes: named.0 + self.sig@, table: named.1, canonical: before.canonical })
    }

    fn emit(&self, encoder: &mut BinEncoder) -> (r: Result<(), DnsError>) {
        let is_canonical_names = encoder.is_canonical_names();
        let _ = self.type_covered().emit(encoder);
        let _ = self.algorithm().emit(encoder);
        let _ = encoder.emit(self.num_labels());
        let _ = encoder.emit_u32(self.original_ttl());
        let _ = encoder.emit_u32(self.sig_expiration());
        let _ = encoder.emit_u32(self.sig_inception());
        let _ = encoder.emit_u16(self.key_tag());
        assert(encoder@.bytes =~= old(encoder)@.bytes + sig_fixed_fields(*self));
        let _ = self.signer_name().emit_with_lowercase(encoder, is_canonical_names);
        let _ = encoder.emit_vec(self.sig());
        Ok(())
    }
}

/// Resource record signature data: laid out and written as SIG data.
#[derive(Debug, Clone)]
pub struct RRSIG(pub SIG);

impl RRSIG {
    /// The signature data inside.
    pub fn sig(&self) -> (r: &SIG)
        ensures
            r == &self.0,
    {
        &self.0
    }
}

impl BinEncodable for RRSIG {
    open spec fn encodable(&self) -> bool {
        self.0.encodable()
    }

    open spec fn emitted(&self, before: EncoderView) -> Result<EncoderView, DnsError> {
        self.0.emitted(before)
    }

    fn emit(&self, encoder: &mut BinEncoder) -> (r: Result<(), DnsError>) {
        self.0.emit(encoder)
    }
}

/// The data a record carries.
#[derive(Debug, Clone)]
pub enum RData {
    /// Text strings.
    TXT(TXT),
    /// A resource record signature.
    RRSIG(RRSIG),
}

impl BinEncodable for RData {
    open spec fn encodable(&self) -> bool {
        match self {
            RData::TXT(t) => t.encodable(),
            RData::RRSIG(s) => s.encodable(),
        }
    }

    open spec fn emitted(&self, before: EncoderView) -> Result<EncoderView, DnsError> {
        match self {
            RData::TXT(t) => t.emitted(before),
            RData::RRSIG(s) => s.emitted(before),
        }
    }

    fn emit(&self, encoder: &mut BinEncoder) -> (r: Result<(), DnsError>) {
        match self {
            RData::TXT(txt) => txt.emit(encoder),
            RData::RRSIG(sig) => sig.emit(encoder),
        }
    }
}

/// The data of the DNSSEC record types.
#[derive(Debug, Clone)]
pub enum DNSSECRData {
    DNSKEY(DNSKEY),
    RRSIG(RRSIG),
    SIG(SIG),
}

impl DNSSECRData {
    /// The data can be written.
    pub open spec fn encodable(&self) -> bool {
        match self {
            DNSSECRData::DNSKEY(k) => k.encodable(),
            DNSSECRData::RRSIG(s) => s.encodable(),
            DNSSECRData::SIG(s) => s.encodable(),
        }
    }

    /// The encoder after writing the data in canonical mode, the mode being
    /// put back afterwards.
    pub open spec fn emitted(&self, before: EncoderView) -> Result<EncoderView, DnsError> {
        let inner = EncoderView { canonical: true, ..before };
        let out = match self {
            DNSSECRData::DNSKEY(k) => k.emitted(inner),
            DNSSECRData::RRSIG(s) => s.emitted(inner),
            DNSSECRData::SIG(s) => s.emitted(inner),
        };
        match out {
            Ok(v) => Ok(EncoderView { canonical: before.canonical, ..v }),
            Err(e) => Err(e),
        }
    }

    /// Writes the data with names in canonical form.
    pub fn emit(&self, encoder: &mut BinEncoder) -> (r: Result<(), DnsError>)
        requires
            self.encodable(),
            old(encoder).wf(),
        ensures
            final(encoder).wf(),
            match self.emitted(old(encoder)@) {
                Ok(v) => r.is_ok() && final(encoder)@ == v,
                Err(e) => r == Err::<(), DnsError>(e) && final(encoder)@ == old(encoder)@,
            },
    {
        let was = encoder.is_canonical_names();
        encoder.set_canonical_names(true);
        let r = match self {
            DNSSECRData::DNSKEY(dnskey) => dnskey.emit(encoder),
            DNSSECRData::RRSIG(rrsig) => rrsig.emit(encoder),
            DNSSECRData::SIG(sig) => sig.emit(encoder),
        };
        encoder.set_canonical_names(was);
        r
    }
}

/// A resource record: owner name, type, class, TTL and data.
#[derive(Debug, Clone)]
pub struct Record {
    pub name_labels: Name,
    pub rr_type: RecordType,
    pub dns_class: DNSClass,
    pub ttl: u32,
    pub rdata: Option<RData>,
}

impl Record {
    /// The class.
    pub fn dns_class(&self) -> (r: DNSClass)
        ensures
            r == self.dns_class,
    {
        self.dns_class
    }

    /// The type.
    pub fn record_type(&self) -> (r: RecordType)
        ensures
            r == self.rr_type,
    {
        self.rr_type
    }

    /// The owner name.
    pub fn name(&self) -> (r: &Name)
        ensures
            r == &self.name_labels,
    {
        &self.name_labels
    }

    /// The data, if any.
    pub fn data(&self) -> (r: Option<&RData>)
        ensures
            r == match &self.rdata {
                Some(d) => Some(d),
                None => None::<&RData>,
            },
    {
        match &self.rdata {
            Some(d) => Some(d),
            None => None,
        }
    }
}

} // verus!
