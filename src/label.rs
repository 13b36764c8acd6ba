use vstd::prelude::*;
use vstd::string::StringSliceAdditionalSpecFns;
use crate::error::DnsError;

verus! {

/// The longest label that DNS allows, in octets.
pub const MAX_LABEL_LEN: usize = 63;

/// A label's octets are valid when there are 1 to 63 of them.
pub open spec fn valid_label(b: Seq<u8>) -> bool {
    1 <= b.len() <= 63
}

/// ASCII case folding of one octet; other octets are kept.
pub open spec fn ascii_lower(c: u8) -> u8 {
    if 65 <= c <= 90 {
        (c + 32) as u8
    } else {
        c
    }
}

/// ASCII case folding of every octet.
pub open spec fn lower_bytes(b: Seq<u8>) -> Seq<u8> {
    b.map_values(|c: u8| ascii_lower(c))
}

pub open spec fn is_ascii_alnum(c: u8) -> bool {
    (48 <= c <= 57) || (65 <= c <= 90) || (97 <= c <= 122)
}

/// The characters a label may hold in text form: letters, digits, `_`, `-`
/// except in first place, and `*` only in first place.
pub open spec fn safe_ascii(c: u8, is_first: bool) -> bool {
    if c >= 128 {
        false
    } else if is_ascii_alnum(c) {
        true
    } else if c == 45 {
        !is_first
    } else if c == 95 {
        true
    } else if c == 42 {
        is_first
    } else {
        false
    }
}

/// The wildcard label `*`.
pub open spec fn wildcard_bytes() -> Seq<u8> {
    seq![42u8]
}

/// What building a label from its text octets gives.
pub open spec fn label_from_text(b: Seq<u8>) -> Result<Seq<u8>, DnsError> {
    if b.len() > 63 {
        Err(DnsError::InvalidLabelLength)
    } else if b == wildcard_bytes() {
        Ok(b)
    } else if b.len() > 0 && safe_ascii(b[0], true) && (forall|i: int|
        1 <= i < b.len() ==> safe_ascii(#[trigger] b[i], false)) {
        Ok(b)
    } else {
        Err(DnsError::MalformedLabel)
    }
}

/// The ASCII digit of a value below 8.
pub open spec fn octal_digit(v: u8) -> u8 {
    (48 + v % 8) as u8
}

/// The text form of one octet of a label.
pub open spec fn escape_byte(c: u8, is_first: bool) -> Seq<u8> {
    if safe_ascii(c, is_first) {
        seq![c]
    } else if 0x20 < c < 0x7f {
        seq![92u8, c]
    } else {
        seq![92u8, octal_digit(c / 64), octal_digit(c / 8), octal_digit(c)]
    }
}

/// The text form of a label: each octet as itself, as `\c`, or as `\DDD`.
pub open spec fn escaped(b: Seq<u8>) -> Seq<u8>
    decreases b.len(),
{
    if b.len() == 0 {
        Seq::empty()
    } else {
        escaped(b.drop_last()) + escape_byte(b.last(), b.len() == 1)
    }
}

/// A single component of a domain name, 1 to 63 octets.
///
/// The octets keep their case; equality ignores ASCII case.
#[derive(Debug)]
pub struct Label {
    bytes: Vec<u8>,
}

impl View for Label {
    type V = Seq<u8>;

    closed spec fn view(&self) -> Seq<u8> {
        self.bytes@
    }
}

/// Case folding of one octet.
pub fn lower_byte(c: u8) -> (r: u8)
    ensures
        r == ascii_lower(c),
{
    if 65 <= c && c <= 90 {
        c + 32
    } else {
        c
    }
}

/// Whether `c` may stand in a label's text form at that place.
pub fn is_safe_ascii(c: u8, is_first: bool) -> (r: bool)
    ensures
        r == safe_ascii(c, is_first),
{
    if c >= 128 {
        false
    } else if (48 <= c && c <= 57) || (65 <= c && c <= 90) || (97 <= c && c <= 122) {
        true
    } else if c == 45 {
        !is_first
    } else if c == 95 {
        true
    } else if c == 42 {
        is_first
    } else {
        false
    }
}

impl Label {
    #[verifier::type_invariant]
    spec fn inv(&self) -> bool {
        valid_label(self.bytes@)
    }

    /// Builds a label from raw octets, which must number 1 to 63.
    pub fn from_raw_bytes(bytes: &[u8]) -> (r: Result<Label, DnsError>)
        ensures
            valid_label(bytes@) ==> r.is_ok() && r.unwrap()@ == bytes@,
            !valid_label(bytes@) ==> r == Err::<Label, DnsError>(DnsError::InvalidLabelLength),
    {
        if bytes.len() == 0 || bytes.len() > MAX_LABEL_LEN {
            return Err(DnsError::InvalidLabelLength);
        }
        let mut v: Vec<u8> = Vec::new();
        let mut i: usize = 0;
        while i < bytes.len()
            invariant
                i <= bytes@.len(),
                v@ == bytes@.subrange(0, i as int),
            decreases bytes@.len() - i,
        {
            v.push(bytes[i]);
            i += 1;
            assert(v@ =~= bytes@.subrange(0, i as int));
        }
        assert(v@ =~= bytes@);
        Ok(Label { bytes: v })
    }

    /// The wildcard label `*`.
    pub fn wildcard() -> (r: Label)
        ensures
            r@ == wildcard_bytes(),
    {
        let v: Vec<u8> = vec![42u8];
        assert(v@ =~= wildcard_bytes());
        Label { bytes: v }
    }

    /// The label's octets, which number 1 to 63.
    pub fn as_bytes(&self) -> (r: &[u8])
        ensures
            r@ == self@,
            valid_label(self@),
    {
        proof {
            use_type_invariant(self);
        }
        self.bytes.as_slice()
    }

    /// Whether the two labels are equal once ASCII case is folded.
    pub fn eq_ignore_ascii_case(&self, other: &Self) -> (r: bool)
        ensures
            r == (lower_bytes(self@) == lower_bytes(other@)),
    {
        let n = self.bytes.len();
        if n != other.bytes.len() {
            assert(lower_bytes(self@).len() != lower_bytes(other@).len());
            return false;
        }
        let mut i: usize = 0;
        while i < n
            invariant
                n == self@.len(),
                n == other@.len(),
                i <= n,
                forall|j: int| 0 <= j < i ==> ascii_lower(self@[j]) == ascii_lower(other@[j]),
            decreases n - i,
        {
            if lower_byte(self.bytes[i]) != lower_byte(other.bytes[i]) {
                assert(lower_bytes(self@)[i as int] != lower_bytes(other@)[i as int]);
                return false;
            }
            i += 1;
        }
        assert(lower_bytes(self@) =~= lower_bytes(other@));
        true
    }

    /// The label with every ASCII capital folded to lower case.
    pub fn to_lowercase(&self) -> (r: Self)
        ensures
            r@ == lower_bytes(self@),
    {
        proof {
            use_type_invariant(self);
        }
        let n = self.bytes.len();
        let mut v: Vec<u8> = Vec::new();
        let mut i: usize = 0;
        while i < n
            invariant
                n == self@.len(),
                i <= n,
                v@ == lower_bytes(self@).subrange(0, i as int),
            decreases n - i,
        {
            v.push(lower_byte(self.bytes[i]));
            i += 1;
            assert(v@ =~= lower_bytes(self@).subrange(0, i as int));
        }
        assert(v@ =~= lower_bytes(self@));
        Label { bytes: v }
    }

    /// Builds a label from its text octets (see `label_from_text`).
    pub fn from_ascii_bytes(b: &[u8]) -> (r: Result<Label, DnsError>)
        ensures
            match label_from_text(b@) {
                Ok(v) => r.is_ok() && r.unwrap()@ == v,
                Err(e) => r == Err::<Label, DnsError>(e),
            },
    {
        if b.len() > MAX_LABEL_LEN {
            return Err(DnsError::InvalidLabelLength);
        }
        if b.len() == 1 && b[0] == 42u8 {
            assert(b@ =~= wildcard_bytes());
            return Ok(Self::wildcard());
        }
        assert(b@ != wildcard_bytes()) by {
            if b@ == wildcard_bytes() {
                assert(b@[0] == wildcard_bytes()[0]);
            }
        }
        if b.len() == 0 || !is_safe_ascii(b[0], true) {
            return Err(DnsError::MalformedLabel);
        }
        let mut i: usize = 1;
        while i < b.len()
            invariant
                1 <= i <= b@.len(),
                b@.len() <= 63,
                b@ != wildcard_bytes(),
                forall|j: int| 1 <= j < i ==> safe_ascii(#[trigger] b@[j], false),
            decreases b@.len() - i,
        {
            if !is_safe_ascii(b[i], false) {
                assert(!safe_ascii(b@[i as int], false));
                return Err(DnsError::MalformedLabel);
            }
            i += 1;
        }
        Self::from_raw_bytes(b)
    }

    /// Builds a label from text: ASCII letters, digits, `_`, `-` but not
    /// first, and a leading `*`; or the wildcard `*` alone.
    pub fn from_ascii(s: &str) -> (r: Result<Label, DnsError>)
        ensures
            match label_from_text(s.spec_bytes()) {
                Ok(v) => r.is_ok() && r.unwrap()@ == v,
                Err(e) => r == Err::<Label, DnsError>(e),
            },
    {
        Self::from_ascii_bytes(s.as_bytes())
    }

    /// Appends the label's text form to `f`, escaping what is not safe.
    pub fn write_ascii(&self, f: &mut Vec<u8>)
        ensures
            final(f)@ == old(f)@ + escaped(self@),
    {
        let n = self.bytes.len();
        let ghost start = f@;
        let mut i: usize = 0;
        while i < n
            invariant
                n == self@.len(),
                i <= n,
                f@ == start + escaped(self@.subrange(0, i as int)),
            decreases n - i,
        {
            let c = self.bytes[i];
            let is_first = i == 0;
            if is_safe_ascii(c, is_first) {
                f.push(c);
            } else if 0x20 < c && c < 0x7f {
                f.push(92u8);
                f.push(c);
            } else {
                f.push(92u8);
                f.push(48 + c / 64);
                f.push(48 + (c / 8) % 8);
                f.push(48 + c % 8);
            }
            proof {
                let s = self@.subrange(0, i + 1);
                assert(s.drop_last() =~= self@.subrange(0, i as int));
                assert(s.last() == c);
                assert((c / 64) % 8 == c / 64);
                assert(((c / 8) % 8) % 8 == (c / 8) % 8);
                assert(f@ =~= start + escaped(s));
            }
            i += 1;
        }
        assert(self@.subrange(0, n as int) =~= self@);
    }
}

impl Clone for Label {
    fn clone(&self) -> (r: Self)
        ensures
            r@ == self@,
    {
        proof {
            use_type_invariant(self);
        }
        let v = self.bytes.clone();
        assert(v@ =~= self.bytes@);
        Label { bytes: v }
    }
}

impl PartialEq for Label {
    fn eq(&self, other: &Self) -> bool {
        self.eq_ignore_ascii_case(other)
    }
}

impl vstd::std_specs::cmp::PartialEqSpecImpl for Label {
    open spec fn obeys_eq_spec() -> bool {
        true
    }

    open spec fn eq_spec(&self, other: &Label) -> bool {
        lower_bytes(self@) == lower_bytes(other@)
    }
}

} // verus!
