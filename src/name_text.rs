use vstd::prelude::*;
use vstd::string::StringSliceAdditionalSpecFns;
use crate::error::DnsError;
use crate::label::{escaped, label_from_text, Label};
use crate::name::{encoded_len, Name};

verus! {

/// Where the text parser stands inside a label: plain text, after a `\`,
/// or after one or two octal digits of a `\DDD` escape.
#[derive(Debug, Clone, Copy, PartialEq, Eq, Structural)]
pub enum ParseState {
    Label,
    Escape1,
    Escape2(u8),
    Escape3(u8, u8),
}

/// What the parser holds: the labels done, the octets of the current label,
/// and where it stands.
pub type Scan = (Seq<Seq<u8>>, Seq<u8>, ParseState);

/// ASCII control characters and white space end nothing and may not stand
/// unescaped in a name.
pub open spec fn is_blank_or_control(c: u8) -> bool {
    c <= 32 || c == 127
}

pub open spec fn is_digit(c: u8) -> bool {
    48 <= c <= 57
}

/// Closes the current label and adds it to the labels done.
pub open spec fn close_label(ls: Seq<Seq<u8>>, cur: Seq<u8>) -> Result<Seq<Seq<u8>>, DnsError> {
    match label_from_text(cur) {
        Err(e) => Err(e),
        Ok(l) => if encoded_len(ls.push(l)) > 255 {
            Err(DnsError::NameTooLong)
        } else {
            Ok(ls.push(l))
        },
    }
}

/// One character of a name's text form.
pub open spec fn scan_step(s: Scan, c: u8) -> Result<Scan, DnsError> {
    let (ls, cur, st) = s;
    match st {
        ParseState::Label => if c == 46 {
            match close_label(ls, cur) {
                Err(e) => Err(e),
                Ok(ls2) => Ok((ls2, Seq::empty(), ParseState::Label)),
            }
        } else if c == 92 {
            Ok((ls, cur, ParseState::Escape1))
        } else if !is_blank_or_control(c) {
            Ok((ls, cur.push(c), ParseState::Label))
        } else {
            Err(DnsError::UnrecognizedChar)
        },
        ParseState::Escape1 => if is_digit(c) {
            if c <= 55 {
                Ok((ls, cur, ParseState::Escape2((c - 48) as u8)))
            } else {
                Err(DnsError::InvalidEscape)
            }
        } else {
            Ok((ls, cur.push(c), ParseState::Label))
        },
        ParseState::Escape2(i) => if is_digit(c) && c <= 55 {
            Ok((ls, cur, ParseState::Escape3(i, (c - 48) as u8)))
        } else {
            Err(DnsError::InvalidEscape)
        },
        ParseState::Escape3(i, ii) => if is_digit(c) && c <= 55 {
            let v = i * 64 + ii * 8 + (c - 48);
            if v <= 255 {
                Ok((ls, cur.push(v as u8), ParseState::Label))
            } else {
                Err(DnsError::InvalidEscape)
            }
        } else {
            Err(DnsError::InvalidEscape)
        },
    }
}

/// The parser's state after the text `b`, or the first error.
pub open spec fn scan(b: Seq<u8>) -> Result<Scan, DnsError>
    decreases b.len(),
{
    if b.len() == 0 {
        Ok((Seq::empty(), Seq::empty(), ParseState::Label))
    } else {
        match scan(b.drop_last()) {
            Err(e) => Err(e),
            Ok(s) => scan_step(s, b.last()),
        }
    }
}

/// The name that text describes: its labels and whether it is fully
/// qualified (it ends with `.`). `.` alone is the root.
pub open spec fn text_name(b: Seq<u8>) -> Result<(bool, Seq<Seq<u8>>), DnsError> {
    if b == seq![46u8] {
        Ok((true, Seq::empty()))
    } else {
        match scan(b) {
            Err(e) => Err(e),
            Ok(s) => {
                let fqdn = b.len() > 0 && b.last() == 46;
                if s.1.len() > 0 {
                    match close_label(s.0, s.1) {
                        Err(e) => Err(e),
                        Ok(ls) => Ok((fqdn, ls)),
                    }
                } else {
                    Ok((fqdn, s.0))
                }
            },
        }
    }
}

proof fn lemma_scan_error_stays(b: Seq<u8>, k: int)
    requires
        0 <= k <= b.len(),
        scan(b.take(k)) is Err,
    ensures
        scan(b) == scan(b.take(k)),
    decreases b.len() - k,
{
    if k == b.len() {
        assert(b.take(k) =~= b);
    } else {
        assert(b.take(k + 1).drop_last() =~= b.take(k));
        lemma_scan_error_stays(b, k + 1);
    }
}

/// Closes the current label into `name`.
fn close_label_into(name: Name, label: &Vec<u8>) -> (r: Result<Name, DnsError>)
    requires
        name.wf(),
    ensures
        match close_label(name.labels(), label@) {
            Ok(ls) => r.is_ok() && r.unwrap().describes(name.is_fqdn, ls),
            Err(e) => r == Err::<Name, DnsError>(e),
        },
{
    let l = Label::from_ascii_bytes(label.as_slice())?;
    name.append_label(l)
}

/// Labels in text form, escaped and joined by dots.
pub open spec fn joined_labels(ls: Seq<Seq<u8>>) -> Seq<u8>
    decreases ls.len(),
{
    if ls.len() == 0 {
        Seq::empty()
    } else if ls.len() == 1 {
        escaped(ls[0])
    } else {
        joined_labels(ls.drop_last()) + seq![46u8] + escaped(ls.last())
    }
}

/// A name in text form: its labels joined by dots, with a trailing dot when
/// it is fully qualified.
pub open spec fn name_text(fqdn: bool, ls: Seq<Seq<u8>>) -> Seq<u8> {
    if fqdn {
        joined_labels(ls) + seq![46u8]
    } else {
        joined_labels(ls)
    }
}

impl Name {
    /// Appends the name's text form to `f`: escaped labels joined by dots,
    /// then a dot when the name is fully qualified.
    pub fn write_labels(&self, f: &mut Vec<u8>)
        requires
            self.wf(),
        ensures
            final(f)@ == old(f)@ + name_text(self.is_fqdn, self.labels()),
    {
        let ghost start = f@;
        let ghost ls = self.labels();
        let n = self.label_ends.len();
        let mut i: usize = 0;
        assert(ls.take(0) =~= Seq::<Seq<u8>>::empty());
        while i < n
            invariant
                n == ls.len(),
                ls == self.labels(),
                self.wf(),
                i <= n,
                f@ == start + joined_labels(ls.take(i as int)),
            decreases n - i,
        {
            let bytes = self.label_at(i);
            let label = match Label::from_raw_bytes(bytes) {
                Ok(l) => l,
                Err(_) => {
                    return;
                },
            };
            if i > 0 {
                f.push(46u8);
            }
            label.write_ascii(f);
            proof {
                let t = ls.take(i + 1);
                assert(t.drop_last() =~= ls.take(i as int));
                assert(t.last() == ls[i as int]);
                if i == 0 {
                    assert(t[0] == ls[0]);
                }
                assert(f@ =~= start + joined_labels(t));
            }
            i += 1;
        }
        assert(ls.take(n as int) =~= ls);
        if self.is_fqdn() {
            f.push(46u8);
        }
        assert(f@ =~= start + name_text(self.is_fqdn, ls));
    }

    /// The name's text form (see `write_labels`).
    pub fn to_ascii(&self) -> (r: Vec<u8>)
        requires
            self.wf(),
        ensures
            r@ == name_text(self.is_fqdn, self.labels()),
    {
        let mut f: Vec<u8> = Vec::new();
        self.write_labels(&mut f);
        assert(f@ =~= name_text(self.is_fqdn, self.labels()));
        f
    }

    /// Parses a name from text, escapes `\c` and `\DDD` included. A trailing
    /// `.` makes it fully qualified; otherwise it is put under `origin` when
    /// one is given.
    fn from_encoded_str(local: &str, origin: Option<&Self>) -> (r: Result<Self, DnsError>)
        requires
            match origin {
                Some(o) => o.wf(),
                None => true,
            },
        ensures
            match text_name(local.spec_bytes()) {
                Err(e) => r == Err::<Self, DnsError>(e),
                Ok((fqdn, ls)) => match origin {
                    Some(o) if !fqdn => if encoded_len(ls + o.labels()) <= 255 {
                        r.is_ok() && r.unwrap().describes(true, ls + o.labels())
                    } else {
                        r == Err::<Self, DnsError>(DnsError::NameTooLong)
                    },
                    _ => r.is_ok() && r.unwrap().describes(fqdn, ls),
                },
            },
    {
        let b = local.as_bytes();
        let ghost bs = b@;
        let mut name = Self::new();
        if b.len() == 1 && b[0] == 46u8 {
            assert(bs =~= seq![46u8]);
            name.set_fqdn(true);
            return Ok(name);
        }
        assert(bs != seq![46u8]) by {
            if bs == seq![46u8] {
                assert(bs[0] == 46u8);
            }
        }
        let mut label: Vec<u8> = Vec::new();
        let mut state = ParseState::Label;
        let mut i: usize = 0;
        assert(bs.take(0) =~= Seq::<u8>::empty());
        while i < b.len()
            invariant
                bs == b@,
                bs == local.spec_bytes(),
                bs != seq![46u8],
                i <= bs.len(),
                name.wf(),
                !name.is_fqdn,
                scan(bs.take(i as int)) == Ok::<Scan, DnsError>((name.labels(), label@, state)),
            decreases bs.len() - i,
        {
            let ch = b[i];
            proof {
                assert(bs.take(i + 1).drop_last() =~= bs.take(i as int));
                assert(bs.take(i + 1).last() == ch);
            }
            let ghost before = (name.labels(), label@, state);
            assert(scan(bs.take(i + 1)) == scan_step(before, ch));
            let mut failed: Option<DnsError> = None;
            match state {
                ParseState::Label => {
                    if ch == 46u8 {
                        match close_label_into(name, &label) {
                            Ok(n) => {
                                name = n;
                                label = Vec::new();
                            },
                            Err(e) => {
                                proof {
                                    lemma_scan_error_stays(bs, i + 1);
                                    assert(bs.take(bs.len() as int) =~= bs);
                                }
                                return Err(e);
                            },
                        }
                    } else if ch == 92u8 {
                        state = ParseState::Escape1;
                    } else if !(ch <= 32 || ch == 127) {
                        label.push(ch);
                    } else {
                        failed = Some(DnsError::UnrecognizedChar);
                    }
                },
                ParseState::Escape1 => {
                    if 48 <= ch && ch <= 57 {
                        if ch <= 55 {
                            state = ParseState::Escape2(ch - 48);
                        } else {
                            failed = Some(DnsError::InvalidEscape);
                        }
                    } else {
                        label.push(ch);
                        state = ParseState::Label;
                    }
                },
                ParseState::Escape2(d1) => {
                    if 48 <= ch && ch <= 55 {
                        state = ParseState::Escape3(d1, ch - 48);
                    } else {
                        failed = Some(DnsError::InvalidEscape);
                    }
                },
                ParseState::Escape3(d1, d2) => {
                    if 48 <= ch && ch <= 55 {
                        let v: u32 = (d1 as u32) * 64 + (d2 as u32) * 8 + (ch - 48) as u32;
                        if v <= 255 {
                            label.push(v as u8);
                            state = ParseState::Label;
                        } else {
                            failed = Some(DnsError::InvalidEscape);
                        }
                    } else {
                        failed = Some(DnsError::InvalidEscape);
                    }
                },
            }
            if let Some(e) = failed {
                proof {
                    assert(scan(bs.take(i + 1)) == scan_step(before, ch));
                    lemma_scan_error_stays(bs, i + 1);
                    assert(bs.take(bs.len() as int) =~= bs);
                }
                return Err(e);
            }
            proof {
                assert(scan(bs.take(i + 1)) == scan_step(before, ch));
                assert(label@ =~= scan_step(before, ch)->Ok_0.1);
            }
            i += 1;
        }
        assert(bs.take(bs.len() as int) =~= bs);
        if label.len() > 0 {
            name = close_label_into(name, &label)?;
        }
        let ends_with_dot = b.len() > 0 && b[b.len() - 1] == 46u8;
        if ends_with_dot {
            name.set_fqdn(true);
        } else if let Some(other) = origin {
            return name.append_domain(other);
        }
        Ok(name)
    }

    /// Parses a name from ASCII text, escapes `\c` and `\DDD` included; a
    /// trailing `.` makes it fully qualified.
    pub fn from_ascii(name: &str) -> (r: Result<Self, DnsError>)
        ensures
            match text_name(name.spec_bytes()) {
                Ok((fqdn, ls)) => r.is_ok() && r.unwrap().describes(fqdn, ls),
                Err(e) => r == Err::<Self, DnsError>(e),
            },
    {
        Self::from_encoded_str(name, None)
    }
}

} // verus!
