use vstd::prelude::*;
use crate::encoder::{u16_be, u32_be, BinEncoder, EncoderView};
use crate::error::DnsError;
use crate::label::{wildcard_bytes, Label};
use crate::name::{
    canonical_wire, dnssec_label_count, lemma_emit_canonical,
    lemma_wildcard_alone_fits, lemma_wildcard_owner_fits, Name,
};
use crate::rdata::{character_strings, lower_labels, sig_fixed_fields, BinEncodable, RData, Record, SIG, TXT};
use crate::types::{class_code, record_type_code, DNSClass, RecordType};

verus! {

/// The labels of the owner name that the signature covers: the name itself
/// when its label count matches, else `*` and its rightmost `n` labels.
pub open spec fn signed_owner_labels(ls: Seq<Seq<u8>>, n: int) -> Seq<Seq<u8>> {
    if n == dnssec_label_count(ls) {
        ls
    } else {
        seq![wildcard_bytes()] + ls.skip(ls.len() - n)
    }
}

/// Computes the owner name that was signed, from the owner name and the
/// signature's label count. A count above the name's own is refused.
pub fn determine_name(name: &Name, num_labels: u8) -> (r: Result<Name, DnsError>)
    requires
        name.wf(),
    ensures
        num_labels > dnssec_label_count(name.labels()) ==> r == Err::<Name, DnsError>(
            DnsError::InvalidLabelCount,
        ),
        num_labels == dnssec_label_count(name.labels()) ==> r.is_ok() && r.unwrap().same_as(name),
        num_labels < dnssec_label_count(name.labels()) ==> r.is_ok() && r.unwrap().describes(
            true,
            signed_owner_labels(name.labels(), num_labels as int),
        ),
{
    let fqdn_labels = name.num_labels();
    if fqdn_labels == num_labels {
        return Ok(name.clone_name());
    }
    if num_labels < fqdn_labels {
        let star_name = Name::root().append_label(Label::wildcard());
        let star_name = match star_name {
            Ok(n) => n,
            Err(e) => {
                proof {
                    lemma_wildcard_alone_fits();
                }
                return Err(e);
            },
        };
        assert(Seq::<Seq<u8>>::empty().push(wildcard_bytes()) =~= seq![wildcard_bytes()]);
        let rightmost = name.trim_to(num_labels as usize);
        let ghost ls = name.labels();
        let ghost k = ls.len() - num_labels;
        proof {
            lemma_wildcard_owner_fits(name, k);
        }
        if !rightmost.is_root() {
            return star_name.append_name(&rightmost);
        }
        assert(ls.skip(k) =~= Seq::<Seq<u8>>::empty());
        assert(seq![wildcard_bytes()] + ls.skip(k) =~= seq![wildcard_bytes()]);
        return Ok(star_name);
    }
    Err(DnsError::InvalidLabelCount)
}

/// The canonical order of record data: octet strings compared left to right,
/// a string that runs out first sorting before the longer one.
pub open spec fn canonical_lt(a: Seq<u8>, b: Seq<u8>) -> bool
    decreases a.len(),
{
    if a.len() == 0 {
        b.len() > 0
    } else if b.len() == 0 {
        false
    } else if a[0] != b[0] {
        a[0] < b[0]
    } else {
        canonical_lt(a.drop_first(), b.drop_first())
    }
}

/// Where `x` goes in `t`: before the first element that sorts after it.
pub open spec fn insert_pos(t: Seq<Seq<u8>>, x: Seq<u8>) -> nat
    decreases t.len(),
{
    if t.len() == 0 {
        0
    } else if canonical_lt(x, t[0]) {
        0
    } else {
        1 + insert_pos(t.drop_first(), x)
    }
}

/// The record data in canonical order, equal strings keeping their order.
pub open spec fn sort_canonical(ws: Seq<Seq<u8>>) -> Seq<Seq<u8>>
    decreases ws.len(),
{
    if ws.len() == 0 {
        Seq::empty()
    } else {
        let t = sort_canonical(ws.drop_last());
        t.insert(insert_pos(t, ws.last()) as int, ws.last())
    }
}

/// No element sorts before an earlier one.
pub open spec fn sorted_canonical(s: Seq<Seq<u8>>) -> bool {
    forall|i: int, j: int| 0 <= i < j < s.len() ==> !canonical_lt(#[trigger] s[j], #[trigger] s[i])
}

proof fn lemma_lt_irreflexive(a: Seq<u8>)
    ensures
        !canonical_lt(a, a),
    decreases a.len(),
{
    if a.len() > 0 {
        lemma_lt_irreflexive(a.drop_first());
    }
}

proof fn lemma_lt_transitive(a: Seq<u8>, b: Seq<u8>, c: Seq<u8>)
    requires
        canonical_lt(a, b),
        canonical_lt(b, c),
    ensures
        canonical_lt(a, c),
    decreases a.len(),
{
    if a.len() > 0 && b.len() > 0 && c.len() > 0 && a[0] == b[0] && b[0] == c[0] {
        lemma_lt_transitive(a.drop_first(), b.drop_first(), c.drop_first());
    }
}

proof fn lemma_insert_pos(t: Seq<Seq<u8>>, x: Seq<u8>)
    ensures
        insert_pos(t, x) <= t.len(),
        forall|k: int| 0 <= k < insert_pos(t, x) ==> !canonical_lt(x, #[trigger] t[k]),
        insert_pos(t, x) < t.len() ==> canonical_lt(x, t[insert_pos(t, x) as int]),
    decreases t.len(),
{
    if t.len() > 0 && !canonical_lt(x, t[0]) {
        let d = t.drop_first();
        lemma_insert_pos(d, x);
        assert forall|k: int| 0 <= k < insert_pos(t, x) implies !canonical_lt(x, #[trigger] t[k]) by {
            if k > 0 {
                assert(t[k] == d[k - 1]);
            }
        }
    }
}

proof fn lemma_insert_keeps_sorted(t: Seq<Seq<u8>>, x: Seq<u8>)
    requires
        sorted_canonical(t),
    ensures
        sorted_canonical(t.insert(insert_pos(t, x) as int, x)),
{
    lemma_insert_pos(t, x);
    let p = insert_pos(t, x) as int;
    let u = t.insert(p, x);
    assert forall|i: int, j: int| 0 <= i < j < u.len() implies !canonical_lt(
        #[trigger] u[j],
        #[trigger] u[i],
    ) by {
        if i == p {
            let q = j - 1;
            assert(u[j] == t[q]);
            if canonical_lt(t[q], x) {
                lemma_lt_transitive(t[q], x, t[p]);
                if q == p {
                    lemma_lt_irreflexive(t[p]);
                } else {
                    assert(!canonical_lt(t[q], t[p]));
                }
            }
        } else if j == p {
            assert(u[i] == t[i]);
        } else {
            let ii = if i < p {
                i
            } else {
                i - 1
            };
            let jj = if j < p {
                j
            } else {
                j - 1
            };
            assert(u[i] == t[ii]);
            assert(u[j] == t[jj]);
        }
    }
}

/// The canonical order of record data is sorted, and holds each record's data
/// as often as the record set does.
pub proof fn lemma_sort_canonical_sorts(ws: Seq<Seq<u8>>)
    ensures
        sorted_canonical(sort_canonical(ws)),
        sort_canonical(ws).to_multiset() == ws.to_multiset(),
    decreases ws.len(),
{
    broadcast use vstd::seq_lib::to_multiset_build, vstd::seq_lib::to_multiset_insert;

    if ws.len() == 0 {
        assert(sort_canonical(ws) =~= ws);
    } else {
        let d = ws.drop_last();
        lemma_sort_canonical_sorts(d);
        let t = sort_canonical(d);
        lemma_insert_pos(t, ws.last());
        lemma_insert_keeps_sorted(t, ws.last());
        assert(d.push(ws.last()) =~= ws);
    }
}

/// Whether `a` sorts before `b` in canonical order.
pub fn canonical_less(a: &[u8], b: &[u8]) -> (r: bool)
    ensures
        r == canonical_lt(a@, b@),
{
    let mut i: usize = 0;
    assert(a@.skip(0) =~= a@);
    assert(b@.skip(0) =~= b@);
    while i < a.len() && i < b.len()
        invariant
            i <= a@.len(),
            i <= b@.len(),
            canonical_lt(a@, b@) == canonical_lt(a@.skip(i as int), b@.skip(i as int)),
        decreases a@.len() - i,
    {
        assert(a@.skip(i as int)[0] == a@[i as int]);
        assert(b@.skip(i as int)[0] == b@[i as int]);
        if a[i] != b[i] {
            return a[i] < b[i];
        }
        assert(a@.skip(i as int).drop_first() =~= a@.skip(i + 1));
        assert(b@.skip(i as int).drop_first() =~= b@.skip(i + 1));
        i += 1;
    }
    i == a.len() && i < b.len()
}

/// Sorts record data into canonical order.
pub fn sort_rdata(ws: Vec<Vec<u8>>) -> (r: Vec<Vec<u8>>)
    ensures
        r@.map_values(|v: Vec<u8>| v@) == sort_canonical(ws@.map_values(|v: Vec<u8>| v@)),
{
    let ghost wv = ws@.map_values(|v: Vec<u8>| v@);
    let mut sorted: Vec<Vec<u8>> = Vec::new();
    let mut i: usize = 0;
    assert(wv.take(0) =~= Seq::<Seq<u8>>::empty());
    while i < ws.len()
        invariant
            i <= ws@.len(),
            wv == ws@.map_values(|v: Vec<u8>| v@),
            sorted@.map_values(|v: Vec<u8>| v@) == sort_canonical(wv.take(i as int)),
        decreases ws@.len() - i,
    {
        let x = ws[i].clone();
        assert(x@ =~= ws@[i as int]@);
        let ghost t = sorted@.map_values(|v: Vec<u8>| v@);
        let mut k: usize = 0;
        assert(t.skip(0) =~= t);
        while k < sorted.len() && !canonical_less(x.as_slice(), sorted[k].as_slice())
            invariant
                k <= sorted@.len(),
                t == sorted@.map_values(|v: Vec<u8>| v@),
                insert_pos(t, x@) == k + insert_pos(t.skip(k as int), x@),
            decreases sorted@.len() - k,
        {
            assert(t.skip(k as int)[0] == t[k as int]);
            assert(t.skip(k as int).drop_first() =~= t.skip(k + 1));
            k += 1;
        }
        proof {
            if k < sorted@.len() {
                assert(t.skip(k as int)[0] == t[k as int]);
            }
        }
        sorted.insert(k, x);
        proof {
            let w = wv.take(i + 1);
            assert(w.drop_last() =~= wv.take(i as int));
            assert(w.last() == x@);
            assert(sorted@.map_values(|v: Vec<u8>| v@) =~= t.insert(k as int, x@));
        }
        i += 1;
    }
    assert(wv.take(ws@.len() as int) =~= wv);
    sorted
}

/// A fresh encoder in canonical mode.
pub open spec fn canonical_encoder() -> EncoderView {
    EncoderView { bytes: Seq::empty(), table: Seq::empty(), canonical: true }
}

/// A record's data in canonical wire form; refused when absent, when it
/// cannot be written, or when longer than a 16-bit length can say.
pub open spec fn rdata_wire(r: Record) -> Result<Seq<u8>, DnsError> {
    match r.rdata {
        None => Err(DnsError::MissingRecordData),
        Some(d) => match d.emitted(canonical_encoder()) {
            Ok(v) => if v.bytes.len() > 0xFFFF {
                Err(DnsError::RecordDataTooLong)
            } else {
                Ok(v.bytes)
            },
            Err(e) => Err(e),
        },
    }
}

/// The canonical data of each record in turn; the first refusal if any.
pub open spec fn rdata_wires(rs: Seq<Record>) -> Result<Seq<Seq<u8>>, DnsError>
    decreases rs.len(),
{
    if rs.len() == 0 {
        Ok(Seq::empty())
    } else {
        match rdata_wires(rs.drop_last()) {
            Err(e) => Err(e),
            Ok(ws) => match rdata_wire(rs.last()) {
                Err(e) => Err(e),
                Ok(w) => Ok(ws.push(w)),
            },
        }
    }
}

/// Whether a record belongs to the record set: same class, the covered type,
/// the same owner name.
pub open spec fn in_rrset(name: Name, dns_class: DNSClass, type_covered: RecordType, r: Record) -> bool {
    &&& r.dns_class == dns_class
    &&& r.rr_type == type_covered
    &&& r.name_labels.same_as(&name)
}

/// The records of the set, in the order given.
pub open spec fn select_rrset(
    name: Name,
    dns_class: DNSClass,
    type_covered: RecordType,
    rs: Seq<Record>,
) -> Seq<Record> {
    rs.filter(rrset_pred(name, dns_class, type_covered))
}

/// `in_rrset` as a predicate.
pub open spec fn rrset_pred(name: Name, dns_class: DNSClass, type_covered: RecordType) -> spec_fn(
    Record,
) -> bool {
    |r: Record| in_rrset(name, dns_class, type_covered, r)
}

proof fn lemma_rdata_wires_error_push(s: Seq<Record>, x: Record)
    requires
        rdata_wires(s) is Err,
    ensures
        rdata_wires(s.push(x)) == rdata_wires(s),
{
    assert(s.push(x).drop_last() =~= s);
}

proof fn lemma_rdata_wires_error_stays(rs: Seq<Record>, k: int, pred: spec_fn(Record) -> bool)
    requires
        0 <= k <= rs.len(),
        rdata_wires(rs.take(k).filter(pred)) is Err,
    ensures
        rdata_wires(rs.filter(pred)) == rdata_wires(rs.take(k).filter(pred)),
    decreases rs.len() - k,
{
    reveal(Seq::filter);
    if k == rs.len() {
        assert(rs.take(k) =~= rs);
    } else {
        let p = rs.take(k + 1);
        assert(p.drop_last() =~= rs.take(k));
        if pred(p.last()) {
            lemma_rdata_wires_error_push(rs.take(k).filter(pred), p.last());
        }
        assert(rdata_wires(p.filter(pred)) == rdata_wires(rs.take(k).filter(pred)));
        lemma_rdata_wires_error_stays(rs, k + 1, pred);
    }
}

/// One record in signed form: owner, type, class, original TTL, data length,
/// data.
pub open spec fn rr_block(owner: Seq<u8>, tc: RecordType, c: DNSClass, ttl: u32, w: Seq<u8>) -> Seq<
    u8,
> {
    owner + u16_be(record_type_code(tc)) + u16_be(class_code(c)) + u32_be(ttl) + u16_be(
        w.len() as u16,
    ) + w
}

/// The records in signed form, one after another.
pub open spec fn rr_blocks(
    owner: Seq<u8>,
    tc: RecordType,
    c: DNSClass,
    ttl: u32,
    ws: Seq<Seq<u8>>,
) -> Seq<u8>
    decreases ws.len(),
{
    if ws.len() == 0 {
        Seq::empty()
    } else {
        rr_blocks(owner, tc, c, ttl, ws.drop_last()) + rr_block(owner, tc, c, ttl, ws.last())
    }
}

/// The signature's data without the signature: its fixed fields and the
/// signer's name, lower case and uncompressed.
pub open spec fn sig_prefix(sig: SIG) -> Seq<u8> {
    sig_fixed_fields(sig) + canonical_wire(lower_labels(sig.signer_name.labels()))
}

/// The data that a signature over a record set signs: the signature's own
/// data without the signature, then each record of the set in canonical data
/// order, under the signed owner name in lower case, with the original TTL.
pub open spec fn signed_data(name: Name, dns_class: DNSClass, sig: SIG, rs: Seq<Record>) -> Result<
    Seq<u8>,
    DnsError,
> {
    if sig.num_labels > dnssec_label_count(name.labels()) {
        Err(DnsError::InvalidLabelCount)
    } else {
        match rdata_wires(select_rrset(name, dns_class, sig.type_covered, rs)) {
            Err(e) => Err(e),
            Ok(ws) => Ok(sig_prefix(sig) + rr_blocks(
                canonical_wire(
                    lower_labels(signed_owner_labels(name.labels(), sig.num_labels as int)),
                ),
                sig.type_covered,
                dns_class,
                sig.original_ttl,
                sort_canonical(ws),
            )),
        }
    }
}

/// Every record's name and data can be written.
pub open spec fn records_encodable(rs: Seq<Record>) -> bool {
    forall|i: int|
        0 <= i < rs.len() ==> {
            &&& (#[trigger] rs[i]).name_labels.wf()
            &&& match rs[i].rdata {
                Some(d) => d.encodable(),
                None => true,
            }
        }
}

/// A record's data in canonical wire form.
fn canonical_rdata(record: &Record) -> (r: Result<Vec<u8>, DnsError>)
    requires
        match record.rdata {
            Some(d) => d.encodable(),
            None => true,
        },
    ensures
        match rdata_wire(*record) {
            Ok(w) => r.is_ok() && r.unwrap()@ == w,
            Err(e) => r == Err::<Vec<u8>, DnsError>(e),
        },
{
    match record.data() {
        None => Err(DnsError::MissingRecordData),
        Some(rdata) => {
            let mut encoder = BinEncoder::new();
            encoder.set_canonical_names(true);
            assert(encoder@ == canonical_encoder());
            match rdata.emit(&mut encoder) {
                Ok(()) => {
                    let bytes = encoder.into_bytes();
                    if bytes.len() > 0xFFFF {
                        Err(DnsError::RecordDataTooLong)
                    } else {
                        Ok(bytes)
                    }
                },
                Err(e) => Err(e),
            }
        },
    }
}

/// The canonical data of the records of the set, in the order given.
#[verifier::spinoff_prover]
fn collect_rrset_rdata(
    name: &Name,
    dns_class: DNSClass,
    type_covered: RecordType,
    records: &[Record],
) -> (r: Result<Vec<Vec<u8>>, DnsError>)
    requires
        records_encodable(records@),
    ensures
        match rdata_wires(select_rrset(*name, dns_class, type_covered, records@)) {
            Ok(ws) => r.is_ok() && r.unwrap()@.map_values(|v: Vec<u8>| v@) == ws,
            Err(e) => r == Err::<Vec<Vec<u8>>, DnsError>(e),
        },
{
    let ghost pred = rrset_pred(*name, dns_class, type_covered);
    let mut rdatas: Vec<Vec<u8>> = Vec::new();
    let mut i: usize = 0;
    proof {
        reveal(Seq::filter);
        assert(records@.take(0) =~= Seq::<Record>::empty());
        assert(records@.take(0).filter(pred) =~= Seq::<Record>::empty());
        assert(rdatas@.map_values(|v: Vec<u8>| v@) =~= Seq::<Seq<u8>>::empty());
    }
    while i < records.len()
        invariant
            i <= records@.len(),
            records_encodable(records@),
            pred == rrset_pred(*name, dns_class, type_covered),
            rdata_wires(records@.take(i as int).filter(pred)) == Ok::<Seq<Seq<u8>>, DnsError>(
                rdatas@.map_values(|v: Vec<u8>| v@),
            ),
        decreases records@.len() - i,
    {
        let record = &records[i];
        let ghost prefix = records@.take(i + 1);
        let ghost before = records@.take(i as int).filter(pred);
        proof {
            assert(prefix.drop_last() =~= records@.take(i as int));
            assert(prefix.last() == *record);
            reveal(Seq::filter);
        }
        if dns_class == record.dns_class() && type_covered == record.record_type() && *name
            == record.name_labels {
            proof {
                assert(pred(*record));
                assert(prefix.filter(pred) == before.push(*record));
                assert(before.push(*record).drop_last() =~= before);
            }
            match canonical_rdata(record) {
                Ok(w) => {
                    let ghost old_ws = rdatas@.map_values(|v: Vec<u8>| v@);
                    let ghost wv = w@;
                    rdatas.push(w);
                    assert(rdatas@.map_values(|v: Vec<u8>| v@) =~= old_ws.push(wv));
                },
                Err(e) => {
                    proof {
                        lemma_rdata_wires_error_stays(records@, (i + 1) as int, pred);
                        assert(records@.take(records@.len() as int) =~= records@);
                    }
                    return Err(e);
                },
            }
        } else {
            proof {
                assert(!pred(*record));
                assert(prefix.filter(pred) == before);
            }
        }
        i += 1;
    }
    assert(records@.take(records@.len() as int) =~= records@);
    Ok(rdatas)
}

/// Writes each record of the set: owner, type, class, TTL, data length, data.
#[verifier::spinoff_prover]
fn emit_rr_blocks(
    encoder: &mut BinEncoder,
    owner: &Name,
    type_covered: RecordType,
    dns_class: DNSClass,
    ttl: u32,
    rdatas: &Vec<Vec<u8>>,
)
    requires
        old(encoder).wf(),
        owner.wf(),
    ensures
        final(encoder).wf(),
        final(encoder)@.bytes == old(encoder)@.bytes + rr_blocks(
            canonical_wire(owner.labels()),
            type_covered,
            dns_class,
            ttl,
            rdatas@.map_values(|v: Vec<u8>| v@),
        ),
{
    let ghost owner_wire = canonical_wire(owner.labels());
    let ghost ws = rdatas@.map_values(|v: Vec<u8>| v@);
    let ghost start = encoder@.bytes;
    let mut j: usize = 0;
    assert(ws.take(0) =~= Seq::<Seq<u8>>::empty());
    assert(start + Seq::<u8>::empty() =~= start);
    while j < rdatas.len()
        invariant
            j <= rdatas@.len(),
            ws == rdatas@.map_values(|v: Vec<u8>| v@),
            owner.wf(),
            owner_wire == canonical_wire(owner.labels()),
            encoder.wf(),
            start == old(encoder)@.bytes,
            encoder@.bytes == start + rr_blocks(owner_wire, type_covered, dns_class, ttl, ws.take(j as int)),
        decreases rdatas@.len() - j,
    {
        let ghost before = encoder@.bytes;
        proof {
            lemma_emit_canonical(encoder@.bytes, encoder@.table, owner.labels(), 0);
        }
        let _ = owner.emit_as_canonical(encoder, true);
        let _ = type_covered.emit(encoder);
        let _ = dns_class.emit(encoder);
        let _ = encoder.emit_u32(ttl);
        let rdata = &rdatas[j];
        let _ = encoder.emit_u16(rdata.len() as u16);
        let _ = encoder.emit_vec(rdata.as_slice());
        proof {
            let w = ws.take(j + 1);
            assert(w.drop_last() =~= ws.take(j as int));
            assert(w.last() == rdata@);
            assert(encoder@.bytes =~= before + rr_block(owner_wire, type_covered, dns_class, ttl, rdata@));
        }
        j += 1;
    }
    assert(ws.take(ws.len() as int) =~= ws);
}

/// Writes the signature's data without the signature, the signer's name in
/// lower case and uncompressed.
#[verifier::spinoff_prover]
fn emit_sig_prefix(encoder: &mut BinEncoder, sig: &SIG)
    requires
        old(encoder).wf(),
        sig.signer_name.wf(),
    ensures
        final(encoder).wf(),
        final(encoder)@.bytes == old(encoder)@.bytes + sig_prefix(*sig),
{
    let _ = sig.type_covered().emit(encoder);
    let _ = sig.algorithm().emit(encoder);
    let _ = encoder.emit(sig.num_labels());
    let _ = encoder.emit_u32(sig.original_ttl());
    let _ = encoder.emit_u32(sig.sig_expiration());
    let _ = encoder.emit_u32(sig.sig_inception());
    let _ = encoder.emit_u16(sig.key_tag());
    assert(encoder@.bytes =~= old(encoder)@.bytes + sig_fixed_fields(*sig));
    let signer = sig.signer_name().to_lowercase();
    proof {
        lemma_emit_canonical(encoder@.bytes, encoder@.table, signer.labels(), 0);
    }
    let _ = signer.emit_as_canonical(encoder, true);
    assert(encoder@.bytes =~= old(encoder)@.bytes + sig_prefix(*sig));
}

/// Returns the data that `sig` signs over the record set of `records` with
/// owner `name` and class `dns_class` (the signed data of RFC 4034 §3.1.8.1).
#[verifier::spinoff_prover]
pub fn construct_rrset_message_with_sig(
    name: &Name,
    dns_class: DNSClass,
    sig: &SIG,
    records: &[Record],
) -> (r: Result<Vec<u8>, DnsError>)
    requires
        name.wf(),
        sig.signer_name.wf(),
        records_encodable(records@),
    ensures
        match signed_data(*name, dns_class, *sig, records@) {
            Ok(b) => r.is_ok() && r.unwrap()@ == b,
            Err(e) => r == Err::<Vec<u8>, DnsError>(e),
        },
{
    let owner = determine_name(name, sig.num_labels())?;
    let rdatas = collect_rrset_rdata(name, dns_class, sig.type_covered(), records)?;
    let sorted = sort_rdata(rdatas);
    let mut encoder = BinEncoder::new();
    encoder.set_canonical_names(true);
    emit_sig_prefix(&mut encoder, sig);
    let owner_lower = owner.to_lowercase();
    assert(owner.labels() == signed_owner_labels(name.labels(), sig.num_labels as int));
    emit_rr_blocks(
        &mut encoder,
        &owner_lower,
        sig.type_covered(),
        dns_class,
        sig.original_ttl(),
        &sorted,
    );
    Ok(encoder.into_bytes())
}

/// Building the signed data twice from the same inputs gives the same bytes:
/// the result is a function of the inputs, with no hidden state.
pub proof fn lemma_signed_data_deterministic(
    name: Name,
    dns_class: DNSClass,
    sig: SIG,
    records: Seq<Record>,
    first: Seq<u8>,
    second: Seq<u8>,
)
    requires
        signed_data(name, dns_class, sig, records) == Ok::<Seq<u8>, DnsError>(first),
        signed_data(name, dns_class, sig, records) == Ok::<Seq<u8>, DnsError>(second),
    ensures
        first == second,
{
}

/// The signed data of a record set of one text record: the signature's data
/// without the signature, then one record under the signed owner name in
/// lower case, with type TXT, class IN, the original TTL, and a data length
/// equal to that of the record's character-strings, which follow.
proof fn lemma_select_single(name: Name, dns_class: DNSClass, tc: RecordType, record: Record)
    requires
        in_rrset(name, dns_class, tc, record),
    ensures
        select_rrset(name, dns_class, tc, seq![record]) == seq![record],
{
    reveal(Seq::filter);
    let rs = seq![record];
    assert(rs.drop_last() =~= Seq::<Record>::empty());
    assert(rs.last() == record);
    assert(Seq::<Record>::empty().push(record) =~= rs);
}

proof fn lemma_wires_single(record: Record, w: Seq<u8>)
    requires
        rdata_wire(record) == Ok::<Seq<u8>, DnsError>(w),
    ensures
        rdata_wires(seq![record]) == Ok::<Seq<Seq<u8>>, DnsError>(seq![w]),
{
    let rs = seq![record];
    assert(rs.drop_last() =~= Seq::<Record>::empty());
    assert(rs.last() == record);
    assert(rdata_wires(Seq::<Record>::empty()) == Ok::<Seq<Seq<u8>>, DnsError>(Seq::empty()));
    assert(rdata_wires(rs) == Ok::<Seq<Seq<u8>>, DnsError>(Seq::<Seq<u8>>::empty().push(w)));
    assert(Seq::<Seq<u8>>::empty().push(w) =~= seq![w]);
}

proof fn lemma_sort_single(w: Seq<u8>)
    ensures
        sort_canonical(seq![w]) == seq![w],
{
    let ws = seq![w];
    assert(ws.drop_last() =~= Seq::<Seq<u8>>::empty());
    assert(ws.last() == w);
    assert(sort_canonical(Seq::<Seq<u8>>::empty()) == Seq::<Seq<u8>>::empty());
    assert(insert_pos(Seq::<Seq<u8>>::empty(), w) == 0);
    assert(sort_canonical(ws) == Seq::<Seq<u8>>::empty().insert(0, w));
    assert(Seq::<Seq<u8>>::empty().insert(0, w) =~= ws);
}

proof fn lemma_blocks_single(owner: Seq<u8>, tc: RecordType, c: DNSClass, ttl: u32, w: Seq<u8>)
    ensures
        rr_blocks(owner, tc, c, ttl, seq![w]) == rr_block(owner, tc, c, ttl, w),
{
    let ws = seq![w];
    assert(ws.drop_last() =~= Seq::<Seq<u8>>::empty());
    assert(ws.last() == w);
    assert(rr_blocks(owner, tc, c, ttl, Seq::<Seq<u8>>::empty()) == Seq::<u8>::empty());
    assert(Seq::<u8>::empty() + rr_block(owner, tc, c, ttl, w) =~= rr_block(owner, tc, c, ttl, w));
}

#[verifier::spinoff_prover]
pub proof fn lemma_single_txt_signed_data(name: Name, sig: SIG, record: Record, txt: TXT)
    requires
        name.wf(),
        sig.type_covered == RecordType::TXT,
        sig.num_labels <= dnssec_label_count(name.labels()),
        record.name_labels.same_as(&name),
        record.rr_type == RecordType::TXT,
        record.dns_class == DNSClass::IN,
        record.rdata == Some(RData::TXT(txt)),
        forall|i: int| 0 <= i < txt.strings().len() ==> #[trigger] txt.strings()[i].len() <= 255,
        character_strings(txt.strings()).len() <= 0xFFFF,
    ensures
        signed_data(name, DNSClass::IN, sig, seq![record]) == Ok::<Seq<u8>, DnsError>(
            sig_prefix(sig) + canonical_wire(
                lower_labels(signed_owner_labels(name.labels(), sig.num_labels as int)),
            ) + u16_be(16) + u16_be(1) + u32_be(sig.original_ttl) + u16_be(
                character_strings(txt.strings()).len() as u16,
            ) + character_strings(txt.strings()),
        ),
{
    let w = character_strings(txt.strings());
    let owner = canonical_wire(
        lower_labels(signed_owner_labels(name.labels(), sig.num_labels as int)),
    );
    lemma_select_single(name, DNSClass::IN, sig.type_covered, record);
    assert(rdata_wire(record) == Ok::<Seq<u8>, DnsError>(w)) by {
        assert(canonical_encoder().bytes + w =~= w);
    }
    lemma_wires_single(record, w);
    lemma_sort_single(w);
    lemma_blocks_single(owner, RecordType::TXT, DNSClass::IN, sig.original_ttl, w);
    assert(sig_prefix(sig) + rr_block(owner, RecordType::TXT, DNSClass::IN, sig.original_ttl, w)
        =~= sig_prefix(sig) + owner + u16_be(16) + u16_be(1) + u32_be(sig.original_ttl) + u16_be(
        w.len() as u16,
    ) + w);
}

} // verus!
