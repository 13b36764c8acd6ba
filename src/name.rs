use vstd::prelude::*;
use vstd::slice::slice_subrange;
use crate::encoder::{
    character_data, find_pointer, pointer_bytes, table_fits, BinEncoder,
};
use crate::error::DnsError;
use crate::label::{lower_byte, lower_bytes, valid_label, wildcard_bytes, Label};

verus! {

broadcast use vstd::seq_lib::group_seq_properties;

/// Where label `i` starts in the flat label buffer.
pub open spec fn label_start(ends: Seq<u8>, i: int) -> int {
    if i == 0 {
        0
    } else {
        ends[i - 1] as int
    }
}

/// The labels that a flat buffer and its label end offsets describe.
pub open spec fn labels_of(data: Seq<u8>, ends: Seq<u8>) -> Seq<Seq<u8>> {
    Seq::new(ends.len(), |i: int| data.subrange(label_start(ends, i), ends[i] as int))
}

/// Labels in wire form, each as a length octet and its octets, without the
/// root terminator.
pub open spec fn wire_labels(ls: Seq<Seq<u8>>) -> Seq<u8>
    decreases ls.len(),
{
    if ls.len() == 0 {
        Seq::empty()
    } else {
        wire_labels(ls.drop_last()) + character_data(ls.last())
    }
}

/// A name in uncompressed wire form: its labels, then the zero-length root.
pub open spec fn canonical_wire(ls: Seq<Seq<u8>>) -> Seq<u8> {
    wire_labels(ls) + seq![0u8]
}

/// The flat buffer and offsets hold labels of 1 to 63 octets whose wire form,
/// root terminator included, fits in 255 octets.
pub open spec fn name_wf(data: Seq<u8>, ends: Seq<u8>) -> bool {
    &&& forall|i: int|
        0 <= i < ends.len() ==> label_start(ends, i) < #[trigger] ends[i] <= label_start(ends, i)
            + 63
    &&& ends.len() == 0 ==> data.len() == 0
    &&& ends.len() > 0 ==> ends.last() == data.len()
    &&& data.len() + ends.len() + 1 <= 255
}

/// The octets that a name's labels take in wire form, root included.
pub open spec fn encoded_len(ls: Seq<Seq<u8>>) -> int {
    wire_labels(ls).len() as int + 1
}

/// The DNSSEC label count: the labels, not counting a leading `*`.
pub open spec fn dnssec_label_count(ls: Seq<Seq<u8>>) -> int {
    if ls.len() > 0 && ls[0] == wildcard_bytes() {
        ls.len() - 1
    } else {
        ls.len() as int
    }
}

/// Writing a name from its label `i` on: the pointer-or-literal decision of
/// each suffix in turn. Bytes and compression table after the write.
#[verifier::opaque]
pub open spec fn emit_name_from(
    bytes: Seq<u8>,
    table: Seq<(nat, Seq<u8>)>,
    ls: Seq<Seq<u8>>,
    i: nat,
    canonical: bool,
) -> (Seq<u8>, Seq<(nat, Seq<u8>)>)
    decreases ls.len() - i,
{
    if i >= ls.len() {
        (bytes + canonical_wire(ls), table)
    } else {
        let start = bytes.len() + wire_labels(ls.take(i as int)).len();
        let suffix = wire_labels(ls.skip(i as int));
        match find_pointer(table, suffix) {
            Some(loc) => if canonical {
                emit_name_from(bytes, table, ls, i + 1, canonical)
            } else {
                (bytes + wire_labels(ls.take(i as int)) + pointer_bytes(loc), table)
            },
            None => emit_name_from(
                bytes,
                if !canonical && start <= 0x3FFF {
                    table.push((start as nat, suffix))
                } else {
                    table
                },
                ls,
                i + 1,
                canonical,
            ),
        }
    }
}

/// Writing a name after `bytes`: in canonical mode every label is written
/// out; otherwise the first suffix already in `table` becomes a pointer.
pub open spec fn emit_name(
    bytes: Seq<u8>,
    table: Seq<(nat, Seq<u8>)>,
    ls: Seq<Seq<u8>>,
    canonical: bool,
) -> (Seq<u8>, Seq<(nat, Seq<u8>)>) {
    emit_name_from(bytes, table, ls, 0, canonical)
}

pub proof fn lemma_wire_split(ls: Seq<Seq<u8>>, i: int)
    requires
        0 <= i <= ls.len(),
    ensures
        wire_labels(ls) == wire_labels(ls.take(i)) + wire_labels(ls.skip(i)),
    decreases ls.len(),
{
    if i == ls.len() {
        assert(ls.take(i) =~= ls);
        assert(ls.skip(i) =~= Seq::<Seq<u8>>::empty());
        assert(wire_labels(ls) + Seq::<u8>::empty() =~= wire_labels(ls));
    } else {
        let d = ls.drop_last();
        lemma_wire_split(d, i);
        assert(d.take(i) =~= ls.take(i));
        assert(ls.skip(i).drop_last() =~= d.skip(i));
        assert(ls.skip(i).last() == ls.last());
        assert(wire_labels(ls) =~= wire_labels(ls.take(i)) + wire_labels(ls.skip(i)));
    }
}

pub proof fn lemma_wire_len_bound(ls: Seq<Seq<u8>>)
    ensures
        wire_labels(ls).len() >= 2 * ls.len() || exists|k: int|
            0 <= k < ls.len() && ls[k].len() == 0,
        (forall|k: int| 0 <= k < ls.len() ==> ls[k].len() <= 255) ==> wire_labels(ls).len()
            >= ls.len(),
    decreases ls.len(),
{
    if ls.len() > 0 {
        lemma_wire_len_bound(ls.drop_last());
        if exists|k: int| 0 <= k < ls.drop_last().len() && ls.drop_last()[k].len() == 0 {
            let k = choose|k: int| 0 <= k < ls.drop_last().len() && ls.drop_last()[k].len() == 0;
            assert(ls[k].len() == 0);
        }
    }
}

/// The labels of a well-formed buffer are valid, and take in wire form as
/// many octets as the buffer plus one per label.
pub proof fn lemma_labels_wire(data: Seq<u8>, ends: Seq<u8>, k: int)
    requires
        name_wf(data, ends),
        0 <= k <= ends.len(),
    ensures
        wire_labels(labels_of(data, ends).take(k)).len() == label_start(ends, k) + k,
        forall|j: int|
            0 <= j < ends.len() ==> #[trigger] valid_label(labels_of(data, ends)[j]),
    decreases k,
{
    let ls = labels_of(data, ends);
    assert forall|j: int| 0 <= j < ends.len() implies #[trigger] valid_label(ls[j]) by {
        assert(label_start(ends, j) < ends[j]);
        if j > 0 {
            assert(ends[j - 1] == label_start(ends, j));
        }
        assert(ends[j] <= ends.last()) by {
            lemma_ends_increase(data, ends, j, ends.len() - 1);
        }
    }
    if k > 0 {
        lemma_labels_wire(data, ends, k - 1);
        assert(ls.take(k).drop_last() =~= ls.take(k - 1));
        assert(ls.take(k).last() == ls[k - 1]);
        assert(ends[k - 1] <= data.len()) by {
            lemma_ends_increase(data, ends, k - 1, ends.len() - 1);
        }
    } else {
        assert(ls.take(0) =~= Seq::<Seq<u8>>::empty());
    }
}

pub proof fn lemma_ends_increase(data: Seq<u8>, ends: Seq<u8>, i: int, j: int)
    requires
        name_wf(data, ends),
        0 <= i <= j < ends.len(),
    ensures
        ends[i] <= ends[j],
        i < j ==> ends[i] < ends[j],
    decreases j - i,
{
    if i < j {
        lemma_ends_increase(data, ends, i, j - 1);
        assert(label_start(ends, j) == ends[j - 1]);
    }
}

/// The wire form of a well-formed name's labels is as long as the buffer
/// plus one octet per label.
pub proof fn lemma_wire_len(data: Seq<u8>, ends: Seq<u8>)
    requires
        name_wf(data, ends),
    ensures
        wire_labels(labels_of(data, ends)).len() == data.len() + ends.len(),
        forall|j: int| 0 <= j < ends.len() ==> #[trigger] valid_label(labels_of(data, ends)[j]),
{
    lemma_labels_wire(data, ends, ends.len() as int);
    assert(labels_of(data, ends).take(ends.len() as int) =~= labels_of(data, ends));
}

/// In canonical mode every label is written and the table is left alone.
pub proof fn lemma_emit_canonical(
    bytes: Seq<u8>,
    table: Seq<(nat, Seq<u8>)>,
    ls: Seq<Seq<u8>>,
    i: nat,
)
    ensures
        emit_name_from(bytes, table, ls, i, true) == (bytes + canonical_wire(ls), table),
    decreases ls.len() - i,
{
    reveal(emit_name_from);
    if i < ls.len() {
        lemma_emit_canonical(bytes, table, ls, i + 1);
    }
}

pub proof fn lemma_filter_all(table: Seq<(nat, Seq<u8>)>, off: nat)
    requires
        forall|k: int| 0 <= k < table.len() ==> #[trigger] table[k].0 < off,
    ensures
        table.filter(|p: (nat, Seq<u8>)| p.0 < off) == table,
    decreases table.len(),
{
    reveal(Seq::filter);
    if table.len() > 0 {
        lemma_filter_all(table.drop_last(), off);
        assert(table.drop_last().push(table.last()) =~= table);
    }
}

/// The buffer from label `k` on, with offsets shifted back, holds the
/// labels from `k` on.
proof fn lemma_trim(data: Seq<u8>, ends: Seq<u8>, k: int, s: int, nd: Seq<u8>, ne: Seq<u8>)
    requires
        name_wf(data, ends),
        0 <= k <= ends.len(),
        s == label_start(ends, k),
        s <= data.len(),
        nd == data.subrange(s, data.len() as int),
        ne.len() == ends.len() - k,
        forall|t: int| 0 <= t < ne.len() ==> ne[t] == ends[t + k] - s,
    ensures
        name_wf(nd, ne),
        labels_of(nd, ne) == labels_of(data, ends).skip(k),
{
    let n = ends.len() as int;
    let want = labels_of(data, ends).skip(k);
    assert forall|t: int| 0 <= t < ne.len() implies label_start(ne, t) == label_start(ends, t + k)
        - s by {
        if t == 0 && k > 0 {
            assert(label_start(ends, k) == ends[k - 1]);
        }
    }
    assert forall|t: int| 0 <= t < ne.len() implies #[trigger] labels_of(nd, ne)[t] == want[t] by {
        lemma_ends_increase(data, ends, t + k, n - 1);
        assert(label_start(ends, t + k) < ends[t + k]);
        assert(labels_of(nd, ne)[t] =~= want[t]);
    }
    assert(labels_of(nd, ne) =~= want);
    assert forall|t: int| 0 <= t < ne.len() implies label_start(ne, t) < #[trigger] ne[t]
        <= label_start(ne, t) + 63 by {
        assert(label_start(ends, t + k) < ends[t + k] <= label_start(ends, t + k) + 63);
    }
    if ne.len() > 0 {
        assert(ne.last() == ends.last() - s);
    } else {
        assert(k == n);
        if n > 0 {
            assert(s == ends[n - 1]);
        }
    }
    lemma_labels_wire(data, ends, k);
}

proof fn lemma_emit_step(
    bytes: Seq<u8>,
    table: Seq<(nat, Seq<u8>)>,
    ls: Seq<Seq<u8>>,
    i: nat,
    canonical: bool,
)
    requires
        i < ls.len(),
    ensures
        ({
            let start = bytes.len() + wire_labels(ls.take(i as int)).len();
            let suffix = wire_labels(ls.skip(i as int));
            let next = if !canonical && start <= 0x3FFF {
                table.push((start as nat, suffix))
            } else {
                table
            };
            &&& find_pointer(table, suffix) is None ==> emit_name_from(bytes, table, ls, i, canonical)
                == emit_name_from(bytes, next, ls, i + 1, canonical)
            &&& find_pointer(table, suffix) is Some && canonical ==> emit_name_from(
                bytes,
                table,
                ls,
                i,
                canonical,
            ) == emit_name_from(bytes, table, ls, i + 1, canonical)
            &&& find_pointer(table, suffix) is Some && !canonical ==> emit_name_from(
                bytes,
                table,
                ls,
                i,
                canonical,
            ) == (bytes + wire_labels(ls.take(i as int)) + pointer_bytes(
                find_pointer(table, suffix)->Some_0,
            ), table)
        }),
{
    reveal(emit_name_from);
}

proof fn lemma_labels_take_grow(ls: Seq<Seq<u8>>, j: int)
    requires
        0 <= j < ls.len(),
    ensures
        wire_labels(ls.take(j + 1)).len() == wire_labels(ls.take(j)).len() + 1 + ls[j].len(),
{
    assert(ls.take(j + 1).drop_last() =~= ls.take(j));
    assert(ls.take(j + 1).last() == ls[j]);
}

proof fn lemma_emit_compressed_len(
    bytes: Seq<u8>,
    table: Seq<(nat, Seq<u8>)>,
    ls: Seq<Seq<u8>>,
    i: nat,
)
    requires
        i <= ls.len(),
    ensures
        emit_name_from(bytes, table, ls, i, false).0.len() <= bytes.len() + canonical_wire(
            ls,
        ).len(),
    decreases ls.len() - i,
{
    reveal(emit_name_from);
    if i < ls.len() {
        lemma_wire_split(ls, i as int);
        let rest = ls.skip(i as int);
        assert(rest.len() > 0);
        assert(wire_labels(rest).len() >= 1);
        let start = bytes.len() + wire_labels(ls.take(i as int)).len();
        let suffix = wire_labels(ls.skip(i as int));
        lemma_emit_compressed_len(bytes, table, ls, i + 1);
        lemma_emit_compressed_len(bytes, table.push((start as nat, suffix)), ls, i + 1);
    }
}

proof fn lemma_wire_first(ls: Seq<Seq<u8>>)
    requires
        ls.len() > 0,
    ensures
        wire_labels(ls)[0] == ls[0].len() as u8,
{
    lemma_wire_split(ls, 1);
    assert(ls.take(1).drop_last() =~= Seq::<Seq<u8>>::empty());
    assert(ls.take(1).last() == ls[0]);
    assert(wire_labels(Seq::<Seq<u8>>::empty()) =~= Seq::<u8>::empty());
    assert(wire_labels(ls.take(1)) =~= character_data(ls[0]));
}

/// Canonical emission writes no compression pointer: after any bytes and any
/// table it adds the full wire form of the name (a length octet and the
/// octets of each label, then the root), so one octet per label more than
/// the label octets, plus one; it records nothing; every label starts with
/// its own length, below the `0xC0` pointer tag; and emission with
/// compression never writes more.
pub proof fn lemma_canonical_emission_has_no_pointer(
    name: &Name,
    bytes: Seq<u8>,
    table: Seq<(nat, Seq<u8>)>,
)
    requires
        name.wf(),
    ensures
        emit_name(bytes, table, name.labels(), true) == (
            bytes + canonical_wire(name.labels()),
            table,
        ),
        emit_name(bytes, table, name.labels(), true).0.len() == bytes.len()
            + name.label_data@.len() + name.labels().len() + 1,
        forall|i: int|
            0 <= i < name.labels().len() ==> {
                let at = bytes.len() + wire_labels(#[trigger] name.labels().take(i)).len() as int;
                &&& emit_name(bytes, table, name.labels(), true).0[at] as int == name.labels()[i].len()
                &&& name.labels()[i].len() < 0xC0
            },
        emit_name(bytes, table, name.labels(), false).0.len() <= emit_name(
            bytes,
            table,
            name.labels(),
            true,
        ).0.len(),
{
    let ls = name.labels();
    lemma_emit_canonical(bytes, table, ls, 0);
    lemma_wire_len(name.label_data@, name.label_ends@);
    lemma_emit_compressed_len(bytes, table, ls, 0);
    let out = bytes + canonical_wire(ls);
    assert forall|i: int| 0 <= i < ls.len() implies {
        let at = bytes.len() + wire_labels(#[trigger] ls.take(i)).len() as int;
        &&& out[at] as int == ls[i].len()
        &&& ls[i].len() < 0xC0
    } by {
        lemma_wire_split(ls, i);
        let rest = ls.skip(i);
        lemma_wire_first(rest);
        assert(rest[0] == ls[i]);
        assert(valid_label(ls[i]));
        let at = bytes.len() + wire_labels(ls.take(i)).len() as int;
        assert(out[at] == wire_labels(rest)[0]);
    }
}

#[verifier::spinoff_prover]
pub proof fn lemma_wildcard_owner_fits(name: &Name, k: int)
    requires
        name.wf(),
        1 <= k <= name.labels().len(),
    ensures
        encoded_len(seq![wildcard_bytes()] + name.labels().skip(k)) <= encoded_len(name.labels()),
        encoded_len(name.labels()) <= 255,
{
    let ls = name.labels();
    let data = name.label_data@;
    let ends = name.label_ends@;
    let w = seq![wildcard_bytes()];
    let tail = ls.skip(k);
    assert(wire_labels(ls).len() == data.len() + ends.len()) by {
        lemma_wire_len(data, ends);
    }
    assert(wire_labels(ls) == wire_labels(ls.take(k)) + wire_labels(tail)) by {
        lemma_wire_split(ls, k);
    }
    assert(wire_labels(ls.take(k)).len() >= 2) by {
        lemma_labels_wire(data, ends, k);
        lemma_ends_increase(data, ends, 0, k - 1);
        assert(label_start(ends, 0) < ends[0]);
    }
    assert(wire_labels(w).len() == 2) by {
        lemma_wildcard_alone_fits();
        assert(w =~= Seq::<Seq<u8>>::empty().push(wildcard_bytes()));
    }
    assert(wire_labels(w + tail) == wire_labels(w) + wire_labels(tail)) by {
        lemma_wire_split(w + tail, 1);
        assert((w + tail).take(1) =~= w);
        assert((w + tail).skip(1) =~= tail);
    }
    assert(wire_labels(w + tail).len() <= wire_labels(ls).len());
    assert(data.len() + ends.len() + 1 <= 255);
}

/// The name `*` alone fits.
pub proof fn lemma_wildcard_alone_fits()
    ensures
        encoded_len(Seq::<Seq<u8>>::empty().push(wildcard_bytes())) == 3,
{
    let w = Seq::<Seq<u8>>::empty().push(wildcard_bytes());
    assert(w.drop_last() =~= Seq::<Seq<u8>>::empty());
    assert(w.last() == wildcard_bytes());
    assert(wire_labels(Seq::<Seq<u8>>::empty()) == Seq::<u8>::empty());
    assert(wire_labels(w) == wire_labels(w.drop_last()) + character_data(wildcard_bytes()));
}

/// A domain name: labels held in one flat buffer with their end offsets, and
/// whether the name is fully qualified.
#[derive(Debug)]
pub struct Name {
    pub is_fqdn: bool,
    pub label_data: Vec<u8>,
    pub label_ends: Vec<u8>,
}

impl Name {
    /// The buffer holds valid labels whose wire form fits in 255 octets.
    pub open spec fn wf(&self) -> bool {
        name_wf(self.label_data@, self.label_ends@)
    }

    /// The name's labels, leftmost first.
    pub open spec fn labels(&self) -> Seq<Seq<u8>> {
        labels_of(self.label_data@, self.label_ends@)
    }

    /// Field-by-field equality: the flag, the buffer and the offsets.
    pub open spec fn same_as(&self, other: &Self) -> bool {
        &&& self.is_fqdn == other.is_fqdn
        &&& self.label_data@ == other.label_data@
        &&& self.label_ends@ == other.label_ends@
    }

    /// The name with the given flag and labels, as a `Name` holds it.
    pub open spec fn describes(&self, fqdn: bool, ls: Seq<Seq<u8>>) -> bool {
        &&& self.wf()
        &&& self.is_fqdn == fqdn
        &&& self.labels() == ls
    }

    /// The empty, relative name.
    pub fn new() -> (r: Self)
        ensures
            r.describes(false, Seq::empty()),
    {
        let r = Name { is_fqdn: false, label_data: Vec::new(), label_ends: Vec::new() };
        assert(r.labels() =~= Seq::<Seq<u8>>::empty());
        r
    }

    /// The root name `.`: no labels, fully qualified.
    pub fn root() -> (r: Self)
        ensures
            r.describes(true, Seq::empty()),
    {
        let mut r = Self::new();
        r.set_fqdn(true);
        r
    }

    /// Whether the name is fully qualified.
    pub fn is_fqdn(&self) -> (r: bool)
        ensures
            r == self.is_fqdn,
    {
        self.is_fqdn
    }

    /// Sets whether the name is fully qualified.
    pub fn set_fqdn(&mut self, val: bool)
        ensures
            *final(self) == (Name { is_fqdn: val, ..*old(self) }),
    {
        self.is_fqdn = val;
    }

    /// Whether this is the root: no labels, fully qualified.
    pub fn is_root(&self) -> (r: bool)
        ensures
            r == (self.labels().len() == 0 && self.is_fqdn),
    {
        self.label_ends.len() == 0 && self.is_fqdn
    }

    /// Whether the name has no labels.
    pub fn is_empty(&self) -> (r: bool)
        ensures
            r == (self.labels().len() == 0),
    {
        self.label_ends.len() == 0
    }

    /// The length of the name's text form without a trailing dot: the
    /// octets of the labels plus one separator each (1 for no labels).
    pub fn len(&self) -> (r: usize)
        requires
            self.wf(),
        ensures
            r == if self.labels().len() == 0 {
                1
            } else {
                self.labels().len() + self.label_data@.len()
            },
    {
        let dots = if self.label_ends.len() != 0 {
            self.label_ends.len()
        } else {
            1
        };
        dots + self.label_data.len()
    }

    /// The octets of label `i`.
    pub fn label_at(&self, i: usize) -> (r: &[u8])
        requires
            self.wf(),
            i < self.labels().len(),
        ensures
            r@ == self.labels()[i as int],
            valid_label(r@),
    {
        proof {
            lemma_wire_len(self.label_data@, self.label_ends@);
            lemma_ends_increase(self.label_data@, self.label_ends@, i as int, self.label_ends@.len() - 1);
        }
        let s = if i == 0 {
            0
        } else {
            self.label_ends[i - 1] as usize
        };
        let e = self.label_ends[i] as usize;
        slice_subrange(self.label_data.as_slice(), s, e)
    }

    /// The number of labels, not counting a leading wildcard `*`.
    pub fn num_labels(&self) -> (r: u8)
        requires
            self.wf(),
        ensures
            r == dnssec_label_count(self.labels()),
    {
        let num = self.label_ends.len() as u8;
        if self.label_ends.len() > 0 {
            let first = self.label_at(0);
            if first.len() == 1 && first[0] == 42u8 {
                assert(first@ =~= wildcard_bytes());
                return num - 1;
            }
            assert(first@ != wildcard_bytes()) by {
                if first@ == wildcard_bytes() {
                    assert(first@[0] == wildcard_bytes()[0]);
                }
            }
        }
        num
    }

    /// Appends one label, when the name still fits in 255 octets.
    #[verifier::spinoff_prover]
    fn extend_name(&mut self, label: &[u8]) -> (r: Result<(), DnsError>)
        requires
            old(self).wf(),
            valid_label(label@),
        ensures
            final(self).wf(),
            encoded_len(old(self).labels().push(label@)) <= 255 ==> r.is_ok()
                && final(self).describes(old(self).is_fqdn, old(self).labels().push(label@)),
            encoded_len(old(self).labels().push(label@)) > 255 ==> r == Err::<(), DnsError>(
                DnsError::NameTooLong,
            ) && *final(self) == *old(self),
    {
        let ghost ls = self.labels();
        let ghost data = self.label_data@;
        let ghost ends = self.label_ends@;
        proof {
            lemma_wire_len(data, ends);
            assert(ls.push(label@).drop_last() =~= ls);
        }
        if self.label_data.len() + label.len() + self.label_ends.len() + 2 > 255 {
            return Err(DnsError::NameTooLong);
        }
        let mut i: usize = 0;
        while i < label.len()
            invariant
                i <= label@.len(),
                self.label_data@ == data + label@.subrange(0, i as int),
                self.label_ends@ == ends,
                self.is_fqdn == old(self).is_fqdn,
                data.len() + label@.len() + ends.len() + 2 <= 255,
            decreases label@.len() - i,
        {
            self.label_data.push(label[i]);
            i += 1;
            assert(self.label_data@ =~= data + label@.subrange(0, i as int));
        }
        assert(label@.subrange(0, label@.len() as int) =~= label@);
        let end = self.label_data.len() as u8;
        self.label_ends.push(end);
        proof {
            let nd = self.label_data@;
            let ne = self.label_ends@;
            assert forall|j: int| 0 <= j < ends.len() implies label_start(ne, j) == label_start(
                ends,
                j,
            ) by {}
            assert(label_start(ne, ends.len() as int) == data.len()) by {
                if ends.len() > 0 {
                    assert(ends.last() == data.len());
                }
            }
            assert forall|j: int| 0 <= j < ne.len() implies label_start(ne, j) < #[trigger] ne[j]
                <= label_start(ne, j) + 63 by {
                if j < ends.len() {
                    assert(ne[j] == ends[j]);
                    assert(label_start(ends, j) < ends[j] <= label_start(ends, j) + 63);
                }
            }
            assert forall|j: int| 0 <= j < ends.len() implies nd.subrange(
                label_start(ne, j),
                ne[j] as int,
            ) == data.subrange(label_start(ends, j), ends[j] as int) by {
                lemma_ends_increase(data, ends, j, ends.len() - 1);
                assert(nd.subrange(label_start(ne, j), ne[j] as int) =~= data.subrange(
                    label_start(ends, j),
                    ends[j] as int,
                ));
            }
            assert(nd.subrange(data.len() as int, nd.len() as int) =~= label@);
            assert(self.labels() =~= ls.push(label@));
        }
        Ok(())
    }

    /// The name with `label` appended, when it still fits in 255 octets.
    pub fn append_label(self, label: Label) -> (r: Result<Self, DnsError>)
        requires
            self.wf(),
        ensures
            encoded_len(self.labels().push(label@)) <= 255 ==> r.is_ok() && r.unwrap().describes(
                self.is_fqdn,
                self.labels().push(label@),
            ),
            encoded_len(self.labels().push(label@)) > 255 ==> r == Err::<Self, DnsError>(
                DnsError::NameTooLong,
            ),
    {
        let mut this = self;
        match this.extend_name(label.as_bytes()) {
            Ok(()) => Ok(this),
            Err(e) => Err(e),
        }
    }

    /// The labels of `self` then those of `other`, qualified as `other` is;
    /// refused when the result would exceed 255 octets.
    #[verifier::spinoff_prover]
    pub fn append_name(self, other: &Self) -> (r: Result<Self, DnsError>)
        requires
            self.wf(),
            other.wf(),
        ensures
            encoded_len(self.labels() + other.labels()) <= 255 ==> r.is_ok() && r.unwrap().describes(
                other.is_fqdn,
                self.labels() + other.labels(),
            ),
            encoded_len(self.labels() + other.labels()) > 255 ==> r == Err::<Self, DnsError>(
                DnsError::NameTooLong,
            ),
    {
        let mut this = self;
        let ghost ls = this.labels();
        let ghost os = other.labels();
        proof {
            lemma_wire_len(this.label_data@, this.label_ends@);
            lemma_wire_len(other.label_data@, other.label_ends@);
            lemma_wire_split(ls + os, ls.len() as int);
            assert((ls + os).take(ls.len() as int) =~= ls);
            assert((ls + os).skip(ls.len() as int) =~= os);
        }
        if this.label_data.len() + this.label_ends.len() + other.label_data.len()
            + other.label_ends.len() + 1 > 255 {
            return Err(DnsError::NameTooLong);
        }
        let n = other.label_ends.len();
        let mut i: usize = 0;
        while i < n
            invariant
                n == os.len(),
                i <= n,
                this.wf(),
                other.wf(),
                os == other.labels(),
                this.labels() == ls + os.take(i as int),
                encoded_len(ls + os) <= 255,
                wire_labels(ls + os).len() == wire_labels(ls).len() + wire_labels(os).len(),
            decreases n - i,
        {
            let label = other.label_at(i);
            proof {
                assert(os.take(i + 1) =~= os.take(i as int).push(os[i as int]));
                assert(ls + os.take(i + 1) =~= (ls + os.take(i as int)).push(label@));
                lemma_wire_split(os, i + 1);
                lemma_wire_split(ls + os.take(i + 1), ls.len() as int);
                assert((ls + os.take(i + 1)).take(ls.len() as int) =~= ls);
                assert((ls + os.take(i + 1)).skip(ls.len() as int) =~= os.take(i + 1));
            }
            match this.extend_name(label) {
                Ok(()) => {},
                Err(e) => {
                    return Err(e);
                },
            }
            i += 1;
        }
        assert(os.take(n as int) =~= os);
        this.is_fqdn = other.is_fqdn;
        Ok(this)
    }

    /// `append_name`, then marks the result fully qualified.
    pub fn append_domain(self, domain: &Self) -> (r: Result<Self, DnsError>)
        requires
            self.wf(),
            domain.wf(),
        ensures
            encoded_len(self.labels() + domain.labels()) <= 255 ==> r.is_ok()
                && r.unwrap().describes(true, self.labels() + domain.labels()),
            encoded_len(self.labels() + domain.labels()) > 255 ==> r == Err::<Self, DnsError>(
                DnsError::NameTooLong,
            ),
    {
        let mut this = self.append_name(domain)?;
        this.set_fqdn(true);
        Ok(this)
    }

    /// Builds a fully qualified name from raw labels. Each must hold 1 to 63
    /// octets, and the whole must fit in 255 octets.
    #[verifier::spinoff_prover]
    pub fn from_labels(labels: Vec<&[u8]>) -> (r: Result<Self, DnsError>)
        ensures
            (exists|i: int| 0 <= i < labels@.len() && !valid_label(#[trigger] labels@[i]@)) ==> r
                == Err::<Self, DnsError>(DnsError::InvalidLabelLength),
            (forall|i: int| 0 <= i < labels@.len() ==> valid_label(#[trigger] labels@[i]@)) ==> {
                let ls = labels@.map_values(|s: &[u8]| s@);
                &&& encoded_len(ls) <= 255 ==> r.is_ok() && r.unwrap().describes(true, ls)
                &&& encoded_len(ls) > 255 ==> r == Err::<Self, DnsError>(DnsError::NameTooLong)
            },
    {
        let ghost ls = labels@.map_values(|s: &[u8]| s@);
        let n = labels.len();
        let mut k: usize = 0;
        while k < n
            invariant
                n == labels@.len(),
                k <= n,
                forall|i: int| 0 <= i < k ==> valid_label(#[trigger] labels@[i]@),
            decreases n - k,
        {
            if labels[k].len() == 0 || labels[k].len() > 63 {
                assert(!valid_label(labels@[k as int]@));
                return Err(DnsError::InvalidLabelLength);
            }
            k += 1;
        }
        let mut name = Self::root();
        let mut i: usize = 0;
        while i < n
            invariant
                n == labels@.len(),
                i <= n,
                ls == labels@.map_values(|s: &[u8]| s@),
                forall|j: int| 0 <= j < n ==> valid_label(#[trigger] labels@[j]@),
                name.describes(true, ls.take(i as int)),
            decreases n - i,
        {
            proof {
                assert(ls.take(i + 1) =~= ls.take(i as int).push(labels@[i as int]@));
                lemma_wire_split(ls, i + 1);
                lemma_wire_len_bound(ls.skip(i + 1));
            }
            match name.extend_name(labels[i]) {
                Ok(()) => {},
                Err(e) => {
                    assert(wire_labels(ls.take(i + 1)).len() <= wire_labels(ls).len());
                    assert(encoded_len(ls) > 255);
                    assert(forall|j: int| 0 <= j < labels@.len() ==> valid_label(#[trigger] labels@[j]@));
                    return Err(e);
                },
            }
            i += 1;
        }
        assert(ls.take(n as int) =~= ls);
        proof {
            lemma_wire_len(name.label_data@, name.label_ends@);
        }
        Ok(name)
    }

    /// The name with every label's ASCII capitals folded to lower case.
    #[verifier::spinoff_prover]
    pub fn to_lowercase(&self) -> (r: Self)
        requires
            self.wf(),
        ensures
            r.describes(self.is_fqdn, self.labels().map_values(|l: Seq<u8>| lower_bytes(l))),
    {
        let n = self.label_data.len();
        let mut data: Vec<u8> = Vec::with_capacity(n);
        let mut i: usize = 0;
        while i < n
            invariant
                n == self.label_data@.len(),
                i <= n,
                data@ == lower_bytes(self.label_data@).subrange(0, i as int),
            decreases n - i,
        {
            data.push(lower_byte(self.label_data[i]));
            i += 1;
            assert(data@ =~= lower_bytes(self.label_data@).subrange(0, i as int));
        }
        assert(data@ =~= lower_bytes(self.label_data@));
        let ends = self.label_ends.clone();
        assert(ends@ =~= self.label_ends@);
        let r = Name { is_fqdn: self.is_fqdn, label_data: data, label_ends: ends };
        proof {
            lemma_wire_len(self.label_data@, self.label_ends@);
            assert forall|j: int| 0 <= j < ends@.len() implies #[trigger] r.labels()[j] == lower_bytes(
                self.labels()[j],
            ) by {
                lemma_ends_increase(self.label_data@, self.label_ends@, j, ends@.len() - 1);
                assert(r.labels()[j] =~= lower_bytes(self.labels()[j]));
            }
            assert(r.labels() =~= self.labels().map_values(|l: Seq<u8>| lower_bytes(l)));
        }
        r
    }

    /// The rightmost `num_labels` labels as a fully qualified name; the name
    /// itself when it has fewer labels.
    #[verifier::spinoff_prover]
    pub fn trim_to(&self, num_labels: usize) -> (r: Self)
        requires
            self.wf(),
        ensures
            num_labels > self.labels().len() ==> r.same_as(self),
            num_labels <= self.labels().len() ==> r.describes(
                true,
                self.labels().skip(self.labels().len() - num_labels),
            ),
    {
        let n = self.label_ends.len();
        if num_labels > n {
            return self.clone_name();
        }
        let k = n - num_labels;
        let s: usize = if k == 0 {
            0
        } else {
            self.label_ends[k - 1] as usize
        };
        let ghost data = self.label_data@;
        let ghost ends = self.label_ends@;
        proof {
            lemma_wire_len(data, ends);
            if k > 0 {
                lemma_ends_increase(data, ends, k - 1, n - 1);
            }
        }
        let mut nd: Vec<u8> = Vec::new();
        let mut i: usize = s;
        while i < self.label_data.len()
            invariant
                s <= i <= data.len(),
                data == self.label_data@,
                nd@ == data.subrange(s as int, i as int),
            decreases data.len() - i,
        {
            nd.push(self.label_data[i]);
            i += 1;
            assert(nd@ =~= data.subrange(s as int, i as int));
        }
        let mut ne: Vec<u8> = Vec::new();
        let mut j: usize = k;
        while j < n
            invariant
                k <= j <= n,
                n == ends.len(),
                ends == self.label_ends@,
                name_wf(data, ends),
                s == label_start(ends, k as int),
                ne@.len() == j - k,
                forall|t: int| 0 <= t < j - k ==> ne@[t] == ends[t + k] - s,
            decreases n - j,
        {
            proof {
                lemma_ends_increase(data, ends, k as int, j as int);
                if k > 0 {
                    lemma_ends_increase(data, ends, k - 1, j as int);
                }
            }
            ne.push(self.label_ends[j] - s as u8);
            j += 1;
        }
        let r = Name { is_fqdn: true, label_data: nd, label_ends: ne };
        proof {
            lemma_trim(data, ends, k as int, s as int, nd@, ne@);
        }
        r
    }

    /// Writes the name in wire form. In canonical mode every label is written
    /// out and nothing is recorded; otherwise the first suffix found in the
    /// encoder's table is replaced by a pointer to it, and the suffixes seen
    /// before it are recorded.
    #[verifier::spinoff_prover]
    pub fn emit_as_canonical(&self, encoder: &mut BinEncoder, canonical: bool) -> (r: Result<
        (),
        DnsError,
    >)
        requires
            self.wf(),
            old(encoder).wf(),
        ensures
            r.is_ok(),
            final(encoder).wf(),
            final(encoder)@.canonical == old(encoder)@.canonical,
            (final(encoder)@.bytes, final(encoder)@.table) == emit_name(
                old(encoder)@.bytes,
                old(encoder)@.table,
                self.labels(),
                canonical,
            ),
    {
        let ghost ls = self.labels();
        let ghost base = encoder@.bytes;
        let ghost table0 = encoder@.table;
        proof {
            encoder.lemma_table_fits();
        }
        let buf_len = encoder.len();
        let n = self.label_ends.len();
        proof {
            lemma_wire_len(self.label_data@, self.label_ends@);
        }
        let mut labels_written: Vec<usize> = Vec::with_capacity(n);
        let mut i: usize = 0;
        while i < n
            invariant
                n == ls.len(),
                i <= n,
                self.wf(),
                ls == self.labels(),
                encoder.wf(),
                encoder@.table == table0,
                encoder@.canonical == old(encoder)@.canonical,
                base == old(encoder)@.bytes,
                table0 == old(encoder)@.table,
                table_fits(table0, base.len()),
                encoder@.bytes == base + wire_labels(ls.take(i as int)),
                labels_written@.len() == i,
                forall|j: int|
                    0 <= j < i ==> #[trigger] labels_written@[j] == base.len() + wire_labels(
                        ls.take(j),
                    ).len(),
                wire_labels(ls).len() + 1 <= 255,
            decreases n - i,
        {
            let label = self.label_at(i);
            if label.len() > 63 {
                return Err(DnsError::LabelTooLong);
            }
            labels_written.push(encoder.offset());
            let _ = encoder.emit_character_data(label);
            proof {
                assert(ls.take(i + 1).drop_last() =~= ls.take(i as int));
                assert(encoder@.bytes =~= base + wire_labels(ls.take(i + 1)));
            }
            i += 1;
        }
        assert(ls.take(n as int) =~= ls);
        assert(ls.take(0) =~= Seq::<Seq<u8>>::empty());
        proof {
            encoder.lemma_table_fits();
        }
        let last_index = encoder.offset();
        let mut j: usize = 0;
        while j < n
            invariant
                n == ls.len(),
                j <= n,
                ls == self.labels(),
                encoder.wf(),
                encoder@.canonical == old(encoder)@.canonical,
                encoder@.bytes == base + wire_labels(ls),
                last_index == encoder@.bytes.len(),
                labels_written@.len() == n,
                forall|t: int|
                    0 <= t < n ==> #[trigger] labels_written@[t] == base.len() + wire_labels(
                        ls.take(t),
                    ).len(),
                forall|t: int| 0 <= t < n ==> valid_label(#[trigger] ls[t]),
                base == old(encoder)@.bytes,
                emit_name(base, old(encoder)@.table, ls, canonical) == emit_name_from(
                    base,
                    encoder@.table,
                    ls,
                    j as nat,
                    canonical,
                ),
                forall|k: int| 0 <= k < encoder@.table.len() ==> #[trigger] encoder@.table[k].0 < base.len()
                    + wire_labels(ls.take(j as int)).len(),
            decreases n - j,
        {
            let idx = labels_written[j];
            let ghost tbl = encoder@.table;
            proof {
                lemma_emit_step(base, tbl, ls, j as nat, canonical);
                encoder.lemma_table_fits();
                lemma_wire_split(ls, j as int);
                lemma_wire_split(ls, j + 1);
                assert(ls.take(j + 1).drop_last() =~= ls.take(j as int));
                assert(ls.take(j + 1).last() == ls[j as int]);
                assert(encoder@.bytes.subrange(idx as int, last_index as int) =~= wire_labels(
                    ls.skip(j as int),
                ));
            }
            match encoder.get_label_pointer(idx, last_index) {
                Some(loc) => {
                    assert(find_pointer(tbl, wire_labels(ls.skip(j as int))) == Some(loc as nat));
                    if !canonical {
                        proof {
                            lemma_filter_all(encoder@.table, idx as nat);
                        }
                        encoder.set_offset(idx);
                        assert(encoder@.table == tbl);
                        assert(encoder@.bytes =~= base + wire_labels(ls.take(j as int)));
                        let ptr = 0xC000u16 | (loc & 0x3FFFu16);
                        assert(ptr == 0xC000 + loc % 0x4000) by (bit_vector)
                            requires
                                ptr == 0xC000u16 | (loc & 0x3FFFu16),
                                loc <= 0x3FFF,
                        ;
                        let _ = encoder.emit_u16(ptr);
                        assert(encoder@.bytes =~= base + wire_labels(ls.take(j as int))
                            + pointer_bytes(loc as nat));
                        assert(emit_name_from(base, tbl, ls, j as nat, canonical) == (
                            encoder@.bytes,
                            encoder@.table,
                        ));
                        return Ok(());
                    }
                },
                None => {
                    if !canonical {
                        encoder.store_label_pointer(idx, last_index);
                    }
                },
            }
            proof {
                lemma_labels_take_grow(ls, j as int);
            }
            j += 1;
        }
        let _ = encoder.emit(0);
        assert(encoder@.bytes =~= base + canonical_wire(ls));
        proof {
            reveal(emit_name_from);
        }
        let length = encoder.len() - buf_len;
        if length > 255 {
            return Err(DnsError::NameTooLong);
        }
        Ok(())
    }

    /// Writes the name, folded to lower case first when `lowercase` holds;
    /// canonical mode is the encoder's.
    pub fn emit_with_lowercase(&self, encoder: &mut BinEncoder, lowercase: bool) -> (r: Result<
        (),
        DnsError,
    >)
        requires
            self.wf(),
            old(encoder).wf(),
        ensures
            r.is_ok(),
            final(encoder).wf(),
            final(encoder)@.canonical == old(encoder)@.canonical,
            (final(encoder)@.bytes, final(encoder)@.table) == emit_name(
                old(encoder)@.bytes,
                old(encoder)@.table,
                if lowercase {
                    self.labels().map_values(|l: Seq<u8>| lower_bytes(l))
                } else {
                    self.labels()
                },
                old(encoder)@.canonical,
            ),
    {
        let is_canonical_names = encoder.is_canonical_names();
        if lowercase {
            self.to_lowercase().emit_as_canonical(encoder, is_canonical_names)
        } else {
            self.emit_as_canonical(encoder, is_canonical_names)
        }
    }

    /// A copy of the name.
    pub fn clone_name(&self) -> (r: Self)
        ensures
            r.same_as(self),
    {
        let d = self.label_data.clone();
        let e = self.label_ends.clone();
        assert(d@ =~= self.label_data@);
        assert(e@ =~= self.label_ends@);
        Name { is_fqdn: self.is_fqdn, label_data: d, label_ends: e }
    }
}

/// Walks the labels of a name, leftmost first.
pub struct LabelIter<'a> {
    name: &'a Name,
    start: u8,
    end: u8,
}

impl<'a> LabelIter<'a> {
    /// The name walked.
    pub closed spec fn name(&self) -> Name {
        *self.name
    }

    /// The index of the next label.
    pub closed spec fn position(&self) -> int {
        self.start as int
    }

    /// The number of labels to walk.
    pub closed spec fn end(&self) -> int {
        self.end as int
    }

    /// The next label, if any is left.
    pub fn next(&mut self) -> (r: Option<&'a [u8]>)
        requires
            old(self).name().wf(),
            old(self).end() == old(self).name().labels().len(),
        ensures
            final(self).name() == old(self).name(),
            final(self).end() == old(self).end(),
            old(self).position() < old(self).end() ==> r.is_some() && r.unwrap()@ == old(
                self,
            ).name().labels()[old(self).position()] && final(self).position() == old(
                self,
            ).position() + 1,
            old(self).position() >= old(self).end() ==> r.is_none() && final(self).position()
                == old(self).position(),
    {
        if self.start >= self.end {
            return None;
        }
        let label = self.name.label_at(self.start as usize);
        self.start = self.start + 1;
        Some(label)
    }
}

impl Name {
    /// Walks the labels from the leftmost.
    pub fn iter(&self) -> (r: LabelIter<'_>)
        requires
            self.wf(),
        ensures
            r.name() == *self,
            r.position() == 0,
            r.end() == self.labels().len(),
    {
        proof {
            lemma_wire_len(self.label_data@, self.label_ends@);
        }
        LabelIter { name: self, start: 0, end: self.label_ends.len() as u8 }
    }
}

impl PartialEq for Name {
    fn eq(&self, other: &Self) -> bool {
        self.is_fqdn == other.is_fqdn && crate::encoder::bytes_equal(
            self.label_data.as_slice(),
            other.label_data.as_slice(),
        ) && crate::encoder::bytes_equal(self.label_ends.as_slice(), other.label_ends.as_slice())
    }
}

impl vstd::std_specs::cmp::PartialEqSpecImpl for Name {
    open spec fn obeys_eq_spec() -> bool {
        true
    }

    open spec fn eq_spec(&self, other: &Name) -> bool {
        self.same_as(other)
    }
}

impl Clone for Name {
    fn clone(&self) -> (r: Self)
        ensures
            r.same_as(self),
    {
        self.clone_name()
    }
}

} // verus!
