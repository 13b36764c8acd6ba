use vstd::prelude::*;
use vstd::slice::slice_subrange;
use crate::error::DnsError;

verus! {

broadcast use vstd::seq_lib::group_filter_ensures;

/// The largest offset a compression pointer can address (14 bits).
pub const MAX_POINTER_OFFSET: usize = 0x3FFF;

/// What an encoder holds: the bytes written so far, the name suffixes
/// recorded for compression with their start offsets, and whether names are
/// written in canonical (uncompressed) form.
pub struct EncoderView {
    pub bytes: Seq<u8>,
    pub table: Seq<(nat, Seq<u8>)>,
    pub canonical: bool,
}

/// Every recorded suffix starts inside the buffer, at an offset a pointer
/// can address.
pub open spec fn table_fits(table: Seq<(nat, Seq<u8>)>, len: nat) -> bool {
    forall|i: int| 0 <= i < table.len() ==> #[trigger] table[i].0 < len && table[i].0 <= 0x3FFF
}

/// The offset of the first recorded suffix equal to `s`, if any.
pub open spec fn find_pointer(table: Seq<(nat, Seq<u8>)>, s: Seq<u8>) -> Option<nat>
    decreases table.len(),
{
    if table.len() == 0 {
        None
    } else if table[0].1 == s {
        Some(table[0].0)
    } else {
        find_pointer(table.drop_first(), s)
    }
}

/// A 16-bit value in network byte order.
pub open spec fn u16_be(v: u16) -> Seq<u8> {
    seq![(v / 256) as u8, (v % 256) as u8]
}

/// A 32-bit value in network byte order.
pub open spec fn u32_be(v: u32) -> Seq<u8> {
    seq![(v / 0x100_0000) as u8, ((v / 0x1_0000) % 256) as u8, ((v / 256) % 256) as u8, (v % 256) as u8]
}

/// A character-string: its length in one octet, then its octets.
pub open spec fn character_data(b: Seq<u8>) -> Seq<u8> {
    seq![b.len() as u8] + b
}

/// The two bytes of a compression pointer to `loc`.
pub open spec fn pointer_bytes(loc: nat) -> Seq<u8> {
    u16_be((0xC000 + loc % 0x4000) as u16)
}

/// Whether two byte strings are equal.
pub fn bytes_equal(a: &[u8], b: &[u8]) -> (r: bool)
    ensures
        r == (a@ == b@),
{
    if a.len() != b.len() {
        return false;
    }
    let mut i: usize = 0;
    while i < a.len()
        invariant
            a@.len() == b@.len(),
            i <= a@.len(),
            forall|j: int| 0 <= j < i ==> a@[j] == b@[j],
        decreases a@.len() - i,
    {
        if a[i] != b[i] {
            return false;
        }
        i += 1;
    }
    assert(a@ =~= b@);
    true
}

/// A fresh vector holding the same bytes.
pub fn copy_bytes(s: &[u8]) -> (r: Vec<u8>)
    ensures
        r@ == s@,
{
    let mut v: Vec<u8> = Vec::with_capacity(s.len());
    let mut i: usize = 0;
    while i < s.len()
        invariant
            i <= s@.len(),
            v@ == s@.subrange(0, i as int),
        decreases s@.len() - i,
    {
        v.push(s[i]);
        i += 1;
        assert(v@ =~= s@.subrange(0, i as int));
    }
    assert(v@ =~= s@);
    v
}

/// An append-only writer of DNS wire data, with the table of name suffixes
/// that name compression looks up.
pub struct BinEncoder {
    offset: usize,
    buffer: Vec<u8>,
    name_pointers: Vec<(usize, Vec<u8>)>,
    canonical_names: bool,
}

impl View for BinEncoder {
    type V = EncoderView;

    closed spec fn view(&self) -> EncoderView {
        EncoderView {
            bytes: self.buffer@,
            table: self.name_pointers@.map_values(|p: (usize, Vec<u8>)| (p.0 as nat, p.1@)),
            canonical: self.canonical_names,
        }
    }
}

impl BinEncoder {
    /// The offset is the buffer's length and the table fits the buffer.
    pub closed spec fn wf(&self) -> bool {
        &&& self.offset == self.buffer@.len()
        &&& table_fits(self@.table, self@.bytes.len())
    }

    /// A well-formed encoder's table fits its buffer.
    pub proof fn lemma_table_fits(&self)
        requires
            self.wf(),
        ensures
            table_fits(self@.table, self@.bytes.len()),
    {
    }

    /// An empty encoder that compresses names.
    pub fn new() -> (r: Self)
        ensures
            r.wf(),
            r@.bytes == Seq::<u8>::empty(),
            r@.table == Seq::<(nat, Seq<u8>)>::empty(),
            !r@.canonical,
    {
        let r = BinEncoder {
            offset: 0,
            buffer: Vec::with_capacity(512),
            name_pointers: Vec::new(),
            canonical_names: false,
        };
        assert(r@.table =~= Seq::<(nat, Seq<u8>)>::empty());
        r
    }

    /// The bytes written, handing the buffer over.
    pub fn into_bytes(self) -> (r: Vec<u8>)
        ensures
            r@ == self@.bytes,
    {
        self.buffer
    }

    /// The number of bytes written.
    pub fn len(&self) -> (r: usize)
        ensures
            r == self@.bytes.len(),
    {
        self.buffer.len()
    }

    /// Whether nothing was written.
    pub fn is_empty(&self) -> (r: bool)
        ensures
            r == (self@.bytes.len() == 0),
    {
        self.buffer.len() == 0
    }

    /// Where the next byte goes.
    pub fn offset(&self) -> (r: usize)
        requires
            self.wf(),
        ensures
            r == self@.bytes.len(),
    {
        self.offset
    }

    /// Whether names are written in canonical form.
    pub fn is_canonical_names(&self) -> (r: bool)
        ensures
            r == self@.canonical,
    {
        self.canonical_names
    }

    /// Sets whether names are written in canonical form.
    pub fn set_canonical_names(&mut self, canonical_names: bool)
        requires
            old(self).wf(),
        ensures
            final(self).wf(),
            final(self)@ == (EncoderView { canonical: canonical_names, ..old(self)@ }),
    {
        self.canonical_names = canonical_names;
    }

    proof fn lemma_push_keeps_table(&self, other: &Self)
        requires
            self.wf(),
            other.name_pointers == self.name_pointers,
            other.offset == other.buffer@.len(),
            other.buffer@.len() >= self.buffer@.len(),
        ensures
            other.wf(),
            other@.table == self@.table,
    {
    }

    /// Writes one byte.
    pub fn emit(&mut self, b: u8) -> (r: Result<(), DnsError>)
        requires
            old(self).wf(),
        ensures
            r.is_ok(),
            final(self).wf(),
            final(self)@ == (EncoderView { bytes: old(self)@.bytes.push(b), ..old(self)@ }),
    {
        self.buffer.push(b);
        self.offset = self.buffer.len();
        Ok(())
    }

    /// Writes bytes as they are.
    pub fn emit_vec(&mut self, data: &[u8]) -> (r: Result<(), DnsError>)
        requires
            old(self).wf(),
        ensures
            r.is_ok(),
            final(self).wf(),
            final(self)@ == (EncoderView { bytes: old(self)@.bytes + data@, ..old(self)@ }),
    {
        let ghost start = self.buffer@;
        let mut i: usize = 0;
        while i < data.len()
            invariant
                i <= data@.len(),
                self.buffer@ == start + data@.subrange(0, i as int),
                self.offset == self.buffer@.len(),
                self.name_pointers == old(self).name_pointers,
                self.canonical_names == old(self).canonical_names,
                start == old(self).buffer@,
                old(self).wf(),
            decreases data@.len() - i,
        {
            self.buffer.push(data[i]);
            self.offset = self.buffer.len();
            i += 1;
            assert(self.buffer@ =~= start + data@.subrange(0, i as int));
        }
        assert(data@.subrange(0, data@.len() as int) =~= data@);
        proof {
            old(self).lemma_push_keeps_table(self);
        }
        Ok(())
    }

    /// Writes a 16-bit value in network byte order.
    pub fn emit_u16(&mut self, data: u16) -> (r: Result<(), DnsError>)
        requires
            old(self).wf(),
        ensures
            r.is_ok(),
            final(self).wf(),
            final(self)@ == (EncoderView { bytes: old(self)@.bytes + u16_be(data), ..old(self)@ }),
    {
        let _ = self.emit((data / 256) as u8);
        let _ = self.emit((data % 256) as u8);
        assert(self@.bytes =~= old(self)@.bytes + u16_be(data));
        Ok(())
    }

    /// Writes a 32-bit value in network byte order.
    pub fn emit_u32(&mut self, data: u32) -> (r: Result<(), DnsError>)
        requires
            old(self).wf(),
        ensures
            r.is_ok(),
            final(self).wf(),
            final(self)@ == (EncoderView { bytes: old(self)@.bytes + u32_be(data), ..old(self)@ }),
    {
        let _ = self.emit((data / 0x100_0000) as u8);
        let _ = self.emit(((data / 0x1_0000) % 256) as u8);
        let _ = self.emit(((data / 256) % 256) as u8);
        let _ = self.emit((data % 256) as u8);
        assert(self@.bytes =~= old(self)@.bytes + u32_be(data));
        Ok(())
    }

    /// Writes a character-string of at most 255 octets; a longer one is
    /// refused and nothing is written.
    pub fn emit_character_data(&mut self, char_data: &[u8]) -> (r: Result<(), DnsError>)
        requires
            old(self).wf(),
        ensures
            final(self).wf(),
            char_data@.len() <= 255 ==> r.is_ok() && final(self)@ == (EncoderView {
                bytes: old(self)@.bytes + character_data(char_data@),
                ..old(self)@
            }),
            char_data@.len() > 255 ==> r == Err::<(), DnsError>(DnsError::CharacterDataTooLong)
                && final(self)@ == old(self)@,
    {
        if char_data.len() > 255 {
            return Err(DnsError::CharacterDataTooLong);
        }
        let r = self.emit_character_data_unrestricted(char_data);
        assert(self@.bytes =~= old(self)@.bytes + character_data(char_data@));
        r
    }

    /// Writes a character-string with its length taken modulo 256.
    pub fn emit_character_data_unrestricted(&mut self, data: &[u8]) -> (r: Result<(), DnsError>)
        requires
            old(self).wf(),
        ensures
            r.is_ok(),
            final(self).wf(),
            final(self)@ == (EncoderView {
                bytes: old(self)@.bytes + seq![(data@.len() % 256) as u8] + data@,
                ..old(self)@
            }),
    {
        let _ = self.emit((data.len() % 256) as u8);
        let _ = self.emit_vec(data);
        assert(self@.bytes =~= old(self)@.bytes + seq![(data@.len() % 256) as u8] + data@);
        Ok(())
    }

    /// The bytes written from `start` up to `end`.
    pub fn slice_of(&self, start: usize, end: usize) -> (r: &[u8])
        requires
            self.wf(),
            start < self@.bytes.len(),
            start <= end <= self@.bytes.len(),
        ensures
            r@ == self@.bytes.subrange(start as int, end as int),
    {
        slice_subrange(self.buffer.as_slice(), start, end)
    }

    /// Moves the write position back to `offset`: what was written after it is
    /// dropped, and so are the suffixes recorded from there on.
    pub fn set_offset(&mut self, offset: usize)
        requires
            old(self).wf(),
            offset <= old(self)@.bytes.len(),
        ensures
            final(self).wf(),
            final(self)@ == (EncoderView {
                bytes: old(self)@.bytes.subrange(0, offset as int),
                table: old(self)@.table.filter(|p: (nat, Seq<u8>)| p.0 < offset),
                ..old(self)@
            }),
    {
        self.buffer.truncate(offset);
        self.offset = offset;
        let ghost old_table = old(self)@.table;
        let mut kept: Vec<(usize, Vec<u8>)> = Vec::new();
        let mut i: usize = 0;
        let n = self.name_pointers.len();
        while i < n
            invariant
                n == self.name_pointers@.len(),
                n == old_table.len(),
                i <= n,
                old_table == self.name_pointers@.map_values(
                    |p: (usize, Vec<u8>)| (p.0 as nat, p.1@),
                ),
                kept@.map_values(|p: (usize, Vec<u8>)| (p.0 as nat, p.1@)) == old_table.subrange(
                    0,
                    i as int,
                ).filter(|p: (nat, Seq<u8>)| p.0 < offset),
            decreases n - i,
        {
            let start = self.name_pointers[i].0;
            let ghost sub = old_table.subrange(0, i + 1);
            assert(sub.drop_last() =~= old_table.subrange(0, i as int));
            proof {
                reveal(Seq::filter);
            }
            if start < offset {
                let entry = self.name_pointers[i].1.clone();
                assert(entry@ =~= self.name_pointers@[i as int].1@);
                kept.push((start, entry));
            }
            i += 1;
            assert(kept@.map_values(|p: (usize, Vec<u8>)| (p.0 as nat, p.1@)) =~= old_table.subrange(
                0,
                i as int,
            ).filter(|p: (nat, Seq<u8>)| p.0 < offset));
        }
        assert(old_table.subrange(0, n as int) =~= old_table);
        self.name_pointers = kept;
        proof {
            let t = old_table.filter(|p: (nat, Seq<u8>)| p.0 < offset);
            assert forall|k: int| 0 <= k < t.len() implies #[trigger] t[k].0 < offset && t[k].0
                <= 0x3FFF by {
                assert(t.contains(t[k]));
                old_table.lemma_filter_contains_rev(|p: (nat, Seq<u8>)| p.0 < offset, t[k]);
                let j = choose|j: int| 0 <= j < old_table.len() && old_table[j] == t[k];
                assert(old_table[j].0 <= 0x3FFF);
            }
        }
    }

    /// The offset of the first recorded suffix equal to the bytes from `start`
    /// to `end`.
    pub fn get_label_pointer(&self, start: usize, end: usize) -> (r: Option<u16>)
        requires
            self.wf(),
            start < self@.bytes.len(),
            start <= end <= self@.bytes.len(),
        ensures
            match find_pointer(self@.table, self@.bytes.subrange(start as int, end as int)) {
                Some(loc) => r == Some(loc as u16) && loc <= 0x3FFF,
                None => r.is_none(),
            },
    {
        let search = self.slice_of(start, end);
        let ghost table = self@.table;
        assert(table.skip(0) =~= table);
        let mut i: usize = 0;
        while i < self.name_pointers.len()
            invariant
                self.wf(),
                table == self@.table,
                i <= table.len(),
                search@ == self@.bytes.subrange(start as int, end as int),
                find_pointer(table, search@) == find_pointer(table.skip(i as int), search@),
            decreases table.len() - i,
        {
            assert(table.skip(i as int).drop_first() =~= table.skip(i + 1));
            assert(table.skip(i as int)[0] == table[i as int]);
            let entry = &self.name_pointers[i];
            if bytes_equal(entry.1.as_slice(), search) {
                return Some(entry.0 as u16);
            }
            i += 1;
        }
        None
    }

    /// Records the suffix from `start` to `end` for later compression, when
    /// `start` can be addressed by a pointer.
    pub fn store_label_pointer(&mut self, start: usize, end: usize)
        requires
            old(self).wf(),
            start < old(self)@.bytes.len(),
            start <= end <= old(self)@.bytes.len(),
        ensures
            final(self).wf(),
            final(self)@ == (EncoderView {
                table: if start <= 0x3FFF {
                    old(self)@.table.push((start as nat, old(self)@.bytes.subrange(start as int, end as int)))
                } else {
                    old(self)@.table
                },
                ..old(self)@
            }),
    {
        if start <= MAX_POINTER_OFFSET {
            let s = self.slice_of(start, end);
            let v = copy_bytes(s);
            self.name_pointers.push((start, v));
            assert(self@.table =~= old(self)@.table.push(
                (start as nat, old(self)@.bytes.subrange(start as int, end as int)),
            ));
        }
    }
}

} // verus!
