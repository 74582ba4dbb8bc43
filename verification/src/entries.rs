//! The entry table of a container: one descriptor per packed file
//! (normalized path, declared size, advisory checksum), terminated by a
//! sentinel record.  Each entry's byte offset into the packed-data
//! region equals the sum of the sizes of all prior entries in table
//! order.

use vstd::prelude::*;
use vstd::bytes::{
    spec_u32_to_le_bytes, spec_u64_to_le_bytes, u32_to_le_bytes, u64_to_le_bytes,
    lemma_auto_spec_u32_to_from_le_bytes, lemma_auto_spec_u64_to_from_le_bytes,
    spec_u32_from_le_bytes, spec_u64_from_le_bytes,
};

use vstd::utf8::encode_utf8;

use crate::bytes::{
    ascii_lower_bytes, spec_encode_str, spec_parse_path, spec_parse_u32, spec_parse_u64,
    storable_string, parse_path, parse_u32, parse_u64, lemma_parse_path_encode,
    lemma_split_segment,
};
use crate::error::GMAError;

verus! {

/// One packed file's descriptor within a container.
#[derive(Debug, Clone)]
pub struct GMAEntry {
    /// Normalized relative path: lowercase, forward-slash separated.
    pub path: String,
    /// Declared byte size of the packed contents.
    pub size: u64,
    /// Advisory checksum; not re-verified during extraction.
    pub crc: u32,
    /// Byte offset into the packed-data region where the contents begin.
    pub index: u64,
}

/// Mathematical model of an entry.
#[verifier::ext_equal]
pub struct EntryModel {
    pub path: Seq<char>,
    pub size: u64,
    pub crc: u32,
    pub index: u64,
}

impl View for GMAEntry {
    type V = EntryModel;

    open spec fn view(&self) -> EntryModel {
        EntryModel { path: self.path@, size: self.size, crc: self.crc, index: self.index }
    }
}

impl DeepView for GMAEntry {
    type V = EntryModel;

    open spec fn deep_view(&self) -> EntryModel {
        self.view()
    }
}

/// The sum of the declared sizes of all entries of `l`.
pub open spec fn spec_size_sum(l: Seq<EntryModel>) -> int
    decreases l.len(),
{
    if l.len() == 0 {
        0
    } else {
        l[0].size + spec_size_sum(l.drop_first())
    }
}

/// Serialized form of one entry: a record marker, the NUL-terminated
/// path, the 8-byte size and the 4-byte checksum.  The offset is not
/// stored: it is recomputed from the sizes on parse.
pub open spec fn spec_encode_entry(e: EntryModel) -> Seq<u8> {
    seq![1u8] + spec_encode_str(e.path) + spec_u64_to_le_bytes(e.size) + spec_u32_to_le_bytes(
        e.crc,
    )
}

/// Serialized form of the records of a table, in order, without the
/// trailing sentinel.
pub open spec fn spec_encode_records(l: Seq<EntryModel>) -> Seq<u8>
    decreases l.len(),
{
    if l.len() == 0 {
        Seq::empty()
    } else {
        spec_encode_entry(l[0]) + spec_encode_records(l.drop_first())
    }
}

/// Serialized form of the whole table: the records in order, then the
/// sentinel record.
pub open spec fn spec_encode_entries(l: Seq<EntryModel>) -> Seq<u8> {
    spec_encode_records(l) + seq![0u8]
}

/// Appending one entry appends its record to the serialized records.
pub proof fn lemma_encode_records_snoc(l: Seq<EntryModel>, e: EntryModel)
    ensures
        spec_encode_records(l.push(e)) == spec_encode_records(l) + spec_encode_entry(e),
    decreases l.len(),
{
    if l.len() == 0 {
        assert(l.push(e)[0] == e);
        assert(l.push(e).drop_first() =~= Seq::<EntryModel>::empty());
        assert(spec_encode_records(l.push(e)) == spec_encode_entry(e)
            + spec_encode_records(Seq::<EntryModel>::empty()));
        assert(spec_encode_records(l.push(e)) =~= spec_encode_records(l) + spec_encode_entry(e));
    } else {
        assert(l.push(e)[0] == l[0]);
        assert(l.push(e).drop_first() =~= l.drop_first().push(e));
        lemma_encode_records_snoc(l.drop_first(), e);
        assert(spec_encode_records(l.push(e)) == spec_encode_entry(l[0])
            + spec_encode_records(l.drop_first().push(e)));
        assert(spec_encode_entry(l[0]) + (spec_encode_records(l.drop_first())
            + spec_encode_entry(e)) =~= (spec_encode_entry(l[0])
            + spec_encode_records(l.drop_first())) + spec_encode_entry(e));
    }
}

/// The size total of any table is nonnegative.
pub proof fn lemma_size_sum_nonneg(l: Seq<EntryModel>)
    ensures
        0 <= spec_size_sum(l),
    decreases l.len(),
{
    if l.len() > 0 {
        lemma_size_sum_nonneg(l.drop_first());
    }
}

/// The entry table starting at `pos`, with `off` the packed-data offset
/// of the first entry: each parsed entry is assigned the running total
/// of the prior sizes as its offset.  Fails on an unknown record marker,
/// on truncated records, and where the running total would not fit.
pub open spec fn spec_parse_entries(b: Seq<u8>, pos: int, off: nat) -> Option<
    (Seq<EntryModel>, int),
>
    decreases b.len() - pos when 0 <= pos <= b.len()
{
    if pos >= b.len() {
        None
    } else if b[pos] == 0u8 {
        Some((Seq::empty(), pos + 1))
    } else if b[pos] == 1u8 {
        match spec_parse_path(b, pos + 1) {
            None => None,
            Some((path, p1)) => match spec_parse_u64(b, p1) {
                None => None,
                Some((size, p2)) => match spec_parse_u32(b, p2) {
                    None => None,
                    Some((crc, p3)) => {
                        if off + size > u64::MAX || !(pos < p3 <= b.len()) {
                            None
                        } else {
                            match spec_parse_entries(b, p3, (off + size) as nat) {
                                None => None,
                                Some((rest, p4)) => Some(
                                    (
                                        seq![
                                            EntryModel { path, size, crc, index: off as u64 },
                                        ] + rest,
                                        p4,
                                    ),
                                ),
                            }
                        }
                    },
                },
            },
        }
    } else {
        None
    }
}

/// The entry offset invariant: in any parsed table, each entry's offset
/// equals the base offset plus the sum of the sizes of all entries
/// before it in table order.
pub proof fn lemma_entry_offsets(b: Seq<u8>, pos: int, off: nat, l: Seq<EntryModel>, e: int)
    requires
        0 <= pos <= b.len(),
        off <= u64::MAX,
        spec_parse_entries(b, pos, off) == Some((l, e)),
    ensures
        forall|k: int|
            0 <= k < l.len() ==> (#[trigger] l[k]).index == off + spec_size_sum(
                l.subrange(0, k),
            ),
        off + spec_size_sum(l) <= u64::MAX,
    decreases b.len() - pos,
{
    if pos >= b.len() || b[pos] == 0u8 {
        if b[pos] == 0u8 {
            assert(spec_size_sum(l) == 0);
        }
    } else if b[pos] == 1u8 {
        let (path, p1) = spec_parse_path(b, pos + 1).unwrap();
        let (size, p2) = spec_parse_u64(b, p1).unwrap();
        let (crc, p3) = spec_parse_u32(b, p2).unwrap();
        let (rest, p4) = spec_parse_entries(b, p3, (off + size) as nat).unwrap();
        lemma_entry_offsets(b, p3, (off + size) as nat, rest, p4);
        assert(l[0].index == off);
        assert(l.drop_first() =~= rest);
        assert forall|k: int| 0 <= k < l.len() implies (#[trigger] l[k]).index == off
            + spec_size_sum(l.subrange(0, k)) by {
            if k == 0 {
                assert(l.subrange(0, 0) =~= Seq::<EntryModel>::empty());
            } else {
                assert(l[k] == rest[k - 1]);
                assert(rest[k - 1].index == off + size + spec_size_sum(rest.subrange(0, k - 1)));
                let pre = l.subrange(0, k);
                assert(pre[0] == l[0]);
                assert(pre.drop_first() =~= rest.subrange(0, k - 1));
                assert(spec_size_sum(pre) == size + spec_size_sum(rest.subrange(0, k - 1)));
            }
        }
        assert(spec_size_sum(l) == size + spec_size_sum(rest));
    }
}

/// Parses the entry table starting at `pos`, assigning offsets from the
/// running size total.  Fails with `FormatError` exactly where the table
/// is structurally invalid.
pub fn parse_entries(b: &[u8], pos: usize) -> (r: Result<(Vec<GMAEntry>, usize), GMAError>)
    requires
        pos <= b@.len(),
    ensures
        match r {
            Ok(p) => {
                &&& spec_parse_entries(b@, pos as int, 0) == Some((p.0.deep_view(), p.1 as int))
                &&& pos < p.1 <= b@.len()
            },
            Err(e) => spec_parse_entries(b@, pos as int, 0) is None && e == GMAError::FormatError,
        },
{
    let mut acc: Vec<GMAEntry> = Vec::new();
    let mut cur: usize = pos;
    let mut off: u64 = 0;
    loop
        invariant
            pos <= cur <= b@.len(),
            off == spec_size_sum(acc.deep_view()),
            forall|l: Seq<EntryModel>, e: int|
                spec_parse_entries(b@, cur as int, off as nat) == Some((l, e)) ==>
                    spec_parse_entries(b@, pos as int, 0) == Some((acc.deep_view() + l, e)),
            spec_parse_entries(b@, cur as int, off as nat) is None ==>
                spec_parse_entries(b@, pos as int, 0) is None,
        decreases b@.len() - cur,
    {
        let ghost acc0 = acc.deep_view();
        let ghost cur0 = cur as int;
        let ghost off0 = off as nat;
        if cur >= b.len() {
            return Err(GMAError::FormatError);
        }
        let marker = b[cur];
        if marker == 0 {
            proof {
                assert(spec_parse_entries(b@, cur0, off0) == Some(
                    (Seq::<EntryModel>::empty(), cur0 + 1),
                ));
                assert(acc.deep_view() + Seq::<EntryModel>::empty() =~= acc.deep_view());
            }
            return Ok((acc, cur + 1));
        }
        if marker != 1 {
            return Err(GMAError::FormatError);
        }
        let (path, p1) = match parse_path(b, cur + 1) {
            Some(x) => x,
            None => { return Err(GMAError::FormatError); },
        };
        let (size, p2) = match parse_u64(b, p1) {
            Some(x) => x,
            None => { return Err(GMAError::FormatError); },
        };
        let (crc, p3) = match parse_u32(b, p2) {
            Some(x) => x,
            None => { return Err(GMAError::FormatError); },
        };
        if size > u64::MAX - off {
            return Err(GMAError::FormatError);
        }
        let entry = GMAEntry { path, size, crc, index: off };
        acc.push(entry);
        off = off + size;
        cur = p3;
        proof {
            assert(acc.deep_view() =~= acc0.push(
                EntryModel { path: path@, size, crc, index: spec_size_sum(acc0) as u64 },
            ));
            assert(spec_size_sum(acc0.push(
                EntryModel { path: path@, size, crc, index: spec_size_sum(acc0) as u64 },
            )) == spec_size_sum(acc0) + size) by {
                lemma_size_sum_snoc(
                    acc0,
                    EntryModel { path: path@, size, crc, index: spec_size_sum(acc0) as u64 },
                );
            }
            let em = EntryModel { path: path@, size, crc, index: off0 as u64 };
            assert forall|l: Seq<EntryModel>, e: int|
                spec_parse_entries(b@, cur as int, off as nat) == Some((l, e)) implies
                spec_parse_entries(b@, pos as int, 0) == Some((acc.deep_view() + l, e)) by {
                assert(spec_parse_entries(b@, cur0, off0) == Some((seq![em] + l, e)));
                assert(acc0 + (seq![em] + l) =~= acc.deep_view() + l);
            }
            if spec_parse_entries(b@, cur as int, off as nat) is None {
                assert(spec_parse_entries(b@, cur0, off0) is None);
            }
        }
    }
}

/// Appending one entry adds its size to the size total.
pub proof fn lemma_size_sum_snoc(l: Seq<EntryModel>, e: EntryModel)
    ensures
        spec_size_sum(l.push(e)) == spec_size_sum(l) + e.size,
    decreases l.len(),
{
    if l.len() == 0 {
        assert(l.push(e)[0] == e);
        assert(l.push(e).drop_first() =~= Seq::<EntryModel>::empty());
        assert(spec_size_sum(l) == 0);
        assert(spec_size_sum(l.push(e)) == e.size
            + spec_size_sum(l.push(e).drop_first()));
        assert(spec_size_sum(l.push(e).drop_first()) == 0);
    } else {
        assert(l.push(e)[0] == l[0]);
        assert(l.push(e).drop_first() =~= l.drop_first().push(e));
        lemma_size_sum_snoc(l.drop_first(), e);
        assert(spec_size_sum(l.push(e)) == l[0].size
            + spec_size_sum(l.push(e).drop_first()));
        assert(spec_size_sum(l.push(e).drop_first())
            == spec_size_sum(l.drop_first()) + e.size);
        assert(spec_size_sum(l) == l[0].size + spec_size_sum(l.drop_first()));
    }
}


/// An entry path that can be written to a container and survive the
/// parser's normalization unchanged: storable and already folded (no
/// uppercase ASCII letter in its encoding).
pub open spec fn entry_path_encodable(p: Seq<char>) -> bool {
    &&& storable_string(p)
    &&& ascii_lower_bytes(encode_utf8(p)) == encode_utf8(p)
}

/// Every entry path of the table is encodable.
pub open spec fn entries_encodable(l: Seq<EntryModel>) -> bool {
    forall|i: int| 0 <= i < l.len() ==> entry_path_encodable((#[trigger] l[i]).path)
}

/// Whether `p` can be written to a container as an entry path.
pub fn entry_path_ok(p: &str) -> (r: bool)
    ensures
        r == entry_path_encodable(p@),
{
    let b = p.as_bytes();
    let mut i: usize = 0;
    let mut ok = true;
    while i < b.len()
        invariant
            i <= b@.len(),
            b@ == encode_utf8(p@),
            ok == (forall|k: int| 0 <= k < i ==> b@[k] != 0u8 && !(65 <= b@[k] <= 90)),
        decreases b@.len() - i,
    {
        let c = b[i];
        if c == 0 || (65 <= c && c <= 90) {
            ok = false;
        }
        i = i + 1;
    }
    proof {
        if ok {
            assert(ascii_lower_bytes(encode_utf8(p@)) =~= encode_utf8(p@));
        } else {
            let k = choose|k: int| 0 <= k < b@.len() && !(b@[k] != 0u8 && !(65 <= b@[k] <= 90));
            if b@[k] == 0u8 {
                assert(!storable_string(p@));
            } else {
                assert(ascii_lower_bytes(encode_utf8(p@))[k] != encode_utf8(p@)[k]);
            }
        }
    }
    ok
}

/// A 64-bit size encoded at `pos` parses back to itself.
pub proof fn lemma_parse_u64_encode(b: Seq<u8>, pos: int, n: u64)
    requires
        0 <= pos,
        pos + 8 <= b.len(),
        b.subrange(pos, pos + 8) == spec_u64_to_le_bytes(n),
    ensures
        spec_parse_u64(b, pos) == Some((n, pos + 8)),
{
    lemma_auto_spec_u64_to_from_le_bytes();
    assert(spec_u64_to_le_bytes(n).len() == 8);
    assert(spec_u64_from_le_bytes(spec_u64_to_le_bytes(n)) == n);
}

/// An encodable table with consistent offsets, encoded at `pos`, parses
/// back to exactly itself, whatever follows the sentinel.
pub proof fn lemma_parse_entries_encode(b: Seq<u8>, pos: int, off: nat, l: Seq<EntryModel>)
    requires
        0 <= pos,
        off <= u64::MAX,
        entries_encodable(l),
        forall|k: int|
            0 <= k < l.len() ==> (#[trigger] l[k]).index == off + spec_size_sum(
                l.subrange(0, k),
            ),
        off + spec_size_sum(l) <= u64::MAX,
        pos + spec_encode_entries(l).len() <= b.len(),
        b.subrange(pos, pos + spec_encode_entries(l).len()) == spec_encode_entries(l),
    ensures
        spec_parse_entries(b, pos, off) == Some((l, pos + spec_encode_entries(l).len())),
    decreases l.len(),
{
    let e = spec_encode_entries(l);
    if l.len() == 0 {
        assert(e =~= seq![0u8]);
        assert(b[pos] == b.subrange(pos, pos + 1)[0]);
        assert(b[pos] == 0u8);
        assert(l =~= Seq::<EntryModel>::empty());
    } else {
        let head = l[0];
        let rest = l.drop_first();
        let es = spec_encode_str(head.path);
        let e64 = spec_u64_to_le_bytes(head.size);
        let e32 = spec_u32_to_le_bytes(head.crc);
        let erest = spec_encode_entries(rest);
        lemma_auto_spec_u64_to_from_le_bytes();
        lemma_auto_spec_u32_to_from_le_bytes();
        assert(spec_u64_to_le_bytes(head.size).len() == 8);
        assert(spec_u32_to_le_bytes(head.crc).len() == 4);
        let r1 = es + (e64 + (e32 + erest));
        assert(e =~= seq![1u8] + r1);
        lemma_split_segment(b, pos, seq![1u8], r1);
        assert(b[pos] == b.subrange(pos, pos + 1)[0]);
        assert(b[pos] == 1u8);
        let p0 = pos + 1;
        lemma_split_segment(b, p0, es, e64 + (e32 + erest));
        assert(entry_path_encodable(head.path));
        lemma_parse_path_encode(b, p0, head.path);
        let p1 = p0 + es.len();
        lemma_split_segment(b, p1, e64, e32 + erest);
        lemma_parse_u64_encode(b, p1, head.size);
        let p2 = p1 + 8;
        lemma_split_segment(b, p2, e32, erest);
        crate::metadata::lemma_parse_u32_encode(b, p2, head.crc);
        let p3 = p2 + 4;
        // The head's offset is the base offset, and the rest's offsets
        // follow the running total.
        assert(l.subrange(0, 0) =~= Seq::<EntryModel>::empty());
        assert(head.index == off);
        lemma_size_sum_nonneg(rest);
        assert(spec_size_sum(l) == head.size + spec_size_sum(rest));
        assert(off + head.size <= u64::MAX);
        assert forall|k: int|
            0 <= k < rest.len() implies (#[trigger] rest[k]).index == (off + head.size)
            + spec_size_sum(rest.subrange(0, k)) by {
            assert(l[k + 1] == rest[k]);
            assert(l[k + 1].index == off + spec_size_sum(l.subrange(0, k + 1)));
            let pre = l.subrange(0, k + 1);
            assert(pre[0] == head);
            assert(pre.drop_first() =~= rest.subrange(0, k));
            assert(spec_size_sum(pre) == head.size + spec_size_sum(rest.subrange(0, k)));
        }
        assert(b.subrange(p3, p3 + erest.len()) == erest);
        lemma_parse_entries_encode(b, p3, (off + head.size) as nat, rest);
        assert(seq![head] + rest =~= l);
        assert(p3 + erest.len() == pos + e.len());
    }
}

/// Serializes the entry table: each record in order, then the sentinel.
/// Fails with `FormatError` exactly where some path cannot be stored or
/// would not survive normalization.
pub fn build_entries_block(entries: &Vec<GMAEntry>) -> (r: Result<Vec<u8>, GMAError>)
    ensures
        match r {
            Ok(v) => entries_encodable(entries.deep_view()) && v@ == spec_encode_entries(
                entries.deep_view(),
            ),
            Err(e) => !entries_encodable(entries.deep_view()) && e == GMAError::FormatError,
        },
{
    let ghost l0 = entries.deep_view();
    let mut out: Vec<u8> = Vec::new();
    let mut i: usize = 0;
    while i < entries.len()
        invariant
            i <= l0.len(),
            entries.deep_view() == l0,
            out@ == spec_encode_records(l0.subrange(0, i as int)),
            forall|k: int| 0 <= k < i ==> entry_path_encodable((#[trigger] l0[k]).path),
        decreases l0.len() - i,
    {
        let entry = &entries[i];
        if !entry_path_ok(entry.path.as_str()) {
            proof {
                assert(l0[i as int] == entries@[i as int]@);
                assert(!entry_path_encodable(l0[i as int].path));
            }
            return Err(GMAError::FormatError);
        }
        out.push(1);
        crate::metadata::append_str(&mut out, entry.path.as_str());
        let sb = u64_to_le_bytes(entry.size);
        crate::metadata::append_bytes(&mut out, sb.as_slice());
        let cb = u32_to_le_bytes(entry.crc);
        crate::metadata::append_bytes(&mut out, cb.as_slice());
        i = i + 1;
        proof {
            lemma_encode_records_snoc(l0.subrange(0, i - 1), l0[i - 1]);
            assert(l0.subrange(0, i as int) =~= l0.subrange(0, i - 1).push(l0[i - 1]));
            assert(out@ =~= spec_encode_records(l0.subrange(0, i as int)));
        }
    }
    out.push(0);
    proof {
        assert(l0.subrange(0, l0.len() as int) =~= l0);
        assert(out@ =~= spec_encode_entries(l0));
    }
    Ok(out)
}

} // verus!
