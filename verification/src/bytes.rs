//! Byte-level helpers shared by the container parser and writer:
//! NUL-terminated UTF-8 strings and ASCII lowercasing.
//!
//! Path normalization folds ASCII letters only: a non-ASCII letter in
//! an entry path keeps its case, where the surrounding application's
//! directory walk lowercases with the full Unicode mapping.  Stating
//! more here would need trusted fixed-point facts about that mapping;
//! the narrower fold is exact and proved instead.

use vstd::prelude::*;
use vstd::bytes::{spec_u32_from_le_bytes, spec_u64_from_le_bytes, u32_from_le_bytes, u64_from_le_bytes};
use vstd::slice::{slice_subrange, slice_to_vec};
use vstd::utf8::{decode_utf8, encode_utf8, valid_utf8};

verus! {

broadcast use vstd::utf8::encode_utf8_valid_utf8, vstd::utf8::encode_utf8_decode_utf8;

/// ASCII uppercase letters fold to lowercase; every other byte is kept.
/// Bytes above 0x7f are parts of multi-byte UTF-8 sequences and are
/// never touched, so folding commutes with UTF-8 decoding on the
/// ASCII letters.
pub open spec fn ascii_lower_byte(b: u8) -> u8 {
    if 65 <= b <= 90 {
        (b + 32) as u8
    } else {
        b
    }
}

/// Pointwise ASCII lowercasing of a byte sequence.
pub open spec fn ascii_lower_bytes(s: Seq<u8>) -> Seq<u8> {
    s.map_values(|b: u8| ascii_lower_byte(b))
}

/// A byte sequence that can stand NUL-terminated in the container:
/// valid UTF-8 with no embedded NUL.
pub open spec fn storable_bytes(s: Seq<u8>) -> bool {
    &&& valid_utf8(s)
    &&& forall|i: int| 0 <= i < s.len() ==> s[i] != 0u8
}

/// A string whose UTF-8 encoding can stand NUL-terminated in the container.
pub open spec fn storable_string(s: Seq<char>) -> bool {
    forall|i: int| 0 <= i < encode_utf8(s).len() ==> encode_utf8(s)[i] != 0u8
}

/// Lowercases the ASCII letters of `v`, leaving all other bytes alone.
pub fn lower_ascii_bytes(v: &Vec<u8>) -> (r: Vec<u8>)
    ensures
        r@ == ascii_lower_bytes(v@),
{
    let mut out: Vec<u8> = Vec::new();
    let mut i: usize = 0;
    while i < v.len()
        invariant
            i <= v@.len(),
            out@ == ascii_lower_bytes(v@.subrange(0, i as int)),
        decreases v@.len() - i,
    {
        let b = v[i];
        if 65 <= b && b <= 90 {
            out.push(b + 32);
        } else {
            out.push(b);
        }
        i = i + 1;
        proof {
            assert(v@.subrange(0, i as int).map_values(|b: u8| ascii_lower_byte(b))
                =~= v@.subrange(0, i - 1).map_values(|b: u8| ascii_lower_byte(b))
                    .push(ascii_lower_byte(v@[i - 1])));
        }
    }
    proof {
        assert(v@.subrange(0, v@.len() as int) =~= v@);
    }
    out
}

/// Index of the first NUL byte at or after `pos`, if any.
pub fn find_nul(b: &[u8], pos: usize) -> (r: Option<usize>)
    requires
        pos <= b@.len(),
    ensures
        match r {
            Some(j) => {
                &&& pos <= j < b@.len()
                &&& b@[j as int] == 0u8
                &&& forall|k: int| pos <= k < j ==> b@[k] != 0u8
            },
            None => forall|k: int| pos <= k < b@.len() ==> b@[k] != 0u8,
        },
{
    let mut i: usize = pos;
    while i < b.len()
        invariant
            pos <= i <= b@.len(),
            forall|k: int| pos <= k < i ==> b@[k] != 0u8,
        decreases b@.len() - i,
    {
        if b[i] == 0 {
            return Some(i);
        }
        i = i + 1;
    }
    None
}

/// Position of the first NUL byte at or after `pos`, as a spec function.
pub open spec fn spec_find_nul(b: Seq<u8>, pos: int) -> Option<int>
    decreases b.len() - pos when 0 <= pos <= b.len()
{
    if pos >= b.len() {
        None
    } else if b[pos] == 0u8 {
        Some(pos)
    } else {
        spec_find_nul(b, pos + 1)
    }
}

/// `spec_find_nul` finds exactly the first NUL at or after `pos`.
pub proof fn lemma_find_nul_characterization(b: Seq<u8>, pos: int, j: int)
    requires
        0 <= pos <= b.len(),
        pos <= j < b.len(),
        b[j] == 0u8,
        forall|k: int| pos <= k < j ==> b[k] != 0u8,
    ensures
        spec_find_nul(b, pos) == Some(j),
    decreases j - pos,
{
    if b[pos] != 0u8 {
        lemma_find_nul_characterization(b, pos + 1, j);
    }
}

/// If no byte of `b` at or after `pos` is NUL, `spec_find_nul` finds nothing.
pub proof fn lemma_find_nul_none(b: Seq<u8>, pos: int)
    requires
        0 <= pos <= b.len(),
        forall|k: int| pos <= k < b.len() ==> b[k] != 0u8,
    ensures
        spec_find_nul(b, pos) is None,
    decreases b.len() - pos,
{
    if pos < b.len() {
        lemma_find_nul_none(b, pos + 1);
    }
}

/// A NUL-terminated string starting at `pos`: the decoded bytes up to
/// (not including) the first NUL, and the position just after that NUL.
pub open spec fn spec_parse_str(b: Seq<u8>, pos: int) -> Option<(Seq<char>, int)> {
    match spec_find_nul(b, pos) {
        None => None,
        Some(j) => {
            let sb = b.subrange(pos, j);
            if valid_utf8(sb) {
                Some((decode_utf8(sb), j + 1))
            } else {
                None
            }
        },
    }
}

/// Like `spec_parse_str`, but with the ASCII letters folded to lowercase
/// before decoding: the normalization applied to entry paths.
pub open spec fn spec_parse_path(b: Seq<u8>, pos: int) -> Option<(Seq<char>, int)> {
    match spec_find_nul(b, pos) {
        None => None,
        Some(j) => {
            let sb = ascii_lower_bytes(b.subrange(pos, j));
            if valid_utf8(sb) {
                Some((decode_utf8(sb), j + 1))
            } else {
                None
            }
        },
    }
}

/// The serialized form of one string: its UTF-8 bytes plus a NUL terminator.
pub open spec fn spec_encode_str(s: Seq<char>) -> Seq<u8> {
    encode_utf8(s).push(0u8)
}

/// Parsing inverts encoding: a storable string encoded at `pos` parses
/// back to itself, whatever follows it.
pub proof fn lemma_parse_str_encode(b: Seq<u8>, pos: int, s: Seq<char>)
    requires
        storable_string(s),
        0 <= pos,
        pos + spec_encode_str(s).len() <= b.len(),
        b.subrange(pos, pos + spec_encode_str(s).len()) == spec_encode_str(s),
    ensures
        spec_parse_str(b, pos) == Some((s, pos + spec_encode_str(s).len())),
{
    let eb = encode_utf8(s);
    let j = pos + eb.len();
    assert(b[j] == spec_encode_str(s)[eb.len() as int]);
    assert forall|k: int| pos <= k < j implies b[k] != 0u8 by {
        assert(b[k] == spec_encode_str(s)[k - pos]);
        assert(spec_encode_str(s)[k - pos] == eb[k - pos]);
    }
    lemma_find_nul_characterization(b, pos, j);
    assert(b.subrange(pos, j) =~= eb);
    assert(decode_utf8(eb) == s);
}

/// Paths already in folded (lowercase-ASCII-letter-free) form parse back
/// to themselves through the path parser as well.
pub proof fn lemma_parse_path_encode(b: Seq<u8>, pos: int, s: Seq<char>)
    requires
        storable_string(s),
        ascii_lower_bytes(encode_utf8(s)) == encode_utf8(s),
        0 <= pos,
        pos + spec_encode_str(s).len() <= b.len(),
        b.subrange(pos, pos + spec_encode_str(s).len()) == spec_encode_str(s),
    ensures
        spec_parse_path(b, pos) == Some((s, pos + spec_encode_str(s).len())),
{
    let eb = encode_utf8(s);
    let j = pos + eb.len();
    assert(b[j] == spec_encode_str(s)[eb.len() as int]);
    assert forall|k: int| pos <= k < j implies b[k] != 0u8 by {
        assert(b[k] == spec_encode_str(s)[k - pos]);
        assert(spec_encode_str(s)[k - pos] == eb[k - pos]);
    }
    lemma_find_nul_characterization(b, pos, j);
    assert(b.subrange(pos, j) =~= eb);
    assert(decode_utf8(eb) == s);
}

/// A concatenation found at `pos` splits into its two segments.
pub proof fn lemma_split_segment(b: Seq<u8>, pos: int, x: Seq<u8>, y: Seq<u8>)
    requires
        0 <= pos,
        pos + x.len() + y.len() <= b.len(),
        b.subrange(pos, pos + x.len() + y.len()) == x + y,
    ensures
        b.subrange(pos, pos + x.len()) == x,
        b.subrange(pos + x.len(), pos + x.len() + y.len()) == y,
{
    let whole = b.subrange(pos, pos + x.len() + y.len());
    assert forall|i: int| 0 <= i < x.len() implies b.subrange(pos, pos + x.len())[i] == x[i] by {
        assert(whole[i] == (x + y)[i]);
    }
    assert(b.subrange(pos, pos + x.len()) =~= x);
    assert forall|i: int| 0 <= i < y.len() implies b.subrange(
        pos + x.len(),
        pos + x.len() + y.len(),
    )[i] == y[i] by {
        assert(whole[x.len() + i] == (x + y)[x.len() + i]);
    }
    assert(b.subrange(pos + x.len(), pos + x.len() + y.len()) =~= y);
}

/// Reads a NUL-terminated UTF-8 string starting at `pos`.
pub fn parse_str(b: &[u8], pos: usize) -> (r: Option<(String, usize)>)
    requires
        pos <= b@.len(),
    ensures
        match r {
            Some(p) => {
                &&& spec_parse_str(b@, pos as int) == Some((p.0@, p.1 as int))
                &&& pos < p.1 <= b@.len()
            },
            None => spec_parse_str(b@, pos as int) is None,
        },
{
    match find_nul(b, pos) {
        None => {
            proof {
                lemma_find_nul_none(b@, pos as int);
            }
            None
        },
        Some(j) => {
            proof {
                lemma_find_nul_characterization(b@, pos as int, j as int);
            }
            let n = b.len();
            assert(j < n);
            let end = j + 1;
            let sb = slice_subrange(b, pos, j);
            let v = slice_to_vec(sb);
            match string_from_utf8(v) {
                Some(s) => Some((s, end)),
                None => None,
            }
        },
    }
}

/// Reads a NUL-terminated path starting at `pos`, folding ASCII letters
/// to lowercase: entry paths are normalized on parse.
pub fn parse_path(b: &[u8], pos: usize) -> (r: Option<(String, usize)>)
    requires
        pos <= b@.len(),
    ensures
        match r {
            Some(p) => {
                &&& spec_parse_path(b@, pos as int) == Some((p.0@, p.1 as int))
                &&& pos < p.1 <= b@.len()
            },
            None => spec_parse_path(b@, pos as int) is None,
        },
{
    match find_nul(b, pos) {
        None => {
            proof {
                lemma_find_nul_none(b@, pos as int);
            }
            None
        },
        Some(j) => {
            proof {
                lemma_find_nul_characterization(b@, pos as int, j as int);
            }
            let n = b.len();
            assert(j < n);
            let end = j + 1;
            let sb = slice_subrange(b, pos, j);
            let v = slice_to_vec(sb);
            let folded = lower_ascii_bytes(&v);
            match string_from_utf8(folded) {
                Some(s) => Some((s, end)),
                None => None,
            }
        },
    }
}

/// A little-endian `u32` at `pos`, if four bytes are available.
pub open spec fn spec_parse_u32(b: Seq<u8>, pos: int) -> Option<(u32, int)> {
    if 0 <= pos && pos + 4 <= b.len() {
        Some((spec_u32_from_le_bytes(b.subrange(pos, pos + 4)), pos + 4))
    } else {
        None
    }
}

/// A little-endian `u64` at `pos`, if eight bytes are available.
pub open spec fn spec_parse_u64(b: Seq<u8>, pos: int) -> Option<(u64, int)> {
    if 0 <= pos && pos + 8 <= b.len() {
        Some((spec_u64_from_le_bytes(b.subrange(pos, pos + 8)), pos + 8))
    } else {
        None
    }
}

/// Reads a little-endian `u32` at `pos`.
pub fn parse_u32(b: &[u8], pos: usize) -> (r: Option<(u32, usize)>)
    requires
        pos <= b@.len(),
    ensures
        match r {
            Some(p) => spec_parse_u32(b@, pos as int) == Some((p.0, p.1 as int)) && p.1 <= b@.len(),
            None => spec_parse_u32(b@, pos as int) is None,
        },
{
    if b.len() - pos >= 4 {
        let sb = slice_subrange(b, pos, pos + 4);
        Some((u32_from_le_bytes(sb), pos + 4))
    } else {
        None
    }
}

/// Reads a little-endian `u64` at `pos`.
pub fn parse_u64(b: &[u8], pos: usize) -> (r: Option<(u64, usize)>)
    requires
        pos <= b@.len(),
    ensures
        match r {
            Some(p) => spec_parse_u64(b@, pos as int) == Some((p.0, p.1 as int)) && p.1 <= b@.len(),
            None => spec_parse_u64(b@, pos as int) is None,
        },
{
    if b.len() - pos >= 8 {
        let sb = slice_subrange(b, pos, pos + 8);
        Some((u64_from_le_bytes(sb), pos + 8))
    } else {
        None
    }
}

/// Relies on `String::from_utf8`: it succeeds exactly on valid UTF-8
/// input, and the returned string's bytes are the input bytes.
#[verifier::external_body]
pub fn string_from_utf8(v: Vec<u8>) -> (r: Option<String>)
    ensures
        match r {
            Some(s) => valid_utf8(v@) && encode_utf8(s@) == v@,
            None => !valid_utf8(v@),
        },
{
    match String::from_utf8(v) {
        Ok(s) => Some(s),
        Err(_) => None,
    }
}

} // verus!
