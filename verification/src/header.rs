//! The fixed container header: a 4-byte magic signature and a 1-byte
//! format version.  Parsing it never looks past the first five bytes.

use vstd::prelude::*;

use crate::error::GMAError;

verus! {

/// The 4-byte magic signature every container begins with.
pub open spec fn magic() -> Seq<u8> {
    seq![71u8, 77u8, 65u8, 68u8]
}

/// The format version the writer emits.
pub const GMA_VERSION: u8 = 3;

/// Whether the bytes present agree with the signature as far as they go.
/// A shorter source can still be consistent: it is truncated, not wrong.
pub open spec fn header_prefix_consistent(b: Seq<u8>) -> bool {
    forall|i: int| 0 <= i < 4 && i < b.len() ==> b[i] == magic()[i]
}

/// The header of a byte source: its version byte and the offset where
/// the metadata block begins.  A source that deviates from the
/// signature is `InvalidHeader`; one that agrees but ends before the
/// five header bytes is truncated, hence `IOError`.
pub open spec fn spec_parse_header(b: Seq<u8>) -> Result<(u8, int), GMAError> {
    if !header_prefix_consistent(b) {
        Err(GMAError::InvalidHeader)
    } else if b.len() < 5 {
        Err(GMAError::IOError)
    } else {
        Ok((b[4], 5))
    }
}

/// Header validation: a source of four or more bytes that does not begin
/// with the exact signature is `InvalidHeader`; a truncated header that
/// agrees with the signature so far is `IOError`; parsing succeeds
/// exactly on sources that begin with the signature and reach the
/// version byte.
pub proof fn lemma_header_validation(b: Seq<u8>)
    ensures
        b.len() >= 4 && b.subrange(0, 4) != magic() ==> spec_parse_header(b) == Err::<
            (u8, int),
            GMAError,
        >(GMAError::InvalidHeader),
        b.len() < 5 && header_prefix_consistent(b) ==> spec_parse_header(b) == Err::<
            (u8, int),
            GMAError,
        >(GMAError::IOError),
        spec_parse_header(b) is Ok <==> b.len() >= 5 && b.subrange(0, 4) == magic(),
{
    if b.len() >= 4 {
        if header_prefix_consistent(b) {
            assert(b.subrange(0, 4) =~= magic());
        } else {
            assert(b.subrange(0, 4) != magic()) by {
                let i = choose|i: int| 0 <= i < 4 && i < b.len() && b[i] != magic()[i];
                assert(b.subrange(0, 4)[i] != magic()[i]);
            }
        }
    }
}

/// Parses the fixed header of `b`: checks the signature, reads the
/// version byte, and returns the offset where the metadata block begins.
pub fn parse_header(b: &[u8]) -> (r: Result<(u8, usize), GMAError>)
    ensures
        match r {
            Ok(p) => spec_parse_header(b@) == Ok::<(u8, int), GMAError>((p.0, p.1 as int))
                && p.1 == 5 && b@.len() >= 5,
            Err(e) => spec_parse_header(b@) == Err::<(u8, int), GMAError>(e),
        },
{
    let n = b.len();
    let mut i: usize = 0;
    while i < 4 && i < n
        invariant
            0 <= i <= 4,
            i <= n,
            n == b@.len(),
            forall|k: int| 0 <= k < i ==> b@[k] == magic()[k],
        decreases 4 - i,
    {
        let expected: u8 = if i == 0 {
            71
        } else if i == 1 {
            77
        } else if i == 2 {
            65
        } else {
            68
        };
        if b[i] != expected {
            proof {
                assert(b@[i as int] != magic()[i as int]);
            }
            return Err(GMAError::InvalidHeader);
        }
        i = i + 1;
    }
    proof {
        assert(header_prefix_consistent(b@));
    }
    if n < 5 {
        return Err(GMAError::IOError);
    }
    Ok((b[4], 5))
}

} // verus!
