//! The decompression front-end: containers may be distributed inside an
//! LZMA stream.  The stream is decompressed fully into memory first,
//! because header and entry parsing need random access.  Decoding stops
//! at the logical end of the compressed stream, so trailing padding
//! after it is tolerated; a stream that stalls or errors before its end
//! is an `LZMA` failure.

use vstd::prelude::*;

use crate::error::GMAError;
use crate::gma_file::{GMAFile, spec_file_name};
use crate::header::spec_parse_header;
use crate::name::{spec_dec_digits, spec_extracted_name, unicode_lower};

verus! {

/// What the LZMA decoder yields for a stream: the decoded bytes up to
/// the logical end of the stream (bytes after it are ignored), or
/// nothing where the stream errors or stalls before reaching its end.
/// A function of the input bytes alone.
pub uninterp spec fn lzma_decoded(compressed: Seq<u8>) -> Option<Seq<u8>>;

/// Relies on xz2's `Stream::new_lzma_decoder` (no memory ceiling) and
/// `Stream::process_vec` with `Action::Run`: driven until the decoder
/// reports the logical end of the stream, they yield the decoded bytes,
/// a function of the input alone; bytes after the end are never
/// consumed, and a stream that errors, or makes no progress before its
/// end, yields nothing.
#[verifier::external_body]
fn lzma_decode_call(input: &[u8]) -> (r: Option<Vec<u8>>)
    ensures
        r matches Some(v) ==> lzma_decoded(input@) == Some(v@),
        r is None ==> lzma_decoded(input@) is None,
{
    let mut s = xz2::stream::Stream::new_lzma_decoder(u64::MAX).ok()?;
    let mut out = Vec::new();
    let mut pos = 0usize;
    loop {
        out.reserve(65536);
        let (i0, o0) = (s.total_in(), s.total_out());
        match s.process_vec(&input[pos..], &mut out, xz2::stream::Action::Run) {
            Ok(xz2::stream::Status::StreamEnd) => return Some(out),
            Ok(_) if s.total_in() == i0 && s.total_out() == o0 => return None,
            Ok(_) => pos += (s.total_in() - i0) as usize,
            Err(_) => return None,
        }
    }
}

/// Runs a compressed stream through the LZMA decoder into memory.
/// Succeeds with the decoded bytes exactly where the stream decodes to
/// its logical end; trailing bytes after that end are ignored.
pub fn lzma_decompress(input: &[u8]) -> (r: Result<Vec<u8>, GMAError>)
    ensures
        match r {
            Ok(v) => lzma_decoded(input@) == Some(v@),
            Err(e) => e == GMAError::LZMA && lzma_decoded(input@) is None,
        },
{
    match lzma_decode_call(input) {
        Some(v) => Ok(v),
        None => Err(GMAError::LZMA),
    }
}

impl GMAFile {
    /// Opens a compressed container: decompresses the whole stream into
    /// memory, then reads the header from the decompressed bytes exactly
    /// as `read_header` would read them from a plain file.
    pub fn decompress(compressed: &[u8], path: &str) -> (r: Result<(GMAFile, Vec<u8>), GMAError>)
        ensures
            match r {
                Ok(p) => {
                    &&& lzma_decoded(compressed@) == Some(p.1@)
                    &&& spec_parse_header(p.1@) matches Ok(h) && p.0.version == h.0
                        && p.0.pointers.metadata == h.1
                    &&& p.0.pointers.entries == 0 && p.0.pointers.entries_list == 0
                    &&& p.0.path@ == path@ && p.0.size == p.1@.len()
                    &&& p.0.id is None && p.0.metadata is None && p.0.entries is None
                        && p.0.modified is None
                    &&& spec_file_name(path@).len() > 0 ==> p.0.extracted_name@
                        == spec_extracted_name(unicode_lower(spec_file_name(path@)), None)
                    &&& spec_file_name(path@).len() == 0 ==> exists|t: u64|
                        p.0.extracted_name@ == spec_extracted_name(
                            "gmpublisher_extracted_"@ + spec_dec_digits(t as nat),
                            None,
                        )
                },
                Err(e) => {
                    (e == GMAError::LZMA && lzma_decoded(compressed@) is None) || (lzma_decoded(
                        compressed@,
                    ) matches Some(d) && spec_parse_header(d) == Err::<(u8, int), GMAError>(e))
                },
            },
    {
        let decompressed = match lzma_decompress(compressed) {
            Ok(v) => v,
            Err(e) => { return Err(e); },
        };
        let n = decompressed.len() as u64;
        let gma = match GMAFile::read_header(decompressed.as_slice(), path, n) {
            Ok(g) => g,
            Err(e) => { return Err(e); },
        };
        Ok((gma, decompressed))
    }
}

} // verus!
