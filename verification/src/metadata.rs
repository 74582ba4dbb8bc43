//! The metadata block of a container: a title plus either the standard
//! descriptor (addon type, tags, ignore patterns) or the legacy free-text
//! description.  Exactly one shape is active per container.

use vstd::prelude::*;
use vstd::bytes::{spec_u32_to_le_bytes, spec_u32_from_le_bytes, u32_to_le_bytes, lemma_auto_spec_u32_to_from_le_bytes};
use vstd::utf8::encode_utf8;

use crate::bytes::{
    spec_encode_str, spec_parse_str, spec_parse_u32, storable_string, parse_str, parse_u32,
    find_nul, lemma_parse_str_encode, lemma_split_segment,
};
use crate::error::GMAError;

verus! {

/// Container metadata.  The two shapes carry no tag on disk: decoding
/// attempts a strict match of the standard shape first and falls back
/// to the legacy shape only where that fails.
#[derive(Debug, Clone)]
pub enum GMAMetadata {
    Standard { title: String, addon_type: String, tags: Vec<String>, ignore: Vec<String> },
    Legacy { title: String, description: String },
}

/// Mathematical model of a metadata block.
#[verifier::ext_equal]
pub enum MetadataModel {
    Standard { title: Seq<char>, addon_type: Seq<char>, tags: Seq<Seq<char>>, ignore: Seq<Seq<char>> },
    Legacy { title: Seq<char>, description: Seq<char> },
}

impl View for GMAMetadata {
    type V = MetadataModel;

    open spec fn view(&self) -> MetadataModel {
        match self {
            GMAMetadata::Standard { title, addon_type, tags, ignore } => MetadataModel::Standard {
                title: title@,
                addon_type: addon_type@,
                tags: tags.deep_view(),
                ignore: ignore.deep_view(),
            },
            GMAMetadata::Legacy { title, description } => MetadataModel::Legacy {
                title: title@,
                description: description@,
            },
        }
    }
}

/// The title of either shape.
pub open spec fn spec_title(m: MetadataModel) -> Seq<char> {
    match m {
        MetadataModel::Standard { title, .. } => title,
        MetadataModel::Legacy { title, .. } => title,
    }
}

impl GMAMetadata {
    /// The title of either shape.
    pub fn title(&self) -> (r: &str)
        ensures
            r@ == spec_title(self@),
    {
        match self {
            GMAMetadata::Standard { title, .. } => title.as_str(),
            GMAMetadata::Legacy { title, .. } => title.as_str(),
        }
    }

    /// The addon-type string; the legacy shape has none.
    pub fn addon_type(&self) -> (r: Option<&str>)
        ensures
            match r {
                Some(t) => self@ matches MetadataModel::Standard { addon_type, .. }
                    && t@ == addon_type,
                None => self@ is Legacy,
            },
    {
        match self {
            GMAMetadata::Standard { addon_type, .. } => Some(addon_type.as_str()),
            _ => None,
        }
    }

    /// The ordered tag list; the legacy shape has none.
    pub fn tags(&self) -> (r: Option<&Vec<String>>)
        ensures
            match r {
                Some(t) => self@ matches MetadataModel::Standard { tags, .. }
                    && t.deep_view() == tags,
                None => self@ is Legacy,
            },
    {
        match self {
            GMAMetadata::Standard { tags, .. } => Some(tags),
            _ => None,
        }
    }

    /// The ignore-pattern list; the legacy shape has none.
    pub fn ignore(&self) -> (r: Option<&Vec<String>>)
        ensures
            match r {
                Some(t) => self@ matches MetadataModel::Standard { ignore, .. }
                    && t.deep_view() == ignore,
                None => self@ is Legacy,
            },
    {
        match self {
            GMAMetadata::Standard { ignore, .. } => Some(ignore),
            _ => None,
        }
    }
}

/// Whether a metadata block can be serialized: every string must be
/// storable (no embedded NUL in its encoding) and the lists must fit
/// their 32-bit length prefixes.
pub open spec fn metadata_wf(m: MetadataModel) -> bool {
    match m {
        MetadataModel::Standard { title, addon_type, tags, ignore } => {
            &&& storable_string(title)
            &&& storable_string(addon_type)
            &&& tags.len() <= u32::MAX
            &&& ignore.len() <= u32::MAX
            &&& forall|i: int| 0 <= i < tags.len() ==> storable_string(#[trigger] tags[i])
            &&& forall|i: int| 0 <= i < ignore.len() ==> storable_string(#[trigger] ignore[i])
        },
        MetadataModel::Legacy { title, description } => {
            &&& storable_string(title)
            &&& storable_string(description)
        },
    }
}

/// Serialized form of a string list: each string NUL-terminated, in order.
pub open spec fn spec_encode_str_list(l: Seq<Seq<char>>) -> Seq<u8>
    decreases l.len(),
{
    if l.len() == 0 {
        Seq::empty()
    } else {
        spec_encode_str(l[0]) + spec_encode_str_list(l.drop_first())
    }
}

/// Serialized form of a metadata block: the shape's strings
/// NUL-terminated, with each list preceded by its 32-bit count.  No
/// shape tag is written: the shapes are told apart structurally on
/// parse.
pub open spec fn spec_encode_metadata(m: MetadataModel) -> Seq<u8> {
    match m {
        MetadataModel::Standard { title, addon_type, tags, ignore } => spec_encode_str(title)
            + spec_encode_str(addon_type)
            + spec_u32_to_le_bytes(tags.len() as u32) + spec_encode_str_list(tags)
            + spec_u32_to_le_bytes(ignore.len() as u32) + spec_encode_str_list(ignore),
        MetadataModel::Legacy { title, description } => spec_encode_str(title)
            + spec_encode_str(description),
    }
}

/// A list of `n` NUL-terminated strings starting at `pos`.
pub open spec fn spec_parse_str_list(b: Seq<u8>, pos: int, n: nat) -> Option<(Seq<Seq<char>>, int)>
    decreases n,
{
    if n == 0 {
        Some((Seq::empty(), pos))
    } else {
        match spec_parse_str(b, pos) {
            None => None,
            Some((s, p2)) => match spec_parse_str_list(b, p2, (n - 1) as nat) {
                None => None,
                Some((l, p3)) => Some((seq![s] + l, p3)),
            },
        }
    }
}

/// A strict match of the standard shape at `pos`: title, addon type,
/// counted tag list, counted ignore list.
pub open spec fn spec_parse_standard(b: Seq<u8>, pos: int) -> Option<(MetadataModel, int)> {
    if !(0 <= pos <= b.len()) {
        None
    } else {
        match spec_parse_str(b, pos) {
            None => None,
            Some((title, p1)) => match spec_parse_str(b, p1) {
                None => None,
                Some((addon_type, p2)) => match spec_parse_u32(b, p2) {
                    None => None,
                    Some((n1, p3)) => match spec_parse_str_list(b, p3, n1 as nat) {
                        None => None,
                        Some((tags, p4)) => match spec_parse_u32(b, p4) {
                            None => None,
                            Some((n2, p5)) => match spec_parse_str_list(b, p5, n2 as nat) {
                                None => None,
                                Some((ignore, p6)) => Some(
                                    (MetadataModel::Standard { title, addon_type, tags, ignore }, p6),
                                ),
                            },
                        },
                    },
                },
            },
        }
    }
}

/// The legacy shape at `pos`: title and free-text description.
pub open spec fn spec_parse_legacy(b: Seq<u8>, pos: int) -> Option<(MetadataModel, int)> {
    if !(0 <= pos <= b.len()) {
        None
    } else {
        match spec_parse_str(b, pos) {
            None => None,
            Some((title, p1)) => match spec_parse_str(b, p1) {
                None => None,
                Some((description, p2)) => Some(
                    (MetadataModel::Legacy { title, description }, p2),
                ),
            },
        }
    }
}

/// A metadata block starting at `pos`: the shapes carry no tag, so the
/// standard shape is matched strictly first and the legacy shape is the
/// fallback.  A legacy block whose following bytes happen to satisfy the
/// standard shape is therefore read as standard: the cost of the
/// untagged layout.
pub open spec fn spec_parse_metadata(b: Seq<u8>, pos: int) -> Option<(MetadataModel, int)> {
    match spec_parse_standard(b, pos) {
        Some(r) => Some(r),
        None => spec_parse_legacy(b, pos),
    }
}

/// Whether `s` can stand NUL-terminated in the container.
pub fn encodable_str(s: &str) -> (r: bool)
    ensures
        r == storable_string(s@),
{
    let b = s.as_bytes();
    find_nul(b, 0).is_none()
}

/// Appends all of `b` to `out`.
pub fn append_bytes(out: &mut Vec<u8>, b: &[u8])
    ensures
        final(out)@ == old(out)@ + b@,
{
    let mut i: usize = 0;
    while i < b.len()
        invariant
            i <= b@.len(),
            out@ == old(out)@ + b@.subrange(0, i as int),
        decreases b@.len() - i,
    {
        out.push(b[i]);
        i = i + 1;
        proof {
            assert(old(out)@ + b@.subrange(0, i as int)
                =~= (old(out)@ + b@.subrange(0, i - 1)).push(b@[i - 1]));
        }
    }
    proof {
        assert(old(out)@ + b@.subrange(0, b@.len() as int) =~= old(out)@ + b@);
    }
}

/// Appends the serialized form of `s` to `out`.
pub fn append_str(out: &mut Vec<u8>, s: &str)
    requires
        storable_string(s@),
    ensures
        final(out)@ == old(out)@ + spec_encode_str(s@),
{
    let b = s.as_bytes();
    append_bytes(out, b);
    out.push(0);
    proof {
        assert(out@ =~= old(out)@ + spec_encode_str(s@));
    }
}

/// Appending one string to a list appends its serialized form to the
/// list's serialized form.
pub proof fn lemma_encode_str_list_snoc(l: Seq<Seq<char>>, s: Seq<char>)
    ensures
        spec_encode_str_list(l.push(s)) == spec_encode_str_list(l) + spec_encode_str(s),
    decreases l.len(),
{
    if l.len() == 0 {
        assert(l.push(s)[0] == s);
        assert(l.push(s).drop_first() =~= Seq::<Seq<char>>::empty());
        assert(spec_encode_str_list(l.push(s)) == spec_encode_str(s)
            + spec_encode_str_list(Seq::<Seq<char>>::empty()));
        assert(spec_encode_str_list(Seq::<Seq<char>>::empty()) == Seq::<u8>::empty());
        assert(l =~= Seq::<Seq<char>>::empty());
        assert(spec_encode_str_list(l.push(s)) =~= spec_encode_str_list(l) + spec_encode_str(s));
    } else {
        assert(l.push(s)[0] == l[0]);
        assert(l.push(s).drop_first() =~= l.drop_first().push(s));
        lemma_encode_str_list_snoc(l.drop_first(), s);
        assert(spec_encode_str_list(l.push(s)) == spec_encode_str(l[0])
            + spec_encode_str_list(l.drop_first().push(s)));
        assert(spec_encode_str(l[0]) + (spec_encode_str_list(l.drop_first()) + spec_encode_str(s))
            =~= (spec_encode_str(l[0]) + spec_encode_str_list(l.drop_first())) + spec_encode_str(s));
    }
}

/// Appends each string of `l`, NUL-terminated, to `out`; fails with no
/// change promised exactly where some string is not storable.
pub fn append_str_list(out: &mut Vec<u8>, l: &Vec<String>) -> (r: bool)
    ensures
        r ==> final(out)@ == old(out)@ + spec_encode_str_list(l.deep_view())
            && (forall|i: int| 0 <= i < l.deep_view().len() ==> storable_string(
                #[trigger] l.deep_view()[i],
            )),
        !r ==> exists|i: int| 0 <= i < l.deep_view().len() && !storable_string(
            #[trigger] l.deep_view()[i],
        ),
{
    let ghost l0 = l.deep_view();
    let mut i: usize = 0;
    while i < l.len()
        invariant
            i <= l0.len(),
            l.deep_view() == l0,
            out@ == old(out)@ + spec_encode_str_list(l0.subrange(0, i as int)),
            forall|k: int| 0 <= k < i ==> storable_string(#[trigger] l0[k]),
        decreases l0.len() - i,
    {
        let s = &l[i];
        if !encodable_str(s.as_str()) {
            proof {
                assert(l.deep_view()[i as int] == l@[i as int]@);
                assert(!storable_string(l.deep_view()[i as int]));
            }
            return false;
        }
        append_str(out, s.as_str());
        i = i + 1;
        proof {
            lemma_encode_str_list_snoc(l0.subrange(0, i - 1), l0[i - 1]);
            assert(l0.subrange(0, i as int) =~= l0.subrange(0, i - 1).push(l0[i - 1]));
        }
    }
    proof {
        assert(l0.subrange(0, l0.len() as int) =~= l0);
    }
    true
}

/// Parses a list of `n` NUL-terminated strings starting at `pos`.
pub fn parse_str_list(b: &[u8], pos: usize, n: u32) -> (r: Option<(Vec<String>, usize)>)
    requires
        pos <= b@.len(),
    ensures
        match r {
            Some(p) => {
                &&& spec_parse_str_list(b@, pos as int, n as nat) == Some(
                    (p.0.deep_view(), p.1 as int),
                )
                &&& pos <= p.1 <= b@.len()
            },
            None => spec_parse_str_list(b@, pos as int, n as nat) is None,
        },
{
    let mut acc: Vec<String> = Vec::new();
    let mut cur: usize = pos;
    let mut i: u32 = 0;
    while i < n
        invariant
            pos <= cur <= b@.len(),
            i <= n,
            acc.deep_view().len() == i as nat,
            forall|l: Seq<Seq<char>>, e: int|
                spec_parse_str_list(b@, cur as int, (n - i) as nat) == Some((l, e)) ==>
                    spec_parse_str_list(b@, pos as int, n as nat) == Some(
                        (acc.deep_view() + l, e),
                    ),
            spec_parse_str_list(b@, cur as int, (n - i) as nat) is None ==>
                spec_parse_str_list(b@, pos as int, n as nat) is None,
        decreases n - i,
    {
        let ghost acc0 = acc.deep_view();
        let ghost cur0 = cur as int;
        match parse_str(b, cur) {
            None => {
                return None;
            },
            Some((s, next)) => {
                acc.push(s);
                cur = next;
                i = i + 1;
                proof {
                    assert(acc.deep_view() =~= acc0.push(s@));
                    assert forall|l: Seq<Seq<char>>, e: int|
                        spec_parse_str_list(b@, cur as int, (n - i) as nat) == Some((l, e))
                        implies spec_parse_str_list(b@, pos as int, n as nat) == Some(
                            (acc.deep_view() + l, e),
                        ) by {
                        assert(spec_parse_str_list(b@, cur0, (n - i + 1) as nat) == Some(
                            (seq![s@] + l, e),
                        ));
                        assert(acc0 + (seq![s@] + l) =~= acc.deep_view() + l);
                    }
                    if spec_parse_str_list(b@, cur as int, (n - i) as nat) is None {
                        assert(spec_parse_str_list(b@, cur0, (n - i + 1) as nat) is None);
                    }
                }
            },
        }
    }
    proof {
        assert(spec_parse_str_list(b@, cur as int, 0) == Some(
            (Seq::<Seq<char>>::empty(), cur as int),
        ));
        assert(acc.deep_view() + Seq::<Seq<char>>::empty() =~= acc.deep_view());
    }
    Some((acc, cur))
}

/// Attempts a strict match of the standard shape at `pos`.
fn parse_standard(b: &[u8], pos: usize) -> (r: Option<(GMAMetadata, usize)>)
    requires
        pos <= b@.len(),
    ensures
        match r {
            Some(p) => {
                &&& spec_parse_standard(b@, pos as int) == Some((p.0@, p.1 as int))
                &&& pos < p.1 <= b@.len()
            },
            None => spec_parse_standard(b@, pos as int) is None,
        },
{
    let (title, p1) = parse_str(b, pos)?;
    let (addon_type, p2) = parse_str(b, p1)?;
    let (n1, p3) = parse_u32(b, p2)?;
    let (tags, p4) = parse_str_list(b, p3, n1)?;
    let (n2, p5) = parse_u32(b, p4)?;
    let (ignore, p6) = parse_str_list(b, p5, n2)?;
    Some((GMAMetadata::Standard { title, addon_type, tags, ignore }, p6))
}

/// Parses the metadata block starting at `pos`: the standard shape is
/// matched strictly first, the legacy shape is the fallback.  Fails with
/// `FormatError` exactly where neither shape fits.
pub fn parse_metadata(b: &[u8], pos: usize) -> (r: Result<(GMAMetadata, usize), GMAError>)
    requires
        pos <= b@.len(),
    ensures
        match r {
            Ok(p) => {
                &&& spec_parse_metadata(b@, pos as int) == Some((p.0@, p.1 as int))
                &&& pos < p.1 <= b@.len()
            },
            Err(e) => spec_parse_metadata(b@, pos as int) is None && e == GMAError::FormatError,
        },
{
    if let Some(r) = parse_standard(b, pos) {
        return Ok(r);
    }
    let (title, p1) = match parse_str(b, pos) {
        Some(x) => x,
        None => { return Err(GMAError::FormatError); },
    };
    let (description, p2) = match parse_str(b, p1) {
        Some(x) => x,
        None => { return Err(GMAError::FormatError); },
    };
    Ok((GMAMetadata::Legacy { title, description }, p2))
}

/// Serializes a metadata block.  Fails with `FormatError` exactly where
/// some string holds an embedded NUL (the lists always fit their 32-bit
/// counts: they are in-memory vectors).
pub fn build_metadata_block(m: &GMAMetadata) -> (r: Result<Vec<u8>, GMAError>)
    ensures
        match r {
            Ok(v) => metadata_wf(m@) && v@ == spec_encode_metadata(m@),
            Err(e) => !metadata_wf(m@) && e == GMAError::FormatError,
        },
{
    match m {
        GMAMetadata::Standard { title, addon_type, tags, ignore } => {
            if !encodable_str(title.as_str()) || !encodable_str(addon_type.as_str()) {
                return Err(GMAError::FormatError);
            }
            if tags.len() > (u32::MAX as usize) || ignore.len() > (u32::MAX as usize) {
                return Err(GMAError::FormatError);
            }
            let mut out: Vec<u8> = Vec::new();
            append_str(&mut out, title.as_str());
            append_str(&mut out, addon_type.as_str());
            let n1 = u32_to_le_bytes(tags.len() as u32);
            append_bytes(&mut out, n1.as_slice());
            if !append_str_list(&mut out, tags) {
                return Err(GMAError::FormatError);
            }
            let n2 = u32_to_le_bytes(ignore.len() as u32);
            append_bytes(&mut out, n2.as_slice());
            if !append_str_list(&mut out, ignore) {
                return Err(GMAError::FormatError);
            }
            proof {
                assert(tags.deep_view().len() == tags@.len());
                assert(ignore.deep_view().len() == ignore@.len());
                assert(out@ =~= spec_encode_metadata(m@));
            }
            Ok(out)
        },
        GMAMetadata::Legacy { title, description } => {
            if !encodable_str(title.as_str()) || !encodable_str(description.as_str()) {
                return Err(GMAError::FormatError);
            }
            let mut out: Vec<u8> = Vec::new();
            append_str(&mut out, title.as_str());
            append_str(&mut out, description.as_str());
            proof {
                assert(out@ =~= spec_encode_metadata(m@));
            }
            Ok(out)
        },
    }
}

/// A 32-bit count encoded at `pos` parses back to itself.
pub proof fn lemma_parse_u32_encode(b: Seq<u8>, pos: int, n: u32)
    requires
        0 <= pos,
        pos + 4 <= b.len(),
        b.subrange(pos, pos + 4) == spec_u32_to_le_bytes(n),
    ensures
        spec_parse_u32(b, pos) == Some((n, pos + 4)),
{
    lemma_auto_spec_u32_to_from_le_bytes();
    assert(spec_u32_to_le_bytes(n).len() == 4);
    assert(spec_u32_from_le_bytes(spec_u32_to_le_bytes(n)) == n);
}

/// A storable string list encoded at `pos` parses back to itself.
pub proof fn lemma_parse_str_list_encode(b: Seq<u8>, pos: int, l: Seq<Seq<char>>)
    requires
        0 <= pos,
        forall|i: int| 0 <= i < l.len() ==> storable_string(#[trigger] l[i]),
        pos + spec_encode_str_list(l).len() <= b.len(),
        b.subrange(pos, pos + spec_encode_str_list(l).len()) == spec_encode_str_list(l),
    ensures
        spec_parse_str_list(b, pos, l.len()) == Some(
            (l, pos + spec_encode_str_list(l).len()),
        ),
    decreases l.len(),
{
    if l.len() == 0 {
        assert(l =~= Seq::<Seq<char>>::empty());
    } else {
        let e0 = spec_encode_str(l[0]);
        let er = spec_encode_str_list(l.drop_first());
        lemma_split_segment(b, pos, e0, er);
        lemma_parse_str_encode(b, pos, l[0]);
        assert(forall|i: int| 0 <= i < l.drop_first().len() ==> storable_string(
            #[trigger] l.drop_first()[i],
        ));
        lemma_parse_str_list_encode(b, pos + e0.len(), l.drop_first());
        assert(seq![l[0]] + l.drop_first() =~= l);
    }
}

/// A well-formed standard block encoded at `pos` parses back to itself
/// under the strict standard match, whatever follows it.
pub proof fn lemma_parse_standard_encode(b: Seq<u8>, pos: int, m: MetadataModel)
    requires
        0 <= pos,
        m is Standard,
        metadata_wf(m),
        pos + spec_encode_metadata(m).len() <= b.len(),
        b.subrange(pos, pos + spec_encode_metadata(m).len()) == spec_encode_metadata(m),
    ensures
        spec_parse_standard(b, pos) == Some((m, pos + spec_encode_metadata(m).len())),
{
    lemma_auto_spec_u32_to_from_le_bytes();
    let e = spec_encode_metadata(m);
    match m {
        MetadataModel::Standard { title, addon_type, tags, ignore } => {
            let e1 = spec_encode_str(title);
            let e2 = spec_encode_str(addon_type);
            let c1 = spec_u32_to_le_bytes(tags.len() as u32);
            let el1 = spec_encode_str_list(tags);
            let c2 = spec_u32_to_le_bytes(ignore.len() as u32);
            let el2 = spec_encode_str_list(ignore);
            assert(e =~= e1 + (e2 + (c1 + (el1 + (c2 + el2)))));
            lemma_split_segment(b, pos, e1, e2 + (c1 + (el1 + (c2 + el2))));
            lemma_parse_str_encode(b, pos, title);
            let p1 = pos + e1.len();
            lemma_split_segment(b, p1, e2, c1 + (el1 + (c2 + el2)));
            lemma_parse_str_encode(b, p1, addon_type);
            let p2 = p1 + e2.len();
            lemma_split_segment(b, p2, c1, el1 + (c2 + el2));
            lemma_parse_u32_encode(b, p2, tags.len() as u32);
            let p3 = p2 + 4;
            lemma_split_segment(b, p3, el1, c2 + el2);
            lemma_parse_str_list_encode(b, p3, tags);
            let p4 = p3 + el1.len();
            lemma_split_segment(b, p4, c2, el2);
            lemma_parse_u32_encode(b, p4, ignore.len() as u32);
            let p5 = p4 + 4;
            assert(b.subrange(p5, p5 + el2.len()) == el2);
            lemma_parse_str_list_encode(b, p5, ignore);
            assert(p5 + el2.len() == pos + e.len());
        },
        MetadataModel::Legacy { .. } => {},
    }
}

/// A well-formed metadata block encoded at `pos` parses back to itself,
/// whatever follows it.  For the legacy shape this holds only where the
/// bytes do not also satisfy the strict standard match, which wins by
/// the untagged layout's precedence; the premise rules those inputs out.
pub proof fn lemma_parse_metadata_encode(b: Seq<u8>, pos: int, m: MetadataModel)
    requires
        0 <= pos,
        metadata_wf(m),
        m is Legacy ==> spec_parse_standard(b, pos) is None,
        pos + spec_encode_metadata(m).len() <= b.len(),
        b.subrange(pos, pos + spec_encode_metadata(m).len()) == spec_encode_metadata(m),
    ensures
        spec_parse_metadata(b, pos) == Some((m, pos + spec_encode_metadata(m).len())),
{
    let e = spec_encode_metadata(m);
    match m {
        MetadataModel::Standard { .. } => {
            lemma_parse_standard_encode(b, pos, m);
        },
        MetadataModel::Legacy { title, description } => {
            let e1 = spec_encode_str(title);
            let e2 = spec_encode_str(description);
            assert(e =~= e1 + e2);
            lemma_split_segment(b, pos, e1, e2);
            lemma_parse_str_encode(b, pos, title);
            let p1 = pos + e1.len();
            lemma_parse_str_encode(b, p1, description);
            assert(p1 + e2.len() == pos + e.len());
        },
    }
}

} // verus!
