//! The publishing-side helpers around the codec: the content-directory
//! checks run before an addon is uploaded (whitelist verification, the
//! single-container rule, icon constraints).  The upload itself talks
//! to the remote content-distribution service and lives outside this
//! library; everything it decides on is computed and verified here.

use vstd::prelude::*;
use vstd::utf8::encode_utf8;

use crate::entries::{EntryModel, GMAEntry};
use crate::whitelist::{
    check, filter_default_ignored, is_ignored, spec_default_kept, spec_user_ignored,
    spec_whitelisted,
};

verus! {

broadcast use vstd::seq_lib::group_to_multiset_ensures, vstd::multiset::group_multiset_axioms;

/// Everything that can go wrong while preparing or submitting an addon.
#[derive(Debug, Clone, PartialEq, Eq)]
pub enum PublishError {
    /// Some content paths are not allowed by the whitelist.
    NotWhitelisted(Vec<String>),
    /// The content directory holds nothing to pack.
    NoEntries,
    /// Two entries normalize to the same path.
    DuplicateEntries,
    /// The content path is not a directory.
    InvalidContentPath,
    /// The content directory holds more than one container.
    MultipleGMAs,
    /// The icon file is over the size ceiling.
    IconTooLarge,
    /// The icon file is under the size floor.
    IconTooSmall,
    /// The icon decodes under none of the accepted image formats.
    IconInvalidFormat,
    /// An underlying read or write failure.
    IOError,
    /// The remote service refused the submission.
    SteamError,
    /// The icon decoder failed outside the format-detection path.
    ImageError,
}

impl PublishError {
    /// Stable machine-readable code for each error, as reported to sinks.
    pub fn message(&self) -> (r: &'static str)
        ensures
            *self matches PublishError::NotWhitelisted(_) ==> r@ == "ERR_WHITELIST"@,
            *self == PublishError::NoEntries ==> r@ == "ERR_NO_ENTRIES"@,
            *self == PublishError::DuplicateEntries ==> r@ == "ERR_DUPLICATE_ENTRIES"@,
            *self == PublishError::InvalidContentPath ==> r@ == "ERR_INVALID_CONTENT_PATH"@,
            *self == PublishError::MultipleGMAs ==> r@ == "ERR_MULTIPLE_GMAS"@,
            *self == PublishError::IconTooLarge ==> r@ == "ERR_ICON_TOO_LARGE"@,
            *self == PublishError::IconTooSmall ==> r@ == "ERR_ICON_TOO_SMALL"@,
            *self == PublishError::IconInvalidFormat ==> r@ == "ERR_ICON_INVALID_FORMAT"@,
            *self == PublishError::IOError ==> r@ == "ERR_IO_ERROR"@,
            *self == PublishError::SteamError ==> r@ == "ERR_STEAM_ERROR"@,
            *self == PublishError::ImageError ==> r@ == "ERR_IMAGE_ERROR"@,
    {
        match self {
            PublishError::NotWhitelisted(_) => "ERR_WHITELIST",
            PublishError::NoEntries => "ERR_NO_ENTRIES",
            PublishError::DuplicateEntries => "ERR_DUPLICATE_ENTRIES",
            PublishError::InvalidContentPath => "ERR_INVALID_CONTENT_PATH",
            PublishError::MultipleGMAs => "ERR_MULTIPLE_GMAS",
            PublishError::IconTooLarge => "ERR_ICON_TOO_LARGE",
            PublishError::IconTooSmall => "ERR_ICON_TOO_SMALL",
            PublishError::IconInvalidFormat => "ERR_ICON_INVALID_FORMAT",
            PublishError::IOError => "ERR_IO_ERROR",
            PublishError::SteamError => "ERR_STEAM_ERROR",
            PublishError::ImageError => "ERR_IMAGE_ERROR",
        }
    }
}

/// Lexicographic byte order, the order `String`s sort in.
pub open spec fn spec_bytes_le(a: Seq<u8>, b: Seq<u8>) -> bool
    decreases a.len(),
{
    if a.len() == 0 {
        true
    } else if b.len() == 0 {
        false
    } else if a[0] < b[0] {
        true
    } else if a[0] > b[0] {
        false
    } else {
        spec_bytes_le(a.drop_first(), b.drop_first())
    }
}

/// String order: byte order of the UTF-8 encodings, which agrees with
/// code-point order.
pub open spec fn spec_str_le(a: Seq<char>, b: Seq<char>) -> bool {
    spec_bytes_le(encode_utf8(a), encode_utf8(b))
}

/// The order is total: any two strings compare one way or the other.
pub proof fn lemma_bytes_le_total(a: Seq<u8>, b: Seq<u8>)
    ensures
        spec_bytes_le(a, b) || spec_bytes_le(b, a),
    decreases a.len(),
{
    if a.len() > 0 && b.len() > 0 && a[0] == b[0] {
        lemma_bytes_le_total(a.drop_first(), b.drop_first());
    }
}

/// Whether the byte suffixes from `i` compare less-or-equal.
fn bytes_le_at(a: &[u8], b: &[u8], i: usize) -> (r: bool)
    requires
        i <= a@.len(),
        i <= b@.len(),
    ensures
        r == spec_bytes_le(
            a@.subrange(i as int, a@.len() as int),
            b@.subrange(i as int, b@.len() as int),
        ),
    decreases a@.len() - i,
{
    let ghost sa = a@.subrange(i as int, a@.len() as int);
    let ghost sb = b@.subrange(i as int, b@.len() as int);
    if i == a.len() {
        return true;
    }
    if i == b.len() {
        return false;
    }
    proof {
        assert(sa[0] == a@[i as int]);
        assert(sb[0] == b@[i as int]);
        assert(sa.drop_first() =~= a@.subrange(i + 1, a@.len() as int));
        assert(sb.drop_first() =~= b@.subrange(i + 1, b@.len() as int));
    }
    if a[i] < b[i] {
        return true;
    }
    if a[i] > b[i] {
        return false;
    }
    bytes_le_at(a, b, i + 1)
}

/// Whether `a` sorts at or before `b`.
pub fn str_le(a: &str, b: &str) -> (r: bool)
    ensures
        r == spec_str_le(a@, b@),
{
    let ab = a.as_bytes();
    let bb = b.as_bytes();
    proof {
        assert(ab@.subrange(0, ab@.len() as int) =~= encode_utf8(a@));
        assert(bb@.subrange(0, bb@.len() as int) =~= encode_utf8(b@));
    }
    bytes_le_at(ab, bb, 0)
}

/// Whether a string list is in ascending order.
pub open spec fn spec_sorted(l: Seq<Seq<char>>) -> bool {
    forall|i: int, j: int| 0 <= i < j < l.len() ==> spec_str_le(#[trigger] l[i], #[trigger] l[j])
}

/// Sorts a string list ascending, keeping exactly the same strings.
pub fn sort_strings(v: Vec<String>) -> (r: Vec<String>)
    ensures
        spec_sorted(r.deep_view()),
        r.deep_view().to_multiset() == v.deep_view().to_multiset(),
{
    let ghost orig = v.deep_view();
    let mut rest = v;
    let mut out: Vec<String> = Vec::new();
    while rest.len() > 0
        invariant
            spec_sorted(out.deep_view()),
            forall|i: int, j: int|
                0 <= i < out.deep_view().len() && 0 <= j < rest.deep_view().len()
                    ==> spec_str_le(
                    #[trigger] out.deep_view()[i],
                    #[trigger] rest.deep_view()[j],
                ),
            out.deep_view().to_multiset().add(rest.deep_view().to_multiset())
                == orig.to_multiset(),
        decreases rest@.len(),
    {
        // Pick the least remaining string.
        proof {
            lemma_bytes_le_total(
                encode_utf8(rest.deep_view()[0]),
                encode_utf8(rest.deep_view()[0]),
            );
        }
        let mut min: usize = 0;
        let mut i: usize = 1;
        while i < rest.len()
            invariant
                min < i <= rest.deep_view().len() || (i <= rest.deep_view().len() && min == 0),
                min < rest.deep_view().len(),
                rest.deep_view().len() > 0,
                forall|k: int|
                    0 <= k < i ==> spec_str_le(
                        rest.deep_view()[min as int],
                        #[trigger] rest.deep_view()[k],
                    ),
            decreases rest@.len() - i,
        {
            if str_le(rest[i].as_str(), rest[min].as_str()) {
                proof {
                    assert forall|k: int|
                        0 <= k < i + 1 implies spec_str_le(
                        rest.deep_view()[i as int],
                        #[trigger] rest.deep_view()[k],
                    ) by {
                        if k < i {
                            lemma_str_le_trans(
                                rest.deep_view()[i as int],
                                rest.deep_view()[min as int],
                                rest.deep_view()[k],
                            );
                        } else {
                            lemma_bytes_le_total(
                                encode_utf8(rest.deep_view()[i as int]),
                                encode_utf8(rest.deep_view()[i as int]),
                            );
                        }
                    }
                }
                min = i;
            } else {
                proof {
                    lemma_bytes_le_total(
                        encode_utf8(rest.deep_view()[min as int]),
                        encode_utf8(rest.deep_view()[i as int]),
                    );
                }
            }
            i = i + 1;
        }
        let ghost rv0 = rest.deep_view();
        let ghost ov0 = out.deep_view();
        let picked = rest.remove(min);
        out.push(picked);
        proof {
            assert(rest.deep_view() =~= rv0.remove(min as int));
            assert(out.deep_view() =~= ov0.push(rv0[min as int]));
            assert(ov0.push(rv0[min as int]).to_multiset() =~= ov0.to_multiset().insert(
                rv0[min as int],
            ));
            assert(out.deep_view().to_multiset() == ov0.to_multiset().insert(rv0[min as int]));
            assert(rv0.remove(min as int).to_multiset() =~= rv0.to_multiset().remove(
                rv0[min as int],
            ));
            assert(rest.deep_view().to_multiset() == rv0.to_multiset().remove(rv0[min as int]));
            assert(rv0.to_multiset().count(rv0[min as int]) > 0);
            assert(out.deep_view().to_multiset().add(rest.deep_view().to_multiset())
                =~= ov0.to_multiset().add(rv0.to_multiset()));
            assert forall|x: int, y: int|
                0 <= x < out.deep_view().len() && 0 <= y < rest.deep_view().len()
                    implies spec_str_le(
                #[trigger] out.deep_view()[x],
                #[trigger] rest.deep_view()[y],
            ) by {
                let orig_y = if y < min { y } else { y + 1 };
                assert(rest.deep_view()[y] == rv0[orig_y]);
                if x < ov0.len() {
                    assert(out.deep_view()[x] == ov0[x]);
                } else {
                    assert(out.deep_view()[x] == rv0[min as int]);
                }
            }
        }
    }
    out
}

/// The string order is transitive.
pub proof fn lemma_str_le_trans(a: Seq<char>, b: Seq<char>, c: Seq<char>)
    requires
        spec_str_le(a, b),
        spec_str_le(b, c),
    ensures
        spec_str_le(a, c),
{
    lemma_bytes_le_trans(encode_utf8(a), encode_utf8(b), encode_utf8(c));
}

/// Byte order is transitive.
pub proof fn lemma_bytes_le_trans(a: Seq<u8>, b: Seq<u8>, c: Seq<u8>)
    requires
        spec_bytes_le(a, b),
        spec_bytes_le(b, c),
    ensures
        spec_bytes_le(a, c),
    decreases a.len(),
{
    if a.len() > 0 && b.len() > 0 && c.len() > 0 && a[0] == b[0] && b[0] == c[0] {
        lemma_bytes_le_trans(a.drop_first(), b.drop_first(), c.drop_first());
    }
}


/// One file found under the content directory: its normalized relative
/// path and its size on disk.
#[derive(Debug, Clone)]
pub struct CandidateFile {
    pub path: String,
    pub size: u64,
}

/// Mathematical model of a candidate file.
#[verifier::ext_equal]
pub struct CandidateModel {
    pub path: Seq<char>,
    pub size: u64,
}

impl View for CandidateFile {
    type V = CandidateModel;

    open spec fn view(&self) -> CandidateModel {
        CandidateModel { path: self.path@, size: self.size }
    }
}

impl DeepView for CandidateFile {
    type V = CandidateModel;

    open spec fn deep_view(&self) -> CandidateModel {
        self.view()
    }
}

/// Whether a candidate survives both ignore filters.
pub open spec fn spec_keep(c: CandidateModel, ig: Seq<Seq<char>>) -> bool {
    spec_default_kept(c.path) && !spec_user_ignored(c.path, ig)
}

/// The paths of the kept candidates that the whitelist rejects, in order.
pub open spec fn spec_bad(l: Seq<CandidateModel>, ig: Seq<Seq<char>>) -> Seq<Seq<char>>
    decreases l.len(),
{
    if l.len() == 0 {
        Seq::empty()
    } else {
        (if spec_keep(l[0], ig) && !spec_whitelisted(l[0].path) {
            seq![l[0].path]
        } else {
            Seq::empty()
        }) + spec_bad(l.drop_first(), ig)
    }
}

/// The entries the kept candidates would pack into, in order.
pub open spec fn spec_scan_entries(l: Seq<CandidateModel>, ig: Seq<Seq<char>>) -> Seq<EntryModel>
    decreases l.len(),
{
    if l.len() == 0 {
        Seq::empty()
    } else {
        (if spec_keep(l[0], ig) {
            seq![EntryModel { path: l[0].path, size: l[0].size, crc: 0u32, index: 0u64 }]
        } else {
            Seq::empty()
        }) + spec_scan_entries(l.drop_first(), ig)
    }
}

/// The total size of the kept candidates.
pub open spec fn spec_scan_total(l: Seq<CandidateModel>, ig: Seq<Seq<char>>) -> int
    decreases l.len(),
{
    if l.len() == 0 {
        0
    } else {
        (if spec_keep(l[0], ig) {
            l[0].size as int
        } else {
            0
        }) + spec_scan_total(l.drop_first(), ig)
    }
}

/// The failure report: the first nine rejected paths, with an ellipsis
/// marker where more follow.
pub open spec fn spec_failed_report(bad: Seq<Seq<char>>) -> Seq<Seq<char>> {
    if bad.len() <= 9 {
        bad
    } else {
        bad.subrange(0, 9).push("..."@)
    }
}

/// Appending one candidate extends the rejected paths by its
/// contribution.
pub proof fn lemma_bad_snoc(l: Seq<CandidateModel>, c: CandidateModel, ig: Seq<Seq<char>>)
    ensures
        spec_bad(l.push(c), ig) == spec_bad(l, ig) + (if spec_keep(c, ig) && !spec_whitelisted(
            c.path,
        ) {
            seq![c.path]
        } else {
            Seq::<Seq<char>>::empty()
        }),
    decreases l.len(),
{
    let delta = if spec_keep(c, ig) && !spec_whitelisted(c.path) {
        seq![c.path]
    } else {
        Seq::<Seq<char>>::empty()
    };
    if l.len() == 0 {
        assert(l.push(c)[0] == c);
        assert(l.push(c).drop_first() =~= Seq::<CandidateModel>::empty());
        assert(spec_bad(l.push(c), ig) == delta + spec_bad(l.push(c).drop_first(), ig));
        assert(spec_bad(l.push(c).drop_first(), ig) == Seq::<Seq<char>>::empty());
        assert(l =~= Seq::<CandidateModel>::empty());
        assert(spec_bad(l, ig) == Seq::<Seq<char>>::empty());
        assert(delta + Seq::<Seq<char>>::empty() =~= Seq::<Seq<char>>::empty() + delta);
    } else {
        assert(l.push(c)[0] == l[0]);
        assert(l.push(c).drop_first() =~= l.drop_first().push(c));
        lemma_bad_snoc(l.drop_first(), c, ig);
        let head = if spec_keep(l[0], ig) && !spec_whitelisted(l[0].path) {
            seq![l[0].path]
        } else {
            Seq::<Seq<char>>::empty()
        };
        assert(spec_bad(l.push(c), ig) == head + spec_bad(l.drop_first().push(c), ig));
        assert(spec_bad(l, ig) == head + spec_bad(l.drop_first(), ig));
        assert(head + (spec_bad(l.drop_first(), ig) + delta) =~= (head + spec_bad(
            l.drop_first(),
            ig,
        )) + delta);
    }
}

/// Appending one candidate extends the packable entries by its
/// contribution.
pub proof fn lemma_entries_snoc(l: Seq<CandidateModel>, c: CandidateModel, ig: Seq<Seq<char>>)
    ensures
        spec_scan_entries(l.push(c), ig) == spec_scan_entries(l, ig) + (if spec_keep(c, ig) {
            seq![EntryModel { path: c.path, size: c.size, crc: 0u32, index: 0u64 }]
        } else {
            Seq::<EntryModel>::empty()
        }),
    decreases l.len(),
{
    let delta = if spec_keep(c, ig) {
        seq![EntryModel { path: c.path, size: c.size, crc: 0u32, index: 0u64 }]
    } else {
        Seq::<EntryModel>::empty()
    };
    if l.len() == 0 {
        assert(l.push(c)[0] == c);
        assert(l.push(c).drop_first() =~= Seq::<CandidateModel>::empty());
        assert(spec_scan_entries(l.push(c), ig) == delta + spec_scan_entries(
            l.push(c).drop_first(),
            ig,
        ));
        assert(spec_scan_entries(l.push(c).drop_first(), ig) == Seq::<EntryModel>::empty());
        assert(l =~= Seq::<CandidateModel>::empty());
        assert(spec_scan_entries(l, ig) == Seq::<EntryModel>::empty());
        assert(delta + Seq::<EntryModel>::empty() =~= Seq::<EntryModel>::empty() + delta);
    } else {
        assert(l.push(c)[0] == l[0]);
        assert(l.push(c).drop_first() =~= l.drop_first().push(c));
        lemma_entries_snoc(l.drop_first(), c, ig);
        let head = if spec_keep(l[0], ig) {
            seq![EntryModel { path: l[0].path, size: l[0].size, crc: 0u32, index: 0u64 }]
        } else {
            Seq::<EntryModel>::empty()
        };
        assert(spec_scan_entries(l.push(c), ig) == head + spec_scan_entries(
            l.drop_first().push(c),
            ig,
        ));
        assert(spec_scan_entries(l, ig) == head + spec_scan_entries(l.drop_first(), ig));
        assert(head + (spec_scan_entries(l.drop_first(), ig) + delta) =~= (head
            + spec_scan_entries(l.drop_first(), ig)) + delta);
    }
}

/// Appending one candidate adds its contribution to the size total.
pub proof fn lemma_total_snoc(l: Seq<CandidateModel>, c: CandidateModel, ig: Seq<Seq<char>>)
    ensures
        spec_scan_total(l.push(c), ig) == spec_scan_total(l, ig) + (if spec_keep(c, ig) {
            c.size as int
        } else {
            0
        }),
    decreases l.len(),
{
    if l.len() == 0 {
        assert(l.push(c)[0] == c);
        assert(l.push(c).drop_first() =~= Seq::<CandidateModel>::empty());
        assert(spec_scan_total(l.push(c).drop_first(), ig) == 0);
        assert(spec_scan_total(l, ig) == 0);
    } else {
        assert(l.push(c)[0] == l[0]);
        assert(l.push(c).drop_first() =~= l.drop_first().push(c));
        lemma_total_snoc(l.drop_first(), c, ig);
        assert(spec_scan_total(l.push(c), ig) == (if spec_keep(l[0], ig) {
            l[0].size as int
        } else {
            0
        }) + spec_scan_total(l.drop_first().push(c), ig));
        assert(spec_scan_total(l, ig) == (if spec_keep(l[0], ig) {
            l[0].size as int
        } else {
            0
        }) + spec_scan_total(l.drop_first(), ig));
    }
}

/// Appending one candidate extends each scan result by that candidate's
/// contribution.
pub proof fn lemma_scan_snoc(l: Seq<CandidateModel>, c: CandidateModel, ig: Seq<Seq<char>>)
    ensures
        spec_bad(l.push(c), ig) == spec_bad(l, ig) + (if spec_keep(c, ig) && !spec_whitelisted(
            c.path,
        ) {
            seq![c.path]
        } else {
            Seq::<Seq<char>>::empty()
        }),
        spec_scan_entries(l.push(c), ig) == spec_scan_entries(l, ig) + (if spec_keep(c, ig) {
            seq![EntryModel { path: c.path, size: c.size, crc: 0u32, index: 0u64 }]
        } else {
            Seq::<EntryModel>::empty()
        }),
        spec_scan_total(l.push(c), ig) == spec_scan_total(l, ig) + (if spec_keep(c, ig) {
            c.size as int
        } else {
            0
        }),
{
    lemma_bad_snoc(l, c, ig);
    lemma_entries_snoc(l, c, ig);
    lemma_total_snoc(l, c, ig);
}

/// The scan total is never negative.
pub proof fn lemma_scan_total_nonneg(l: Seq<CandidateModel>, ig: Seq<Seq<char>>)
    ensures
        0 <= spec_scan_total(l, ig),
    decreases l.len(),
{
    if l.len() > 0 {
        lemma_scan_total_nonneg(l.drop_first(), ig);
    }
}

/// The rejected paths of a prefix are a prefix of the rejected paths.
pub proof fn lemma_bad_prefix(l: Seq<CandidateModel>, ig: Seq<Seq<char>>, i: int)
    requires
        0 <= i <= l.len(),
    ensures
        spec_bad(l.subrange(0, i), ig).is_prefix_of(spec_bad(l, ig)),
    decreases l.len() - i,
{
    if i == l.len() {
        assert(l.subrange(0, i) =~= l);
        assert(spec_bad(l, ig).is_prefix_of(spec_bad(l, ig)));
    } else {
        assert(l.subrange(0, i + 1) =~= l.subrange(0, i).push(l[i]));
        lemma_scan_snoc(l.subrange(0, i), l[i], ig);
        lemma_bad_prefix(l, ig, i + 1);
        let a = spec_bad(l.subrange(0, i), ig);
        let b = spec_bad(l.subrange(0, i + 1), ig);
        assert(a.is_prefix_of(b));
        assert(a =~= spec_bad(l, ig).subrange(0, a.len() as int));
    }
}

/// Pre-publish content verification: scans the candidate files with the
/// same ignore filters and whitelist as extraction.  Succeeds with the
/// packable entries and their total size exactly where every kept path
/// is whitelisted and at least one is kept; reports the rejected paths
/// (at most nine, plus an ellipsis marker) sorted, or an empty-content
/// error where nothing survives the filters.
pub fn verify_whitelist(files: &Vec<CandidateFile>, ignore: &Vec<String>) -> (r: Result<
    (Vec<GMAEntry>, u64),
    (String, Vec<String>),
>)
    ensures
        ({
            let l = files.deep_view();
            let ig = ignore.deep_view();
            let bad = spec_bad(l, ig);
            match r {
                Ok(p) => {
                    &&& bad.len() == 0
                    &&& spec_scan_entries(l, ig).len() > 0
                    &&& p.0.deep_view() == spec_scan_entries(l, ig)
                    &&& p.1 == (if spec_scan_total(l, ig) > u64::MAX {
                        u64::MAX as int
                    } else {
                        spec_scan_total(l, ig)
                    })
                },
                Err(e) => {
                    &&& bad.len() > 0 ==> {
                        &&& e.0@ == "ERR_WHITELIST"@
                        &&& spec_sorted(e.1.deep_view())
                        &&& e.1.deep_view().to_multiset() == spec_failed_report(bad).to_multiset()
                    }
                    &&& bad.len() == 0 ==> {
                        &&& e.0@ == "ERR_NO_ENTRIES"@
                        &&& spec_scan_entries(l, ig).len() == 0
                        &&& e.1.deep_view().len() == 0
                    }
                },
            }
        }),
{
    let ghost l = files.deep_view();
    let ghost ig = ignore.deep_view();
    let mut failed: Vec<String> = Vec::new();
    let mut out: Vec<GMAEntry> = Vec::new();
    let mut total: u64 = 0;
    let mut i: usize = 0;
    let mut truncated = false;
    let ghost mut break_point: int = 0;
    loop
        invariant_except_break
            i <= l.len(),
            files.deep_view() == l,
            ignore.deep_view() == ig,
            !truncated,
            failed.deep_view() == spec_bad(l.subrange(0, i as int), ig),
            failed.deep_view().len() <= 9,
            spec_bad(l.subrange(0, i as int), ig).len() == 0 ==> {
                &&& out.deep_view() == spec_scan_entries(l.subrange(0, i as int), ig)
                &&& total == (if spec_scan_total(l.subrange(0, i as int), ig) > u64::MAX {
                    u64::MAX as int
                } else {
                    spec_scan_total(l.subrange(0, i as int), ig)
                })
            },
        ensures
            files.deep_view() == l,
            ignore.deep_view() == ig,
            !truncated ==> {
                &&& failed.deep_view() == spec_bad(l, ig)
                &&& failed.deep_view().len() <= 9
                &&& spec_bad(l, ig).len() == 0 ==> {
                    &&& out.deep_view() == spec_scan_entries(l, ig)
                    &&& total == (if spec_scan_total(l, ig) > u64::MAX {
                        u64::MAX as int
                    } else {
                        spec_scan_total(l, ig)
                    })
                }
            },
            truncated ==> {
                &&& spec_bad(l, ig).len() >= 10
                &&& failed.deep_view() == spec_failed_report(spec_bad(l, ig))
            },
        decreases l.len() - i,
    {
        if i >= files.len() {
            proof {
                assert(l.subrange(0, l.len() as int) =~= l);
            }
            break;
        }
        let ghost pre = l.subrange(0, i as int);
        let c = &files[i];
        proof {
            assert(l.subrange(0, i + 1) =~= pre.push(l[i as int]));
            lemma_scan_snoc(pre, l[i as int], ig);
        }
        if !filter_default_ignored(c.path.as_str()) || is_ignored(c.path.as_str(), ignore) {
            i = i + 1;
            continue;
        }
        if !check(c.path.as_str()) {
            if failed.len() == 9 {
                failed.push(String::from_str("..."));
                proof {
                    let bad_here = spec_bad(l.subrange(0, i + 1), ig);
                    assert(bad_here == spec_bad(pre, ig).push(l[i as int].path)) by {
                        assert(bad_here =~= spec_bad(pre, ig) + seq![l[i as int].path]);
                    }
                    lemma_bad_prefix(l, ig, i + 1);
                    assert(bad_here.len() == 10);
                    assert(spec_bad(l, ig).len() >= 10);
                    assert(spec_bad(l, ig).subrange(0, 10) == bad_here);
                    assert forall|k: int| 0 <= k < 9 implies spec_bad(l, ig).subrange(0, 9)[k]
                        == spec_bad(pre, ig)[k] by {
                        assert(spec_bad(l, ig)[k] == bad_here[k]);
                    }
                    assert(spec_bad(l, ig).subrange(0, 9) =~= spec_bad(pre, ig));
                    assert(failed.deep_view() =~= spec_failed_report(spec_bad(l, ig)));
                }
                truncated = true;
                break;
            }
            failed.push(c.path.clone());
            proof {
                assert(failed.deep_view() =~= spec_bad(l.subrange(0, i + 1), ig));
            }
            i = i + 1;
            continue;
        }
        if failed.is_empty() {
            proof {
                lemma_scan_total_nonneg(pre, ig);
            }
            if c.size > u64::MAX - total {
                total = u64::MAX;
            } else {
                total = total + c.size;
            }
            let ghost out0 = out.deep_view();
            out.push(GMAEntry { path: c.path.clone(), size: c.size, crc: 0, index: 0 });
            proof {
                assert(out.deep_view() =~= out0.push(
                    EntryModel { path: l[i as int].path, size: l[i as int].size, crc: 0u32, index: 0u64 },
                ));
                assert(out.deep_view() =~= spec_scan_entries(l.subrange(0, i + 1), ig));
            }
        }
        i = i + 1;
    }
    if truncated {
        let sorted = sort_strings(failed);
        return Err((String::from_str("ERR_WHITELIST"), sorted));
    }
    if !failed.is_empty() {
        proof {
            assert(spec_failed_report(spec_bad(l, ig)) == spec_bad(l, ig));
        }
        let sorted = sort_strings(failed);
        return Err((String::from_str("ERR_WHITELIST"), sorted));
    }
    if out.is_empty() {
        return Err((String::from_str("ERR_NO_ENTRIES"), Vec::new()));
    }
    Ok((out, total))
}


/// Whether a path names a container file (ends in the container
/// extension).
pub open spec fn spec_is_gma(p: Seq<char>) -> bool {
    p.len() >= 4 && p.subrange(p.len() - 4, p.len() as int) == ".gma"@
}

/// How many of the paths name container files.
pub open spec fn spec_count_gma(l: Seq<Seq<char>>) -> int
    decreases l.len(),
{
    if l.len() == 0 {
        0
    } else {
        (if spec_is_gma(l[0]) {
            1int
        } else {
            0int
        }) + spec_count_gma(l.drop_first())
    }
}

/// Whether `p` names a container file.
pub fn is_gma_path(p: &str) -> (r: bool)
    ensures
        r == spec_is_gma(p@),
{
    let n = p.unicode_len();
    if n < 4 {
        return false;
    }
    let c0 = p.get_char(n - 4);
    let c1 = p.get_char(n - 3);
    let c2 = p.get_char(n - 2);
    let c3 = p.get_char(n - 1);
    let r = c0 == '.' && c1 == 'g' && c2 == 'm' && c3 == 'a';
    proof {
        reveal_strlit(".gma");
        if r {
            assert(p@.subrange(p@.len() - 4, p@.len() as int) =~= ".gma"@);
        } else {
            assert(p@.subrange(p@.len() - 4, p@.len() as int) != ".gma"@) by {
                if p@.subrange(p@.len() - 4, p@.len() as int) == ".gma"@ {
                    assert(p@[p@.len() - 4] == ".gma"@[0]);
                    assert(p@[p@.len() - 3] == ".gma"@[1]);
                    assert(p@[p@.len() - 2] == ".gma"@[2]);
                    assert(p@[p@.len() - 1] == ".gma"@[3]);
                }
            }
        }
    }
    r
}

/// A validated content path: the one container file of a directory that
/// is about to be published.
#[derive(Debug, Clone)]
pub struct ContentPath {
    inner: String,
}

impl ContentPath {
    /// The selected container file's path.
    pub fn path(&self) -> (r: &str)
        ensures
            r@ == self@,
    {
        self.inner.as_str()
    }

    /// The selected container file's path.
    pub closed spec fn view(&self) -> Seq<char> {
        self.inner@
    }

    /// Selects the single container file among a directory's entries.
    /// `is_dir` says whether the content path is a directory at all;
    /// `dir_entries` are the paths found under it.  Fails with
    /// `InvalidContentPath` where there is no directory or no container,
    /// and with `MultipleGMAs` where there is more than one.
    pub fn new(is_dir: bool, dir_entries: &Vec<String>) -> (r: Result<ContentPath, PublishError>)
        ensures
            ({
                let l = dir_entries.deep_view();
                match r {
                    Ok(cp) => {
                        &&& is_dir
                        &&& spec_count_gma(l) == 1
                        &&& exists|i: int| 0 <= i < l.len() && spec_is_gma(#[trigger] l[i])
                            && cp@ == l[i]
                    },
                    Err(e) => {
                        &&& e == PublishError::MultipleGMAs ==> is_dir && spec_count_gma(l) > 1
                        &&& e == PublishError::InvalidContentPath ==> !is_dir || spec_count_gma(
                            l,
                        ) == 0
                        &&& (e == PublishError::MultipleGMAs || e
                            == PublishError::InvalidContentPath)
                    },
                }
            }),
    {
        let ghost l = dir_entries.deep_view();
        if !is_dir {
            return Err(PublishError::InvalidContentPath);
        }
        let mut found: Option<String> = None;
        let mut i: usize = 0;
        while i < dir_entries.len()
            invariant
                is_dir,
                i <= l.len(),
                dir_entries.deep_view() == l,
                match found {
                    Some(p) => spec_count_gma(l.subrange(0, i as int)) == 1 && exists|k: int|
                        0 <= k < i && spec_is_gma(#[trigger] l[k]) && p@ == l[k],
                    None => spec_count_gma(l.subrange(0, i as int)) == 0,
                },
            decreases l.len() - i,
        {
            let ghost pre = l.subrange(0, i as int);
            proof {
                assert(l.subrange(0, i + 1) =~= pre.push(l[i as int]));
                lemma_count_gma_snoc(pre, l[i as int]);
            }
            proof {
                assert(l[i as int] == dir_entries@[i as int]@);
            }
            if is_gma_path(dir_entries[i].as_str()) {
                if found.is_some() {
                    proof {
                        assert(spec_count_gma(l.subrange(0, i + 1)) == 2);
                        lemma_count_gma_prefix(l, i + 1);
                        assert(spec_count_gma(l) > 1);
                    }
                    return Err(PublishError::MultipleGMAs);
                }
                found = Some(dir_entries[i].clone());
            }
            i = i + 1;
        }
        proof {
            assert(l.subrange(0, l.len() as int) =~= l);
        }
        match found {
            Some(p) => Ok(ContentPath { inner: p }),
            None => Err(PublishError::InvalidContentPath),
        }
    }
}

/// Appending one path adds its contribution to the container count.
pub proof fn lemma_count_gma_snoc(l: Seq<Seq<char>>, p: Seq<char>)
    ensures
        spec_count_gma(l.push(p)) == spec_count_gma(l) + (if spec_is_gma(p) {
            1int
        } else {
            0int
        }),
    decreases l.len(),
{
    if l.len() == 0 {
        assert(l.push(p)[0] == p);
        assert(l.push(p).drop_first() =~= Seq::<Seq<char>>::empty());
        assert(spec_count_gma(l.push(p).drop_first()) == 0);
        assert(spec_count_gma(l) == 0);
    } else {
        assert(l.push(p)[0] == l[0]);
        assert(l.push(p).drop_first() =~= l.drop_first().push(p));
        lemma_count_gma_snoc(l.drop_first(), p);
    }
}

/// A prefix never holds more container files than the whole list.
pub proof fn lemma_count_gma_prefix(l: Seq<Seq<char>>, i: int)
    requires
        0 <= i <= l.len(),
    ensures
        spec_count_gma(l.subrange(0, i)) <= spec_count_gma(l),
    decreases l.len() - i,
{
    if i == l.len() {
        assert(l.subrange(0, i) =~= l);
    } else {
        assert(l.subrange(0, i + 1) =~= l.subrange(0, i).push(l[i]));
        lemma_count_gma_snoc(l.subrange(0, i), l[i]);
        lemma_count_gma_prefix(l, i + 1);
    }
}

/// The icon size ceiling the remote service enforces.
pub const WORKSHOP_ICON_MAX_SIZE: u64 = 1000000;

/// The icon size floor.
pub const WORKSHOP_ICON_MIN_SIZE: u64 = 16;

/// An addon icon: an explicit file, or the bundled default.
#[derive(Debug, Clone)]
pub enum WorkshopIcon {
    Path(String),
    Default,
}

/// The image formats an icon is probed under.
#[derive(Debug, Clone, Copy, PartialEq, Eq, Structural)]
pub enum IconFormat {
    Png,
    Jpeg,
    Gif,
}

impl View for IconFormat {
    type V = IconFormat;

    open spec fn view(&self) -> IconFormat {
        *self
    }
}

impl DeepView for IconFormat {
    type V = IconFormat;

    open spec fn deep_view(&self) -> IconFormat {
        *self
    }
}

/// Checks the icon file's size against the service's bounds.
pub fn icon_size_ok(len: u64) -> (r: Result<(), PublishError>)
    ensures
        match r {
            Ok(()) => WORKSHOP_ICON_MIN_SIZE <= len <= WORKSHOP_ICON_MAX_SIZE,
            Err(e) => (e == PublishError::IconTooLarge && len > WORKSHOP_ICON_MAX_SIZE) || (e
                == PublishError::IconTooSmall && len < WORKSHOP_ICON_MIN_SIZE),
        },
{
    if len > WORKSHOP_ICON_MAX_SIZE {
        Err(PublishError::IconTooLarge)
    } else if len < WORKSHOP_ICON_MIN_SIZE {
        Err(PublishError::IconTooSmall)
    } else {
        Ok(())
    }
}

/// The formats to probe an icon under, best guess first, chosen from
/// the file extension (already lowercased).
pub fn icon_format_candidates(extension: &str) -> (r: Vec<IconFormat>)
    ensures
        extension@ == "png"@ ==> r.deep_view() == seq![IconFormat::Png, IconFormat::Jpeg, IconFormat::Gif],
        extension@ == "gif"@ ==> r.deep_view() == seq![IconFormat::Gif, IconFormat::Jpeg, IconFormat::Png],
        extension@ != "png"@ && extension@ != "gif"@ ==> r.deep_view() == seq![IconFormat::Jpeg, IconFormat::Png, IconFormat::Gif],
{
    proof {
        reveal_strlit("png");
        reveal_strlit("gif");
        assert("png"@[0] != "gif"@[0]);
    }
    let mut v: Vec<IconFormat> = Vec::new();
    if crate::gma_file::str_eq(extension, "png") {
        v.push(IconFormat::Png);
        v.push(IconFormat::Jpeg);
        v.push(IconFormat::Gif);
        proof {
            assert(v.deep_view() =~= seq![IconFormat::Png, IconFormat::Jpeg, IconFormat::Gif]);
        }
    } else if crate::gma_file::str_eq(extension, "gif") {
        v.push(IconFormat::Gif);
        v.push(IconFormat::Jpeg);
        v.push(IconFormat::Png);
        proof {
            assert(v.deep_view() =~= seq![IconFormat::Gif, IconFormat::Jpeg, IconFormat::Png]);
        }
    } else {
        v.push(IconFormat::Jpeg);
        v.push(IconFormat::Png);
        v.push(IconFormat::Gif);
        proof {
            assert(v.deep_view() =~= seq![IconFormat::Jpeg, IconFormat::Png, IconFormat::Gif]);
        }
    }
    v
}

/// What one probe of the icon under a format reported: the decoder
/// accepted it, failed to decode it (possibly hinting at the format it
/// looks like), or failed outside the decoding path.
#[derive(Debug, Clone, Copy, PartialEq, Eq, Structural)]
pub enum IconProbe {
    Accepted,
    DecodeFailed,
    DecodeFailedWithHint(IconFormat),
    Failed,
}

/// One pending probe: the format to try, the formats left after it, and
/// whether the decoder's own guess was already taken.
#[derive(Debug, Clone)]
pub struct IconAttempt {
    pub format: IconFormat,
    pub remaining: Vec<IconFormat>,
    pub tried_best_guess: bool,
}

/// The first position of `f` in the format list.
pub open spec fn spec_find_format(l: Seq<IconFormat>, f: IconFormat) -> Option<int>
    decreases l.len(),
{
    if l.len() == 0 {
        None
    } else if l[0] == f {
        Some(0)
    } else {
        match spec_find_format(l.drop_first(), f) {
            Some(i) => Some(i + 1),
            None => None,
        }
    }
}

/// Decides what follows one probe of the icon: acceptance ends the
/// search; a decode failure moves to the decoder's guessed format (once)
/// or to the next candidate; exhaustion of the candidates is an invalid
/// format; any other failure is fatal.
pub fn icon_attempt_step(att: IconAttempt, probe: IconProbe) -> (r: Result<
    Option<IconAttempt>,
    PublishError,
>)
    ensures
        match probe {
            IconProbe::Accepted => r == Ok::<Option<IconAttempt>, PublishError>(None),
            IconProbe::Failed => r == Err::<Option<IconAttempt>, PublishError>(
                PublishError::ImageError,
            ),
            IconProbe::DecodeFailedWithHint(h) => {
                if !att.tried_best_guess && spec_find_format(att.remaining.deep_view(), h)
                    is Some {
                    (r matches Ok(Some(next)) && next.format == h && next.tried_best_guess
                        && next.remaining.deep_view() == att.remaining.deep_view().remove(
                        spec_find_format(att.remaining.deep_view(), h).unwrap(),
                    ))
                } else if att.remaining.deep_view().len() == 0 {
                    r == Err::<Option<IconAttempt>, PublishError>(PublishError::IconInvalidFormat)
                } else {
                    (r matches Ok(Some(next)) && next.format == att.remaining.deep_view()[0]
                        && next.tried_best_guess == att.tried_best_guess
                        && next.remaining.deep_view() == att.remaining.deep_view().drop_first())
                }
            },
            IconProbe::DecodeFailed => {
                if att.remaining.deep_view().len() == 0 {
                    r == Err::<Option<IconAttempt>, PublishError>(PublishError::IconInvalidFormat)
                } else {
                    (r matches Ok(Some(next)) && next.format == att.remaining.deep_view()[0]
                        && next.tried_best_guess == att.tried_best_guess
                        && next.remaining.deep_view() == att.remaining.deep_view().drop_first())
                }
            },
        },
{
    match probe {
        IconProbe::Accepted => Ok(None),
        IconProbe::Failed => Err(PublishError::ImageError),
        IconProbe::DecodeFailedWithHint(h) => {
            let mut rem = att.remaining;
            if !att.tried_best_guess {
                let ghost rv = rem.deep_view();
                let mut found_idx: Option<usize> = None;
                let mut i: usize = 0;
                loop
                    invariant_except_break
                        i <= rv.len(),
                        rem.deep_view() == rv,
                        found_idx is None,
                        forall|k: int| 0 <= k < i ==> rv[k] != h,
                    ensures
                        rem.deep_view() == rv,
                        match found_idx {
                            Some(j) => 0 <= j < rv.len() && rv[j as int] == h && forall|k: int|
                                0 <= k < j ==> rv[k] != h,
                            None => forall|k: int| 0 <= k < rv.len() ==> rv[k] != h,
                        },
                    decreases rv.len() - i,
                {
                    if i >= rem.len() {
                        break;
                    }
                    if rem[i] == h {
                        found_idx = Some(i);
                        break;
                    }
                    i = i + 1;
                }
                match found_idx {
                    Some(j) => {
                        proof {
                            lemma_find_format_characterization(rv, h, j as int);
                            assert(spec_find_format(rv, h).unwrap() == j as int);
                        }
                        let ghost before = rem.deep_view();
                        rem.remove(j);
                        proof {
                            assert(rem.deep_view() =~= before.remove(j as int));
                        }
                        return Ok(Some(IconAttempt {
                            format: h,
                            remaining: rem,
                            tried_best_guess: true,
                        }));
                    },
                    None => {
                        proof {
                            lemma_find_format_none(rv, h);
                        }
                    },
                }
            }
            next_candidate(rem, att.tried_best_guess)
        },
        IconProbe::DecodeFailed => next_candidate(att.remaining, att.tried_best_guess),
    }
}

/// Moves to the first remaining candidate format, or reports that none
/// decodes the icon.
fn next_candidate(rem: Vec<IconFormat>, tried_best_guess: bool) -> (r: Result<
    Option<IconAttempt>,
    PublishError,
>)
    ensures
        rem.deep_view().len() == 0 ==> r == Err::<Option<IconAttempt>, PublishError>(
            PublishError::IconInvalidFormat,
        ),
        rem.deep_view().len() > 0 ==> (r matches Ok(Some(next)) && next.format
            == rem.deep_view()[0] && next.tried_best_guess == tried_best_guess
            && next.remaining.deep_view() == rem.deep_view().drop_first()),
{
    let mut rem = rem;
    if rem.len() == 0 {
        return Err(PublishError::IconInvalidFormat);
    }
    let ghost before = rem.deep_view();
    let first = rem.remove(0);
    proof {
        assert(rem.deep_view() =~= before.drop_first());
    }
    Ok(Some(IconAttempt { format: first, remaining: rem, tried_best_guess }))
}

/// `spec_find_format` finds exactly the first occurrence.
pub proof fn lemma_find_format_characterization(l: Seq<IconFormat>, f: IconFormat, j: int)
    requires
        0 <= j < l.len(),
        l[j] == f,
        forall|k: int| 0 <= k < j ==> l[k] != f,
    ensures
        spec_find_format(l, f) == Some(j),
    decreases j,
{
    if j > 0 {
        lemma_find_format_characterization(l.drop_first(), f, j - 1);
    }
}

/// With no occurrence, `spec_find_format` finds nothing.
pub proof fn lemma_find_format_none(l: Seq<IconFormat>, f: IconFormat)
    requires
        forall|k: int| 0 <= k < l.len() ==> l[k] != f,
    ensures
        spec_find_format(l, f) is None,
    decreases l.len(),
{
    if l.len() > 0 {
        lemma_find_format_none(l.drop_first(), f);
    }
}


/// What a creation submission carries to the remote service: the
/// assigned content identifier, the title, the validated content path
/// and the validated icon.
#[derive(Debug, Clone)]
pub struct WorkshopCreationDetails {
    pub id: u64,
    pub title: String,
    pub path: ContentPath,
    pub preview: WorkshopIcon,
}

/// What an update submission carries: the content identifier, the
/// content directory, and optionally a new icon and a change note.
#[derive(Debug, Clone)]
pub struct WorkshopUpdateDetails {
    pub id: u64,
    pub path: String,
    pub preview: Option<String>,
    pub changes: Option<String>,
}

/// A submission to the remote service: a fresh creation or an update of
/// an existing item.
#[derive(Debug, Clone)]
pub enum WorkshopUpdateType {
    Creation(WorkshopCreationDetails),
    Update(WorkshopUpdateDetails),
}

} // verus!
