//! The archive descriptor: one `GMAFile` per opened container, with its
//! recorded byte offsets, lazily loaded metadata and entry map, and the
//! derived extraction name.

use vstd::prelude::*;
use vstd::utf8::{decode_utf8, encode_utf8};
use std::time::{SystemTime, UNIX_EPOCH};

use crate::entries::{EntryModel, GMAEntry, parse_entries, spec_parse_entries};
use crate::error::GMAError;
use crate::extract::{ExtractAction, plan_extraction, spec_plan};
use crate::header::{parse_header, spec_parse_header};
use crate::metadata::{GMAMetadata, parse_metadata, spec_parse_metadata, spec_title};
use crate::name::{
    chars_to_string, dec_digits, derive_extracted_name, lowercase, spec_dec_digits,
    spec_extracted_name, unicode_lower,
};

verus! {

broadcast use vstd::utf8::encode_utf8_decode_utf8;

/// The three byte offsets recorded while opening a container: where the
/// metadata block begins, where the packed-data region begins, and
/// where the entry table begins.
#[derive(Debug, Clone, Copy, PartialEq, Eq, Structural)]
pub struct GMAFilePointers {
    pub metadata: u64,
    pub entries: u64,
    pub entries_list: u64,
}

impl Default for GMAFilePointers {
    /// All offsets start at zero, before anything is parsed.
    fn default() -> (r: Self)
        ensures
            r.metadata == 0 && r.entries == 0 && r.entries_list == 0,
    {
        GMAFilePointers { metadata: 0, entries: 0, entries_list: 0 }
    }
}

/// Whether two strings hold the same characters.
pub fn str_eq(a: &str, b: &str) -> (r: bool)
    ensures
        r == (a@ == b@),
{
    let ab = a.as_bytes();
    let bb = b.as_bytes();
    if ab.len() != bb.len() {
        proof {
            assert(a@ != b@);
        }
        return false;
    }
    let mut i: usize = 0;
    while i < ab.len()
        invariant
            i <= ab@.len(),
            ab@.len() == bb@.len(),
            ab@ == encode_utf8(a@),
            bb@ == encode_utf8(b@),
            forall|k: int| 0 <= k < i ==> ab@[k] == bb@[k],
        decreases ab@.len() - i,
    {
        if ab[i] != bb[i] {
            proof {
                assert(encode_utf8(a@)[i as int] != encode_utf8(b@)[i as int]);
            }
            return false;
        }
        i = i + 1;
    }
    proof {
        assert(encode_utf8(a@) =~= encode_utf8(b@));
        assert(decode_utf8(encode_utf8(a@)) == decode_utf8(encode_utf8(b@)));
    }
    true
}

/// The first position of `p` among the paths of `l`.
pub open spec fn spec_find(l: Seq<EntryModel>, p: Seq<char>) -> Option<int>
    decreases l.len(),
{
    if l.len() == 0 {
        None
    } else if l[0].path == p {
        Some(0)
    } else {
        match spec_find(l.drop_first(), p) {
            Some(i) => Some(i + 1),
            None => None,
        }
    }
}

/// `spec_find` finds exactly the first entry with the given path.
pub proof fn lemma_find_characterization(l: Seq<EntryModel>, p: Seq<char>, j: int)
    requires
        0 <= j < l.len(),
        l[j].path == p,
        forall|k: int| 0 <= k < j ==> (#[trigger] l[k]).path != p,
    ensures
        spec_find(l, p) == Some(j),
    decreases j,
{
    if j > 0 {
        lemma_find_characterization(l.drop_first(), p, j - 1);
    }
}

/// If no entry carries the path, `spec_find` finds nothing.
pub proof fn lemma_find_none(l: Seq<EntryModel>, p: Seq<char>)
    requires
        forall|k: int| 0 <= k < l.len() ==> (#[trigger] l[k]).path != p,
    ensures
        spec_find(l, p) is None,
    decreases l.len(),
{
    if l.len() > 0 {
        lemma_find_none(l.drop_first(), p);
    }
}

/// Inserting one entry: a later entry with an already-present path
/// overwrites the earlier descriptor in place; a new path is appended.
pub open spec fn spec_map_insert(l: Seq<EntryModel>, e: EntryModel) -> Seq<EntryModel> {
    match spec_find(l, e.path) {
        Some(i) => l.update(i, e),
        None => l.push(e),
    }
}

/// Folding a whole table into a map, in table order.
pub open spec fn spec_dedup_into(acc: Seq<EntryModel>, l: Seq<EntryModel>) -> Seq<EntryModel>
    decreases l.len(),
{
    if l.len() == 0 {
        acc
    } else {
        spec_dedup_into(spec_map_insert(acc, l[0]), l.drop_first())
    }
}

/// The ordered mapping from normalized path to entry descriptor.  Table
/// order is kept; a duplicate path overwrites the earlier descriptor.
#[derive(Debug, Clone)]
pub struct GMAEntriesMap {
    inner: Vec<GMAEntry>,
}

impl View for GMAEntriesMap {
    type V = Seq<EntryModel>;

    closed spec fn view(&self) -> Seq<EntryModel> {
        self.inner.deep_view()
    }
}

impl GMAEntriesMap {
    /// No two entries of the map share a path.
    pub open spec fn wf(&self) -> bool {
        forall|i: int, j: int|
            0 <= i < j < self@.len() ==> (#[trigger] self@[i]).path != (#[trigger] self@[j]).path
    }

    /// An empty map.
    pub fn new() -> (r: Self)
        ensures
            r@ == Seq::<EntryModel>::empty(),
            r.wf(),
    {
        GMAEntriesMap { inner: Vec::new() }
    }

    /// How many entries the map holds.
    pub fn len(&self) -> (r: usize)
        ensures
            r == self@.len(),
    {
        self.inner.len()
    }

    /// The entry at one position of the table order.
    pub fn index(&self, i: usize) -> (r: &GMAEntry)
        requires
            i < self@.len(),
        ensures
            r@ == self@[i as int],
    {
        &self.inner[i]
    }

    /// The table in order, for planning an extraction over it.
    pub fn as_table(&self) -> (r: &Vec<GMAEntry>)
        ensures
            r.deep_view() == self@,
    {
        &self.inner
    }

    /// Looks a path up: the first (and, in a well-formed map, only)
    /// entry carrying it.
    pub fn get(&self, path: &str) -> (r: Option<&GMAEntry>)
        ensures
            match r {
                Some(e) => spec_find(self@, path@) matches Some(i) && e@ == self@[i],
                None => spec_find(self@, path@) is None,
            },
    {
        let mut i: usize = 0;
        while i < self.inner.len()
            invariant
                i <= self@.len(),
                forall|k: int| 0 <= k < i ==> (#[trigger] self@[k]).path != path@,
            decreases self@.len() - i,
        {
            if str_eq(self.inner[i].path.as_str(), path) {
                proof {
                    lemma_find_characterization(self@, path@, i as int);
                }
                return Some(&self.inner[i]);
            }
            i = i + 1;
        }
        proof {
            lemma_find_none(self@, path@);
        }
        None
    }

    /// Inserts one entry, overwriting an earlier entry with the same
    /// path in place.
    pub fn insert(&mut self, e: GMAEntry)
        requires
            old(self).wf(),
        ensures
            final(self)@ == spec_map_insert(old(self)@, e@),
            final(self).wf(),
    {
        let ghost v0 = self@;
        let mut i: usize = 0;
        while i < self.inner.len()
            invariant
                i <= self@.len(),
                self@ == v0,
                v0 == old(self)@,
                forall|k: int| 0 <= k < i ==> (#[trigger] self@[k]).path != e@.path,
                forall|a: int, b: int|
                    0 <= a < b < v0.len() ==> (#[trigger] v0[a]).path != (#[trigger] v0[b]).path,
        decreases self@.len() - i,
        {
            if str_eq(self.inner[i].path.as_str(), e.path.as_str()) {
                proof {
                    lemma_find_characterization(v0, e@.path, i as int);
                }
                let ghost ev = e@;
                self.inner.set(i, e);
                proof {
                    assert(self@ =~= v0.update(i as int, ev));
                    assert(spec_map_insert(v0, ev) == v0.update(i as int, ev));
                    assert forall|a: int, b: int| 0 <= a < b < self@.len() implies (
                    #[trigger] self@[a]).path != (#[trigger] self@[b]).path by {
                        assert(self@.len() == v0.len());
                        assert(v0[a].path != v0[b].path);
                        assert(self@[a].path == v0[a].path);
                        assert(self@[b].path == v0[b].path);
                    }
                }
                return;
            }
            i = i + 1;
        }
        proof {
            lemma_find_none(v0, e@.path);
        }
        self.inner.push(e);
        proof {
            assert(self@ =~= v0.push(e@));
        }
    }

    /// Builds the map from a parsed table, in table order, later
    /// duplicates overwriting earlier ones.
    pub fn from_table(table: Vec<GMAEntry>) -> (r: Self)
        ensures
            r@ == spec_dedup_into(Seq::<EntryModel>::empty(), table.deep_view()),
            r.wf(),
    {
        let ghost l0 = table.deep_view();
        let mut rest = table;
        let mut m = GMAEntriesMap::new();
        proof {
            assert(rest.deep_view() =~= l0);
        }
        while rest.len() > 0
            invariant
                m.wf(),
                spec_dedup_into(Seq::<EntryModel>::empty(), l0) == spec_dedup_into(
                    m@,
                    rest.deep_view(),
                ),
            decreases rest@.len(),
        {
            let ghost mv0 = m@;
            let ghost rv0 = rest.deep_view();
            let e = rest.remove(0);
            proof {
                assert(e@ == rv0[0]);
                assert(rest.deep_view() =~= rv0.drop_first());
            }
            m.insert(e);
            proof {
                assert(spec_dedup_into(mv0, rv0) == spec_dedup_into(
                    spec_map_insert(mv0, rv0[0]),
                    rv0.drop_first(),
                ));
            }
        }
        proof {
            assert(rest.deep_view() =~= Seq::<EntryModel>::empty());
        }
        m
    }
}

/// Relies on `std::time::SystemTime::now`: seconds since the Unix
/// epoch, zero where the clock reads before it.  Nothing is promised of
/// the value: it names a moment, not a function of anything.
#[verifier::external_body]
fn unix_time_secs() -> u64 {
    match SystemTime::now().duration_since(UNIX_EPOCH) {
        Ok(d) => d.as_secs(),
        Err(_) => 0,
    }
}

/// The suffix of `p` after its last path separator.
pub open spec fn spec_file_name(p: Seq<char>) -> Seq<char> {
    p.subrange(spec_base_idx(p), p.len() as int)
}

/// The position just after the last path separator of `p`.
pub open spec fn spec_base_idx(p: Seq<char>) -> int
    decreases p.len(),
{
    if p.len() == 0 {
        0
    } else if p.last() == '/' || p.last() == '\\' {
        p.len() as int
    } else {
        spec_base_idx(p.drop_last())
    }
}

/// The base index never leaves the string.
pub proof fn lemma_base_idx_bounds(p: Seq<char>)
    ensures
        0 <= spec_base_idx(p) <= p.len(),
    decreases p.len(),
{
    if p.len() > 0 && !(p.last() == '/' || p.last() == '\\') {
        lemma_base_idx_bounds(p.drop_last());
    }
}

/// The file-name part of a path: everything after the last separator.
pub fn file_name_of(p: &str) -> (r: String)
    ensures
        r@ == spec_file_name(p@),
{
    let n = p.unicode_len();
    let mut j: usize = n;
    proof {
        assert(p@.subrange(0, n as int) =~= p@);
    }
    loop
        invariant_except_break
            j <= n,
            n == p@.len(),
            spec_base_idx(p@) == spec_base_idx(p@.subrange(0, j as int)),
        ensures
            j <= n == p@.len(),
            spec_base_idx(p@) == j,
        decreases j,
    {
        if j == 0 {
            proof {
                assert(p@.subrange(0, 0) =~= Seq::<char>::empty());
            }
            break;
        }
        let c = p.get_char(j - 1);
        proof {
            let pre = p@.subrange(0, j as int);
            assert(pre.last() == p@[j - 1]);
            assert(pre.drop_last() =~= p@.subrange(0, j - 1));
        }
        if c == '/' || c == '\\' {
            proof {
                let pre = p@.subrange(0, j as int);
                assert(pre.last() == '/' || pre.last() == '\\');
                assert(spec_base_idx(pre) == j);
            }
            break;
        }
        j = j - 1;
    }
    let mut out: Vec<char> = Vec::new();
    let mut i: usize = j;
    while i < n
        invariant
            j <= i <= n,
            n == p@.len(),
            out@ == p@.subrange(j as int, i as int),
        decreases n - i,
    {
        out.push(p.get_char(i));
        i = i + 1;
        proof {
            assert(p@.subrange(j as int, i as int) =~= p@.subrange(j as int, i - 1).push(
                p@[i - 1],
            ));
        }
    }
    chars_to_string(&out)
}

/// The extraction name derived from a path's file name, or from the
/// timestamp fallback where the path has none.
fn initial_name_source(path: &str, id: Option<u64>) -> (r: String)
    ensures
        spec_file_name(path@).len() > 0 ==> r@ == spec_extracted_name(
            unicode_lower(spec_file_name(path@)),
            id,
        ),
        spec_file_name(path@).len() == 0 ==> exists|t: u64|
            r@ == spec_extracted_name("gmpublisher_extracted_"@ + spec_dec_digits(t as nat), id),
{
    let fname = file_name_of(path);
    if fname.as_str().unicode_len() > 0 {
        let lowered = lowercase(fname.as_str());
        derive_extracted_name(lowered.as_str(), id)
    } else {
        let t = unix_time_secs();
        let mut source = String::from_str("gmpublisher_extracted_");
        let digits = dec_digits(t);
        let ds = chars_to_string(&digits);
        source.append(ds.as_str());
        let r = derive_extracted_name(source.as_str(), id);
        proof {
            assert(source@ == "gmpublisher_extracted_"@ + spec_dec_digits(t as nat));
        }
        r
    }
}

/// One opened container: identity, recorded offsets, and lazily loaded
/// metadata and entries.
#[derive(Debug, Clone)]
pub struct GMAFile {
    /// Absolute path of the source file.
    pub path: String,
    /// Total byte size of the source.
    pub size: u64,
    /// The attached remote content identifier, if any.
    pub id: Option<u64>,
    /// The metadata block, once loaded.
    pub metadata: Option<GMAMetadata>,
    /// The entry map, once loaded.
    pub entries: Option<GMAEntriesMap>,
    /// Recorded byte offsets.
    pub pointers: GMAFilePointers,
    /// Format version byte from the header.
    pub version: u8,
    /// Derived, filesystem-safe extraction name.
    pub extracted_name: String,
    /// Last-modified time of the source, as seconds since the epoch.
    pub modified: Option<u64>,
}

impl GMAFile {
    /// The derived extraction name.
    pub fn extracted_name(&self) -> (r: &str)
        ensures
            r@ == self.extracted_name@,
    {
        self.extracted_name.as_str()
    }

    /// Reads the fixed header from the opening bytes of a container and
    /// builds a descriptor with metadata and entries unset.  Nothing
    /// past the header is examined.
    pub fn read_header(b: &[u8], path: &str, total_size: u64) -> (r: Result<GMAFile, GMAError>)
        ensures
            match r {
                Ok(g) => {
                    &&& spec_parse_header(b@) matches Ok(h) && g.version == h.0
                        && g.pointers.metadata == h.1
                    &&& g.pointers.entries == 0 && g.pointers.entries_list == 0
                    &&& g.path@ == path@ && g.size == total_size
                    &&& g.id is None && g.metadata is None && g.entries is None
                        && g.modified is None
                    &&& spec_file_name(path@).len() > 0 ==> g.extracted_name@
                        == spec_extracted_name(unicode_lower(spec_file_name(path@)), None)
                    &&& spec_file_name(path@).len() == 0 ==> exists|t: u64|
                        g.extracted_name@ == spec_extracted_name(
                            "gmpublisher_extracted_"@ + spec_dec_digits(t as nat),
                            None,
                        )
                },
                Err(e) => spec_parse_header(b@) == Err::<(u8, int), GMAError>(e),
            },
    {
        let (version, metadata_offset) = match parse_header(b) {
            Ok(x) => x,
            Err(e) => { return Err(e); },
        };
        let extracted_name = initial_name_source(path, None);
        Ok(GMAFile {
            path: String::from_str(path),
            size: total_size,
            id: None,
            metadata: None,
            entries: None,
            pointers: GMAFilePointers {
                metadata: metadata_offset as u64,
                entries: 0,
                entries_list: 0,
            },
            version,
            extracted_name,
            modified: None,
        })
    }

    /// Recomputes the extraction name from the current title (or file
    /// name) and remote identifier.
    pub fn compute_extracted_name(&mut self)
        ensures
            *final(self) == (GMAFile { extracted_name: final(self).extracted_name, ..*old(self) }),
            match old(self).metadata {
                Some(m) => final(self).extracted_name@ == spec_extracted_name(
                    unicode_lower(spec_title(m@)),
                    old(self).id,
                ),
                None => {
                    &&& spec_file_name(old(self).path@).len() > 0
                        ==> final(self).extracted_name@ == spec_extracted_name(
                        unicode_lower(spec_file_name(old(self).path@)),
                        old(self).id,
                    )
                    &&& spec_file_name(old(self).path@).len() == 0 ==> exists|t: u64|
                        final(self).extracted_name@ == spec_extracted_name(
                            "gmpublisher_extracted_"@ + spec_dec_digits(t as nat),
                            old(self).id,
                        )
                },
            },
    {
        match &self.metadata {
            Some(m) => {
                let source = lowercase(m.title());
                self.extracted_name = derive_extracted_name(source.as_str(), self.id);
            },
            None => {
                let id = self.id;
                self.extracted_name = initial_name_source(self.path.as_str(), id);
            },
        }
    }

    /// Attaches a remote content identifier.  On a fresh descriptor the
    /// identifier's digits are appended to the current name; on one
    /// that already had an identifier or metadata, the name is derived
    /// anew.
    pub fn set_ws_id(&mut self, id: u64)
        ensures
            *final(self) == (GMAFile {
                id: final(self).id,
                extracted_name: final(self).extracted_name,
                ..*old(self)
            }),
            final(self).id == Some(id),
            old(self).id is None && old(self).metadata is None ==> final(self).extracted_name@
                == old(self).extracted_name@ + "_"@ + spec_dec_digits(id as nat),
            old(self).id is Some || old(self).metadata is Some ==> (match old(self).metadata {
                Some(m) => final(self).extracted_name@ == spec_extracted_name(
                    unicode_lower(spec_title(m@)),
                    Some(id),
                ),
                None => {
                    &&& spec_file_name(old(self).path@).len() > 0
                        ==> final(self).extracted_name@ == spec_extracted_name(
                        unicode_lower(spec_file_name(old(self).path@)),
                        Some(id),
                    )
                    &&& spec_file_name(old(self).path@).len() == 0 ==> exists|t: u64|
                        final(self).extracted_name@ == spec_extracted_name(
                            "gmpublisher_extracted_"@ + spec_dec_digits(t as nat),
                            Some(id),
                        )
                },
            }),
    {
        let compute = self.id.is_some() || self.metadata.is_some();
        self.id = Some(id);
        if compute {
            self.compute_extracted_name();
        } else {
            self.extracted_name.append("_");
            let digits = dec_digits(id);
            let ds = chars_to_string(&digits);
            self.extracted_name.append(ds.as_str());
        }
    }

    /// Loads the metadata block and entry table from the container's
    /// bytes, recording where the table and the packed data begin.
    /// Idempotent: with the entries already loaded, nothing changes.
    pub fn entries(&mut self, b: &[u8]) -> (r: Result<(), GMAError>)
        ensures
            match r {
                Ok(()) => {
                    &&& old(self).entries is Some ==> *final(self) == *old(self)
                    &&& old(self).entries is None ==> {
                        &&& old(self).pointers.metadata <= b@.len()
                        &&& spec_parse_metadata(b@, old(self).pointers.metadata as int)
                            matches Some((m, tstart)) && {
                            &&& final(self).metadata matches Some(md) && md@ == m
                            &&& final(self).pointers.entries_list == tstart
                            &&& spec_parse_entries(b@, tstart, 0nat) matches Some((tbl, dstart))
                                && {
                                &&& final(self).pointers.entries == dstart
                                &&& final(self).entries matches Some(em) && em@
                                    == spec_dedup_into(Seq::<EntryModel>::empty(), tbl)
                                    && em.wf()
                            }
                        }
                        &&& final(self).path == old(self).path
                        &&& final(self).size == old(self).size
                        &&& final(self).id == old(self).id
                        &&& final(self).version == old(self).version
                        &&& final(self).extracted_name == old(self).extracted_name
                        &&& final(self).modified == old(self).modified
                        &&& final(self).pointers.metadata == old(self).pointers.metadata
                    }
                },
                Err(e) => {
                    &&& *final(self) == *old(self)
                    &&& old(self).entries is None
                    &&& if old(self).pointers.metadata > b@.len() {
                        e == GMAError::IOError
                    } else {
                        &&& e == GMAError::FormatError
                        &&& match spec_parse_metadata(b@, old(self).pointers.metadata as int) {
                            None => true,
                            Some((m, tstart)) => spec_parse_entries(b@, tstart, 0nat) is None,
                        }
                    }
                },
            },
    {
        if self.entries.is_some() {
            return Ok(());
        }
        let pm = self.pointers.metadata;
        if pm > b.len() as u64 {
            return Err(GMAError::IOError);
        }
        let pm_usize = pm as usize;
        let (md, tstart) = match parse_metadata(b, pm_usize) {
            Ok(x) => x,
            Err(e) => { return Err(e); },
        };
        let (table, dstart) = match parse_entries(b, tstart) {
            Ok(x) => x,
            Err(e) => { return Err(e); },
        };
        let map = GMAEntriesMap::from_table(table);
        self.metadata = Some(md);
        self.entries = Some(map);
        self.pointers.entries_list = tstart as u64;
        self.pointers.entries = dstart as u64;
        Ok(())
    }

    /// Plans the extraction of every entry against the whitelist, with
    /// absolute byte locations in the source file.  The entry map must
    /// be loaded; planning succeeds exactly where every entry's absolute
    /// offset fits in 64 bits.
    pub fn extract_plan(&self) -> (r: Result<Vec<ExtractAction>, GMAError>)
        ensures
            match r {
                Ok(v) => self.entries matches Some(em) && v.deep_view() == spec_plan(
                    em@,
                    self.pointers.entries,
                ),
                Err(e) => {
                    &&& (e == GMAError::IOError || e == GMAError::FormatError)
                    &&& e == GMAError::IOError ==> self.entries is None
                    &&& e == GMAError::FormatError ==> (self.entries matches Some(em)
                        && exists|k: int|
                        0 <= k < em@.len() && self.pointers.entries + (#[trigger] em@[k]).index
                            > u64::MAX)
                },
            },
    {
        let em = match &self.entries {
            Some(em) => em,
            None => { return Err(GMAError::IOError); },
        };
        plan_extraction(em.as_table(), self.pointers.entries)
    }

    /// Where one entry's bytes stand in the source file: its absolute
    /// byte offset and its size.  Fails with `EntryNotFound` exactly
    /// where the path is not in the entry map, and with `FormatError`
    /// exactly where the absolute offset would not fit in 64 bits; a
    /// present, addressable path is owed its location.  An offset of
    /// zero is a legitimate location: the first entry of every container
    /// has it.
    pub fn entry_location(&self, entry_path: &str) -> (r: Result<(u64, u64), GMAError>)
        requires
            self.entries is Some,
        ensures
            ({
                let em = self.entries.unwrap();
                match r {
                    Ok(loc) => spec_find(em@, entry_path@) matches Some(i) && {
                        &&& loc.0 == self.pointers.entries + em@[i].index
                        &&& loc.1 == em@[i].size
                    },
                    Err(e) => {
                        &&& (e == GMAError::EntryNotFound || e == GMAError::FormatError)
                        &&& e == GMAError::EntryNotFound ==> spec_find(em@, entry_path@) is None
                        &&& e == GMAError::FormatError ==> (spec_find(em@, entry_path@)
                            matches Some(i) && self.pointers.entries + em@[i].index > u64::MAX)
                    },
                }
            }),
    {
        let em = match &self.entries {
            Some(em) => em,
            None => { return Err(GMAError::IOError); },
        };
        let entry = match em.get(entry_path) {
            Some(e) => e,
            None => { return Err(GMAError::EntryNotFound); },
        };
        if entry.index > u64::MAX - self.pointers.entries {
            return Err(GMAError::FormatError);
        }
        Ok((self.pointers.entries + entry.index, entry.size))
    }
}

impl PartialEq for GMAFile {
    /// Identity is the source path alone.
    fn eq(&self, other: &Self) -> (r: bool) {
        str_eq(self.path.as_str(), other.path.as_str())
    }
}

impl vstd::std_specs::cmp::PartialEqSpecImpl for GMAFile {
    open spec fn obeys_eq_spec() -> bool {
        true
    }

    open spec fn eq_spec(&self, other: &GMAFile) -> bool {
        self.path@ == other.path@
    }
}

/// How two descriptors order: by last-modified timestamp, an absent one
/// ordering before every present one.
pub open spec fn spec_modified_order(a: Option<u64>, b: Option<u64>) -> core::cmp::Ordering {
    match (a, b) {
        (None, None) => core::cmp::Ordering::Equal,
        (None, Some(_)) => core::cmp::Ordering::Less,
        (Some(_), None) => core::cmp::Ordering::Greater,
        (Some(x), Some(y)) => if x < y {
            core::cmp::Ordering::Less
        } else if x > y {
            core::cmp::Ordering::Greater
        } else {
            core::cmp::Ordering::Equal
        },
    }
}

impl PartialOrd for GMAFile {
    /// Ordering is the last-modified timestamp alone.
    fn partial_cmp(&self, other: &Self) -> (r: Option<core::cmp::Ordering>) {
        let o = match (self.modified, other.modified) {
            (None, None) => core::cmp::Ordering::Equal,
            (None, Some(_)) => core::cmp::Ordering::Less,
            (Some(_), None) => core::cmp::Ordering::Greater,
            (Some(x), Some(y)) => if x < y {
                core::cmp::Ordering::Less
            } else if x > y {
                core::cmp::Ordering::Greater
            } else {
                core::cmp::Ordering::Equal
            },
        };
        Some(o)
    }
}

impl vstd::std_specs::cmp::PartialOrdSpecImpl for GMAFile {
    open spec fn obeys_partial_cmp_spec() -> bool {
        true
    }

    open spec fn partial_cmp_spec(&self, other: &GMAFile) -> Option<core::cmp::Ordering> {
        Some(spec_modified_order(self.modified, other.modified))
    }
}

} // verus!
