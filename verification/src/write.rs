//! The write side of the codec: serializing a metadata block plus a
//! list of files into a fresh container, with each entry's offset equal
//! to its position in the concatenated packed-data region.

use vstd::prelude::*;

use crate::bytes::lemma_split_segment;
use crate::entries::{
    EntryModel, GMAEntry, build_entries_block, entries_encodable, entry_path_encodable,
    lemma_parse_entries_encode, spec_encode_entries, spec_parse_entries, spec_size_sum,
};
use crate::error::GMAError;
use crate::header::{GMA_VERSION, magic, spec_parse_header};
use crate::metadata::{
    GMAMetadata, MetadataModel, append_bytes, build_metadata_block, lemma_parse_metadata_encode,
    metadata_wf, spec_encode_metadata, spec_parse_metadata, spec_parse_standard,
};

verus! {

/// One file handed to the writer: its normalized relative path, its
/// raw contents, and its advisory checksum.
#[derive(Debug, Clone)]
pub struct FileInput {
    pub path: String,
    pub contents: Vec<u8>,
    pub crc: u32,
}

/// Mathematical model of a writer input file.
#[verifier::ext_equal]
pub struct FileModel {
    pub path: Seq<char>,
    pub contents: Seq<u8>,
    pub crc: u32,
}

impl View for FileInput {
    type V = FileModel;

    open spec fn view(&self) -> FileModel {
        FileModel { path: self.path@, contents: self.contents@, crc: self.crc }
    }
}

impl DeepView for FileInput {
    type V = FileModel;

    open spec fn deep_view(&self) -> FileModel {
        self.view()
    }
}

/// The packed-data region: every file's contents concatenated in order.
pub open spec fn spec_payload(files: Seq<FileModel>) -> Seq<u8>
    decreases files.len(),
{
    if files.len() == 0 {
        Seq::empty()
    } else {
        files[0].contents + spec_payload(files.drop_first())
    }
}

/// The length of the packed bytes of the first `k` files.
pub open spec fn spec_prefix_len(files: Seq<FileModel>, k: int) -> int {
    spec_payload(files.subrange(0, k)).len() as int
}

/// The entry table the writer derives from its input files, with `off`
/// the packed-data offset of the first file.
pub open spec fn spec_table_from(files: Seq<FileModel>, off: int) -> Seq<EntryModel>
    decreases files.len(),
{
    if files.len() == 0 {
        Seq::empty()
    } else {
        seq![
            EntryModel {
                path: files[0].path,
                size: files[0].contents.len() as u64,
                crc: files[0].crc,
                index: off as u64,
            },
        ] + spec_table_from(files.drop_first(), off + files[0].contents.len())
    }
}

/// The entry table of a container built from `files`.
pub open spec fn spec_table(files: Seq<FileModel>) -> Seq<EntryModel> {
    spec_table_from(files, 0)
}

/// Whether a file list can be written: every path encodable, and the
/// whole packed-data region addressable by 64-bit offsets.
pub open spec fn files_wf(files: Seq<FileModel>) -> bool {
    &&& forall|i: int| 0 <= i < files.len() ==> entry_path_encodable((#[trigger] files[i]).path)
    &&& spec_payload(files).len() <= u64::MAX
}

/// The serialized container: signature, version byte, metadata block,
/// entry table, packed-data region.
pub open spec fn spec_container_bytes(version: u8, m: MetadataModel, files: Seq<FileModel>) -> Seq<
    u8,
> {
    magic() + seq![version] + spec_encode_metadata(m) + spec_encode_entries(spec_table(files))
        + spec_payload(files)
}

/// Unfolding the payload prefix across the first file.
pub proof fn lemma_prefix_len_unfold(files: Seq<FileModel>, k: int)
    requires
        1 <= k <= files.len(),
    ensures
        spec_prefix_len(files, k) == files[0].contents.len() + spec_prefix_len(
            files.drop_first(),
            k - 1,
        ),
{
    let pre = files.subrange(0, k);
    assert(pre[0] == files[0]);
    assert(pre.drop_first() =~= files.drop_first().subrange(0, k - 1));
}

/// The payload of any list is as long as any of its prefixes.
pub proof fn lemma_prefix_len_le(files: Seq<FileModel>, k: int)
    requires
        0 <= k <= files.len(),
    ensures
        0 <= spec_prefix_len(files, k) <= spec_payload(files).len(),
    decreases files.len(),
{
    if k == 0 {
        assert(files.subrange(0, 0) =~= Seq::<FileModel>::empty());
    } else {
        lemma_prefix_len_unfold(files, k);
        lemma_prefix_len_le(files.drop_first(), k - 1);
    }
}

/// The writer's table lines up with its files: same length, each entry
/// carrying the file's path, size and checksum, each entry's offset the
/// length of the packed bytes before it, and the size total equal to
/// the payload length.
pub proof fn lemma_table_properties(files: Seq<FileModel>, off: int)
    requires
        0 <= off,
        off + spec_payload(files).len() <= u64::MAX,
    ensures
        spec_table_from(files, off).len() == files.len(),
        forall|k: int|
            #![trigger spec_table_from(files, off)[k]]
            0 <= k < files.len() ==> {
                &&& spec_table_from(files, off)[k].path == files[k].path
                &&& spec_table_from(files, off)[k].size == files[k].contents.len()
                &&& spec_table_from(files, off)[k].crc == files[k].crc
                &&& spec_table_from(files, off)[k].index == off + spec_prefix_len(files, k)
            },
        forall|k: int|
            0 <= k <= files.len() ==> spec_size_sum(
                #[trigger] spec_table_from(files, off).subrange(0, k),
            ) == spec_prefix_len(files, k),
        spec_size_sum(spec_table_from(files, off)) == spec_payload(files).len(),
    decreases files.len(),
{
    let t = spec_table_from(files, off);
    if files.len() == 0 {
        assert(files.subrange(0, 0) =~= Seq::<FileModel>::empty());
        assert(t.subrange(0, 0) =~= Seq::<EntryModel>::empty());
    } else {
        let rest = files.drop_first();
        let len0 = files[0].contents.len() as int;
        let trest = spec_table_from(rest, off + len0);
        lemma_table_properties(rest, off + len0);
        assert(t.len() == files.len());
        assert forall|k: int|
            #![trigger spec_table_from(files, off)[k]]
            0 <= k < files.len() implies {
            &&& spec_table_from(files, off)[k].path == files[k].path
            &&& spec_table_from(files, off)[k].size == files[k].contents.len()
            &&& spec_table_from(files, off)[k].crc == files[k].crc
            &&& spec_table_from(files, off)[k].index == off + spec_prefix_len(files, k)
        } by {
            if k == 0 {
                assert(files.subrange(0, 0) =~= Seq::<FileModel>::empty());
                assert(spec_prefix_len(files, 0) == 0);
            } else {
                assert(t[k] == trest[k - 1]);
                assert(rest[k - 1] == files[k]);
                lemma_prefix_len_unfold(files, k);
            }
        }
        assert forall|k: int| 0 <= k <= files.len() implies spec_size_sum(
            #[trigger] t.subrange(0, k),
        ) == spec_prefix_len(files, k) by {
            if k == 0 {
                assert(t.subrange(0, 0) =~= Seq::<EntryModel>::empty());
                assert(files.subrange(0, 0) =~= Seq::<FileModel>::empty());
            } else {
                let pre = t.subrange(0, k);
                assert(pre[0] == t[0]);
                assert(pre.drop_first() =~= trest.subrange(0, k - 1));
                lemma_prefix_len_unfold(files, k);
            }
        }
        assert(t.subrange(0, t.len() as int) =~= t);
        assert(files.subrange(0, files.len() as int) =~= files);
    }
}

/// Within any byte source holding the payload at `q`, each file's
/// contents stand exactly at `q` plus the packed length before it.
pub proof fn lemma_payload_segments(b: Seq<u8>, q: int, files: Seq<FileModel>)
    requires
        0 <= q,
        q + spec_payload(files).len() <= b.len(),
        b.subrange(q, q + spec_payload(files).len()) == spec_payload(files),
    ensures
        forall|k: int|
            0 <= k < files.len() ==> b.subrange(
                q + spec_prefix_len(files, k),
                q + spec_prefix_len(files, k) + (#[trigger] files[k]).contents.len(),
            ) == files[k].contents,
    decreases files.len(),
{
    if files.len() > 0 {
        let rest = files.drop_first();
        let len0 = files[0].contents.len() as int;
        lemma_split_segment(b, q, files[0].contents, spec_payload(rest));
        lemma_payload_segments(b, q + len0, rest);
        assert forall|k: int| 0 <= k < files.len() implies b.subrange(
            q + spec_prefix_len(files, k),
            q + spec_prefix_len(files, k) + (#[trigger] files[k]).contents.len(),
        ) == files[k].contents by {
            if k == 0 {
                assert(files.subrange(0, 0) =~= Seq::<FileModel>::empty());
                assert(spec_prefix_len(files, 0) == 0);
            } else {
                lemma_prefix_len_unfold(files, k);
                assert(files[k] == rest[k - 1]);
            }
        }
    }
}

/// Appending one file appends its contents to the payload.
pub proof fn lemma_payload_snoc(files: Seq<FileModel>, f: FileModel)
    ensures
        spec_payload(files.push(f)) == spec_payload(files) + f.contents,
    decreases files.len(),
{
    if files.len() == 0 {
        assert(files.push(f)[0] == f);
        assert(files.push(f).drop_first() =~= Seq::<FileModel>::empty());
        assert(spec_payload(files.push(f)) == f.contents + spec_payload(
            Seq::<FileModel>::empty(),
        ));
        assert(spec_payload(files.push(f)) =~= spec_payload(files) + f.contents);
    } else {
        assert(files.push(f)[0] == files[0]);
        assert(files.push(f).drop_first() =~= files.drop_first().push(f));
        lemma_payload_snoc(files.drop_first(), f);
        assert(spec_payload(files.push(f)) == files[0].contents + spec_payload(
            files.drop_first().push(f),
        ));
        assert(files[0].contents + (spec_payload(files.drop_first()) + f.contents) =~= (
        files[0].contents + spec_payload(files.drop_first())) + f.contents);
    }
}

/// Round trip: a container built from a well-formed metadata block and
/// file list parses back to exactly that metadata and a table whose
/// entries carry the files' paths and sizes, and the packed bytes of
/// each entry, addressed by its table offset, are that file's contents.
/// The metadata block carries no shape tag, so for the legacy shape the
/// law holds only where the container's bytes do not also satisfy the
/// strict standard match, which takes precedence; the premise rules
/// those ambiguous encodings out.
pub proof fn lemma_container_round_trip(version: u8, m: MetadataModel, files: Seq<FileModel>)
    requires
        metadata_wf(m),
        files_wf(files),
        m is Legacy ==> spec_parse_standard(spec_container_bytes(version, m, files), 5) is None,
    ensures
        ({
            let b = spec_container_bytes(version, m, files);
            let t = spec_table(files);
            let p = 5 + spec_encode_metadata(m).len() as int;
            let q = p + spec_encode_entries(t).len() as int;
            &&& spec_parse_header(b) == Ok::<(u8, int), GMAError>((version, 5))
            &&& spec_parse_metadata(b, 5) == Some((m, p))
            &&& spec_parse_entries(b, p, 0nat) == Some((t, q))
            &&& t.len() == files.len()
            &&& forall|k: int|
                0 <= k < files.len() ==> (#[trigger] t[k]).path == files[k].path && t[k].size
                    == files[k].contents.len() && t[k].crc == files[k].crc
            &&& b.len() == q + spec_payload(files).len()
            &&& forall|k: int|
                0 <= k < files.len() ==> b.subrange(
                    q + (#[trigger] t[k]).index,
                    q + t[k].index + t[k].size,
                ) == files[k].contents
        }),
{
    let b = spec_container_bytes(version, m, files);
    let t = spec_table(files);
    let em = spec_encode_metadata(m);
    let et = spec_encode_entries(t);
    let pay = spec_payload(files);
    let p = 5 + em.len() as int;
    let q = p + et.len() as int;
    lemma_table_properties(files, 0);

    let r1 = seq![version] + (em + (et + pay));
    assert(b =~= magic() + r1);
    assert(b.len() == q + pay.len());
    assert(b.subrange(0, b.len() as int) =~= b);
    lemma_split_segment(b, 0, magic(), r1);
    assert forall|i: int| 0 <= i < 4 && i < b.len() implies b[i] == magic()[i] by {
        assert(b[i] == b.subrange(0, 4)[i]);
    }
    lemma_split_segment(b, 4, seq![version], em + (et + pay));
    assert(b[4] == b.subrange(4, 5)[0]);
    assert(spec_parse_header(b) == Ok::<(u8, int), GMAError>((version, 5)));
    lemma_split_segment(b, 5, em, et + pay);
    lemma_parse_metadata_encode(b, 5, m);
    lemma_split_segment(b, p, et, pay);
    lemma_parse_entries_encode(b, p, 0nat, t);
    lemma_payload_segments(b, q, files);
    assert forall|k: int| 0 <= k < files.len() implies b.subrange(
        q + (#[trigger] t[k]).index,
        q + t[k].index + t[k].size,
    ) == files[k].contents by {
        assert(t[k].index == spec_prefix_len(files, k));
        assert(t[k].size == files[k].contents.len());
    }
}

/// Serializes a container from a metadata block and a list of files.
/// Succeeds exactly on well-formed input; the output is the signature,
/// the version byte, the metadata block, the entry table and the packed
/// bytes of every file in order.
pub fn build_container(metadata: &GMAMetadata, files: &Vec<FileInput>) -> (r: Result<
    Vec<u8>,
    GMAError,
>)
    ensures
        match r {
            Ok(v) => {
                &&& metadata_wf(metadata@)
                &&& files_wf(files.deep_view())
                &&& v@ == spec_container_bytes(GMA_VERSION, metadata@, files.deep_view())
            },
            Err(e) => {
                &&& !(metadata_wf(metadata@) && files_wf(files.deep_view()))
                &&& e == GMAError::FormatError
            },
        },
{
    let ghost fm = files.deep_view();
    let mblock = match build_metadata_block(metadata) {
        Ok(v) => v,
        Err(e) => { return Err(e); },
    };

    // Derive the entry table, tracking the running packed-data offset.
    let mut table: Vec<GMAEntry> = Vec::new();
    let mut off: u64 = 0;
    let mut i: usize = 0;
    while i < files.len()
        invariant
            i <= fm.len(),
            files.deep_view() == fm,
            table.deep_view().len() == i as int,
            off == spec_prefix_len(fm, i as int),
            forall|k: int|
                0 <= k < i ==> #[trigger] table.deep_view()[k] == (EntryModel {
                    path: fm[k].path,
                    size: fm[k].contents.len() as u64,
                    crc: fm[k].crc,
                    index: spec_prefix_len(fm, k) as u64,
                }),
        decreases fm.len() - i,
    {
        let f = &files[i];
        let size = f.contents.len() as u64;
        if size > u64::MAX - off {
            proof {
                // The packed bytes of the first i + 1 files alone
                // overrun the 64-bit offset space.
                assert(fm.subrange(0, i + 1) =~= fm.subrange(0, i as int).push(fm[i as int]));
                lemma_payload_snoc(fm.subrange(0, i as int), fm[i as int]);
                lemma_prefix_len_le(fm, i + 1);
            }
            return Err(GMAError::FormatError);
        }
        let entry = GMAEntry { path: f.path.clone(), size, crc: f.crc, index: off };
        let ghost dv0 = table.deep_view();
        table.push(entry);
        off = off + size;
        i = i + 1;
        proof {
            assert(fm.subrange(0, i as int) =~= fm.subrange(0, i - 1).push(fm[i - 1]));
            lemma_payload_snoc(fm.subrange(0, i - 1), fm[i - 1]);
            assert(table.deep_view() =~= dv0.push(entry.deep_view()));
            assert(table.deep_view()[i - 1] == (EntryModel {
                path: fm[i - 1].path,
                size: fm[i - 1].contents.len() as u64,
                crc: fm[i - 1].crc,
                index: spec_prefix_len(fm, i - 1) as u64,
            }));
        }
    }
    proof {
        assert(fm.subrange(0, fm.len() as int) =~= fm);
        assert(spec_prefix_len(fm, fm.len() as int) == spec_payload(fm).len());
        lemma_table_properties(fm, 0);
        assert forall|k: int| 0 <= k < fm.len() implies table.deep_view()[k] == spec_table(fm)[k]
        by {
            assert(spec_table_from(fm, 0)[k].path == fm[k].path);
            assert(spec_table_from(fm, 0)[k].index == spec_prefix_len(fm, k));
            assert(table.deep_view()[k] =~= spec_table(fm)[k]);
        }
        assert(table.deep_view() =~= spec_table(fm));
    }

    proof {
        assert(spec_payload(fm).len() <= u64::MAX);
    }
    let eblock = match build_entries_block(&table) {
        Ok(v) => {
            proof {
                assert forall|j: int| 0 <= j < fm.len() implies entry_path_encodable(
                    (#[trigger] fm[j]).path,
                ) by {
                    assert(entry_path_encodable(table.deep_view()[j].path));
                    assert(table.deep_view()[j].path == fm[j].path);
                }
            }
            v
        },
        Err(e) => {
            proof {
                let j = choose|j: int|
                    0 <= j < table.deep_view().len() && !entry_path_encodable(
                        #[trigger] table.deep_view()[j].path,
                    );
                assert(!entry_path_encodable(fm[j].path));
            }
            return Err(e);
        },
    };

    // Assemble: signature, version, metadata block, table, payload.
    let mut out: Vec<u8> = Vec::new();
    out.push(71);
    out.push(77);
    out.push(65);
    out.push(68);
    out.push(GMA_VERSION);
    proof {
        assert(out@ =~= magic() + seq![GMA_VERSION]);
    }
    append_bytes(&mut out, mblock.as_slice());
    append_bytes(&mut out, eblock.as_slice());
    let ghost head = magic() + seq![GMA_VERSION] + spec_encode_metadata(metadata@)
        + spec_encode_entries(spec_table(fm));
    proof {
        assert(out@ =~= head);
    }
    let mut i: usize = 0;
    while i < files.len()
        invariant
            i <= fm.len(),
            files.deep_view() == fm,
            out@ == head + spec_payload(fm.subrange(0, i as int)),
        decreases fm.len() - i,
    {
        let f = &files[i];
        append_bytes(&mut out, f.contents.as_slice());
        i = i + 1;
        proof {
            assert(fm.subrange(0, i as int) =~= fm.subrange(0, i - 1).push(fm[i - 1]));
            lemma_payload_snoc(fm.subrange(0, i - 1), fm[i - 1]);
            assert(out@ =~= head + spec_payload(fm.subrange(0, i as int)));
        }
    }
    proof {
        assert(fm.subrange(0, fm.len() as int) =~= fm);
        assert(out@ =~= spec_container_bytes(GMA_VERSION, metadata@, fm));
    }
    Ok(out)
}

} // verus!
