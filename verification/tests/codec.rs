use gma::entries::parse_entries;
use gma::header::parse_header;
use gma::metadata::{build_metadata_block, parse_metadata};
use gma::write::build_container;
use gma::{FileInput, GMAEntriesMap, GMAEntry, GMAError, GMAFile, GMAMetadata};

fn standard_metadata() -> GMAMetadata {
    GMAMetadata::Standard {
        title: String::from("Test Addon"),
        addon_type: String::from("tool"),
        tags: vec![String::from("fun"), String::from("build")],
        ignore: vec![String::from("*.psd")],
    }
}

fn sample_files() -> Vec<FileInput> {
    vec![
        FileInput { path: String::from("lua/autorun/init.lua"), contents: vec![1, 2, 3, 4, 5], crc: 7 },
        FileInput { path: String::from("models/chair.mdl"), contents: vec![9, 8], crc: 0 },
        FileInput { path: String::from("materials/wood.vmt"), contents: vec![42; 300], crc: 3 },
    ]
}

#[test]
fn round_trip_reproduces_paths_and_contents() {
    let metadata = standard_metadata();
    let files = sample_files();
    let container = build_container(&metadata, &files).unwrap();

    let mut gma = GMAFile::read_header(&container, "/tmp/test_addon.gma", container.len() as u64)
        .unwrap();
    assert_eq!(gma.version, 3);
    gma.entries(&container).unwrap();

    let entries = gma.entries.as_ref().unwrap();
    assert_eq!(entries.len(), files.len());
    for f in &files {
        let (offset, size) = gma.entry_location(&f.path).unwrap();
        assert_eq!(size as usize, f.contents.len());
        let start = offset as usize;
        let end = start + size as usize;
        assert_eq!(&container[start..end], &f.contents[..]);
    }

    let md = gma.metadata.as_ref().unwrap();
    assert_eq!(md.title(), "Test Addon");
    assert_eq!(md.addon_type(), Some("tool"));
    assert_eq!(md.tags().unwrap().len(), 2);
    assert_eq!(md.ignore().unwrap(), &vec![String::from("*.psd")]);
}

#[test]
fn round_trip_legacy_metadata() {
    let metadata = GMAMetadata::Legacy {
        title: String::from("Old Addon"),
        description: String::from("A legacy description."),
    };
    let files = vec![FileInput {
        path: String::from("lua/a.lua"),
        contents: vec![0xff, 0x00, 0x10],
        crc: 1,
    }];
    let container = build_container(&metadata, &files).unwrap();
    let mut gma = GMAFile::read_header(&container, "old.gma", container.len() as u64).unwrap();
    gma.entries(&container).unwrap();
    match gma.metadata.as_ref().unwrap() {
        GMAMetadata::Legacy { title, description } => {
            assert_eq!(title, "Old Addon");
            assert_eq!(description, "A legacy description.");
        },
        _ => panic!("expected the legacy shape"),
    }
    let (offset, size) = gma.entry_location("lua/a.lua").unwrap();
    assert_eq!(size, 3);
    assert_eq!(&container[offset as usize..offset as usize + 3], &[0xff, 0x00, 0x10]);
}

#[test]
fn header_validation_bad_magic() {
    let bytes = b"NOPE\x03rest of the file";
    assert_eq!(GMAFile::read_header(bytes, "x.gma", 0).unwrap_err(), GMAError::InvalidHeader);
    assert_eq!(parse_header(bytes).unwrap_err(), GMAError::InvalidHeader);
}

#[test]
fn header_validation_truncated() {
    // A strict prefix of the signature is truncated, not wrong.
    assert_eq!(parse_header(b"GM").unwrap_err(), GMAError::IOError);
    // The full signature without a version byte is still truncated.
    assert_eq!(parse_header(b"GMAD").unwrap_err(), GMAError::IOError);
    // A deviating prefix can never become a valid header.
    assert_eq!(parse_header(b"GX").unwrap_err(), GMAError::InvalidHeader);
    assert_eq!(parse_header(b"").unwrap_err(), GMAError::IOError);
}

#[test]
fn header_reads_version_and_offset() {
    let (version, offset) = parse_header(b"GMAD\x07extra").unwrap();
    assert_eq!(version, 7);
    assert_eq!(offset, 5);
}

#[test]
fn entry_offsets_are_prefix_sums() {
    let metadata = standard_metadata();
    let files = sample_files();
    let container = build_container(&metadata, &files).unwrap();
    let mut gma = GMAFile::read_header(&container, "sums.gma", container.len() as u64).unwrap();
    gma.entries(&container).unwrap();
    let entries = gma.entries.as_ref().unwrap();
    let mut sum: u64 = 0;
    for i in 0..entries.len() {
        let e = entries.index(i);
        assert_eq!(e.index, sum);
        sum += e.size;
    }
}

#[test]
fn first_entry_offset_is_zero_and_valid() {
    let metadata = standard_metadata();
    let files = sample_files();
    let container = build_container(&metadata, &files).unwrap();
    let mut gma = GMAFile::read_header(&container, "zero.gma", container.len() as u64).unwrap();
    gma.entries(&container).unwrap();
    // The first table entry legitimately has offset zero; looking it up
    // must not fail.
    let (offset, _) = gma.entry_location("lua/autorun/init.lua").unwrap();
    assert_eq!(offset, gma.pointers.entries);
}

#[test]
fn entry_lookup_missing_path() {
    let metadata = standard_metadata();
    let files = sample_files();
    let container = build_container(&metadata, &files).unwrap();
    let mut gma = GMAFile::read_header(&container, "missing.gma", container.len() as u64).unwrap();
    gma.entries(&container).unwrap();
    assert_eq!(gma.entry_location("lua/absent.lua").unwrap_err(), GMAError::EntryNotFound);
}

#[test]
fn entries_loading_is_idempotent() {
    let metadata = standard_metadata();
    let files = sample_files();
    let container = build_container(&metadata, &files).unwrap();
    let mut gma = GMAFile::read_header(&container, "idem.gma", container.len() as u64).unwrap();
    gma.entries(&container).unwrap();
    let before = gma.entries.as_ref().unwrap().len();
    // A second call is a no-op, even against garbage bytes.
    gma.entries(b"garbage").unwrap();
    assert_eq!(gma.entries.as_ref().unwrap().len(), before);
}

#[test]
fn duplicate_paths_overwrite_earlier_entries() {
    let metadata = standard_metadata();
    let files = vec![
        FileInput { path: String::from("lua/a.lua"), contents: vec![1, 1, 1], crc: 0 },
        FileInput { path: String::from("lua/b.lua"), contents: vec![2], crc: 0 },
        FileInput { path: String::from("lua/a.lua"), contents: vec![3, 3], crc: 0 },
    ];
    let container = build_container(&metadata, &files).unwrap();
    let mut gma = GMAFile::read_header(&container, "dup.gma", container.len() as u64).unwrap();
    gma.entries(&container).unwrap();
    let entries = gma.entries.as_ref().unwrap();
    assert_eq!(entries.len(), 2);
    // The later duplicate overwrote the earlier descriptor: its size and
    // table offset are those of the third record.
    let (offset, size) = gma.entry_location("lua/a.lua").unwrap();
    assert_eq!(size, 2);
    assert_eq!(&container[offset as usize..offset as usize + 2], &[3, 3]);
}

#[test]
fn parser_normalizes_entry_paths_to_lowercase() {
    // Build a container by hand with an uppercase path in the table.
    let metadata = GMAMetadata::Legacy { title: String::new(), description: String::new() };
    let mblock = build_metadata_block(&metadata).unwrap();
    let mut container: Vec<u8> = Vec::new();
    container.extend_from_slice(b"GMAD\x03");
    container.extend_from_slice(&mblock);
    container.push(1);
    container.extend_from_slice(b"LUA/Init.LUA\x00");
    container.extend_from_slice(&2u64.to_le_bytes());
    container.extend_from_slice(&0u32.to_le_bytes());
    container.push(0);
    container.extend_from_slice(&[5, 6]);
    let mut gma = GMAFile::read_header(&container, "up.gma", container.len() as u64).unwrap();
    gma.entries(&container).unwrap();
    assert!(gma.entry_location("lua/init.lua").is_ok());
    assert_eq!(gma.entry_location("LUA/Init.LUA").unwrap_err(), GMAError::EntryNotFound);
}

#[test]
fn writer_rejects_embedded_nul_in_title() {
    let metadata = GMAMetadata::Legacy {
        title: String::from("bad\u{0}title"),
        description: String::new(),
    };
    assert_eq!(build_metadata_block(&metadata).unwrap_err(), GMAError::FormatError);
    let files: Vec<FileInput> = vec![];
    assert_eq!(build_container(&metadata, &files).unwrap_err(), GMAError::FormatError);
}

#[test]
fn writer_rejects_unnormalized_entry_path() {
    let metadata = standard_metadata();
    let files = vec![FileInput { path: String::from("Lua/Init.lua"), contents: vec![1], crc: 0 }];
    assert_eq!(build_container(&metadata, &files).unwrap_err(), GMAError::FormatError);
}

#[test]
fn metadata_parse_rejects_unterminated_block() {
    // No NUL terminator anywhere: neither shape fits.
    let bytes = [9u8, 10, 11];
    assert_eq!(parse_metadata(&bytes, 0).unwrap_err(), GMAError::FormatError);
}

#[test]
fn metadata_standard_shape_takes_precedence() {
    // Two NUL-terminated strings followed by two zero counts satisfy the
    // strict standard match, so the untagged layout reads them as the
    // standard shape even though a legacy reading also exists.
    let bytes = [0u8, 0, 0, 0, 0, 0, 0, 0, 0, 0];
    let (md, end) = parse_metadata(&bytes, 0).unwrap();
    assert_eq!(end, 10);
    assert!(matches!(md, GMAMetadata::Standard { .. }));
}

#[test]
fn metadata_falls_back_to_legacy() {
    // Two strings with nothing after them: the standard match runs out
    // of bytes at its first count, so the legacy reading stands.
    let mut bytes = Vec::new();
    bytes.extend_from_slice(b"a title\x00a description\x00");
    let (md, end) = parse_metadata(&bytes, 0).unwrap();
    assert_eq!(end, bytes.len());
    match md {
        GMAMetadata::Legacy { title, description } => {
            assert_eq!(title, "a title");
            assert_eq!(description, "a description");
        },
        _ => panic!("expected the legacy shape"),
    }
}

#[test]
fn entry_table_rejects_unknown_marker() {
    let bytes = [7u8];
    assert_eq!(parse_entries(&bytes, 0).unwrap_err(), GMAError::FormatError);
}

#[test]
fn entry_table_rejects_truncation() {
    // A record marker with nothing after it.
    let bytes = [1u8];
    assert_eq!(parse_entries(&bytes, 0).unwrap_err(), GMAError::FormatError);
}

#[test]
fn empty_container_round_trips() {
    let metadata = standard_metadata();
    let files: Vec<FileInput> = vec![];
    let container = build_container(&metadata, &files).unwrap();
    let mut gma = GMAFile::read_header(&container, "empty.gma", container.len() as u64).unwrap();
    gma.entries(&container).unwrap();
    assert_eq!(gma.entries.as_ref().unwrap().len(), 0);
    assert_eq!(gma.pointers.entries as usize, container.len());
}

#[test]
fn error_messages_are_stable() {
    assert_eq!(GMAError::IOError.message(), "ERR_GMA_IO_ERROR");
    assert_eq!(GMAError::FormatError.message(), "ERR_GMA_FORMAT_ERROR");
    assert_eq!(GMAError::InvalidHeader.message(), "ERR_GMA_INVALID_HEADER");
    assert_eq!(GMAError::EntryNotFound.message(), "ERR_GMA_ENTRY_NOT_FOUND");
    assert_eq!(GMAError::LZMA.message(), "ERR_LZMA");
}

#[test]
fn descriptor_identity_and_ordering() {
    let metadata = standard_metadata();
    let files = sample_files();
    let container = build_container(&metadata, &files).unwrap();
    let mut a = GMAFile::read_header(&container, "/x/one.gma", container.len() as u64).unwrap();
    let mut b = GMAFile::read_header(&container, "/x/one.gma", container.len() as u64).unwrap();
    let c = GMAFile::read_header(&container, "/x/two.gma", container.len() as u64).unwrap();
    // Identity is the source path alone, whatever else differs.
    a.modified = Some(10);
    b.modified = Some(99);
    assert!(a == b);
    assert!(a != c);
    // Ordering is the last-modified timestamp alone.
    assert!(a < b);
    let mut d = GMAFile::read_header(&container, "/x/three.gma", container.len() as u64).unwrap();
    d.modified = None;
    assert!(d < a);
}

#[test]
fn entries_map_insert_and_lookup() {
    let mut map = GMAEntriesMap::new();
    assert_eq!(map.len(), 0);
    assert!(map.get("lua/a.lua").is_none());
    map.insert(GMAEntry { path: String::from("lua/a.lua"), size: 3, crc: 0, index: 0 });
    map.insert(GMAEntry { path: String::from("lua/b.lua"), size: 5, crc: 0, index: 3 });
    assert_eq!(map.len(), 2);
    assert_eq!(map.get("lua/b.lua").unwrap().size, 5);
    // Inserting an already-present path overwrites in place.
    map.insert(GMAEntry { path: String::from("lua/a.lua"), size: 9, crc: 1, index: 8 });
    assert_eq!(map.len(), 2);
    let e = map.get("lua/a.lua").unwrap();
    assert_eq!((e.size, e.crc, e.index), (9, 1, 8));
    assert_eq!(map.index(0).path, "lua/a.lua");
}
