use gma::destination::{DirProviders, ExtractDestination};
use gma::name::derive_extracted_name;
use gma::write::build_container;
use gma::{FileInput, GMAFile, GMAMetadata};

fn open_with_title(title: &str) -> GMAFile {
    let metadata = GMAMetadata::Standard {
        title: String::from(title),
        addon_type: String::from("tool"),
        tags: vec![],
        ignore: vec![],
    };
    let files: Vec<FileInput> = vec![];
    let container = build_container(&metadata, &files).unwrap();
    let mut gma = GMAFile::read_header(&container, "/downloads/pack.gma", container.len() as u64)
        .unwrap();
    gma.entries(&container).unwrap();
    gma.compute_extracted_name();
    gma
}

#[test]
fn extraction_name_normalizes_title() {
    let gma = open_with_title("My Addon!!  Pack");
    assert_eq!(gma.extracted_name(), "my_addon_pack");
}

#[test]
fn extraction_name_appends_remote_identifier() {
    let mut gma = open_with_title("My Addon!!  Pack");
    gma.set_ws_id(42);
    assert_eq!(gma.extracted_name(), "my_addon_pack_42");
}

#[test]
fn trailing_separator_is_not_doubled() {
    // A title that already ends in a separator run: with an identifier,
    // the run supplies the one joining underscore.
    let mut gma = open_with_title("My Addon!");
    gma.set_ws_id(42);
    assert_eq!(gma.extracted_name(), "my_addon_42");
    // Without an identifier the trailing separator is dropped.
    let gma2 = open_with_title("My Addon!");
    assert_eq!(gma2.extracted_name(), "my_addon");
}

#[test]
fn fresh_descriptor_appends_identifier_to_current_name() {
    let files: Vec<FileInput> = vec![];
    let metadata = GMAMetadata::Legacy { title: String::new(), description: String::new() };
    let container = build_container(&metadata, &files).unwrap();
    // No metadata loaded and no identifier: the name comes from the file
    // name, and attaching an identifier appends its digits.
    let mut gma = GMAFile::read_header(&container, "/a/b/cool_pack.gma", container.len() as u64)
        .unwrap();
    assert_eq!(gma.extracted_name(), "cool_pack_gma");
    gma.set_ws_id(123456790);
    assert_eq!(gma.extracted_name(), "cool_pack_gma_123456790");
}

#[test]
fn derive_handles_unicode_titles() {
    let name = derive_extracted_name("grüße an alle", None);
    assert_eq!(name, "grüße_an_alle");
}

#[test]
fn derive_collapses_leading_garbage() {
    // The very first character never produces a separator; the rest of
    // a leading run collapses to one underscore.
    assert_eq!(derive_extracted_name("!!!abc", None), "_abc");
    assert_eq!(derive_extracted_name("", None), "");
    assert_eq!(derive_extracted_name("", Some(9)), "_9");
}

#[test]
fn derived_names_hold_no_doubled_separator() {
    // Runs of non-alphanumerics collapse to one separator; a trailing
    // run vanishes without an identifier and supplies the single joining
    // separator with one.
    assert_eq!(derive_extracted_name("a!!!b--", None), "a_b");
    assert_eq!(derive_extracted_name("a!!!b--", Some(3)), "a_b_3");
    assert_eq!(derive_extracted_name("pack!", Some(7)), "pack_7");
    assert_eq!(derive_extracted_name("pack!", None), "pack");
    let name = derive_extracted_name("x  y  z", Some(11));
    assert!(!name.contains("__"));
    assert!(!name.ends_with('_'));
}

fn providers(install: Option<&str>, downloads: Option<&str>) -> DirProviders {
    DirProviders {
        temp_dir: String::from("/tmp"),
        downloads_dir: downloads.map(String::from),
        install_dir: install.map(String::from),
    }
}

#[test]
fn destination_temp() {
    let d = ExtractDestination::Temp;
    assert_eq!(d.into("pack_42", &providers(None, None)), "/tmp/pack_42");
}

#[test]
fn destination_directory_is_verbatim() {
    let d = ExtractDestination::Directory(String::from("/exact/dir"));
    assert_eq!(d.into("pack_42", &providers(None, None)), "/exact/dir");
}

#[test]
fn destination_named_directory_appends_name() {
    let d = ExtractDestination::NamedDirectory(String::from("/exact/dir"));
    assert_eq!(d.into("pack_42", &providers(None, None)), "/exact/dir/pack_42");
}

#[test]
fn destination_downloads_and_fallback() {
    let d = ExtractDestination::Downloads;
    assert_eq!(
        d.clone().into("pack", &providers(None, Some("/home/u/downloads"))),
        "/home/u/downloads/pack"
    );
    assert_eq!(d.into("pack", &providers(None, None)), "/tmp/pack");
}

#[test]
fn destination_install_and_fallback() {
    let d = ExtractDestination::Addons;
    assert_eq!(
        d.clone().into("pack", &providers(Some("/games/gmod"), None)),
        "/games/gmod/GarrysMod/addons"
    );
    // With no install directory configured the target falls back to the
    // temporary directory plus the extraction name; it never fails.
    assert_eq!(d.into("pack", &providers(None, None)), "/tmp/pack");
}

#[test]
fn destination_default_is_temp() {
    let d = ExtractDestination::default();
    assert_eq!(d.into("x", &providers(None, None)), "/tmp/x");
}
