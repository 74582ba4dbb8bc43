use std::io::Read;

use gma::lzma::lzma_decompress;
use gma::write::build_container;
use gma::{FileInput, GMAError, GMAFile, GMAMetadata};

fn lzma_compress(data: &[u8]) -> Vec<u8> {
    let options = xz2::stream::LzmaOptions::new_preset(6).unwrap();
    let stream = xz2::stream::Stream::new_lzma_encoder(&options).unwrap();
    let mut encoder = xz2::read::XzEncoder::new_stream(std::io::Cursor::new(data), stream);
    let mut out = Vec::new();
    encoder.read_to_end(&mut out).unwrap();
    out
}

#[test]
fn decompress_round_trip() {
    let data: Vec<u8> = (0u16..2000).map(|i| (i % 251) as u8).collect();
    let compressed = lzma_compress(&data);
    let decompressed = lzma_decompress(&compressed).unwrap();
    assert_eq!(decompressed, data);
}

#[test]
fn decompress_tolerates_trailing_bytes() {
    let data = b"a container may carry trailing padding after the stream ends";
    let mut compressed = lzma_compress(data);
    compressed.extend_from_slice(&[0xab; 64]);
    let decompressed = lzma_decompress(&compressed).unwrap();
    assert_eq!(&decompressed, data);
}

#[test]
fn decompress_rejects_corrupt_stream() {
    let garbage = [0xffu8; 100];
    assert_eq!(lzma_decompress(&garbage).unwrap_err(), GMAError::LZMA);
}

#[test]
fn compressed_container_opens_through_the_front_end() {
    let metadata = GMAMetadata::Standard {
        title: String::from("Packed Addon"),
        addon_type: String::from("map"),
        tags: vec![],
        ignore: vec![],
    };
    let files = vec![FileInput {
        path: String::from("maps/flat.bsp"),
        contents: vec![7; 128],
        crc: 0,
    }];
    let container = build_container(&metadata, &files).unwrap();
    let compressed = lzma_compress(&container);

    let (mut gma, plain) = GMAFile::decompress(&compressed, "packed_addon.gma").unwrap();
    assert_eq!(plain, container);
    gma.entries(&plain).unwrap();
    let (offset, size) = gma.entry_location("maps/flat.bsp").unwrap();
    assert_eq!(size, 128);
    assert_eq!(&plain[offset as usize..(offset + size) as usize], &[7; 128][..]);
}

#[test]
fn decompressed_bytes_without_signature_fail_header_parse() {
    // A stream that decodes fine but holds no container yields the
    // header parser's own error, not an LZMA one.
    let compressed = lzma_compress(b"not a container at all");
    assert_eq!(
        GMAFile::decompress(&compressed, "x.gma").unwrap_err(),
        GMAError::InvalidHeader
    );
    let short = lzma_compress(b"GMA");
    assert_eq!(GMAFile::decompress(&short, "x.gma").unwrap_err(), GMAError::IOError);
}

#[test]
fn compressed_garbage_is_an_lzma_error() {
    assert!(matches!(
        GMAFile::decompress(&[1, 2, 3, 4, 5], "x.gma"),
        Err(GMAError::LZMA)
    ));
}
