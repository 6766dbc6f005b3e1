use hdf5::format::blosc::{
    compress, decompress, CODEC_BLOSCLZ, CODEC_LZ4, CODEC_SNAPPY, CODEC_ZLIB, CODEC_ZSTD,
};
use hdf5::format::blosclz::{blosclz_compress, blosclz_decompress};
use hdf5::format::checksum::checksum;
use hdf5::format::filters::{apply, reverse, Applied, RawFilter, Reversed};
use hdf5::format::lzf::{lzf_compress, lzf_decompress};
use hdf5::library_version;

#[test]
fn lzf_roundtrip() {
    for data in [
        b"".to_vec(),
        b"a".to_vec(),
        b"hello hello hello hello hello".to_vec(),
        (0..10_000u32)
            .flat_map(|i| (i % 251).to_le_bytes())
            .collect::<Vec<u8>>(),
        vec![0u8; 65536],
        (0..=255u8).cycle().take(100_000).collect::<Vec<u8>>(),
    ] {
        let c = lzf_compress(&data);
        assert_eq!(lzf_decompress(&c).unwrap(), data);
    }
}

#[test]
fn blosclz_roundtrip() {
    for data in [
        b"hello hello hello hello hello hello".to_vec(),
        (0..50_000u32)
            .flat_map(|i| ((i * 7) % 253).to_le_bytes())
            .collect::<Vec<u8>>(),
        vec![42u8; 10_000],
    ] {
        if let Some(c) = blosclz_compress(&data) {
            assert_eq!(blosclz_decompress(&c, data.len()).unwrap(), data);
        }
    }
}

#[test]
fn frame_roundtrip_all_codecs() {
    let data: Vec<u8> = (0..300_000u32)
        .flat_map(|i| ((i / 3) as u16).to_le_bytes())
        .collect();
    for codec in [
        CODEC_BLOSCLZ,
        CODEC_LZ4,
        CODEC_SNAPPY,
        CODEC_ZLIB,
        CODEC_ZSTD,
    ] {
        for shuffle in [0u8, 1, 2] {
            let c = compress(codec, 5, shuffle, 2, &data).unwrap();
            assert_eq!(
                decompress(&c).unwrap(),
                data,
                "codec {codec} shuffle {shuffle}"
            );
        }
    }
}

#[test]
fn known_vectors() {
    assert_eq!(checksum(b"Four score and seven years ago"), 0x17770551);
    assert_eq!(checksum(b""), 0xdeadbeef);
}

#[test]
fn test_library_version() {
    assert!(library_version() >= (1, 8, 4));
}

fn raw(id: u16, cdata: &[u32]) -> RawFilter {
    RawFilter { id, cdata: cdata.to_vec(), name: String::new() }
}

fn through(filters: &[RawFilter], size: usize, data: &[u8]) -> (Vec<u8>, Vec<u8>) {
    let packed = match apply(filters, size, data).unwrap() {
        Applied::Bytes(b) => b,
        _ => panic!("no floating-point numbers here"),
    };
    let back = match reverse(filters, size, &packed).unwrap() {
        Reversed::Bytes(b) => b,
        _ => panic!("no floating-point numbers here"),
    };
    (packed, back)
}

#[test]
fn deflate_changes_and_restores() {
    let data = vec![7u8; 4096];
    let (packed, back) = through(&[raw(1, &[6])], 4, &data);
    assert!(packed.len() < 200);
    assert_eq!(back, data);
}

#[test]
fn shuffle_brings_bytes_together() {
    let data: Vec<u8> = vec![1, 2, 3, 4, 5, 6, 7, 8];
    let (packed, back) = through(&[raw(2, &[4])], 4, &data);
    assert_eq!(packed, vec![1, 5, 2, 6, 3, 7, 4, 8]);
    assert_eq!(back, data);
}

#[test]
fn fletcher_detects_a_change() {
    let data: Vec<u8> = (0..100).collect();
    let filters = [raw(3, &[])];
    let (packed, back) = through(&filters, 1, &data);
    assert_eq!(packed.len(), 104);
    assert_eq!(back, data);
    let mut wrong = packed;
    wrong[10] ^= 1;
    assert!(reverse(&filters, 1, &wrong).is_err());
}

#[test]
fn pipelines_restore() {
    let data: Vec<u8> = (0..4000u32).flat_map(|i| (i / 5).to_le_bytes()).collect();
    let (packed, back) = through(
        &[raw(2, &[4]), raw(1, &[9]), raw(3, &[])],
        4,
        &data,
    );
    assert!(packed.len() < data.len());
    assert_eq!(back, data);
}

#[test]
fn lzf_pipeline_restores() {
    let data = vec![3u8; 10_000];
    let (packed, back) = through(&[raw(32000, &[4, 261, 10_000])], 1, &data);
    assert!(packed.len() < 1000);
    assert_eq!(back, data);
}

#[test]
fn szip_restores_samples() {
    let data: Vec<u8> = (0..1024u32).flat_map(|i| ((i / 4) as u16).to_le_bytes()).collect();
    let cd = [12u32, 16, 16, 256];
    let packed = hdf5::internal_szip_compress(&cd, &data).unwrap();
    assert!(packed.len() < data.len());
    let back = hdf5::internal_szip_decompress(&cd, &packed, data.len()).unwrap();
    assert_eq!(back, data);
}

#[test]
fn truncated_lzf_is_an_error() {
    assert!(lzf_decompress(&[0x20]).is_err());
}

#[test]
fn unknown_filter_is_an_error() {
    assert!(apply(&[raw(999, &[])], 1, &[1, 2, 3]).is_err());
}
