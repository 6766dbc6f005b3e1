use hdf5::format::blosc::{compress, decompress, frame_with, CODEC_LZ4};
use hdf5::format::blosclz::blosclz_decompress;
use hdf5::format::convert::disk_form;
use hdf5::format::datatype::{decode, decode_ordered, encode, OrderTree};
use hdf5::format::earray::ExtensibleArray;
use hdf5::format::fheap::FractalHeap;
use hdf5::format::filters::{apply, reverse, reverse_masked, Applied, RawFilter, Reversed};
use hdf5::format::lzf::lzf_compress;
use hdf5::format::messages::{parse_layout, ChunkIndex, RawLayout};
use hdf5::format::szip::{sz_compress, sz_decompress};
use hdf5::format::vds::{encode_selection, parse_selection, SerSelection, VdsMapping};
use hdf5::format::vds_data::{enter_source, find_source, source_step, SourceStep};
use hdf5::format::Cursor;
use hdf5::hl::filters::{Filter, ScaleOffset};
use hdf5::model::FileState;
use hdf5::types::{CompoundField, CompoundType, IntSize, TypeDescriptor};

fn text<T>(r: Result<T, hdf5::error::Error>) -> String {
    match r {
        Ok(_) => panic!("an error was expected"),
        Err(e) => e.description().to_string(),
    }
}

fn raw(id: u16, cdata: &[u32]) -> RawFilter {
    RawFilter { id, cdata: cdata.to_vec(), name: String::new() }
}

fn applied(filters: &[RawFilter], size: usize, data: &[u8]) -> Vec<u8> {
    match apply(filters, size, data).unwrap() {
        Applied::Bytes(b) => b,
        _ => panic!("no floating-point numbers here"),
    }
}

fn bytes(r: Result<Reversed, hdf5::error::Error>) -> Vec<u8> {
    match r.unwrap() {
        Reversed::Bytes(b) => b,
        _ => panic!("no floating-point numbers here"),
    }
}

/// A frame of one block that holds `stream`.
fn frame(codec: u8, nbytes: u32, stream: &[u8]) -> Vec<u8> {
    let mut f = vec![2, 1, codec * 32 + 16, 1];
    f.extend(nbytes.to_le_bytes());
    f.extend(nbytes.to_le_bytes());
    f.extend((24 + stream.len() as u32).to_le_bytes());
    f.extend(20u32.to_le_bytes());
    f.extend((stream.len() as u32).to_le_bytes());
    f.extend(stream);
    f
}

#[test]
fn lzf_writes_runs_and_matches() {
    assert_eq!(lzf_compress(b"abc"), vec![2, b'a', b'b', b'c']);
    assert_eq!(lzf_compress(&[b'a'; 20]), vec![0, b'a', 0xe0, 10, 0]);
    let data: Vec<u8> = (0..=99).collect();
    assert_eq!(lzf_compress(&data).len(), 104);
    assert_eq!(applied(&[raw(32000, &[])], 1, b"abc"), vec![2, b'a', b'b', b'c']);
}

#[test]
fn an_empty_blosclz_stream_holds_nothing() {
    assert_eq!(blosclz_decompress(&[], 0).unwrap(), Vec::<u8>::new());
    assert_eq!(text(blosclz_decompress(&[], 1)), "blosclz: output size mismatch");
}

#[test]
fn zstandard_streams_are_read() {
    let mut z = vec![0x28, 0xb5, 0x2f, 0xfd, 0x20, 5];
    z.extend([43, 0, 0, b'a']);
    assert_eq!(decompress(&frame(4, 5, &z)).unwrap(), b"aaaaa".to_vec());
    z[0] = 0;
    assert!(text(decompress(&frame(4, 5, &z))).starts_with("blosc/zstd: "));
}

#[test]
fn zstandard_blocks_of_too_many_sequences_are_refused() {
    let mut z = vec![0x28, 0xb5, 0x2f, 0xfd, 0x20, 5];
    let block = 1 + 65_500u32;
    z.extend(&(1 + 2 * 2 + block * 8).to_le_bytes()[..3]);
    z.extend([0, 255, 248, 0]);
    z.resize(z.len() + 65_500 - 3, 0);
    assert_eq!(text(decompress(&frame(4, 5, &z))), "blosc/zstd: block out of range");
}

#[test]
fn lz4_lengths_beyond_their_range_are_refused() {
    let mut s = vec![0xf0u8];
    s.resize(0x80_0000 + 1, 255);
    assert_eq!(text(decompress(&frame(1, 5, &s))), "blosc/lz4: length out of range");
    s.pop();
    assert_eq!(
        text(decompress(&frame(1, 5, &s))),
        format!("blosc/lz4: {}", lz4_flex::block::decompress(&s, 5).unwrap_err())
    );
}

#[test]
fn lz4_literals_may_be_long_runs() {
    let n = 0x90_0000usize;
    let mut s = vec![0xf0u8];
    s.resize(1 + (n - 15) / 255, 255);
    s.push(((n - 15) % 255) as u8);
    s.resize(s.len() + n, 255);
    let out = decompress(&frame(1, n as u32, &s)).unwrap();
    assert_eq!(out.len(), n);
    assert!(out.iter().all(|b| *b == 255));
}

#[test]
fn a_frame_takes_its_lz4_streams() {
    let data = [b'a'; 32];
    let made = frame_with(CODEC_LZ4, 0, 1, &data, &vec![vec![9, 9]]).unwrap();
    assert_eq!(made, frame(1, 32, &[9, 9]));
    let stored = frame_with(CODEC_LZ4, 0, 1, &data, &vec![]).unwrap();
    assert_eq!(stored, frame(1, 32, &data));
    let packed = compress(CODEC_LZ4, 5, 0, 1, &data).unwrap();
    assert!(packed.len() < 56);
    assert_eq!(decompress(&packed).unwrap(), data.to_vec());
}

#[test]
fn scaled_numbers_of_full_width_are_kept() {
    let f = [raw(6, &[2, 0, 2, 0, 1, 0, 0, 0])];
    let packed = applied(&f, 1, &[1, 255]);
    assert_eq!(packed[0], 8);
    assert_eq!(bytes(reverse(&f, 1, &packed)), vec![1, 255]);
    let g = [raw(6, &[2, 0, 3, 0, 1, 0, 0, 1, 255])];
    let packed = applied(&g, 1, &[0, 255, 254]);
    assert_eq!(bytes(reverse(&g, 1, &packed)), vec![0, 255, 254]);
}

#[test]
fn scaled_numbers_may_span_their_whole_range() {
    let f = [raw(6, &[2, 0, 3, 0, 8, 0, 0, 0])];
    let data: Vec<u8> = [u64::MAX, 0, 12].iter().flat_map(|v| v.to_le_bytes()).collect();
    let packed = applied(&f, 8, &data);
    assert_eq!(packed[0], 64);
    assert_eq!(bytes(reverse(&f, 8, &packed)), data);
}

#[test]
fn a_pipeline_without_filters_keeps_its_data() {
    assert_eq!(applied(&[], 4, &[3, 1, 2]), vec![3, 1, 2]);
    let shuffle = raw(2, &[2]);
    let sum = raw(3, &[]);
    let first = applied(&[shuffle], 2, &[1, 2, 3, 4]);
    assert_eq!(first, vec![1, 3, 2, 4]);
    let both = [raw(2, &[2]), raw(3, &[])];
    assert_eq!(applied(&both, 2, &[1, 2, 3, 4]), applied(&[sum], 2, &first));
}

#[test]
fn types_without_a_size_are_not_stored() {
    let int = || Box::new(TypeDescriptor::Integer(IntSize::U4));
    assert!(disk_form(&TypeDescriptor::FixedArray(int(), usize::MAX)).is_none());
    let list = TypeDescriptor::VarLenArray(int());
    let field = |name: &str, ty, offset, index| CompoundField {
        name: name.to_string(),
        ty,
        offset,
        index,
    };
    let wide = TypeDescriptor::FixedAscii(usize::MAX - 8);
    let big = CompoundType { fields: vec![field("l", list, 0, 0), field("w", wide, 16, 1)], size: 8 };
    assert!(disk_form(&TypeDescriptor::Compound(big)).is_none());
    let small = CompoundType {
        fields: vec![
            field("t", TypeDescriptor::VarLenAscii, 0, 0),
            field("i", TypeDescriptor::Integer(IntSize::U4), 8, 1),
        ],
        size: 16,
    };
    match disk_form(&TypeDescriptor::Compound(small)) {
        Some(TypeDescriptor::Compound(c)) => {
            assert_eq!(c.size, 20);
            assert_eq!(c.fields[1].offset, 16);
        },
        _ => panic!("a compound was expected"),
    }
}

#[test]
fn scaled_floats_of_full_width_are_stored_as_they_are() {
    let mut c = vec![32, 0, 0, 0, 8];
    c.resize(21, 0);
    c.extend([0x3f, 0x80, 0, 0, 0]);
    let f = [raw(6, &[0, 2, 1, 1, 4, 0, 0, 0])];
    assert_eq!(bytes(reverse(&f, 4, &c)), vec![0, 0, 0x80, 0x3f]);
}

#[test]
fn szip_ends_within_a_scanline() {
    let cd = [4, 8, 2, 4];
    let data = vec![1, 2, 3, 4, 5, 6];
    let packed = sz_compress(&cd, &data).unwrap();
    assert_eq!(sz_decompress(&cd, &packed, 6).unwrap(), data);
    let wide = [4 + 32, 16, 8, 64];
    let data: Vec<u8> = (0..100u16).flat_map(|i| (i * 3).to_le_bytes()).collect();
    let packed = sz_compress(&wide, &data).unwrap();
    assert_eq!(sz_decompress(&wide, &packed, data.len()).unwrap(), data);
    assert_eq!(bytes(reverse(&[raw(4, &cd)], 1, &applied(&[raw(4, &cd)], 1, &data))), data);
}

#[test]
fn szip_zero_runs_go_past_their_interval() {
    assert_eq!(sz_decompress(&[4, 8, 2, 2], &[4], 4).unwrap(), vec![0, 0, 0, 0]);
}

#[test]
fn a_mask_skips_filters() {
    let data: Vec<u8> = (0..32).collect();
    let all = [raw(2, &[4]), raw(3, &[]), raw(1, &[6])];
    let packed = applied(&[raw(2, &[4]), raw(1, &[6])], 4, &data);
    assert_eq!(bytes(reverse_masked(&all, 4, &packed, 2)), data);
    assert_eq!(bytes(reverse_masked(&all, 4, &packed, 7)), packed);
}

#[test]
fn a_pipeline_is_its_parts_in_turn() {
    let data: Vec<u8> = (0..32).collect();
    assert_eq!(applied(&[], 4, &data), data);
    let first = applied(&[raw(2, &[4])], 4, &data);
    let both = applied(&[raw(2, &[4]), raw(3, &[])], 4, &data);
    assert_eq!(applied(&[raw(3, &[])], 4, &first), both);
    assert_eq!(
        text(apply(&[raw(2, &[4]), raw(77, &[])], 4, &data)),
        "filter id 77 is not supported for writing"
    );
    assert_eq!(text(reverse(&[raw(77, &[])], 4, &data)), "filter id 77 is not supported for reading");
}

#[test]
fn packing_filters_are_available() {
    for id in [1, 2, 3, 5, 6, 32000, 32001] {
        let i = Filter::get_info(id);
        assert!(i.is_available && i.encode_enabled && i.decode_enabled);
    }
    assert!(!Filter::get_info(4).is_available);
    assert!(Filter::NBit.encode_enabled());
    assert!(Filter::ScaleOffset(ScaleOffset::Integer(0)).decode_enabled());
}

#[test]
fn an_array_without_an_index_block_is_empty() {
    let mut h = b"EAHD".to_vec();
    h.extend([0, 0, 8, 32, 4, 16, 0, 10]);
    h.resize(60, 0);
    h.extend([255; 8]);
    h.resize(72, 0);
    let a = ExtensibleArray::parse(&h, 0, 0).unwrap();
    assert_eq!(a.element(3).unwrap(), None);
    h[60..68].copy_from_slice(&72u64.to_le_bytes());
    h.extend(b"EAIB");
    h.resize(200, 0);
    let a = ExtensibleArray::parse(&h, 0, 0).unwrap();
    assert_eq!(text(a.element(3)), "bad extensible array geometry");
}

#[test]
fn readers_stop_behind_what_they_read() {
    let mut m = vec![0x3a, 0, 0, 0, 12, 0, 0, 0, 2, 2, 0, 0, 0, 3, 0, 0, 0];
    m.extend([0x10, 9, 0, 0, 2, 0, 0, 0, 0, 0, 16, 0]);
    assert_eq!(m.len(), 29);
    let mut order = OrderTree::Plain;
    let mut c = Cursor::new(&m);
    decode_ordered(&mut c, &mut order).unwrap();
    assert_eq!(c.pos, 29);
    let b = encode(&TypeDescriptor::Integer(IntSize::U4));
    let mut more = b.clone();
    more.extend([1, 2, 3]);
    let mut c = Cursor::new(&more);
    decode(&mut c).unwrap();
    assert_eq!(c.pos, b.len());
    let mut l = vec![4, 2, 2, 2, 1, 10, 4, 1];
    l.extend(100u64.to_le_bytes());
    l.extend(0u32.to_le_bytes());
    l.extend(4096u64.to_le_bytes());
    let mut c = Cursor::new(&l);
    match parse_layout(&mut c).unwrap() {
        RawLayout::Chunked { index: ChunkIndex::Single { addr, filtered_size, .. }, chunk_dims } => {
            assert_eq!((addr, filtered_size), (4096, Some(100)));
            assert_eq!(chunk_dims, vec![10, 4]);
        }
        _ => panic!("a single chunk was stored"),
    }
    assert_eq!(c.pos, 28);
    let s = encode_selection(&SerSelection::Regular(vec![(1, 2, Some(3), 1)])).unwrap();
    let mut more = s.clone();
    more.push(7);
    let mut c = Cursor::new(&more);
    parse_selection(&mut c).unwrap();
    assert_eq!(c.pos, s.len());
}

#[test]
fn heap_blocks_of_floats_are_handed_out() {
    let mut h = b"FRHP".to_vec();
    h.resize(154, 0);
    h[5] = 8;
    h[7] = 46;
    h[10] = 64;
    h[110] = 4;
    h[112] = 64;
    h[120] = 64;
    h[128] = 16;
    h[132] = 200;
    h[142] = 24;
    h.extend([2, 1, 6, 0, 0, 0, 8, 0]);
    for word in [0u32, 2, 2, 1, 4, 0, 0, 0] {
        h.extend(word.to_le_bytes());
    }
    h.resize(200, 0);
    h.extend([8, 0, 0, 0, 8]);
    h.resize(221, 0);
    h.extend([1, 2, 0]);
    let id = [0, 1, 0, 2, 0, 0, 0, 0];
    let heap = FractalHeap::parse(&h, 0, 0).unwrap();
    assert_eq!(text(heap.get(&id)), "floating-point scaling of a fractal heap block");
    let w = heap.pending(&id).unwrap();
    assert_eq!((w.addr, w.mask, w.next), (200, 0, 0));
    assert_eq!((w.block.size, w.block.raws.clone()), (4, vec![1, 2]));
    let given = vec![(200, vec![9, 8, 7, 6, 5, 4, 3, 2])];
    let heap = FractalHeap::open(&h, 0, 0, Some(&given)).unwrap();
    assert_eq!(heap.get(&id).unwrap(), vec![8, 7]);
    assert!(heap.pending(&id).is_none());
}

#[test]
fn sources_of_virtual_datasets_are_found() {
    let from = |file: &str| VdsMapping {
        source_file: file.into(),
        source_dset: "d".into(),
        src_sel: SerSelection::All,
        virt_sel: SerSelection::All,
    };
    let opened = vec!["a.h5".to_string(), "b.h5".to_string()];
    assert_eq!(source_step(&from("."), &opened), SourceStep::Own);
    assert_eq!(source_step(&from("b.h5"), &opened), SourceStep::Opened(1));
    assert_eq!(source_step(&from("c.h5"), &opened), SourceStep::Open);
    assert!(enter_source(8).is_ok());
    assert_eq!(text(enter_source(9)), "virtual dataset source nesting too deep");
    assert_eq!(find_source(&FileState::new_empty(), "d"), None);
}
