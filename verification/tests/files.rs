use hdf5::format::reader::parse;
use hdf5::format::vds_data::find_source;
use hdf5::format::writer::serialize;
use hdf5::hl::container::{place_elements, ByteReader, Container, ContainerData, Whence};
use hdf5::hl::dataset::{Chunk, ChunkInfoRef, Dataset, DatasetPlan, ExternalFile, Layout};
use hdf5::hl::datatype::{conversion_path, same_type, ByteOrder, Conversion, Datatype};
use hdf5::hl::extents::{Extent, Extents, SimpleExtents};
use hdf5::hl::file::{make_file, OpenMode, OpenStep};
use hdf5::hl::filters::Filter;
use hdf5::hl::group::Group;
use hdf5::hl::hyperslab::{Hyperslab, SliceOrIndex};
use hdf5::hl::location::{Location, LocationToken, LocationType, Reach, Walk};
use hdf5::hl::plist::file_create::{
    FileCreate, FileCreateBuilder, SharedMessageIndex, SharedMessageType,
};
use hdf5::hl::selection::Selection;
use hdf5::model::{FileState, ObjectKind};
use hdf5::types::{CompoundField, CompoundType, FloatSize, IntSize, TypeDescriptor};

fn text<T>(r: Result<T, hdf5::error::Error>) -> String {
    match r {
        Ok(_) => panic!("an error was expected"),
        Err(e) => e.description().to_string(),
    }
}

fn int32() -> TypeDescriptor {
    TypeDescriptor::Integer(IntSize::U4)
}

fn plan(ty: TypeDescriptor, extents: Extents) -> DatasetPlan {
    DatasetPlan {
        dtype: ty,
        extents,
        filters: vec![],
        external: vec![],
        virtual_maps: vec![],
        chunk: None,
        fill: None,
    }
}

fn root(state: &FileState) -> Group {
    Group { id: state.root }
}

fn put(state: &mut FileState, id: usize, data: Vec<u8>) {
    Container::Dataset(id).store(state, data, vec![]).unwrap();
}

fn written(state: &FileState) -> Vec<u8> {
    let given = state.objects.iter().map(|_| None).collect();
    serialize(state, &given).unwrap()
}

fn reread(bytes: &[u8]) -> FileState {
    let mut state = parse(bytes).unwrap().state;
    for i in 0..state.objects.len() {
        if let Some(node) = &mut state.objects[i] {
            if let ObjectKind::Dataset(d) = &mut node.kind {
                assert!(d.materialize(bytes).unwrap().is_none());
            }
        }
    }
    state
}

fn held(state: &FileState, path: &str) -> ContainerData {
    let id = state.resolve(state.root, path).unwrap();
    Container::Dataset(id).snapshot(state).unwrap()
}

fn numbers(n: i32) -> Vec<u8> {
    (0..n).flat_map(|i| (i * 3 - 7).to_le_bytes()).collect()
}

#[test]
fn an_empty_file_is_read_back() {
    let state = FileState::new_empty();
    let bytes = written(&state);
    assert_eq!(&bytes[..8], &[0x89, b'H', b'D', b'F', 0x0d, 0x0a, 0x1a, 0x0a]);
    let back = reread(&bytes);
    assert_eq!(root(&back).len(&back), 0);
}

#[test]
fn a_contiguous_dataset_is_read_back() {
    let mut state = FileState::new_empty();
    let r = root(&state);
    let id = r
        .create_dataset(&mut state, Some("x"), plan(int32(), Extents::fixed(&[3, 4])), 5)
        .unwrap();
    put(&mut state, id, numbers(12));
    let back = reread(&written(&state));
    let h = held(&back, "/x");
    assert_eq!(h.dims, vec![3, 4]);
    assert_eq!(h.data, numbers(12));
    assert!(same_type(&h.dtype, &int32()));
}

#[test]
fn a_chunked_and_filtered_dataset_is_read_back() {
    let mut state = FileState::new_empty();
    let r = root(&state);
    let mut p = plan(int32(), Extents::fixed(&[10, 7]));
    p.filters = vec![Filter::shuffle(), Filter::deflate(6), Filter::fletcher32()];
    p.chunk = Some(Chunk::Exact(vec![4, 3]));
    let id = r.create_dataset(&mut state, Some("c"), p, 0).unwrap();
    put(&mut state, id, numbers(70));
    let back = reread(&written(&state));
    let h = held(&back, "c");
    assert_eq!(h.data, numbers(70));
    let d = Dataset { id: back.resolve(back.root, "c").unwrap() };
    assert_eq!(d.layout(&back), Layout::Chunked);
    assert_eq!(d.chunk(&back), Some(vec![4, 3]));
    assert_eq!(d.num_chunks(&back), Some(9));
}

#[test]
fn every_filter_of_the_writer_is_read_back() {
    for f in [
        Filter::deflate(1),
        Filter::shuffle(),
        Filter::fletcher32(),
        Filter::lzf(),
        Filter::blosc_lz4(5, true),
        Filter::blosc_zstd(5, false),
        Filter::nbit(),
    ] {
        let mut state = FileState::new_empty();
        let r = root(&state);
        let mut p = plan(int32(), Extents::fixed(&[1000]));
        p.filters = vec![f];
        let id = r.create_dataset(&mut state, Some("f"), p, 0).unwrap();
        put(&mut state, id, numbers(1000));
        let back = reread(&written(&state));
        assert_eq!(held(&back, "f").data, numbers(1000));
    }
}

#[test]
fn groups_links_and_attributes_are_read_back() {
    let mut state = FileState::new_empty();
    let r = root(&state);
    let inner = r.create_group(&mut state, "a/b/c", 9).unwrap();
    r.create_group(&mut state, "a/d", 9).unwrap();
    r.link_soft(&mut state, "/a/b", "s").unwrap();
    r.link_hard(&mut state, "a/b/c", "h").unwrap();
    r.link_external(&mut state, "other.h5", "/x", "e").unwrap();
    let loc = Location { id: inner.id };
    loc.create_attr(&mut state, "units", TypeDescriptor::FixedAscii(5), &Extents::Scalar)
        .unwrap();
    let place = Container::Attribute { owner: inner.id, name: "units".to_string() };
    place.store(&mut state, b"meter".to_vec(), vec![]).unwrap();
    let back = reread(&written(&state));
    let top = root(&back);
    assert_eq!(top.member_names(&back).unwrap(), vec!["a", "e", "h", "s"]);
    let c = back.resolve(back.root, "/s/c").unwrap();
    assert_eq!(back.resolve(back.root, "h"), Some(c));
    assert_eq!(back.path_of(c), Some("/h".to_string()));
    assert_eq!(Location { id: c }.attr_names(&back).unwrap(), vec!["units"]);
    let held = Container::Attribute { owner: c, name: "units".to_string() }
        .snapshot(&back)
        .unwrap();
    assert_eq!(held.data, b"meter".to_vec());
    let a = Group { id: back.resolve(back.root, "a").unwrap() };
    assert_eq!(a.groups(&back).unwrap().len(), 2);
    assert_eq!(Location { id: c }.loc_info(&back, 1).unwrap().num_links, 2);
}

#[test]
fn variable_length_texts_are_read_back() {
    let mut state = FileState::new_empty();
    let r = root(&state);
    let id = r
        .create_dataset(
            &mut state,
            Some("t"),
            plan(TypeDescriptor::VarLenUnicode, Extents::fixed(&[2])),
            0,
        )
        .unwrap();
    let src = TypeDescriptor::VarLenUnicode;
    let memory: Vec<u8> = [1u64, 2].iter().flat_map(|p| p.to_le_bytes()).collect();
    let blocks = vec![b"alpha\0".to_vec(), b"beta\0".to_vec()];
    let place = Container::Dataset(id);
    let w = place
        .snapshot(&state)
        .unwrap()
        .prepare_write(&src, Conversion::Soft, &memory, &blocks, 2, None, false)
        .unwrap();
    place.store(&mut state, w.converted.bytes, w.converted.sink.blocks).unwrap();
    let back = reread(&written(&state));
    let out = held(&back, "t").read_elements(&src, Conversion::Soft, None, false).unwrap();
    assert_eq!(out.count, 2);
    let got: Vec<Vec<u8>> = out
        .converted
        .sink
        .blocks
        .iter()
        .map(|b| b.iter().copied().take_while(|c| *c != 0).collect())
        .collect();
    assert_eq!(got, vec![b"alpha".to_vec(), b"beta".to_vec()]);
}

#[test]
fn payloads_beyond_a_collection_are_refused() {
    let mut state = FileState::new_empty();
    let r = root(&state);
    let id = r
        .create_dataset(
            &mut state,
            Some("t"),
            plan(TypeDescriptor::VarLenAscii, Extents::fixed(&[1])),
            0,
        )
        .unwrap();
    let mut cell = 1u32.to_le_bytes().to_vec();
    cell.extend(1u32.to_le_bytes());
    cell.resize(16, 0);
    let place = Container::Dataset(id);
    place.store(&mut state, cell.clone(), vec![vec![7]; 0x1_0000]).unwrap();
    let given = state.objects.iter().map(|_| None).collect();
    assert_eq!(text(serialize(&state, &given)), "too many variable-length payloads");
    place.store(&mut state, cell, vec![vec![7]; 0xffff]).unwrap();
    assert_eq!(held(&reread(&written(&state)), "t").vlen, vec![vec![7]]);
}

#[test]
fn attributes_in_dense_storage_are_read_back() {
    let mut state = FileState::new_empty();
    let loc = Location { id: state.root };
    for (name, n) in [("small", 3), ("large", 70_000)] {
        loc.create_attr(&mut state, name, TypeDescriptor::FixedAscii(1), &Extents::fixed(&[n]))
            .unwrap();
        let place = Container::Attribute { owner: state.root, name: name.to_string() };
        place.store(&mut state, vec![b'x'; n], vec![]).unwrap();
    }
    let back = reread(&written(&state));
    let mut names = Location { id: back.root }.attr_names(&back).unwrap();
    names.sort();
    assert_eq!(names, vec!["large", "small"]);
    let large = Container::Attribute { owner: back.root, name: "large".to_string() };
    assert_eq!(large.snapshot(&back).unwrap().data, vec![b'x'; 70_000]);
}

#[test]
fn links_in_dense_storage_are_read_back() {
    let mut state = FileState::new_empty();
    let r = root(&state);
    r.link_external(&mut state, "other.h5", "/x", "e").unwrap();
    let inner = r.create_group(&mut state, "inner", 4).unwrap();
    for i in 0..12 {
        r.link_soft(&mut state, "/inner", &format!("s{}", i)).unwrap();
    }
    r.link_hard(&mut state, "inner", "again").unwrap();
    assert_eq!(inner.id, state.resolve(state.root, "again").unwrap());
    let back = reread(&written(&state));
    let mut names = root(&back).member_names(&back).unwrap();
    names.sort();
    assert_eq!(names.len(), 15);
    assert_eq!(names[0], "again");
    let id = back.resolve(back.root, "inner").unwrap();
    assert_eq!(back.resolve(back.root, "again"), Some(id));
    assert_eq!(back.resolve(back.root, "s7"), Some(id));
}

#[test]
fn compounds_are_read_back() {
    let ty = || {
        TypeDescriptor::Compound(CompoundType {
            fields: vec![
                CompoundField { name: "i".to_string(), ty: int32(), offset: 0, index: 0 },
                CompoundField {
                    name: "f".to_string(),
                    ty: TypeDescriptor::Float(FloatSize::U8),
                    offset: 4,
                    index: 1,
                },
            ],
            size: 12,
        })
    };
    let mut state = FileState::new_empty();
    let r = root(&state);
    let id = r.create_dataset(&mut state, Some("k"), plan(ty(), Extents::fixed(&[4])), 0).unwrap();
    let data: Vec<u8> = (0..48).collect();
    put(&mut state, id, data.clone());
    let back = reread(&written(&state));
    let h = held(&back, "k");
    assert_eq!(h.data, data);
    assert!(same_type(&h.dtype, &ty()));
}

#[test]
fn compounds_with_texts_are_read_back() {
    let ty = TypeDescriptor::Compound(CompoundType {
        fields: vec![
            CompoundField { name: "i".to_string(), ty: int32(), offset: 0, index: 0 },
            CompoundField {
                name: "t".to_string(),
                ty: TypeDescriptor::VarLenAscii,
                offset: 4,
                index: 1,
            },
        ],
        size: 20,
    });
    let mut state = FileState::new_empty();
    let r = root(&state);
    let id = r
        .create_dataset(&mut state, Some("c"), plan(ty.duplicate(), Extents::fixed(&[2])), 0)
        .unwrap();
    let mut memory = vec![];
    for (i, block) in [(-5i32, 2u64), (9, 1)] {
        memory.extend(i.to_le_bytes());
        memory.extend(block.to_le_bytes());
        memory.extend([7; 8]);
    }
    let blocks = vec![b"one\0".to_vec(), b"two\0".to_vec()];
    let place = Container::Dataset(id);
    let w = place
        .snapshot(&state)
        .unwrap()
        .prepare_write(&ty, Conversion::NoOp, &memory, &blocks, 2, None, false)
        .unwrap();
    place.store(&mut state, w.converted.bytes, w.converted.sink.blocks).unwrap();
    let back = reread(&written(&state));
    let out = held(&back, "c").read_elements(&ty, Conversion::NoOp, None, false).unwrap();
    let texts = out.converted.sink.blocks;
    for (k, i, text) in [(0, -5i32, "two"), (1, 9, "one")] {
        let cell = &out.converted.bytes[20 * k..20 * k + 20];
        assert_eq!(cell[..4], i.to_le_bytes());
        let n = u64::from_le_bytes(cell[4..12].try_into().unwrap()) as usize;
        assert_eq!(texts[n - 1], text.as_bytes().to_vec());
        assert_eq!(cell[12..], [0; 8]);
    }
}

#[test]
fn a_user_block_and_shared_messages_are_kept() {
    let mut b = FileCreateBuilder::new();
    b.userblock(512).shared_mesg_indexes(&[
        SharedMessageIndex { message_types: SharedMessageType::none(), min_message_size: 9 },
        SharedMessageIndex { message_types: SharedMessageType::all(), min_message_size: 10 },
    ]);
    let fcpl = b.finish();
    let mut state = make_file(OpenMode::Create, &fcpl, 77);
    assert_eq!(state.sohm, vec![(0x182a, 10)]);
    assert_eq!(state.get(0).mtime, 77);
    let r = root(&state);
    for name in ["x", "y"] {
        let id = r
            .create_dataset(&mut state, Some(name), plan(int32(), Extents::fixed(&[3])), 0)
            .unwrap();
        put(&mut state, id, numbers(3));
    }
    let bytes = written(&state);
    let back = reread(&bytes);
    assert_eq!(back.userblock, 512);
    assert_eq!(held(&back, "y").data, numbers(3));
    assert!(same_type(&held(&back, "x").dtype, &int32()));
    state.sohm = vec![(0x182a, 100), (0x182a, 10)];
    let lost = parse(&written(&state)).unwrap().state;
    assert!(lost.resolve(lost.root, "x").is_none_or(|id| {
        !matches!(&lost.get(id).kind, ObjectKind::Dataset(_))
    }));
    assert_eq!(make_file(OpenMode::CreateExcl, &fcpl, 1).sohm.len(), 0);
    assert_eq!(make_file(OpenMode::Append, &FileCreate::try_new(), 1).userblock, 0);
}

#[test]
fn selections_are_read_and_written() {
    let mut state = FileState::new_empty();
    let r = root(&state);
    let id = r
        .create_dataset(&mut state, Some("m"), plan(int32(), Extents::fixed(&[3, 4])), 0)
        .unwrap();
    put(&mut state, id, numbers(12));
    let sel = || {
        Selection::Hyperslab(Hyperslab {
            dims: vec![SliceOrIndex::from(1..3), SliceOrIndex::from(0..2)],
        })
    };
    let h = held(&state, "m");
    let out = h.read_elements(&int32(), Conversion::NoOp, Some(sel()), false).unwrap();
    assert_eq!(out.shape, vec![2, 2]);
    let want: Vec<u8> = [4, 5, 8, 9].iter().flat_map(|i: &i32| (i * 3 - 7).to_le_bytes()).collect();
    assert_eq!(out.converted.bytes, want);
    let new: Vec<u8> = [100i32, 101, 102, 103].iter().flat_map(|i| i.to_le_bytes()).collect();
    let w = h
        .prepare_write(&int32(), Conversion::NoOp, &new, &vec![], 4, Some(sel()), false)
        .unwrap();
    let at = w.at.unwrap();
    assert_eq!(at, vec![4, 5, 8, 9]);
    let data = place_elements(h.data, 4, &at, &w.converted.bytes).unwrap();
    put(&mut state, id, data);
    let after = held(&state, "m");
    let again = after.read_elements(&int32(), Conversion::NoOp, Some(sel()), false).unwrap();
    assert_eq!(again.converted.bytes, new);
    assert_eq!(&after.data[..16], &numbers(4)[..]);
    assert_eq!(
        text(after.prepare_write(&int32(), Conversion::NoOp, &new, &vec![], 4, None, false)),
        "write: expected 12 elements, got 4"
    );
    assert_eq!(
        text(after.prepare_write(&int32(), Conversion::NoOp, &new, &vec![], 3, Some(sel()), false)),
        "write_slice: expected 4 elements, got 3"
    );
    assert_eq!(
        text(after.read_elements(&int32(), Conversion::NoOp, Some(sel()), true)),
        "Slicing cannot be used on attribute datasets"
    );
}

#[test]
fn conversions_are_checked() {
    let mut state = FileState::new_empty();
    let r = root(&state);
    let id = r
        .create_dataset(&mut state, Some("n"), plan(int32(), Extents::fixed(&[2])), 0)
        .unwrap();
    put(&mut state, id, [1i32, -2].iter().flat_map(|i| i.to_le_bytes()).collect());
    let h = held(&state, "n");
    let long = TypeDescriptor::Integer(IntSize::U8);
    let out = h.read_elements(&long, Conversion::Soft, None, false).unwrap();
    let want: Vec<u8> = [1i64, -2].iter().flat_map(|i| i.to_le_bytes()).collect();
    assert_eq!(out.converted.bytes, want);
    assert_eq!(
        text(h.read_elements(&long, Conversion::NoOp, None, false)),
        "conversion path Hard exceeds allowed NoOp (int32 -> int64)"
    );
    assert_eq!(
        text(h.read_elements(&TypeDescriptor::VarLenAscii, Conversion::Soft, None, false)),
        "no conversion path from int32 to string (var len)"
    );
}

#[test]
fn conversion_paths_have_a_quality() {
    let f = |name: &str, offset| CompoundField { name: name.to_string(), ty: int32(), offset, index: 0 };
    let a = TypeDescriptor::Compound(CompoundType { fields: vec![f("x", 0), f("y", 4)], size: 8 });
    let b = TypeDescriptor::Compound(CompoundType { fields: vec![f("y", 0), f("x", 4)], size: 8 });
    let c = TypeDescriptor::Compound(CompoundType { fields: vec![f("z", 0), f("x", 4)], size: 8 });
    assert_eq!(conversion_path(&a, &a), Some(Conversion::NoOp));
    assert_eq!(conversion_path(&a, &b), Some(Conversion::Soft));
    assert_eq!(conversion_path(&a, &c), None);
    assert_eq!(
        conversion_path(&int32(), &TypeDescriptor::Float(FloatSize::U4)),
        Some(Conversion::Hard)
    );
    assert_eq!(
        conversion_path(&TypeDescriptor::FixedAscii(3), &TypeDescriptor::VarLenUnicode),
        Some(Conversion::Soft)
    );
    let d = Datatype::from_descriptor(&TypeDescriptor::VarLenAscii);
    assert_eq!(d.byte_order(), ByteOrder::Unordered);
    assert_eq!(d.size(), 16);
    assert_eq!(Datatype::from_descriptor(&int32()).byte_order(), ByteOrder::LittleEndian);
}

#[test]
fn datasets_grow_and_shrink_within_their_maxima() {
    let mut state = FileState::new_empty();
    let r = root(&state);
    let e = Extents::Simple(SimpleExtents::from_vec(vec![
        Extent::new(2, None),
        Extent::new(3, Some(4)),
    ]));
    let mut p = plan(TypeDescriptor::Unsigned(IntSize::U1), e);
    p.chunk = Some(Chunk::Exact(vec![2, 2]));
    let id = r.create_dataset(&mut state, Some("g"), p, 0).unwrap();
    put(&mut state, id, vec![1, 2, 3, 4, 5, 6]);
    let d = Dataset { id };
    assert!(d.is_resizable(&state));
    d.resize(&mut state, vec![3, 4]).unwrap();
    assert_eq!(held(&state, "g").data, vec![1, 2, 3, 0, 4, 5, 6, 0, 0, 0, 0, 0]);
    d.resize(&mut state, vec![1, 2]).unwrap();
    assert_eq!(held(&state, "g").data, vec![1, 2]);
    assert_eq!(
        text(d.resize(&mut state, vec![1, 5])),
        "resize: dim 1 exceeds maximum (5 > 4)"
    );
    assert_eq!(text(d.resize(&mut state, vec![1])), "resize: rank mismatch (1 != 2)");
    let e = Extents::Simple(SimpleExtents::from_vec(vec![Extent::new(10, Some(20))]));
    let mut p = plan(TypeDescriptor::Unsigned(IntSize::U1), e);
    p.chunk = Some(Chunk::Exact(vec![5]));
    let bounded = r.create_dataset(&mut state, Some("bounded"), p, 0).unwrap();
    assert!(Dataset { id: bounded }.is_resizable(&state));
    put(&mut state, bounded, (0..10).collect());
    assert_eq!(
        find_source(&state, "/bounded"),
        Some((vec![10], 1, (0..10).collect::<Vec<u8>>()))
    );
    let flat = r
        .create_dataset(&mut state, Some("flat"), plan(int32(), Extents::fixed(&[2])), 0)
        .unwrap();
    assert!(!Dataset { id: flat }.is_resizable(&state));
    assert_eq!(
        text(Dataset { id: flat }.resize(&mut state, vec![1])),
        "only chunked datasets can be resized"
    );
}

#[test]
fn chunks_are_described() {
    let mut state = FileState::new_empty();
    let r = root(&state);
    let mut p = plan(int32(), Extents::fixed(&[5, 6]));
    p.chunk = Some(Chunk::Exact(vec![2, 4]));
    let id = r.create_dataset(&mut state, Some("c"), p, 0).unwrap();
    let d = Dataset { id };
    assert_eq!(d.num_chunks(&state), Some(6));
    let info = d.chunk_info(&state, 3).unwrap();
    assert_eq!(info.offset, vec![2, 4]);
    assert_eq!(info.size, 32);
    assert!(d.chunk_info(&state, 6).is_none());
    let c = ChunkInfoRef { offset: &[0], filter_mask: 0x8000_0005, addr: 0, size: 0 };
    assert_eq!(c.disabled_filters(), vec![0, 2, 31]);
}

#[test]
fn chunk_shapes_are_found() {
    let mut state = FileState::new_empty();
    let r = root(&state);
    let mut p = plan(int32(), Extents::fixed(&[64, 100]));
    p.chunk = Some(Chunk::MinKB(4));
    let id = r.create_dataset(&mut state, Some("auto"), p, 0).unwrap();
    assert_eq!(Dataset { id }.chunk(&state), Some(vec![32, 25]));
    let mut q = plan(int32(), Extents::fixed(&[0, 5]));
    q.filters = vec![Filter::deflate(3)];
    let whole = r.create_dataset(&mut state, Some("whole"), q, 0).unwrap();
    assert_eq!(Dataset { id: whole }.chunk(&state), Some(vec![1, 5]));
}

#[test]
fn fill_values_fill() {
    let mut state = FileState::new_empty();
    let r = root(&state);
    let mut p = plan(int32(), Extents::fixed(&[3]));
    p.fill = Some(Ok(vec![7, 0, 0, 0]));
    r.create_dataset(&mut state, Some("v"), p, 0).unwrap();
    assert_eq!(held(&state, "v").data, [7, 0, 0, 0].repeat(3));
    let mut q = plan(int32(), Extents::fixed(&[3]));
    q.fill = Some(Err("no such type".to_string()));
    assert_eq!(
        text(r.create_dataset(&mut state, Some("w"), q, 0)),
        "invalid fill value: no such type"
    );
}

#[test]
fn datasets_that_cannot_be_are_refused() {
    let mut state = FileState::new_empty();
    let r = root(&state);
    let mut make = |p: DatasetPlan, name: &str| text(r.create_dataset(&mut state, Some(name), p, 0));
    let mut p = plan(int32(), Extents::Scalar);
    p.filters = vec![Filter::deflate(1)];
    assert_eq!(make(p, "a"), "scalar datasets cannot be chunked");
    let mut p = plan(int32(), Extents::fixed(&[2]));
    p.filters = vec![Filter::deflate(1)];
    p.chunk = Some(Chunk::Unchunked);
    assert_eq!(make(p, "b"), "filtered datasets require chunking");
    let mut p = plan(int32(), Extents::fixed(&[2]));
    p.chunk = Some(Chunk::Exact(vec![1, 1]));
    assert_eq!(make(p, "c"), "chunk rank 2 != dataset rank 1");
    let mut p = plan(int32(), Extents::fixed(&[2]));
    p.chunk = Some(Chunk::Exact(vec![0]));
    assert_eq!(make(p, "d"), "chunk dimensions must be positive");
    let mut p = plan(int32(), Extents::fixed(&[2]));
    p.filters = vec![Filter::deflate(10)];
    assert_eq!(make(p, "e"), "deflate level must be <= 9");
    let mut p = plan(int32(), Extents::fixed(&[2]));
    p.external = vec![ExternalFile { name: "raw".to_string(), offset: 0, size: 8 }];
    assert!(make(p, "f").starts_with("external storage"));
    let mut p = plan(
        int32(),
        Extents::Simple(SimpleExtents::from_vec(vec![Extent::new(2, None)])),
    );
    p.chunk = Some(Chunk::Unchunked);
    assert_eq!(make(p, "g"), "resizable datasets require chunking");
    assert_eq!(
        make(plan(int32(), Extents::Scalar), "no/such/group"),
        "parent group 'no/such' not found"
    );
}

#[test]
fn links_are_kept_apart() {
    let mut state = FileState::new_empty();
    let r = root(&state);
    r.create_group(&mut state, "a", 0).unwrap();
    r.link_soft(&mut state, "/a", "s").unwrap();
    assert!(r.link_exists(&state, "s"));
    assert_eq!(text(r.link_soft(&mut state, "/b", "s")), "link 's' already exists");
    assert_eq!(text(r.link_hard(&mut state, "nowhere", "t")), "target 'nowhere' not found");
    assert_eq!(text(r.create_group(&mut state, "s/x", 0)), "unable to create group at 's'");
    r.relink(&mut state, "s", "a/moved").unwrap();
    assert!(!r.link_exists(&state, "s"));
    assert!(r.link_exists(&state, "/a/moved"));
    r.unlink(&mut state, "a").unwrap();
    assert!(!r.link_exists(&state, "a"));
    assert_eq!(text(r.unlink(&mut state, "a")), "link 'a' not found");
    state.read_only = true;
    assert_eq!(
        text(r.create_group(&mut state, "z", 0)),
        "unable to create group: file is read-only"
    );
    assert_eq!(text(r.unlink(&mut state, "z")), "unable to unlink: file is read-only");
    assert_eq!(text(r.relink(&mut state, "z", "y")), "unable to relink: file is read-only");
    assert_eq!(
        text(r.link_soft(&mut state, "z", "y")),
        "unable to modify links: file is read-only"
    );
}

#[test]
fn paths_are_walked_across_files() {
    let mut far = FileState::new_empty();
    let fr = root(&far);
    fr.create_group(&mut far, "deep/er", 0).unwrap();
    let mut near = FileState::new_empty();
    let nr = root(&near);
    nr.link_external(&mut near, "far.h5", "/deep", "out").unwrap();
    nr.link_soft(&mut near, "/loop", "loop").unwrap();
    let mut walk = Walk::new();
    let (file, path, depth) = match walk.go(&near, near.root, "out/er", 0).unwrap() {
        Reach::Elsewhere { file, path, depth } => (file, path, depth),
        _ => panic!("the path leads to another file"),
    };
    assert_eq!((file.as_str(), path.as_str(), depth), ("far.h5", "/deep", 1));
    let id = match walk.go(&far, far.root, &path, depth).unwrap() {
        Reach::Found(id) => id,
        _ => panic!("the path ends here"),
    };
    assert_eq!(Some(id), far.resolve(far.root, "/deep/er"));
    assert_eq!(
        text(Walk::new().go(&near, near.root, "loop", 0)),
        "too many levels of link indirection"
    );
    assert_eq!(text(Walk::new().go(&near, near.root, "x", 0)), "object 'x' not found");
}

#[test]
fn locations_know_their_objects() {
    let mut state = FileState::new_empty();
    let r = root(&state);
    let g = r.create_group(&mut state, "a/b", 12).unwrap();
    let loc = Location { id: g.id };
    assert_eq!(loc.name(&state), "/a/b");
    loc.set_comment(&mut state, "hello").unwrap();
    assert_eq!(loc.comment(&state), Some("hello".to_string()));
    loc.clear_comment(&mut state).unwrap();
    assert_eq!(loc.comment(&state), None);
    let info = loc.loc_info(&state, 3).unwrap();
    assert_eq!(info.fileno, 3);
    assert_eq!(info.mtime, 12);
    assert_eq!(info.token, LocationToken(g.id as u64));
    let (back, ty) = Location::open_by_token(&state, info.token).unwrap();
    assert_eq!(back, loc);
    assert_eq!(ty, LocationType::Group);
    assert_eq!(text(Location::open_by_token(&state, LocationToken(99))), "invalid location token");
    assert_eq!(text(loc.attr(&state, "none")), "unable to open attribute 'none'");
    loc.create_attr(&mut state, "n", int32(), &Extents::fixed(&[2])).unwrap();
    assert_eq!(loc.attr(&state, "n").unwrap(), 0);
    assert_eq!(
        text(loc.create_attr(&mut state, "n", int32(), &Extents::Scalar)),
        "attribute 'n' already exists"
    );
}

#[test]
fn byte_readers_read_and_seek() {
    let h = ContainerData {
        dtype: TypeDescriptor::Unsigned(IntSize::U1),
        dims: vec![5],
        is_scalar: false,
        is_null: false,
        data: vec![1, 2, 3, 4, 5],
        vlen: vec![],
    };
    let mut b = ByteReader::new(h).unwrap();
    assert_eq!(b.len(), 5);
    assert_eq!(b.read(2), vec![1, 2]);
    assert_eq!(b.seek(Whence::End(-1)).unwrap(), 4);
    assert_eq!(b.read(9), vec![5]);
    assert_eq!(b.read(9), Vec::<u8>::new());
    assert_eq!(b.seek(Whence::Start(1)).unwrap(), 1);
    assert_eq!(text(b.seek(Whence::Current(-2))), "seek before start");
    let v = ContainerData {
        dtype: TypeDescriptor::VarLenAscii,
        dims: vec![],
        is_scalar: true,
        is_null: false,
        data: vec![0; 16],
        vlen: vec![],
    };
    assert_eq!(text(ByteReader::new(v)), "cannot read variable-length data as bytes");
}

#[test]
fn files_are_opened_by_their_mode() {
    assert_eq!(OpenMode::Read.step(true), OpenStep::Load { read_only: true });
    assert_eq!(OpenMode::Read.step(false), OpenStep::NotFound);
    assert_eq!(OpenMode::ReadWrite.step(true), OpenStep::Load { read_only: false });
    assert_eq!(OpenMode::Create.step(true), OpenStep::Make);
    assert_eq!(OpenMode::CreateExcl.step(true), OpenStep::AlreadyExists);
    assert_eq!(OpenMode::Append.step(false), OpenStep::Make);
    assert!(OpenMode::Append.persists(false));
    assert!(!OpenMode::Append.persists(true));
}

#[test]
fn damaged_files_are_errors() {
    assert!(parse(&[]).is_err());
    assert!(parse(&[0u8; 600]).is_err());
    let bytes = written(&FileState::new_empty());
    assert!(parse(&bytes[..40]).is_err());
}
