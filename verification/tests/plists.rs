use hdf5::h5i::H5I_type_t;
use hdf5::hl::dataset::{Layout, VirtualMapping};
use hdf5::hl::extents::Extents;
use hdf5::hl::filters::Filter;
use hdf5::hl::object::{ObjectClass, PayloadKind};
use hdf5::hl::plist::common::AttrCreationOrder;
use hdf5::hl::plist::dataset_access::{DatasetAccess, VirtualView};
use hdf5::hl::plist::dataset_create::{AllocTime, DatasetCreate, FillStatus, FillTime};
use hdf5::hl::plist::file_access::{FileAccess, FileCloseDegree, FileDriver, LibraryVersion};
use hdf5::hl::plist::file_create::{FileCreate, FileSpaceStrategy};
use hdf5::hl::plist::link_create::{CharEncoding, LinkCreate};
use hdf5::hl::plist::list::{PropertyList, PropertyListClass};
use hdf5::hl::selection::Selection;

#[test]
fn file_creation_settings() {
    let p = FileCreate::try_new();
    assert_eq!(p.userblock(), 0);
    assert_eq!(p.istore_k(), 32);
    assert_eq!(p.sizes().sizeof_addr, 8);
    assert_eq!(p.sym_k().tree_rank, 16);
    let mut b = FileCreate::build();
    b.userblock(1024)
        .sym_k(5, 6)
        .istore_k(7)
        .shared_mesg_phase_change(8, 9)
        .obj_track_times(false)
        .attr_phase_change(10, 11)
        .attr_creation_order(AttrCreationOrder::kept().with(AttrCreationOrder::indexed()))
        .file_space_page_size(8192)
        .file_space_strategy(FileSpaceStrategy::PageAggregation);
    let q = b.finish();
    assert_eq!(q.userblock(), 1024);
    assert_eq!((q.sym_k().tree_rank, q.sym_k().node_size), (5, 6));
    assert_eq!(q.attr_creation_order().bits, 3);
    assert_eq!(q.file_space_strategy(), FileSpaceStrategy::PageAggregation);
    assert_eq!(q.copy().file_space_page_size(), 8192);
}

#[test]
fn file_access_settings() {
    let p = FileAccess::try_new();
    assert!(matches!(p.driver(), FileDriver::Sec2));
    assert_eq!(p.chunk_cache().nslots, 521);
    assert_eq!(f64::from_bits(p.chunk_cache().w0), 0.75);
    assert!(p.libver().is_earliest());
    let mut b = FileAccess::build();
    b.core_options(64, true)
        .fclose_degree(FileCloseDegree::Strong)
        .alignment(3, 4)
        .chunk_cache(1, 2, 0.5f64.to_bits())
        .latest_libver();
    let q = b.finish();
    match q.driver() {
        FileDriver::Core(c) => assert_eq!((c.increment, c.filebacked), (64, true)),
        _ => panic!("the driver was set"),
    }
    assert_eq!(q.libver(), LibraryVersion::V114);
    assert_eq!(q.alignment().alignment, 4);
    b.split();
    match b.finish().driver() {
        FileDriver::Split(s) => assert_eq!((s.meta_ext.as_str(), s.raw_ext.as_str()), ("-m.h5", "-r.h5")),
        _ => panic!("the driver was set"),
    }
}

#[test]
fn dataset_settings() {
    let p = DatasetCreate::try_new();
    assert_eq!(p.alloc_time(), AllocTime::Late);
    assert_eq!(p.fill_value_defined(), FillStatus::Default);
    assert_eq!(p.layout(), Layout::Contiguous);
    let mut b = DatasetCreate::build();
    b.shuffle().deflate(4).chunk(vec![2, 3]).fill_time(FillTime::Never);
    let q = b.finish().unwrap();
    assert_eq!(q.layout(), Layout::Chunked);
    assert_eq!(q.chunk(), Some(vec![2, 3]));
    assert_eq!(q.filters().len(), 2);
    assert!(matches!(q.filters()[1], Filter::Deflate(4)));
    b.no_chunk().clear_filters();
    let r = b.finish().unwrap();
    assert_eq!(r.layout(), Layout::Contiguous);
    assert!(!r.has_filters());
    b.deflate(12);
    assert_eq!(b.finish().unwrap_err().description(), "deflate level must be <= 9");
    let mut a = DatasetAccess::build();
    a.efile_prefix("pre").virtual_view(VirtualView::LastAvailable).virtual_printf_gap(3);
    let d = a.finish();
    assert_eq!(d.efile_prefix(), "pre");
    assert_eq!(d.virtual_view(), VirtualView::LastAvailable);
}

#[test]
fn virtual_mappings_are_kept_whole() {
    let mut b = DatasetCreate::build();
    b.virtual_map(VirtualMapping {
        src_filename: "a.h5".into(),
        src_dataset: "x".into(),
        src_extents: Extents::fixed(&[3]),
        src_selection: Selection::All,
        vds_extents: Extents::fixed(&[4, 5]),
        vds_selection: Selection::All,
    });
    let p = b.finish().unwrap();
    assert_eq!(p.layout(), Layout::Virtual);
    let m = &p.virtual_map()[0];
    assert_eq!((m.src_filename.as_str(), m.src_dataset.as_str()), ("a.h5", "x"));
    assert_eq!(m.src_extents.dims(), vec![3]);
    assert_eq!(m.vds_extents.dims(), vec![4, 5]);
}

#[test]
fn link_settings() {
    assert!(!LinkCreate::try_new().create_intermediate_group());
    let mut b = LinkCreate::build();
    b.create_intermediate_group(true).char_encoding(CharEncoding::Utf8);
    assert!(b.finish().create_intermediate_group());
    assert_eq!(b.finish().char_encoding(), CharEncoding::Utf8);
}

#[test]
fn classes_of_property_lists() {
    let c = PropertyListClass::parse("dataset create").unwrap();
    assert_eq!(c, PropertyListClass::DatasetCreate);
    assert_eq!(c.name(), "dataset create");
    assert_eq!(
        PropertyListClass::parse("x").unwrap_err().description(),
        "invalid property list class: x"
    );
    let p = PropertyList::LinkCreate(LinkCreate::try_new());
    assert!(p.is_class(PropertyListClass::LinkCreate));
    assert_eq!(p.len(), 2);
    assert!(p.has("char_encoding"));
    assert!(!p.has("filters"));
    assert_eq!(PropertyList::FileAccess(FileAccess::try_new()).len(), 9);
}

#[test]
fn classes_of_objects() {
    assert_eq!(PayloadKind::NamedType.id_type(), H5I_type_t::H5I_DATATYPE);
    assert_eq!(PayloadKind::Invalid.id_type().number(), -1);
    assert!(ObjectClass::Group.is_valid_id_type(H5I_type_t::H5I_FILE));
    assert_eq!(
        ObjectClass::Object
            .cast(H5I_type_t::H5I_GROUP, "H5I_GROUP", ObjectClass::Dataset)
            .unwrap_err()
            .description(),
        "unable to cast object (H5I_GROUP) into dataset"
    );
    assert_eq!(ObjectClass::File.shown(true, Some("\"a.h5\"")), "<HDF5 file: \"a.h5\">");
    assert_eq!(ObjectClass::File.shown(false, None), "<HDF5 file: invalid id>");
}
