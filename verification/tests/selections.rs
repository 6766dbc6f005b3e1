use hdf5::hl::dataspace::Dataspace;
use hdf5::hl::extents::{Extent, Extents, SimpleExtents};
use hdf5::hl::hyperslab::{Hyperslab, RawHyperslab, RawSlice, SliceElem, SliceOrIndex};
use hdf5::hl::points::{Points, RawSelection};
use hdf5::hl::selection::Selection;

fn slab(dims: Vec<SliceOrIndex>) -> Selection {
    Selection::Hyperslab(Hyperslab { dims })
}

fn indices(s: Selection, shape: &[usize]) -> Vec<u64> {
    s.into_raw(shape).unwrap().linear_indices(shape).unwrap()
}

fn text<T>(r: Result<T, hdf5::error::Error>) -> String {
    match r {
        Ok(_) => panic!("an error was expected"),
        Err(e) => e.description().to_string(),
    }
}

#[test]
fn slices_of_one_dimension() {
    let shape = [11usize];
    assert_eq!(indices(slab(vec![SliceOrIndex::Index(4)]), &shape), vec![4]);
    assert_eq!(
        indices(
            slab(vec![SliceOrIndex::SliceTo { start: 0, step: 3, end: 4, block: 1 }]),
            &shape
        ),
        vec![0, 3]
    );
    assert_eq!(
        indices(
            slab(vec![SliceOrIndex::SliceTo { start: 2, step: 3, end: 8, block: 1 }]),
            &shape
        ),
        vec![2, 5]
    );
    assert_eq!(
        indices(
            slab(vec![SliceOrIndex::SliceCount { start: 1, step: 3, count: 3, block: 1 }]),
            &shape
        ),
        vec![1, 4, 7]
    );
    assert_eq!(
        indices(slab(vec![SliceOrIndex::Unlimited { start: 0, step: 3, block: 1 }]), &shape),
        vec![0, 3, 6, 9]
    );
    assert_eq!(
        indices(slab(vec![SliceOrIndex::Unlimited { start: 2, step: 3, block: 1 }]), &shape),
        vec![2, 5, 8]
    );
    assert_eq!(
        indices(slab(vec![SliceOrIndex::Unlimited { start: 0, step: 4, block: 2 }]), &shape),
        vec![0, 1, 4, 5, 8, 9]
    );
}

#[test]
fn hyperslab_of_a_matrix() {
    let s = slab(vec![
        SliceOrIndex::from(1..3),
        SliceOrIndex::SliceTo { start: 0, step: 2, end: 4, block: 1 },
    ]);
    assert_eq!(s.out_shape(&[3, 4]).unwrap(), vec![2, 2]);
    assert_eq!(s.in_ndim(), Some(2));
    assert_eq!(s.out_ndim(), Some(2));
    assert_eq!(indices(s, &[3, 4]), vec![4, 6, 8, 10]);
}

#[test]
fn an_index_takes_its_dimension_away() {
    let s = slab(vec![SliceOrIndex::from(2usize), SliceOrIndex::full()]);
    assert_eq!(s.out_shape(&[3, 4]).unwrap(), vec![4]);
    assert_eq!(s.out_ndim(), Some(1));
    assert_eq!(indices(s, &[3, 4]), vec![8, 9, 10, 11]);
}

#[test]
fn whole_and_empty_hyperslabs_are_recognised() {
    let whole = slab(vec![SliceOrIndex::full(), SliceOrIndex::full()]);
    assert!(matches!(whole.into_raw(&[2, 3]).unwrap(), RawSelection::All));
    let none = slab(vec![SliceOrIndex::from(1..1)]);
    assert!(matches!(none.into_raw(&[3]).unwrap(), RawSelection::Nothing));
}

#[test]
fn points_are_taken_in_their_order() {
    let p = Points { ndim: 2, rows: vec![vec![2, 1], vec![0, 3], vec![2, 1]] };
    let s = Selection::Points(p);
    assert!(s.is_points());
    assert_eq!(s.out_shape(&[3, 4]).unwrap(), vec![3]);
    assert_eq!(indices(s, &[3, 4]), vec![9, 3, 9]);
    let line = Selection::from_line(&[4, 0]);
    assert_eq!(line.in_ndim(), Some(1));
    assert_eq!(indices(line, &[5]), vec![4, 0]);
    let none = Selection::from_line(&[]);
    assert!(none.is_none());
    assert_eq!(none.in_ndim(), None);
}

#[test]
fn what_is_out_of_bounds_is_named() {
    assert_eq!(
        text(slab(vec![SliceOrIndex::Index(3)]).into_raw(&[3])),
        "Index 3 out of bounds for axis 0 with size 3"
    );
    assert_eq!(
        text(
            slab(vec![SliceOrIndex::full(), SliceOrIndex::SliceTo {
                start: 9,
                step: 1,
                end: 2,
                block: 1
            }])
            .into_raw(&[2, 4])
        ),
        "Slice start 9 out of bounds for axis 1 with size 4"
    );
    assert_eq!(
        text(
            slab(vec![SliceOrIndex::SliceTo { start: 0, step: 1, end: 6, block: 1 }])
                .into_raw(&[5])
        ),
        "Slice end 6 out of bounds for axis 0 with size 5"
    );
    assert_eq!(
        text(
            slab(vec![SliceOrIndex::SliceCount { start: 1, step: 3, count: 3, block: 1 }])
                .into_raw(&[6])
        ),
        "Slice end 7 out of bounds for axis 0 with size 6"
    );
    assert_eq!(
        text(
            slab(vec![SliceOrIndex::SliceTo { start: 0, step: 0, end: 2, block: 1 }])
                .into_raw(&[5])
        ),
        "Slice stride 0 < 1 for axis 0"
    );
    assert_eq!(
        text(slab(vec![SliceOrIndex::full()]).into_raw(&[2, 2])),
        "Slice ndim (1) != shape ndim (2)"
    );
    let p = Selection::Points(Points { ndim: 2, rows: vec![vec![0, 0], vec![0, 7]] });
    assert_eq!(
        text(p.into_raw(&[2, 4])),
        "Index 7 out of bounds for axis 1 with size 4"
    );
}

#[test]
fn raw_slices_that_leave_the_array_are_errors() {
    let raw = RawSelection::RegularHyperslab(RawHyperslab {
        dims: vec![RawSlice::new(0, 2, Some(3), 1)],
    });
    assert_eq!(
        text(raw.linear_indices(&[4])),
        "selection out of bounds: 4 >= 4 in axis"
    );
    let rank = RawSelection::RegularHyperslab(RawHyperslab { dims: vec![] });
    assert_eq!(text(rank.linear_indices(&[4])), "selection rank mismatch");
    assert_eq!(
        text(RawSelection::ComplexHyperslab.linear_indices(&[4])),
        "Complex hyperslabs are not supported"
    );
    let open = RawSelection::RegularHyperslab(RawHyperslab {
        dims: vec![RawSlice::new(1, 3, None, 2)],
    });
    assert_eq!(open.linear_indices(&[9]).unwrap(), vec![1, 2, 4, 5, 7, 8]);
}

#[test]
fn slices_come_back_from_their_raw_form() {
    let h = Hyperslab { dims: vec![SliceOrIndex::SliceCount { start: 1, step: 2, count: 2, block: 1 }] };
    let raw = h.into_raw(&[5]).unwrap();
    let back = Hyperslab::from_raw(raw).unwrap();
    assert!(back.dims[0] == SliceOrIndex::SliceCount { start: 1, step: 2, count: 2, block: 1 });
    let overlap = RawHyperslab { dims: vec![RawSlice::new(0, 1, Some(2), 2)] };
    assert_eq!(text(Hyperslab::from_raw(overlap)), "Blocks can not overlap (axis: 0)");
}

#[test]
fn selectors_compare_by_what_they_select() {
    let to = SliceOrIndex::SliceTo { start: 2, step: 3, end: 8, block: 1 };
    let count = SliceOrIndex::SliceCount { start: 2, step: 3, count: 2, block: 1 };
    assert!(to == count);
    assert!(count == to);
    assert!(to != SliceOrIndex::SliceCount { start: 2, step: 3, count: 3, block: 1 });
    assert!(SliceOrIndex::Index(2) != SliceOrIndex::full());
}

#[test]
fn selectors_change() {
    let h = Hyperslab::new(SliceOrIndex::from(0..6));
    assert!(!h.is_unlimited());
    let u = h.set_unlimited(0).unwrap();
    assert_eq!(u.unlimited_axis(), Some(0));
    let b = h.set_block(0, 2).unwrap();
    assert_eq!(b.to_text(), "(..6(Bx2),)");
    assert_eq!(text(h.set_unlimited(3)), "Invalid axis for making hyperslab unlimited: 3");
    assert_eq!(
        text(h.set_block(1, 2)),
        "Invalid axis for changing the slice to block-like: 1"
    );
    let i = Hyperslab { dims: vec![SliceOrIndex::Index(0)] };
    assert_eq!(text(i.set_unlimited(0)), "Cannot make index selection unlimited");
    assert_eq!(text(i.set_block(0, 1)), "Cannot set blocksize for index selection");
}

#[test]
fn selectors_from_array_slices() {
    let a = SliceOrIndex::from_elem(SliceElem::Slice { start: 1, end: Some(5), step: 2 }).unwrap();
    assert!(a == SliceOrIndex::SliceTo { start: 1, step: 2, end: 5, block: 1 });
    let b = SliceOrIndex::from_elem(SliceElem::Slice { start: 1, end: None, step: 1 }).unwrap();
    assert!(b == SliceOrIndex::from_start(1));
    assert_eq!(
        text(SliceOrIndex::from_elem(SliceElem::Index(-1))),
        "Index must be non-negative"
    );
    assert_eq!(
        text(SliceOrIndex::from_elem(SliceElem::Slice { start: 0, end: None, step: -1 })),
        "Step must be non-negative"
    );
    assert_eq!(
        text(SliceOrIndex::from_elem(SliceElem::Slice { start: 0, end: Some(-2), step: 1 })),
        "End must be non-negative"
    );
    assert_eq!(
        text(SliceOrIndex::from_elem(SliceElem::NewAxis)),
        "ndarray NewAxis can not be mapped to hdf5"
    );
}

#[test]
fn selections_as_text() {
    assert_eq!(Selection::All.to_text(), "..");
    assert_eq!(Selection::from_line(&[]).to_text(), "[]");
    assert_eq!(
        slab(vec![SliceOrIndex::Index(3), SliceOrIndex::from_start(2), SliceOrIndex::SliceCount {
            start: 0,
            step: 2,
            count: 4,
            block: 1
        }])
        .to_text(),
        "(3, 2..\u{221e}, +4;2)"
    );
    let p = Selection::Points(Points { ndim: 2, rows: vec![vec![1, 2], vec![3, 4]] });
    assert_eq!(p.to_text(), "[[1, 2],\n [3, 4]]");
}

#[test]
fn dataspaces_keep_their_extents_through_bytes() {
    let e = Extents::Simple(SimpleExtents::from_vec(vec![
        Extent::new(3, Some(3)),
        Extent::new(4, None),
    ]));
    let space = Dataspace::try_new(e).unwrap();
    assert_eq!(space.shape(), vec![3, 4]);
    assert_eq!(space.size(), 12);
    assert!(space.is_resizable());
    let bytes = space.encode();
    assert_eq!(bytes.len(), 34);
    assert_eq!(&bytes[..2], &[1, 2]);
    let back = Dataspace::decode(&bytes).unwrap();
    assert_eq!(back.shape(), vec![3, 4]);
    assert_eq!(back.maxdims(), vec![Some(3), None]);
    assert_eq!(text(Dataspace::decode(&bytes[..20])), "dataspace decode: buffer too short");
    assert_eq!(Dataspace::try_new(Extents::Scalar).unwrap().encode(), vec![0, 0]);
    assert_eq!(Dataspace::try_new(Extents::Null).unwrap().encode(), vec![2, 0]);
    assert!(Dataspace::decode(&[2, 0]).unwrap().is_null());
}

#[test]
fn wrong_extents_are_refused() {
    let e = Extents::Simple(SimpleExtents::from_vec(vec![Extent::new(5, Some(3))]));
    assert_eq!(text(Dataspace::try_new(e)), "invalid extents");
}

#[test]
fn selected_dataspaces_count_their_elements() {
    let space = Dataspace::try_new(Extents::fixed(&[4, 5])).unwrap();
    assert_eq!(space.selection_size(), 20);
    let part = space
        .select(slab(vec![SliceOrIndex::from(1..3), SliceOrIndex::full()]))
        .unwrap();
    assert_eq!(part.selection_size(), 10);
    assert!(part.get_selection().unwrap().is_hyperslab());
}
