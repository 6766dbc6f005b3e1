//! The extents of datasets and attributes, and the settings that a dataset was made with.

use vstd::prelude::*;

use crate::error::Error;
use crate::format::elements::{fit, fitted};
use crate::hl::container::{Container, PlaceView};
use crate::hl::dataset::{filters_checked, Dataset, Layout};
use crate::hl::dataspace::{same_space, whole_space, Dataspace, SpaceView};
use crate::hl::extents::{Extent, Extents, ExtentsView, SimpleExtents};
use crate::hl::filters::Filter;
use crate::hl::plist::dataset_create::{
    copy_filters, create_plain, CreateView, DatasetCreate, DatasetCreateBuilder, DynValue,
};
use crate::hl::points::RawSelection;
use crate::model::{
    attr_at, filter_kinds, AttrData, AttrView, DatasetData, DatasetView, FileState, FileView,
    FillValue, FillView, LayoutClass, LayoutKind,
};
use crate::types::{FloatSize, TypeDescriptor, TypeView};

verus! {

/// The maximal size of a dimension as an index.
pub open spec fn max_index(m: Option<u64>) -> Option<usize> {
    match m {
        None => None,
        Some(v) => Some(v as usize),
    }
}

/// The extents of a dataset.
pub open spec fn dataset_extents(d: DatasetView) -> ExtentsView {
    if d.is_null {
        ExtentsView::Null
    } else if d.is_scalar {
        ExtentsView::Scalar
    } else {
        ExtentsView::Simple(
            Seq::new(
                if d.dims.len() <= d.maxdims.len() {
                    d.dims.len()
                } else {
                    d.maxdims.len()
                },
                |i: int| Extent { dim: d.dims[i] as usize, max: max_index(d.maxdims[i]) },
            ),
        )
    }
}

/// The extents of an attribute.
pub open spec fn attr_extents(a: AttrView) -> ExtentsView {
    if a.is_null {
        ExtentsView::Null
    } else if a.is_scalar {
        ExtentsView::Scalar
    } else {
        ExtentsView::Simple(
            a.dims.map_values(|d: u64| Extent { dim: d as usize, max: Some(d as usize) }),
        )
    }
}

impl DatasetData {
    /// The extents of the dataset.
    pub fn extents(&self) -> (r: Extents)
        ensures
            r@ == dataset_extents(self@),
    {
        if self.is_null {
            return Extents::Null;
        }
        if self.is_scalar {
            return Extents::Scalar;
        }
        let n: usize = if self.dims.len() <= self.maxdims.len() {
            self.dims.len()
        } else {
            self.maxdims.len()
        };
        let ghost whole = dataset_extents(self@)->Simple_0;
        let mut inner: Vec<Extent> = Vec::new();
        let mut i: usize = 0;
        while i < n
            invariant
                i <= n <= self.dims@.len(),
                n <= self.maxdims@.len(),
                !self.is_null && !self.is_scalar,
                whole == dataset_extents(self@)->Simple_0,
                whole.len() == n,
                inner@ =~= whole.take(i as int),
            decreases n - i,
        {
            let max: Option<usize> = match self.maxdims[i] {
                None => None,
                Some(v) => Some(v as usize),
            };
            inner.push(Extent { dim: self.dims[i] as usize, max });
            i += 1;
        }
        assert(inner@ =~= whole);
        Extents::Simple(SimpleExtents { inner })
    }
}

impl AttrData {
    /// The extents of the attribute.
    pub fn extents(&self) -> (r: Extents)
        ensures
            r@ == attr_extents(self@),
    {
        if self.is_null {
            return Extents::Null;
        }
        if self.is_scalar {
            return Extents::Scalar;
        }
        let n: usize = self.dims.len();
        let ghost whole = attr_extents(self@)->Simple_0;
        let mut inner: Vec<Extent> = Vec::new();
        let mut i: usize = 0;
        while i < n
            invariant
                i <= n == self.dims@.len(),
                !self.is_null && !self.is_scalar,
                whole == attr_extents(self@)->Simple_0,
                inner@ =~= whole.take(i as int),
            decreases n - i,
        {
            let d: usize = self.dims[i] as usize;
            inner.push(Extent { dim: d, max: Some(d) });
            i += 1;
        }
        assert(inner@ =~= whole);
        Extents::Simple(SimpleExtents { inner })
    }
}

/// The dataspace of a container.
pub open spec fn container_space(f: FileView, c: PlaceView) -> Result<SpaceView, Seq<char>> {
    match c {
        PlaceView::Dataset(id) => match f.dataset(id) {
            None => Err("not a dataset"@),
            Some(d) => Ok(whole_space(dataset_extents(d))),
        },
        PlaceView::Attribute { owner, name } => match f.object(owner) {
            None => Err("dangling attribute owner"@),
            Some(n) => match attr_at(n.attrs, name) {
                None => Err("attribute not found"@),
                Some(k) => Ok(whole_space(attr_extents(n.attrs[k as int]))),
            },
        },
    }
}

/// The bytes that the data of a container take.
pub open spec fn container_storage(f: FileView, c: PlaceView) -> nat {
    match c {
        PlaceView::Dataset(id) => match f.dataset(id) {
            None => 0,
            Some(d) => match d.lazy {
                Some(l) => l.logical,
                None => d.data.len(),
            },
        },
        PlaceView::Attribute { owner, name } => match f.object(owner) {
            None => 0,
            Some(n) => match attr_at(n.attrs, name) {
                None => 0,
                Some(k) => n.attrs[k as int].data.len(),
            },
        },
    }
}

impl Container {
    /// The dataspace of the container.
    pub fn space(&self, state: &FileState) -> (r: Result<Dataspace, Error>)
        ensures
            same_space(r, container_space(state@, self@)),
    {
        let extents = match self {
            Container::Dataset(id) => match state.dataset_data(*id) {
                None => {
                    return Err(Error::new("not a dataset"));
                },
                Some(d) => d.extents(),
            },
            Container::Attribute { owner, name } => match state.try_get(*owner) {
                None => {
                    return Err(Error::new("dangling attribute owner"));
                },
                Some(n) => match n.attr_index(name.as_str()) {
                    None => {
                        return Err(Error::new("attribute not found"));
                    },
                    Some(k) => n.attrs[k].extents(),
                },
            },
        };
        Ok(Dataspace { extents, selection: RawSelection::All })
    }

    /// The bytes that the data take, in memory or, where they have not been read, in the
    /// file before filters.
    pub fn storage_size(&self, state: &FileState) -> (r: u64)
        ensures
            r == container_storage(state@, self@),
    {
        match self {
            Container::Dataset(id) => match state.dataset_data(*id) {
                None => 0,
                Some(d) => match &d.lazy {
                    Some(l) => l.logical as u64,
                    None => d.data.len() as u64,
                },
            },
            Container::Attribute { owner, name } => match state.try_get(*owner) {
                None => 0,
                Some(n) => match n.attr_index(name.as_str()) {
                    None => 0,
                    Some(k) => n.attrs[k].data.len() as u64,
                },
            },
        }
    }
}

/// The value that the bytes of a fill value stand for, where it is a number or a truth
/// value.
pub open spec fn fill_value_of(t: TypeView, bytes: Seq<u8>) -> Option<(TypeView, Seq<u8>)> {
    match t {
        TypeView::Integer(w) => Some((t, fitted(bytes, w.bytes()))),
        TypeView::Unsigned(w) => Some((t, fitted(bytes, w.bytes()))),
        TypeView::Float(FloatSize::U4) => Some((t, fitted(bytes, 4))),
        TypeView::Float(FloatSize::U8) => Some((t, fitted(bytes, 8))),
        TypeView::Boolean => Some(
            (
                t,
                if bytes.len() > 0 && bytes[0] != 0 {
                    seq![1u8]
                } else {
                    seq![0u8]
                },
            ),
        ),
        _ => None,
    }
}

fn fill_from_bytes(dtype: &TypeDescriptor, bytes: &Vec<u8>) -> (r: Option<DynValue>)
    ensures
        match (r, fill_value_of(dtype@, bytes@)) {
            (None, None) => true,
            (Some(v), Some(w)) => (v.ty@, v.bytes@) == w,
            _ => false,
        },
{
    let width: usize = match dtype {
        TypeDescriptor::Integer(w) => w.width(),
        TypeDescriptor::Unsigned(w) => w.width(),
        TypeDescriptor::Float(FloatSize::U4) => 4,
        TypeDescriptor::Float(FloatSize::U8) => 8,
        TypeDescriptor::Boolean => {
            let set: u8 = if bytes.len() > 0 && bytes[0] != 0 {
                1
            } else {
                0
            };
            let mut out: Vec<u8> = Vec::new();
            out.push(set);
            assert(out@ =~= seq![set]);
            return Some(DynValue { ty: dtype.duplicate(), bytes: out });
        },
        _ => {
            return None;
        },
    };
    let held = vstd::slice::slice_to_vec(bytes.as_slice());
    Some(DynValue { ty: dtype.duplicate(), bytes: fit(held, width) })
}

/// The settings that a dataset was made with.
pub open spec fn dataset_settings(d: DatasetView) -> CreateView {
    let laid = match d.layout {
        LayoutKind::Compact => CreateView { layout: Layout::Compact, ..create_plain() },
        LayoutKind::Contiguous => CreateView { layout: Layout::Contiguous, ..create_plain() },
        LayoutKind::Chunked(c) => CreateView {
            chunk: Some(c.map_values(|x: u64| x as usize)),
            layout: Layout::Chunked,
            ..create_plain()
        },
        LayoutKind::Virtual(m) => CreateView { layout: Layout::Virtual, ..create_plain() },
    };
    CreateView {
        filters: d.filters,
        fill_value: match d.fill {
            FillView::UserDefined(bytes) => fill_value_of(d.dtype, bytes),
            _ => None,
        },
        ..laid
    }
}

/// Sizes as indices.
fn indices_of(v: &Vec<u64>) -> (r: Vec<usize>)
    ensures
        r@ == v@.map_values(|x: u64| x as usize),
{
    let n: usize = v.len();
    let mut out: Vec<usize> = Vec::new();
    let mut i: usize = 0;
    while i < n
        invariant
            i <= n == v@.len(),
            out@ =~= v@.take(i as int).map_values(|x: u64| x as usize),
        decreases n - i,
    {
        out.push(v[i] as usize);
        i += 1;
    }
    assert(v@.take(n as int) =~= v@);
    out
}

impl Dataset {
    /// The settings that the dataset was made with.
    pub fn create_plist(&self, state: &FileState) -> (r: Result<DatasetCreate, Error>)
        ensures
            match (r, state@.dataset(self.id as nat)) {
                (Ok(p), Some(d)) => filters_checked(d.filters, 0) is Ok && p.data@
                    == dataset_settings(d),
                (Err(e), Some(d)) => filters_checked(d.filters, 0) matches Err(m) && e@ == m,
                (Err(e), None) => e@ == "object is not a dataset"@,
                _ => false,
            },
    {
        let d = match state.dataset_data(self.id) {
            None => {
                return Err(Error::new("object is not a dataset"));
            },
            Some(d) => d,
        };
        let mut b = DatasetCreateBuilder::new();
        b.set_filters(d.filters.as_slice());
        match &d.layout {
            LayoutClass::Compact => {
                b.layout(Layout::Compact);
            },
            LayoutClass::Contiguous => {
                b.layout(Layout::Contiguous);
            },
            LayoutClass::Chunked(c) => {
                b.chunk(indices_of(c));
            },
            LayoutClass::Virtual(_) => {
                b.layout(Layout::Virtual);
            },
        }
        match &d.fill {
            FillValue::UserDefined(bytes) => match fill_from_bytes(&d.dtype, bytes) {
                Some(v) => {
                    b.fill_value(v);
                },
                None => {},
            },
            _ => {},
        }
        assert(b.data@ =~= dataset_settings(d@));
        b.finish()
    }

    /// The filters of the dataset.
    pub fn filters(&self, state: &FileState) -> (r: Vec<Filter>)
        ensures
            filter_kinds(r@) == (match state@.dataset(self.id as nat) {
                Some(d) => d.filters,
                None => Seq::empty(),
            }),
    {
        match state.dataset_data(self.id) {
            Some(d) => copy_filters(d.filters.as_slice()),
            None => {
                let none: Vec<Filter> = Vec::new();
                assert(filter_kinds(none@) =~= Seq::empty());
                none
            },
        }
    }

    /// The fill value, where one was set.
    pub fn fill_value(&self, state: &FileState) -> (r: Result<Option<DynValue>, Error>)
        ensures
            match state@.dataset(self.id as nat) {
                None => r matches Err(e) && e@ == "object is not a dataset"@,
                Some(d) => match d.fill {
                    FillView::UserDefined(bytes) => match fill_value_of(d.dtype, bytes) {
                        Some(w) => r matches Ok(Some(v)) && (v.ty@, v.bytes@) == w,
                        None => r matches Err(e) && e@ == "unsupported fill value type"@,
                    },
                    _ => r matches Ok(None),
                },
            },
    {
        match state.dataset_data(self.id) {
            None => Err(Error::new("object is not a dataset")),
            Some(d) => match &d.fill {
                FillValue::UserDefined(bytes) => match fill_from_bytes(&d.dtype, bytes) {
                    Some(v) => Ok(Some(v)),
                    None => Err(Error::new("unsupported fill value type")),
                },
                _ => Ok(None),
            },
        }
    }

    /// A short alias for [`Dataset::create_plist`].
    pub fn dcpl(&self, state: &FileState) -> (r: Result<DatasetCreate, Error>)
        ensures
            match (r, state@.dataset(self.id as nat)) {
                (Ok(p), Some(d)) => filters_checked(d.filters, 0) is Ok && p.data@
                    == dataset_settings(d),
                (Err(e), Some(d)) => filters_checked(d.filters, 0) matches Err(m) && e@ == m,
                (Err(e), None) => e@ == "object is not a dataset"@,
                _ => false,
            },
    {
        self.create_plist(state)
    }
}

} // verus!
