//! Reading and writing the elements of datasets and attributes.

use vstd::prelude::*;

use crate::error::{same_unit, Error};
use crate::format::convert::{
    all_converted, disk_size, has_vlen, mem_to_model, model_to_mem, payloads, Converted, Direction,
    FloatJob, SinkView, VlenStore,
};
use crate::format::datatype::nats;
use crate::format::patched;
use crate::hl::datatype::{conversion_path, path, Conversion};
use crate::hl::extents::Ix;
use crate::hl::group::with_object;
use crate::hl::points::indices;
use crate::hl::selection::{Selection, SelectionView};
use crate::model::{
    attr_at, attr_views, count_elements, elements, AttrView, DatasetView, FileState, FileView,
    KindView, NodeView, ObjId, ObjectKind,
};
use crate::text::{decimal, join, with_number};
use crate::types::{TypeDescriptor, TypeView};

verus! {

/// What a dataset or an attribute holds.
#[derive(Debug)]
pub struct ContainerData {
    pub dtype: TypeDescriptor,
    pub dims: Vec<u64>,
    pub is_scalar: bool,
    pub is_null: bool,
    pub data: Vec<u8>,
    pub vlen: VlenStore,
}

/// The view of a [`ContainerData`].
#[verifier::ext_equal]
pub struct HeldView {
    pub dtype: TypeView,
    pub dims: Seq<u64>,
    pub is_scalar: bool,
    pub is_null: bool,
    pub data: Seq<u8>,
    pub vlen: Seq<Seq<u8>>,
}

impl View for ContainerData {
    type V = HeldView;

    open spec fn view(&self) -> HeldView {
        HeldView {
            dtype: self.dtype@,
            dims: self.dims@,
            is_scalar: self.is_scalar,
            is_null: self.is_null,
            data: self.data@,
            vlen: payloads(self.vlen@),
        }
    }
}

impl HeldView {
    /// The number of elements.
    pub open spec fn total(self) -> nat {
        elements(self.is_null, self.is_scalar, self.dims)
    }

    /// Whether the elements can be counted.
    pub open spec fn counted(self) -> bool {
        &&& self.is_null || self.is_scalar || crate::format::grid::countable(self.dims)
        &&& self.total() <= usize::MAX
    }
}

/// What a dataset holds.
pub open spec fn held(d: DatasetView) -> HeldView {
    HeldView {
        dtype: d.dtype,
        dims: d.dims,
        is_scalar: d.is_scalar,
        is_null: d.is_null,
        data: d.data,
        vlen: d.vlen,
    }
}

/// What an attribute holds.
pub open spec fn attr_held(a: AttrView) -> HeldView {
    HeldView {
        dtype: a.dtype,
        dims: a.dims,
        is_scalar: a.is_scalar,
        is_null: a.is_null,
        data: a.data,
        vlen: a.vlen,
    }
}

/// A dataset, or an attribute of an object.
#[derive(Debug)]
pub enum Container {
    Dataset(ObjId),
    Attribute { owner: ObjId, name: String },
}

/// The view of a [`Container`].
pub enum PlaceView {
    Dataset(nat),
    Attribute { owner: nat, name: Seq<char> },
}

impl View for Container {
    type V = PlaceView;

    open spec fn view(&self) -> PlaceView {
        match *self {
            Container::Dataset(id) => PlaceView::Dataset(id as nat),
            Container::Attribute { owner, name } => PlaceView::Attribute {
                owner: owner as nat,
                name: name@,
            },
        }
    }
}

/// What a container of a file holds. The data of a dataset must have been read.
pub open spec fn snapshot_of(f: FileView, c: PlaceView) -> Result<HeldView, Seq<char>> {
    match c {
        PlaceView::Dataset(id) => match f.dataset(id) {
            None => Err("not a dataset"@),
            Some(d) => if d.lazy is Some {
                Err("dataset has not been read"@)
            } else {
                Ok(held(d))
            },
        },
        PlaceView::Attribute { owner, name } => match f.object(owner) {
            None => Err("dangling attribute owner"@),
            Some(n) => match attr_at(n.attrs, name) {
                None => Err("attribute not found"@),
                Some(k) => Ok(attr_held(n.attrs[k as int])),
            },
        },
    }
}

/// A file in which a container holds other data.
pub open spec fn stored(f: FileView, c: PlaceView, data: Seq<u8>, vlen: Seq<Seq<u8>>) -> (
    FileView,
    Result<(), Seq<char>>,
) {
    if f.read_only {
        (f, Err("unable to write: file is read-only"@))
    } else {
        match c {
            PlaceView::Dataset(id) => match f.dataset(id) {
                None => (f, Err("not a dataset"@)),
                Some(d) => (
                    with_object(
                        f,
                        id,
                        NodeView {
                            kind: KindView::Dataset(DatasetView { data, vlen, ..d }),
                            ..f.object(id)->0
                        },
                    ),
                    Ok(()),
                ),
            },
            PlaceView::Attribute { owner, name } => match f.object(owner) {
                None => (f, Err("dangling attribute owner"@)),
                Some(n) => match attr_at(n.attrs, name) {
                    None => (f, Err("attribute not found"@)),
                    Some(k) => (
                        with_object(
                            f,
                            owner,
                            NodeView {
                                attrs: n.attrs.update(
                                    k as int,
                                    AttrView { data, vlen, ..n.attrs[k as int] },
                                ),
                                ..n
                            },
                        ),
                        Ok(()),
                    ),
                },
            },
        }
    }
}

/// A copy of payloads.
fn copy_store(v: &VlenStore) -> (r: VlenStore)
    ensures
        payloads(r@) == payloads(v@),
{
    let n: usize = v.len();
    let mut out: VlenStore = Vec::new();
    let mut i: usize = 0;
    assert(payloads(out@) =~= payloads(v@).take(0));
    while i < n
        invariant
            i <= n == v@.len(),
            out@.len() == i,
            payloads(out@) == payloads(v@).take(i as int),
        decreases n - i,
    {
        let ghost before = out@;
        let one = vstd::slice::slice_to_vec(v[i].as_slice());
        out.push(one);
        i += 1;
        assert(payloads(out@) =~= payloads(before).push(v@[i - 1]@));
        assert(payloads(out@) =~= payloads(v@).take(i as int));
    }
    assert(payloads(v@).take(n as int) =~= payloads(v@));
    out
}

/// Whether a snapshot came out as `s` says.
pub open spec fn same_held(r: Result<ContainerData, Error>, s: Result<HeldView, Seq<char>>) -> bool {
    match (r, s) {
        (Ok(v), Ok(w)) => v@ == w,
        (Err(e), Err(m)) => e@ == m,
        _ => false,
    }
}

impl Container {
    /// What the container holds.
    pub fn snapshot(&self, state: &FileState) -> (r: Result<ContainerData, Error>)
        ensures
            same_held(r, snapshot_of(state@, self@)),
    {
        match self {
            Container::Dataset(id) => match state.dataset_data(*id) {
                None => Err(Error::new("not a dataset")),
                Some(d) => {
                    if d.lazy.is_some() {
                        return Err(Error::new("dataset has not been read"));
                    }
                    Ok(
                        ContainerData {
                            dtype: d.dtype.duplicate(),
                            dims: vstd::slice::slice_to_vec(d.dims.as_slice()),
                            is_scalar: d.is_scalar,
                            is_null: d.is_null,
                            data: vstd::slice::slice_to_vec(d.data.as_slice()),
                            vlen: copy_store(&d.vlen),
                        },
                    )
                },
            },
            Container::Attribute { owner, name } => match state.try_get(*owner) {
                None => Err(Error::new("dangling attribute owner")),
                Some(node) => match node.attr_index(name.as_str()) {
                    None => Err(Error::new("attribute not found")),
                    Some(k) => {
                        let a = &node.attrs[k];
                        assert(node@.attrs[k as int] == a@);
                        Ok(
                            ContainerData {
                                dtype: a.dtype.duplicate(),
                                dims: vstd::slice::slice_to_vec(a.dims.as_slice()),
                                is_scalar: a.is_scalar,
                                is_null: a.is_null,
                                data: vstd::slice::slice_to_vec(a.data.as_slice()),
                                vlen: copy_store(&a.vlen),
                            },
                        )
                    },
                },
            },
        }
    }

    /// Puts other data into the container.
    pub fn store(&self, state: &mut FileState, data: Vec<u8>, vlen: VlenStore) -> (r: Result<
        (),
        Error,
    >)
        ensures
            final(state)@ == stored(old(state)@, self@, data@, payloads(vlen@)).0,
            same_unit(r, stored(old(state)@, self@, data@, payloads(vlen@)).1),
    {
        let ghost f = state@;
        if state.read_only {
            return Err(Error::new("unable to write: file is read-only"));
        }
        match self {
            Container::Dataset(id) => {
                if !state.is_dataset(*id) {
                    return Err(Error::new("not a dataset"));
                }
                let node = state.get_mut(*id);
                if let ObjectKind::Dataset(d) = &mut node.kind {
                    d.data = data;
                    d.vlen = vlen;
                }
                assert(state@ =~= stored(f, self@, data@, payloads(vlen@)).0);
                Ok(())
            },
            Container::Attribute { owner, name } => {
                if state.try_get(*owner).is_none() {
                    return Err(Error::new("dangling attribute owner"));
                }
                let k: usize = match state.get(*owner).attr_index(name.as_str()) {
                    None => {
                        return Err(Error::new("attribute not found"));
                    },
                    Some(k) => k,
                };
                let node = state.get_mut(*owner);
                let ghost before = node.attrs@;
                node.attrs[k].data = data;
                node.attrs[k].vlen = vlen;
                proof {
                    assert(attr_views(node.attrs@) =~= attr_views(before).update(
                        k as int,
                        node.attrs@[k as int]@,
                    ));
                }
                assert(state@ =~= stored(f, self@, data@, payloads(vlen@)).0);
                Ok(())
            },
        }
    }
}

// Conversions.

/// The name of a conversion.
pub open spec fn conversion_name(c: Conversion) -> Seq<char> {
    match c {
        Conversion::NoOp => "NoOp"@,
        Conversion::Hard => "Hard"@,
        Conversion::Soft => "Soft"@,
    }
}

fn conversion_str(c: Conversion) -> (r: &'static str)
    ensures
        r@ == conversion_name(c),
{
    match c {
        Conversion::NoOp => "NoOp",
        Conversion::Hard => "Hard",
        Conversion::Soft => "Soft",
    }
}

/// Checks that a conversion is allowed.
pub open spec fn conversion_checked(required: Conversion, src: TypeView, dst: TypeView) -> Result<
    (),
    Seq<char>,
> {
    match path(src, dst) {
        None => Err("no conversion path from "@ + src.text() + " to "@ + dst.text()),
        Some(p) => if p.rank() <= required.rank() {
            Ok(())
        } else {
            Err(
                "conversion path "@ + conversion_name(p) + " exceeds allowed "@ + conversion_name(
                    required,
                ) + " ("@ + src.text() + " -> "@ + dst.text() + ")"@,
            )
        },
    }
}

fn check_conversion(required: Conversion, src: &TypeDescriptor, dst: &TypeDescriptor) -> (r: Result<
    (),
    Error,
>)
    ensures
        same_unit(r, conversion_checked(required, src@, dst@)),
{
    match conversion_path(src, dst) {
        None => {
            let a = join("no conversion path from ", src.to_text().as_str());
            let b = join(a.as_str(), " to ");
            Err(Error::from_text(join(b.as_str(), dst.to_text().as_str())))
        },
        Some(p) => {
            if p.or_worse(required) == required {
                return Ok(());
            }
            let a = join("conversion path ", conversion_str(p));
            let b = join(a.as_str(), " exceeds allowed ");
            let c = join(b.as_str(), conversion_str(required));
            let d = join(join(c.as_str(), " (").as_str(), src.to_text().as_str());
            let e = join(join(d.as_str(), " -> ").as_str(), dst.to_text().as_str());
            Err(Error::from_text(join(e.as_str(), ")")))
        },
    }
}

// Reading.

/// The shape of a dataspace, where it is in range.
pub open spec fn narrow(dims: Seq<u64>) -> Result<Seq<usize>, Seq<char>> {
    if exists|i: int| 0 <= i < dims.len() && #[trigger] dims[i] > usize::MAX {
        Err("dataspace too large"@)
    } else {
        Ok(dims.map_values(|d: u64| d as usize))
    }
}

fn narrow_dims(dims: &Vec<u64>) -> (r: Result<Vec<usize>, Error>)
    ensures
        match (r, narrow(dims@)) {
            (Ok(v), Ok(w)) => v@ == w,
            (Err(e), Err(m)) => e@ == m,
            _ => false,
        },
{
    let n: usize = dims.len();
    let mut out: Vec<usize> = Vec::new();
    let mut i: usize = 0;
    while i < n
        invariant
            i <= n == dims@.len(),
            forall|j: int| 0 <= j < i ==> #[trigger] dims@[j] <= usize::MAX,
            out@ =~= dims@.map_values(|d: u64| d as usize).take(i as int),
        decreases n - i,
    {
        if dims[i] > usize::MAX as u64 {
            assert(dims@[i as int] > usize::MAX);
            return Err(Error::new("dataspace too large"));
        }
        out.push(dims[i] as usize);
        i += 1;
    }
    assert(out@ =~= dims@.map_values(|d: u64| d as usize));
    Ok(out)
}

/// The elements with the numbers from `k` on, behind `acc`.
pub open spec fn taken(data: Seq<u8>, esize: nat, at: Seq<nat>, k: int, acc: Seq<u8>) -> Result<
    Seq<u8>,
    Seq<char>,
>
    decreases at.len() - k,
{
    if k < 0 || k >= at.len() {
        Ok(acc)
    } else if (at[k] + 1) * esize > data.len() {
        Err("selection out of bounds"@)
    } else {
        taken(
            data,
            esize,
            at,
            k + 1,
            acc + data.subrange((at[k] * esize) as int, ((at[k] + 1) * esize) as int),
        )
    }
}

/// Where an element ends, where that is in range.
fn element_end(i: u64, esize: usize) -> (r: Option<usize>)
    ensures
        r is Some <==> (i as nat + 1) * esize as nat <= usize::MAX,
        r matches Some(e) ==> e == (i as nat + 1) * esize as nat,
        (i as nat + 1) * esize as nat == i as nat * esize as nat + esize as nat,
{
    proof {
        assert((i as nat + 1) * esize as nat == i as nat * esize as nat + esize as nat)
            by (nonlinear_arith);
        assert((i as int + 1) * esize as int <= 0x1_0000_0000_0000_0000 * 0xffff_ffff_ffff_ffff)
            by (nonlinear_arith)
            requires
                0 <= i as int <= 0xffff_ffff_ffff_ffff,
                0 <= esize as int <= 0xffff_ffff_ffff_ffff,
        ;
    }
    let e: u128 = (i as u128 + 1) * esize as u128;
    if e > usize::MAX as u128 {
        None
    } else {
        Some(e as usize)
    }
}

/// The elements with the given numbers.
fn take_elements(data: &Vec<u8>, esize: usize, at: &Vec<u64>) -> (r: Result<Vec<u8>, Error>)
    ensures
        match (r, taken(data@, esize as nat, nats(at@), 0, Seq::empty())) {
            (Ok(v), Ok(w)) => v@ == w,
            (Err(e), Err(m)) => e@ == m,
            _ => false,
        },
{
    let ghost list = nats(at@);
    let ghost whole = taken(data@, esize as nat, list, 0, Seq::empty());
    let size: usize = data.len();
    let n: usize = at.len();
    let mut out: Vec<u8> = Vec::new();
    let mut k: usize = 0;
    while k < n
        invariant
            k <= n == at@.len(),
            list == nats(at@),
            size == data@.len(),
            whole == taken(data@, esize as nat, list, 0, Seq::empty()),
            whole == taken(data@, esize as nat, list, k as int, out@),
        decreases n - k,
    {
        assert(list[k as int] == at@[k as int]);
        let end: usize = match element_end(at[k], esize) {
            None => {
                return Err(Error::new("selection out of bounds"));
            },
            Some(e) => e,
        };
        if end > size {
            return Err(Error::new("selection out of bounds"));
        }
        let part = vstd::slice::slice_subrange(data.as_slice(), end - esize, end);
        let mut more = vstd::slice::slice_to_vec(part);
        out.append(&mut more);
        k += 1;
    }
    Ok(out)
}

/// A sink with payloads and nothing else.
pub open spec fn fresh(blocks: Seq<Seq<u8>>) -> SinkView {
    SinkView { blocks, floats: Seq::<FloatJob>::empty() }
}

/// What is read: elements in memory layout, their shape and their number.
pub open spec fn elements_read(
    h: HeldView,
    dst: TypeView,
    conv: Conversion,
    selection: Option<SelectionView>,
    attribute: bool,
) -> Result<((Seq<u8>, SinkView), Seq<usize>, nat), Seq<char>> {
    match conversion_checked(conv, h.dtype, dst) {
        Err(e) => Err(e),
        Ok(_) => match narrow(h.dims) {
            Err(e) => Err(e),
            Ok(shape) => match selection {
                None => if !h.counted() {
                    Err("dataspace too large"@)
                } else {
                    match all_converted(
                        Direction::ToMemory,
                        h.dtype,
                        dst,
                        h.data,
                        h.total(),
                        h.vlen,
                        fresh(Seq::empty()),
                    ) {
                        Err(e) => Err(e),
                        Ok(c) => Ok((c, shape, h.total())),
                    }
                },
                Some(sel) => if attribute {
                    Err("Slicing cannot be used on attribute datasets"@)
                } else {
                    match sel.shape_out(shape) {
                        Err(e) => Err(e),
                        Ok(out) => match sel.raw(shape) {
                            Err(e) => Err(e),
                            Ok(raw) => match indices(raw, shape) {
                                Err(e) => Err(e),
                                Ok(at) => match taken(
                                    h.data,
                                    h.dtype.disk_size(),
                                    at,
                                    0,
                                    Seq::empty(),
                                ) {
                                    Err(e) => Err(e),
                                    Ok(bytes) => match all_converted(
                                        Direction::ToMemory,
                                        h.dtype,
                                        dst,
                                        bytes,
                                        at.len(),
                                        h.vlen,
                                        fresh(Seq::empty()),
                                    ) {
                                        Err(e) => Err(e),
                                        Ok(c) => Ok((c, out, at.len())),
                                    },
                                },
                            },
                        },
                    }
                },
            },
        },
    }
}

/// Elements that were read.
#[derive(Debug)]
pub struct ReadOut {
    /// The elements in memory layout, and the floating-point conversions that are
    /// still to be made.
    pub converted: Converted,
    pub shape: Vec<Ix>,
    pub count: usize,
}

/// The view of an optional selection.
pub open spec fn selection_view(s: Option<Selection>) -> Option<SelectionView> {
    match s {
        None => None,
        Some(s) => Some(s@),
    }
}

impl ContainerData {
    /// The number of elements, where it is in range.
    pub fn num_elements(&self) -> (r: Option<usize>)
        ensures
            r is Some <==> self@.counted(),
            r matches Some(n) ==> n == self@.total(),
    {
        match count_elements(self.is_null, self.is_scalar, self.dims.as_slice()) {
            None => None,
            Some(n) => if n > usize::MAX as u64 {
                None
            } else {
                Some(n as usize)
            },
        }
    }

    /// Reads elements in the memory layout of `dst`: all, or those of a selection.
    pub fn read_elements(
        &self,
        dst: &TypeDescriptor,
        conv: Conversion,
        selection: Option<Selection>,
        attribute: bool,
    ) -> (r: Result<ReadOut, Error>)
        requires
            self@.dtype.sized(),
            dst@.sized(),
            selection matches Some(s) ==> s@.sound(),
        ensures
            match (
                r,
                elements_read(self@, dst@, conv, selection_view(selection), attribute),
            ) {
                (Ok(v), Ok((c, shape, n))) => v.converted.bytes@ == c.0 && v.converted.sink@ == c.1
                    && v.shape@ == shape && v.count == n,
                (Err(e), Err(m)) => e@ == m,
                _ => false,
            },
    {
        check_conversion(conv, &self.dtype, dst)?;
        let shape = match narrow_dims(&self.dims) {
            Err(e) => {
                return Err(e);
            },
            Ok(s) => s,
        };
        match selection {
            None => {
                let n: usize = match self.num_elements() {
                    None => {
                        return Err(Error::new("dataspace too large"));
                    },
                    Some(n) => n,
                };
                match model_to_mem(&self.dtype, dst, self.data.as_slice(), &self.vlen, n) {
                    Err(e) => Err(e),
                    Ok(converted) => Ok(ReadOut { converted, shape, count: n }),
                }
            },
            Some(sel) => {
                if attribute {
                    return Err(Error::new("Slicing cannot be used on attribute datasets"));
                }
                let out = match sel.out_shape(shape.as_slice()) {
                    Err(e) => {
                        return Err(e);
                    },
                    Ok(o) => o,
                };
                let raw = match sel.into_raw(shape.as_slice()) {
                    Err(e) => {
                        return Err(e);
                    },
                    Ok(x) => x,
                };
                let at = match raw.linear_indices(shape.as_slice()) {
                    Err(e) => {
                        return Err(e);
                    },
                    Ok(x) => x,
                };
                let bytes = match take_elements(&self.data, disk_size(&self.dtype), &at) {
                    Err(e) => {
                        return Err(e);
                    },
                    Ok(b) => b,
                };
                let n: usize = at.len();
                match model_to_mem(&self.dtype, dst, bytes.as_slice(), &self.vlen, n) {
                    Err(e) => Err(e),
                    Ok(converted) => Ok(ReadOut { converted, shape: out, count: n }),
                }
            },
        }
    }

    /// The bytes of the elements as in a file, and behind them the payloads.
    pub fn read_bytes(&self) -> (r: Vec<u8>)
        ensures
            r@ == self@.data + joined(self@.vlen),
    {
        let mut out = vstd::slice::slice_to_vec(self.data.as_slice());
        let ghost all = payloads(self.vlen@);
        let n: usize = self.vlen.len();
        let mut i: usize = 0;
        assert(all.take(0) =~= Seq::empty());
        assert(out@ =~= self@.data + joined(all.take(0)));
        while i < n
            invariant
                i <= n == self.vlen@.len(),
                all == payloads(self.vlen@),
                out@ == self@.data + joined(all.take(i as int)),
            decreases n - i,
        {
            assert(all.take(i + 1).drop_last() =~= all.take(i as int));
            assert(all[i as int] == self.vlen@[i as int]@);
            let ghost before = out@;
            let mut more = vstd::slice::slice_to_vec(self.vlen[i].as_slice());
            out.append(&mut more);
            i += 1;
            assert(out@ =~= self@.data + joined(all.take(i as int)));
        }
        assert(all.take(n as int) =~= all);
        out
    }
}

/// Byte strings, one after the other.
pub open spec fn joined(v: Seq<Seq<u8>>) -> Seq<u8>
    decreases v.len(),
{
    if v.len() == 0 {
        Seq::empty()
    } else {
        joined(v.drop_last()) + v.last()
    }
}

// Writing.

/// That another number of elements was expected.
pub open spec fn count_text(what: Seq<char>, want: nat, got: nat) -> Seq<char> {
    what + decimal(want) + " elements, got "@ + decimal(got)
}

fn count_error(what: &str, want: usize, got: usize) -> (r: Error)
    ensures
        r@ == count_text(what@, want as nat, got as nat),
{
    Error::from_text(
        with_number(
            join(with_number(what, want as u64).as_str(), " elements, got ").as_str(),
            got as u64,
        ),
    )
}

/// What a write of `n` elements in memory layout is made of: the numbers of the
/// elements that are written, or none for all of them, and the elements in file layout.
pub open spec fn write_prepared(
    h: HeldView,
    src: TypeView,
    conv: Conversion,
    data: Seq<u8>,
    blocks: Seq<Seq<u8>>,
    n: nat,
    selection: Option<SelectionView>,
    attribute: bool,
) -> Result<(Option<Seq<nat>>, (Seq<u8>, SinkView)), Seq<char>> {
    match conversion_checked(conv, src, h.dtype) {
        Err(e) => Err(e),
        Ok(_) => match narrow(h.dims) {
            Err(e) => Err(e),
            Ok(shape) => match selection {
                None => if !h.counted() {
                    Err("dataspace too large"@)
                } else if n != h.total() {
                    Err(count_text("write: expected "@, h.total(), n))
                } else {
                    match all_converted(
                        Direction::ToFile,
                        src,
                        h.dtype,
                        data,
                        n,
                        blocks,
                        fresh(Seq::empty()),
                    ) {
                        Err(e) => Err(e),
                        Ok(c) => Ok((None, c)),
                    }
                },
                Some(sel) => if attribute {
                    Err("Slicing cannot be used on attribute datasets"@)
                } else {
                    match sel.raw(shape) {
                        Err(e) => Err(e),
                        Ok(raw) => match indices(raw, shape) {
                            Err(e) => Err(e),
                            Ok(at) => if n != at.len() {
                                Err(count_text("write_slice: expected "@, at.len(), n))
                            } else {
                                match all_converted(
                                    Direction::ToFile,
                                    src,
                                    h.dtype,
                                    data,
                                    n,
                                    blocks,
                                    fresh(h.vlen),
                                ) {
                                    Err(e) => Err(e),
                                    Ok(c) => Ok((Some(at), c)),
                                }
                            },
                        },
                    }
                },
            },
        },
    }
}

/// A write that was prepared.
#[derive(Debug)]
pub struct Prepared {
    /// The numbers of the elements, or none for all of them.
    pub at: Option<Vec<u64>>,
    /// The elements in file layout, and the floating-point conversions that are still
    /// to be made.
    pub converted: Converted,
}

impl ContainerData {
    /// Prepares a write of `n` elements in the memory layout of `src`.
    pub fn prepare_write(
        &self,
        src: &TypeDescriptor,
        conv: Conversion,
        data: &[u8],
        blocks: &VlenStore,
        n: usize,
        selection: Option<Selection>,
        attribute: bool,
    ) -> (r: Result<Prepared, Error>)
        requires
            self@.dtype.sized(),
            src@.sized(),
            selection matches Some(s) ==> s@.sound(),
        ensures
            match (
                r,
                write_prepared(
                    self@,
                    src@,
                    conv,
                    data@,
                    payloads(blocks@),
                    n as nat,
                    selection_view(selection),
                    attribute,
                ),
            ) {
                (Ok(v), Ok((at, c))) => {
                    &&& v.converted.bytes@ == c.0
                    &&& v.converted.sink@ == c.1
                    &&& match (v.at, at) {
                        (Some(x), Some(y)) => nats(x@) == y,
                        (None, None) => true,
                        _ => false,
                    }
                },
                (Err(e), Err(m)) => e@ == m,
                _ => false,
            },
    {
        check_conversion(conv, src, &self.dtype)?;
        let shape = match narrow_dims(&self.dims) {
            Err(e) => {
                return Err(e);
            },
            Ok(s) => s,
        };
        match selection {
            None => {
                let want: usize = match self.num_elements() {
                    None => {
                        return Err(Error::new("dataspace too large"));
                    },
                    Some(x) => x,
                };
                if n != want {
                    return Err(count_error("write: expected ", want, n));
                }
                let store: VlenStore = Vec::new();
                assert(payloads(store@) =~= Seq::empty());
                match mem_to_model(src, &self.dtype, data, blocks, store, n) {
                    Err(e) => Err(e),
                    Ok(converted) => Ok(Prepared { at: None, converted }),
                }
            },
            Some(sel) => {
                if attribute {
                    return Err(Error::new("Slicing cannot be used on attribute datasets"));
                }
                let raw = match sel.into_raw(shape.as_slice()) {
                    Err(e) => {
                        return Err(e);
                    },
                    Ok(x) => x,
                };
                let at = match raw.linear_indices(shape.as_slice()) {
                    Err(e) => {
                        return Err(e);
                    },
                    Ok(x) => x,
                };
                if n != at.len() {
                    return Err(count_error("write_slice: expected ", at.len(), n));
                }
                match mem_to_model(src, &self.dtype, data, blocks, copy_store(&self.vlen), n) {
                    Err(e) => Err(e),
                    Ok(converted) => Ok(Prepared { at: Some(at), converted }),
                }
            },
        }
    }
}

/// Data in which the elements with the numbers from `k` on have been replaced.
pub open spec fn replaced_elements(
    data: Seq<u8>,
    esize: nat,
    at: Seq<nat>,
    bytes: Seq<u8>,
    k: int,
) -> Result<Seq<u8>, Seq<char>>
    decreases at.len() - k,
{
    if k < 0 || k >= at.len() {
        Ok(data)
    } else if (at[k] + 1) * esize > data.len() {
        Err("selection out of bounds"@)
    } else {
        replaced_elements(
            patched(
                data,
                (at[k] * esize) as int,
                bytes.subrange(k * esize as int, (k + 1) * esize as int),
            ),
            esize,
            at,
            bytes,
            k + 1,
        )
    }
}

/// Replaces the elements with the given numbers by those in `bytes`.
pub fn place_elements(data: Vec<u8>, esize: usize, at: &Vec<u64>, bytes: &Vec<u8>) -> (r: Result<
    Vec<u8>,
    Error,
>)
    requires
        bytes@.len() == at@.len() * esize,
    ensures
        match (r, replaced_elements(data@, esize as nat, nats(at@), bytes@, 0)) {
            (Ok(v), Ok(w)) => v@ == w,
            (Err(e), Err(m)) => e@ == m,
            _ => false,
        },
{
    let ghost list = nats(at@);
    let ghost given = data@;
    let ghost whole = replaced_elements(given, esize as nat, list, bytes@, 0);
    let size: usize = bytes.len();
    let mut out = data;
    let n: usize = at.len();
    let mut k: usize = 0;
    while k < n
        invariant
            k <= n == at@.len(),
            list == nats(at@),
            bytes@.len() == n * esize,
            size == bytes@.len(),
            given == data@,
            whole == replaced_elements(given, esize as nat, list, bytes@, 0),
            whole == replaced_elements(out@, esize as nat, list, bytes@, k as int),
        decreases n - k,
    {
        assert(list[k as int] == at@[k as int]);
        let room: usize = out.len();
        let end: usize = match element_end(at[k], esize) {
            None => {
                return Err(Error::new("selection out of bounds"));
            },
            Some(e) => e,
        };
        if end > out.len() {
            return Err(Error::new("selection out of bounds"));
        }
        proof {
            assert(k as int * esize as int + esize as int == (k as int + 1) * esize as int)
                by (nonlinear_arith);
            assert((k as int + 1) * esize as int <= n as int * esize as int) by (nonlinear_arith)
                requires
                    k as int + 1 <= n as int,
                    esize >= 0,
            ;
            assert(0 <= k as int * esize as int) by (nonlinear_arith);
        }
        let from: usize = k * esize;
        let start: usize = end - esize;
        let ghost before = out@;
        let ghost part = bytes@.subrange(from as int, from + esize);
        let ghost want = patched(before, start as int, part);
        let mut j: usize = 0;
        while j < esize
            invariant
                j <= esize,
                start + esize == end <= out@.len() == before.len(),
                from + esize <= bytes@.len() == size,
                part == bytes@.subrange(from as int, from + esize),
                want == patched(before, start as int, part),
                forall|i: int| 0 <= i < start + j ==> #[trigger] out@[i] == want[i],
                forall|i: int| start + j <= i < out@.len() ==> #[trigger] out@[i] == before[i],
            decreases esize - j,
        {
            let b: u8 = bytes[from + j];
            assert(want[start + j] == part[j as int]);
            out.set(start + j, b);
            j += 1;
        }
        assert(out@ =~= want);
        k += 1;
    }
    Ok(out)
}

// Bytes.

/// The bytes of a container's elements, read from front to back.
#[derive(Debug)]
pub struct ByteReader {
    pub data: Vec<u8>,
    pub pos: u64,
}

/// Where a seek is counted from.
#[derive(Clone, Copy, Debug, PartialEq, Eq, Structural)]
pub enum Whence {
    Start(u64),
    End(i64),
    Current(i64),
}

impl ByteReader {
    /// A reader of what a container holds, where it has no variable-length components.
    pub fn new(held: ContainerData) -> (r: Result<Self, Error>)
        ensures
            match r {
                Ok(b) => !held@.dtype.has_vlen() && b.data@ == held@.data && b.pos == 0,
                Err(e) => held@.dtype.has_vlen() && e@ == "cannot read variable-length data as bytes"@,
            },
    {
        if has_vlen(&held.dtype) {
            return Err(Error::new("cannot read variable-length data as bytes"));
        }
        Ok(ByteReader { data: held.data, pos: 0 })
    }

    pub fn is_empty(&self) -> (r: bool)
        ensures
            r == (self.data@.len() == 0),
    {
        self.data.is_empty()
    }

    pub fn len(&self) -> (r: usize)
        ensures
            r == self.data@.len(),
    {
        self.data.len()
    }

    /// The next `n` bytes, as far as they are there.
    pub fn read(&mut self, n: usize) -> (r: Vec<u8>)
        ensures
            final(self).data@ == old(self).data@,
            ({
                let size = old(self).data@.len() as int;
                let from = if old(self).pos < size {
                    old(self).pos as int
                } else {
                    size
                };
                let to = if size - from < n {
                    size
                } else {
                    from + n
                };
                r@ == old(self).data@.subrange(from, to) && final(self).pos == old(self).pos + (to
                    - from)
            }),
    {
        let size: usize = self.data.len();
        let from: usize = if self.pos < size as u64 {
            self.pos as usize
        } else {
            size
        };
        let to: usize = if size - from < n {
            size
        } else {
            from + n
        };
        let out = vstd::slice::slice_to_vec(
            vstd::slice::slice_subrange(self.data.as_slice(), from, to),
        );
        self.pos = self.pos + (to - from) as u64;
        out
    }

    /// Moves to another place, which may lie behind the end.
    pub fn seek(&mut self, to: Whence) -> (r: Result<u64, Error>)
        ensures
            final(self).data@ == old(self).data@,
            ({
                let target = match to {
                    Whence::Start(o) => o as int,
                    Whence::End(o) => old(self).data@.len() + o,
                    Whence::Current(o) => old(self).pos + o,
                };
                match r {
                    Ok(p) => 0 <= target <= i64::MAX && p == target && final(self).pos == p,
                    Err(e) => (target < 0 || target > i64::MAX) && e@ == "seek before start"@
                        && final(self).pos == old(self).pos,
                }
            }),
    {
        let target: i128 = match to {
            Whence::Start(o) => o as i128,
            Whence::End(o) => self.data.len() as i128 + o as i128,
            Whence::Current(o) => self.pos as i128 + o as i128,
        };
        if target < 0 || target > i64::MAX as i128 {
            return Err(Error::new("seek before start"));
        }
        self.pos = target as u64;
        Ok(self.pos)
    }
}

} // verus!
