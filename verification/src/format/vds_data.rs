//! The data of virtual datasets, put together from those of their sources.

use vstd::prelude::*;

use crate::error::{same_bytes, Error};
use crate::format::convert::disk_size;
use crate::format::datatype::nats;
use crate::format::gheap::{heap_object, GlobalHeap};
use crate::format::patched;
use crate::format::vds::{
    mapping_views, parse_vds_blob, selected, vds_parsed, MappingView, VdsMapping,
};
use crate::model::{resolved, FileState, FileView, FillValue, FillView};
use crate::text::{join, same_text};

verus! {

/// The mappings of the virtual dataset that a heap object describes.
pub open spec fn stored_mappings(data: Seq<u8>, base: u64, addr: u64, idx: u32) -> Result<
    Seq<MappingView>,
    Seq<char>,
> {
    match heap_object(data, base, addr, idx as u64) {
        Err(e) => Err(e),
        Ok(blob) => vds_parsed(blob),
    }
}

/// Reads the mappings of a virtual dataset.
pub fn read_mappings(data: &[u8], base: u64, addr: u64, idx: u32) -> (r: Result<
    Vec<VdsMapping>,
    Error,
>)
    ensures
        match (r, stored_mappings(data@, base, addr, idx)) {
            (Ok(a), Ok(b)) => mapping_views(a@) == b,
            (Err(e), Err(m)) => e@ == m,
            _ => false,
        },
{
    let mut heap = GlobalHeap::new(data, base);
    let blob = heap.read_gheap_object(addr, idx)?;
    parse_vds_blob(blob.as_slice())
}

/// The data of a virtual dataset before its mappings are applied: the fill value,
/// where it is defined.
pub open spec fn vds_start(bytes: Seq<u8>, fill: FillView, size: nat) -> Seq<u8> {
    match fill {
        FillView::UserDefined(v) => if size > 0 && v.len() >= size {
            Seq::new(bytes.len(), |p: int| v[p % size as int])
        } else {
            bytes
        },
        _ => bytes,
    }
}

/// Fills the data of a virtual dataset.
pub fn start_vds(bytes: Vec<u8>, fill: &FillValue, size: usize) -> (r: Vec<u8>)
    ensures
        r@ == vds_start(bytes@, fill@, size as nat),
        r@.len() == bytes@.len(),
{
    match fill {
        FillValue::UserDefined(v) => {
            if size == 0 || v.len() < size {
                return bytes;
            }
            let n: usize = bytes.len();
            let mut out: Vec<u8> = Vec::new();
            let mut p: usize = 0;
            while p < n
                invariant
                    p <= n,
                    0 < size <= v@.len(),
                    out@ =~= Seq::new(p as nat, |q: int| v@[q % size as int]),
                decreases n - p,
            {
                proof {
                    assert(0 <= p % size < size) by (nonlinear_arith)
                        requires
                            size > 0,
                            p >= 0,
                    ;
                }
                out.push(v[p % size]);
                p += 1;
            }
            assert(out@ =~= vds_start(bytes@, fill@, size as nat));
            out
        },
        _ => bytes,
    }
}

/// The elements `src[k]` on of an array copied to the places `dst[k]` on of another,
/// as far as both lists go and the elements exist.
pub open spec fn mapped(
    bytes: Seq<u8>,
    source: Seq<u8>,
    dst: Seq<nat>,
    src: Seq<nat>,
    k: int,
    size: nat,
) -> Seq<u8>
    decreases dst.len() - k,
{
    if k < 0 || k >= dst.len() || k >= src.len() {
        bytes
    } else {
        let (v, s) = (dst[k] * size, src[k] * size);
        let next = if v + size <= bytes.len() && s + size <= source.len() {
            patched(bytes, v as int, source.subrange(s as int, (s + size) as int))
        } else {
            bytes
        };
        mapped(next, source, dst, src, k + 1, size)
    }
}

/// The data of a virtual dataset with the dimensions `dims` after a mapping was
/// applied to a source with the dimensions `sdims` and elements of `ssize` bytes.
pub open spec fn mapping_applied(
    bytes: Seq<u8>,
    dims: Seq<u64>,
    size: nat,
    m: MappingView,
    sdims: Seq<u64>,
    ssize: nat,
    source: Seq<u8>,
) -> Result<Seq<u8>, Seq<char>> {
    if ssize != size {
        Err("VDS source datatype size mismatch"@)
    } else {
        match selected(m.virt_sel, dims) {
            Err(e) => Err(e),
            Ok(dst) => match selected(m.src_sel, sdims) {
                Err(e) => Err(e),
                Ok(src) => Ok(mapped(bytes, source, dst, src, 0, size)),
            },
        }
    }
}

fn copy_cell(out: &mut Vec<u8>, at: usize, source: &[u8], from: usize, size: usize)
    requires
        at + size <= old(out)@.len(),
        from + size <= source@.len(),
    ensures
        final(out)@ == patched(old(out)@, at as int, source@.subrange(from as int, from + size)),
        final(out)@.len() == old(out)@.len(),
{
    let n: usize = out.len();
    let m: usize = source.len();
    let mut b: usize = 0;
    while b < size
        invariant
            b <= size,
            at + size <= out@.len() == n,
            out@.len() == old(out)@.len(),
            from + size <= source@.len() == m,
            forall|p: int|
                0 <= p < out@.len() ==> #[trigger] out@[p] == (if at <= p < at + b {
                    source@[from + (p - at)]
                } else {
                    old(out)@[p]
                }),
        decreases size - b,
    {
        out.set(at + b, source[from + b]);
        b += 1;
    }
    assert(out@ =~= patched(old(out)@, at as int, source@.subrange(from as int, from + size)));
}

/// Applies a mapping.
pub fn apply_mapping(
    bytes: Vec<u8>,
    dims: &[u64],
    size: usize,
    m: &VdsMapping,
    sdims: &[u64],
    ssize: usize,
    source: &[u8],
) -> (r: Result<Vec<u8>, Error>)
    ensures
        same_bytes(
            r,
            mapping_applied(
                bytes@,
                dims@,
                size as nat,
                m@,
                sdims@,
                ssize as nat,
                source@,
            ),
        ),
        r matches Ok(v) ==> v@.len() == bytes@.len(),
{
    if ssize != size {
        return Err(Error::new("VDS source datatype size mismatch"));
    }
    let dst = m.virt_sel.linear_indices(dims)?;
    let src = m.src_sel.linear_indices(sdims)?;
    let ghost (dv, sv) = (nats(dst@), nats(src@));
    let ghost whole = mapped(bytes@, source@, dv, sv, 0, size as nat);
    let mut out = bytes;
    let mut k: usize = 0;
    while k < dst.len() && k < src.len()
        invariant
            dv == nats(dst@),
            sv == nats(src@),
            out@.len() == bytes@.len(),
            whole == mapped(out@, source@, dv, sv, k as int, size as nat),
        decreases dst@.len() - k,
    {
        assert(dv[k as int] == dst@[k as int] && sv[k as int] == src@[k as int]);
        let (a, b): (u64, u64) = (dst[k], src[k]);
        assert(a * size <= 0xffff_ffff_ffff_ffff * 0xffff_ffff_ffff_ffff && b * size
            <= 0xffff_ffff_ffff_ffff * 0xffff_ffff_ffff_ffff) by (nonlinear_arith)
            requires
                0 <= a <= 0xffff_ffff_ffff_ffff,
                0 <= b <= 0xffff_ffff_ffff_ffff,
                0 <= size <= 0xffff_ffff_ffff_ffff,
        ;
        let v: u128 = a as u128 * size as u128;
        let s: u128 = b as u128 * size as u128;
        assert(0xffff_ffff_ffff_ffff * 0xffff_ffff_ffff_ffff + 0xffff_ffff_ffff_ffff
            <= 0xffff_ffff_ffff_ffff_ffff_ffff_ffff_ffff) by (nonlinear_arith);
        if v + size as u128 <= out.len() as u128 && s + size as u128 <= source.len() as u128 {
            copy_cell(&mut out, v as usize, source, s as usize, size);
        }
        k += 1;
    }
    Ok(out)
}

/// The error for a source that is not there.
pub open spec fn source_missing(dset: Seq<char>, file: Seq<char>) -> Seq<char> {
    "VDS source dataset '"@ + dset + "' not found in '"@ + file + "'"@
}

/// The error for a source that is not there.
pub fn missing_source(m: &VdsMapping) -> (r: Error)
    ensures
        r@ == source_missing(m@.source_dset, m@.source_file),
{
    let a = join("VDS source dataset '", m.source_dset.as_str());
    let b = join(a.as_str(), "' not found in '");
    let c = join(b.as_str(), m.source_file.as_str());
    Error::from_text(join(c.as_str(), "'"))
}

// The sources of virtual datasets.

/// Virtual datasets may refer to one another through this many files.
pub const MAX_SOURCE_DEPTH: usize = 8;

/// Tests that a file is not too many files away from the one that was opened.
pub fn enter_source(depth: usize) -> (r: Result<(), Error>)
    ensures
        r is Ok <==> depth <= MAX_SOURCE_DEPTH,
        r matches Err(e) ==> e@ == "virtual dataset source nesting too deep"@,
{
    if depth > MAX_SOURCE_DEPTH {
        return Err(Error::new("virtual dataset source nesting too deep"));
    }
    Ok(())
}

/// Where the source of a mapping is to be found.
#[derive(Clone, Copy, Debug, PartialEq, Eq, Structural)]
pub enum SourceStep {
    /// In the file of the virtual dataset itself.
    Own,
    /// In the file with this number among those that were opened.
    Opened(usize),
    /// In a file that has to be opened.
    Open,
}

/// The names of files.
pub open spec fn name_views(v: Seq<String>) -> Seq<Seq<char>> {
    v.map_values(|s: String| s@)
}

/// The number of a name among others, from the number `i` on.
pub open spec fn name_place(names: Seq<Seq<char>>, name: Seq<char>, i: int) -> Option<int>
    decreases names.len() - i,
{
    if i < 0 || i >= names.len() {
        None
    } else if names[i] == name {
        Some(i)
    } else {
        name_place(names, name, i + 1)
    }
}

/// Decides where the source of a mapping is to be found. The name `.` stands for the
/// file of the virtual dataset.
pub fn source_step(m: &VdsMapping, opened: &Vec<String>) -> (r: SourceStep)
    ensures
        match r {
            SourceStep::Own => m@.source_file == "."@,
            SourceStep::Opened(k) => m@.source_file != "."@ && name_place(
                name_views(opened@),
                m@.source_file,
                0,
            ) == Some(k as int) && k < opened@.len(),
            SourceStep::Open => m@.source_file != "."@ && name_place(
                name_views(opened@),
                m@.source_file,
                0,
            ) is None,
        },
{
    if same_text(&m.source_file, ".") {
        return SourceStep::Own;
    }
    let ghost names = name_views(opened@);
    let n: usize = opened.len();
    let mut i: usize = 0;
    while i < n
        invariant
            i <= n == opened@.len(),
            names == name_views(opened@),
            m@.source_file != "."@,
            name_place(names, m@.source_file, 0) == name_place(names, m@.source_file, i as int),
        decreases n - i,
    {
        assert(names[i as int] == opened@[i as int]@);
        if same_text(&m.source_file, opened[i].as_str()) {
            return SourceStep::Opened(i);
        }
        i += 1;
    }
    SourceStep::Open
}

/// The dimensions, the element size and the elements of the dataset that a path leads to
/// from the root, where it leads to one.
pub open spec fn source_found(f: FileView, path: Seq<char>) -> Option<(Seq<u64>, nat, Seq<u8>)> {
    match resolved(f, f.root, path) {
        None => None,
        Some(id) => match f.dataset(id) {
            None => None,
            Some(d) => if d.dtype.sized() {
                Some((d.dims, d.dtype.disk_size(), d.data))
            } else {
                None
            },
        },
    }
}

/// Finds a source in a file whose data have been read.
pub fn find_source(state: &FileState, path: &str) -> (r: Option<(Vec<u64>, usize, Vec<u8>)>)
    ensures
        match (r, source_found(state@, path@)) {
            (Some((dims, size, data)), Some((d, n, b))) => dims@ == d && size == n && data@ == b,
            (None, None) => true,
            _ => false,
        },
{
    match state.resolve(state.root, path) {
        None => None,
        Some(id) => match state.dataset_data(id) {
            None => None,
            Some(d) => {
                if !d.dtype.is_sized() {
                    return None;
                }
                Some(
                    (
                        vstd::slice::slice_to_vec(d.dims.as_slice()),
                        disk_size(&d.dtype),
                        vstd::slice::slice_to_vec(d.data.as_slice()),
                    ),
                )
            },
        },
    }
}

} // verus!
