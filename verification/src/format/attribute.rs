//! Attribute messages.

use vstd::prelude::*;

use crate::error::Error;
use crate::format::convert::{disk_size, payloads};
use crate::format::datatype::{decode_ordered, decoded, OrderTree, OrderView};
use crate::format::elements::{fit, fitted, load, loaded, turn, turned};
use crate::format::gheap::GlobalHeap;
use crate::format::grid::countable;
use crate::format::messages::{c_text, cstr, dataspace_parsed, parse_dataspace, Space, SpaceView};
use crate::format::{
    aligned8, dropped, eof_text, le_at, lemma_le_bound, pow256, uint_of, Cursor,
};
use crate::model::{count_elements, elements, AttrData, AttrView};
use crate::types::{TypeDescriptor, TypeView};

verus! {

/// The largest attribute that is read.
pub const ATTRIBUTE_LIMIT: u64 = 0x2_0000_0000;

/// The attribute with a name, a type, a dataspace and the bytes that follow them.
pub open spec fn attr_finished(
    data: Seq<u8>,
    base: u64,
    name: Seq<char>,
    ty: TypeView,
    order: OrderView,
    space: SpaceView,
    bytes: Seq<u8>,
) -> Result<AttrView, Seq<char>> {
    let n = elements(space.is_null, space.is_scalar, space.dims);
    let size = ty.disk_size();
    if !space.is_null && !space.is_scalar && !countable(space.dims) {
        Err("attribute dimension overflow"@)
    } else if n * size > usize::MAX {
        Err("attribute size overflow"@)
    } else if n * size > ATTRIBUTE_LIMIT {
        Err("attribute too large to materialize"@)
    } else {
        match loaded(data, base, ty, n, fitted(bytes, n * size)) {
            Err(e) => Err(e),
            Ok((cells, store)) => {
                let (cells, store) = turned(order, size, n, cells, store);
                Ok(
                    AttrView {
                        name,
                        dtype: ty,
                        dims: space.dims,
                        is_scalar: space.is_scalar,
                        is_null: space.is_null,
                        data: cells,
                        vlen: store,
                    },
                )
            },
        }
    }
}

/// The length of the head of an attribute message.
pub open spec fn attr_head(version: u8) -> int {
    if version == 3 {
        9
    } else {
        8
    }
}

/// The place that `n` bytes take in a message of some version.
pub open spec fn attr_pad(version: u8, n: nat) -> int {
    if version == 1 {
        aligned8(n as int)
    } else {
        n as int
    }
}

/// The attribute message `body`; messages of unknown versions hold none.
pub open spec fn attr_parsed(data: Seq<u8>, base: u64, body: Seq<u8>) -> Result<
    Option<AttrView>,
    Seq<char>,
> {
    if body.len() == 0 {
        Err(eof_text())
    } else if body[0] < 1 || body[0] > 3 {
        Ok(None)
    } else if body.len() < attr_head(body[0]) {
        Err(eof_text())
    } else {
        let version = body[0];
        let head = attr_head(version);
        let named = le_at(body, 2, 2);
        let p1 = head + attr_pad(version, named);
        let p2 = p1 + attr_pad(version, le_at(body, 4, 2));
        let p3 = p2 + attr_pad(version, le_at(body, 6, 2));
        if body.len() < p1 {
            Err(eof_text())
        } else {
            match decoded(body.skip(p1)) {
                Err(e) => Err(e),
                Ok(d) => match dataspace_parsed(dropped(body, p2)) {
                    Err(e) => Err(e),
                    Ok((space, rest)) => if p3 > body.len() {
                        Err("attribute message truncated"@)
                    } else {
                        match attr_finished(
                            data,
                            base,
                            c_text(body.subrange(head, head + named)),
                            d.ty,
                            d.order,
                            space,
                            body.skip(p3),
                        ) {
                            Err(e) => Err(e),
                            Ok(a) => Ok(Some(a)),
                        }
                    },
                },
            }
        }
    }
}

fn finish_attribute(
    heap: &mut GlobalHeap,
    name: String,
    dtype: TypeDescriptor,
    order: &OrderTree,
    space: Space,
    bytes: Vec<u8>,
) -> (r: Result<AttrData, Error>)
    requires
        old(heap).wf(),
        dtype@.sized(),
    ensures
        final(heap).wf(),
        final(heap).data@ == old(heap).data@,
        final(heap).base == old(heap).base,
        match (
            r,
            attr_finished(
                old(heap).data@,
                old(heap).base,
                name@,
                dtype@,
                order@,
                space@,
                bytes@,
            ),
        ) {
            (Ok(a), Ok(v)) => a@ == v && a.dtype@.sized(),
            (Err(e), Err(m)) => e@ == m,
            _ => false,
        },
{
    let n: u64 = match count_elements(space.is_null, space.is_scalar, space.dims.as_slice()) {
        Some(n) => n,
        None => {
            return Err(Error::new("attribute dimension overflow"));
        },
    };
    let size: usize = disk_size(&dtype);
    assert(n * size <= 0xffff_ffff_ffff_ffff * 0xffff_ffff_ffff_ffff) by (nonlinear_arith)
        requires
            0 <= n <= 0xffff_ffff_ffff_ffff,
            0 <= size <= 0xffff_ffff_ffff_ffff,
    ;
    let total: u128 = n as u128 * size as u128;
    if total > usize::MAX as u128 {
        return Err(Error::new("attribute size overflow"));
    }
    if total > ATTRIBUTE_LIMIT as u128 {
        return Err(Error::new("attribute too large to materialize"));
    }
    let bytes = fit(bytes, total as usize);
    let (cells, mut store) = if size == 0 || n == 0 {
        assert(total == 0) by (nonlinear_arith)
            requires
                total == n * size,
                size == 0 || n == 0,
        ;
        let store: Vec<Vec<u8>> = Vec::new();
        assert(payloads(store@) =~= Seq::<Seq<u8>>::empty());
        (bytes, store)
    } else {
        assert(n <= total && total == size * n) by (nonlinear_arith)
            requires
                total == n * size,
                size >= 1,
                n >= 0,
        ;
        load(heap, &dtype, n as usize, bytes)?
    };
    let ghost (c, st) = (cells@, payloads(store@));
    let cells = if size == 0 || n == 0 {
        assert(turned(order@, size as nat, n as nat, c, st) == (c, st)) by {
            if n == 0 {
                reveal_with_fuel(crate::format::order::ordered_cells, 1);
            }
        }
        cells
    } else {
        assert(n <= total) by (nonlinear_arith)
            requires
                total == n * size,
                size >= 1,
                n >= 0,
        ;
        turn(order, size, n as usize, cells, &mut store)
    };
    Ok(
        AttrData {
            name,
            dtype,
            dims: space.dims,
            is_scalar: space.is_scalar,
            is_null: space.is_null,
            data: cells,
            vlen: store,
        },
    )
}

fn short_at(body: &[u8], p: usize) -> (r: usize)
    requires
        p + 2 <= body@.len(),
    ensures
        r == le_at(body@, p as int, 2),
        r <= 0xffff,
{
    proof {
        lemma_le_bound(body@.subrange(p as int, p + 2));
        reveal_with_fuel(pow256, 3);
    }
    let total: usize = body.len();
    uint_of(vstd::slice::slice_subrange(body, p, p + 2)) as usize
}

fn padded(version: u8, n: usize) -> (r: usize)
    requires
        n <= 0xffff,
    ensures
        r == attr_pad(version, n as nat),
        n <= r <= 0x1_0007,
{
    if version == 1 {
        crate::format::align8(n)
    } else {
        n
    }
}

/// Whether parsing an attribute came out as `s` says.
pub open spec fn attr_as(
    r: Result<Option<AttrData>, Error>,
    s: Result<Option<AttrView>, Seq<char>>,
) -> bool {
    match (r, s) {
        (Ok(Some(a)), Ok(Some(v))) => a@ == v,
        (Ok(None), Ok(None)) => true,
        (Err(e), Err(m)) => e@ == m,
        _ => false,
    }
}

/// Reads an attribute message.
pub fn parse_attribute(heap: &mut GlobalHeap, body: &[u8]) -> (r: Result<Option<AttrData>, Error>)
    requires
        old(heap).wf(),
    ensures
        final(heap).wf(),
        final(heap).data@ == old(heap).data@,
        final(heap).base == old(heap).base,
        attr_as(r, attr_parsed(old(heap).data@, old(heap).base, body@)),
        r matches Ok(Some(a)) ==> a.dtype@.sized(),
{
    let total: usize = body.len();
    if total == 0 {
        return Err(Error::new("unexpected end of file"));
    }
    let version: u8 = body[0];
    if version < 1 || version > 3 {
        return Ok(None);
    }
    let head: usize = if version == 3 {
        9
    } else {
        8
    };
    if total < head {
        return Err(Error::new("unexpected end of file"));
    }
    let named: usize = short_at(body, 2);
    let p1: usize = head + padded(version, named);
    let p2: usize = p1 + padded(version, short_at(body, 4));
    let p3: usize = p2 + padded(version, short_at(body, 6));
    if total < p1 {
        return Err(Error::new("unexpected end of file"));
    }
    let name = cstr(vstd::slice::slice_subrange(body, head, head + named));
    let mut tc = Cursor::at(body, p1);
    let mut order = OrderTree::Plain;
    assert(tc.rest() =~= body@.skip(p1 as int));
    let dtype = decode_ordered(&mut tc, &mut order)?;
    let mut sc = Cursor::at(body, p2);
    assert(sc.rest() =~= dropped(body@, p2 as int));
    let space = parse_dataspace(&mut sc)?;
    if p3 > total {
        return Err(Error::new("attribute message truncated"));
    }
    let bytes = vstd::slice::slice_to_vec(vstd::slice::slice_subrange(body, p3, total));
    assert(bytes@ =~= body@.skip(p3 as int));
    let a = finish_attribute(heap, name, dtype, &order, space, bytes)?;
    Ok(Some(a))
}

} // verus!
