//! Variable-length slots as they are written: references into a global heap collection.

use vstd::prelude::*;

use crate::format::convert::{disk_size, place, slot_parts};
use crate::format::{le_at, le_bytes, lemma_le_bytes_len, patched, push_le, zeroes};
use crate::types::{
    field_views, lemma_field_views, lemma_fields_sized, CompoundField, FieldView, TypeDescriptor,
    TypeView,
};

verus! {

/// The reference that stands for a slot, where the payloads are in the collection at
/// `addr`; a slot without a payload refers to nothing.
pub open spec fn fixed_slot(elem: Seq<u8>, addr: u64) -> Seq<u8> {
    let len = le_at(elem, 0, 4);
    let idx = le_at(elem, 4, 4);
    if idx == 0 {
        le_bytes(len, 4) + zeroes(12)
    } else {
        le_bytes(len, 4) + le_bytes(addr as nat, 8) + le_bytes(idx, 4)
    }
}

/// An element of the type `t` with references in the place of its slots.
pub open spec fn fixed_element(t: TypeView, elem: Seq<u8>, addr: u64) -> Seq<u8>
    decreases t, 0nat,
{
    if t is VarLenAscii || t is VarLenUnicode || t is VarLenArray {
        fixed_slot(elem, addr)
    } else {
        match t {
            TypeView::Compound { fields, size } => fixed_fields(fields, 0, elem, addr),
            TypeView::FixedArray(b, n) => fixed_cells(*b, n, elem, addr),
            _ => elem,
        }
    }
}

/// The same for the fields from `j` on of a compound.
pub open spec fn fixed_fields(fields: Seq<FieldView>, j: int, elem: Seq<u8>, addr: u64) -> Seq<u8>
    decreases fields, (fields.len() - j) as nat,
{
    if j < 0 || j >= fields.len() {
        elem
    } else {
        let from = fields[j].offset as int;
        let size = fields[j].ty.disk_size() as int;
        if from + size <= elem.len() {
            fixed_fields(
                fields,
                j + 1,
                patched(
                    elem,
                    from,
                    fixed_element(fields[j].ty, elem.subrange(from, from + size), addr),
                ),
                addr,
            )
        } else {
            fixed_fields(fields, j + 1, elem, addr)
        }
    }
}

/// The same for `n` elements one behind the other, as many as there are.
pub open spec fn fixed_cells(b: TypeView, n: nat, elem: Seq<u8>, addr: u64) -> Seq<u8>
    decreases b, n + 1,
{
    if n == 0 || elem.len() < b.disk_size() {
        elem
    } else {
        let size = b.disk_size() as int;
        fixed_element(b, elem.take(size), addr) + fixed_cells(
            b,
            (n - 1) as nat,
            elem.skip(size),
            addr,
        )
    }
}

fn fix_slot(elem: &Vec<u8>, addr: u64) -> (r: Vec<u8>)
    requires
        elem@.len() == 16,
    ensures
        r@ == fixed_slot(elem@, addr),
        r@.len() == 16,
{
    let (len, idx) = slot_parts(elem.as_slice());
    let mut out: Vec<u8> = Vec::new();
    push_le(&mut out, len as u64, 4);
    proof {
        lemma_le_bytes_len(len as nat, 4);
        lemma_le_bytes_len(addr as nat, 8);
        lemma_le_bytes_len(idx as nat, 4);
    }
    if idx == 0 {
        push_le(&mut out, 0, 8);
        push_le(&mut out, 0, 4);
        proof {
            lemma_zero_bytes(8);
            lemma_zero_bytes(4);
        }
        assert(out@ =~= fixed_slot(elem@, addr));
    } else {
        push_le(&mut out, addr, 8);
        push_le(&mut out, idx as u64, 4);
        assert(out@ =~= fixed_slot(elem@, addr));
    }
    out
}

pub proof fn lemma_zero_bytes(n: nat)
    ensures
        le_bytes(0, n) == zeroes(n),
    decreases n,
{
    if n > 0 {
        lemma_zero_bytes((n - 1) as nat);
        assert(le_bytes(0, n) =~= zeroes(n));
    } else {
        assert(le_bytes(0, 0) =~= zeroes(0));
    }
}

fn fix_fields(fields: &Vec<CompoundField>, elem: Vec<u8>, addr: u64) -> (r: Vec<u8>)
    requires
        crate::types::fields_sized(field_views(fields@)),
    ensures
        r@ == fixed_fields(field_views(fields@), 0, elem@, addr),
        r@.len() == elem@.len(),
    decreases fields@, 1nat,
{
    let ghost views = field_views(fields@);
    proof {
        lemma_field_views(fields@);
    }
    let ghost whole = fixed_fields(views, 0, elem@, addr);
    let n: usize = fields.len();
    let total: usize = elem.len();
    let mut cur: Vec<u8> = elem;
    let mut j: usize = 0;
    while j < n
        invariant
            j <= n == fields@.len() == views.len(),
            views == field_views(fields@),
            crate::types::fields_sized(views),
            forall|k: int| 0 <= k < n ==> #[trigger] views[k] == fields@[k].model(),
            cur@.len() == total == elem@.len(),
            whole == fixed_fields(views, 0, elem@, addr),
            whole == fixed_fields(views, j as int, cur@, addr),
        decreases n - j,
    {
        let f = &fields[j];
        proof {
            assert(views[j as int] == f.model());
            lemma_fields_sized(views, j as int);
        }
        let size: usize = disk_size(&f.ty);
        if f.offset <= total && size <= total - f.offset {
            let part = vstd::slice::slice_to_vec(
                vstd::slice::slice_subrange(cur.as_slice(), f.offset, f.offset + size),
            );
            proof {
                assert(decreases_to!(fields@ => fields@[j as int]));
                assert(decreases_to!(fields@[j as int] => fields@[j as int].ty));
            }
            let fixed = fixup_vlen_elem(&f.ty, part, addr);
            cur = place(&cur, f.offset, &fixed);
        }
        j += 1;
    }
    cur
}

fn fix_cells(b: &TypeDescriptor, n: u64, elem: &[u8], addr: u64) -> (r: Vec<u8>)
    requires
        b@.sized(),
    ensures
        r@ == fixed_cells(b@, n as nat, elem@, addr),
        r@.len() == elem@.len(),
    decreases b, 1nat,
{
    let size: usize = disk_size(b);
    let total: usize = elem.len();
    let ghost whole = fixed_cells(b@, n as nat, elem@, addr);
    let mut out: Vec<u8> = Vec::new();
    let mut at: usize = 0;
    let mut i: u64 = 0;
    assert(elem@.skip(0) =~= elem@);
    assert(out@ + whole =~= whole);
    while i < n && total - at >= size
        invariant
            i <= n,
            b@.sized(),
            size == b@.disk_size(),
            at <= total == elem@.len(),
            out@.len() == at,
            whole == fixed_cells(b@, n as nat, elem@, addr),
            whole == out@ + fixed_cells(b@, (n - i) as nat, elem@.skip(at as int), addr),
        decreases n - i,
    {
        let ghost rest = elem@.skip(at as int);
        let part = vstd::slice::slice_to_vec(vstd::slice::slice_subrange(elem, at, at + size));
        proof {
            assert(part@ =~= rest.take(size as int));
            assert(rest.skip(size as int) =~= elem@.skip(at + size));
        }
        let ghost before = out@;
        let mut cell = fixup_vlen_elem(b, part, addr);
        let ghost c = cell@;
        out.append(&mut cell);
        at = at + size;
        i += 1;
        proof {
            let tail = fixed_cells(b@, (n - i) as nat, elem@.skip(at as int), addr);
            assert(before + (c + tail) =~= (before + c) + tail);
        }
    }
    let tail = vstd::slice::slice_subrange(elem, at, total);
    assert(tail@ =~= elem@.skip(at as int));
    out.extend_from_slice(tail);
    out
}

/// Puts references into the collection at `addr` in the place of an element's slots.
pub fn fixup_vlen_elem(desc: &TypeDescriptor, elem: Vec<u8>, addr: u64) -> (r: Vec<u8>)
    requires
        desc@.sized(),
        elem@.len() == desc@.disk_size(),
    ensures
        r@ == fixed_element(desc@, elem@, addr),
        r@.len() == elem@.len(),
    decreases desc, 0nat,
{
    match desc {
        TypeDescriptor::VarLenAscii | TypeDescriptor::VarLenUnicode => fix_slot(&elem, addr),
        TypeDescriptor::VarLenArray(b) => fix_slot(&elem, addr),
        TypeDescriptor::Compound(c) => {
            assert(decreases_to!(desc => c.fields@)) by {
                assert(decreases_to!(c.fields => c.fields@));
                assert(decreases_to!(*c => c.fields));
                assert(decreases_to!(*desc => desc->Compound_0));
            }
            fix_fields(&c.fields, elem, addr)
        },
        TypeDescriptor::FixedArray(b, n) => fix_cells(b, *n as u64, elem.as_slice(), addr),
        _ => elem,
    }
}

/// Puts references into the collection at `addr` in the place of the slots of the first
/// `n` elements of `data`, as many as there are.
pub fn fixup_vlen(dtype: &TypeDescriptor, data: &[u8], n: u64, addr: u64) -> (r: Vec<u8>)
    requires
        dtype@.sized(),
    ensures
        r@ == fixed_cells(dtype@, n as nat, data@, addr),
        r@.len() == data@.len(),
{
    fix_cells(dtype, n, data, addr)
}

} // verus!
