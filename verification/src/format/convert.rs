//! Layout conversion between user memory and the file representation.
//!
//! In memory a variable-length string is a pointer and a variable-length sequence a
//! length and a pointer; in a file both are heap references. Here pointers are
//! 1-based numbers of blocks, 0 standing for none: in memory layout a string is
//! `{block: u64}` and a sequence `{len: u64, block: u64}`, in file layout both are
//! `{len: u32, block: u32, reserved: u64}`. Conversions of floating-point numbers are
//! listed for the caller.
//!
//! Compound fields are matched by name.

use vstd::prelude::*;

use crate::error::Error;
use crate::format::datatype::{nul_at, order_by_index};
use crate::format::{
    law_le_round_trip, le, le_at, le_bytes, lemma_le_bound, lemma_le_bytes_len, lemma_pow256,
    pow256, push_le, uint_of, zeroes,
};
use crate::text::{decimal, join, with_number};
use crate::types::{
    field_views, lemma_field_smaller, lemma_field_views, lemma_field_views_push,
    lemma_fields_sized, CompoundField, CompoundType, FieldView, FloatSize, IntSize, TypeDescriptor,
    TypeView,
};

verus! {

/// Bytes of an element in a file.
pub fn disk_size(desc: &TypeDescriptor) -> (r: usize)
    requires
        desc@.sized(),
    ensures
        r == desc@.disk_size(),
    decreases desc,
{
    match desc {
        TypeDescriptor::VarLenAscii | TypeDescriptor::VarLenUnicode => 16,
        TypeDescriptor::VarLenArray(base) => 16,
        TypeDescriptor::FixedArray(base, n) => disk_size(base) * *n,
        _ => desc.size(),
    }
}

/// Whether a type has a variable-length component.
pub fn has_vlen(desc: &TypeDescriptor) -> (r: bool)
    ensures
        r == desc@.has_vlen(),
    decreases desc,
{
    match desc {
        TypeDescriptor::VarLenAscii | TypeDescriptor::VarLenUnicode => true,
        TypeDescriptor::VarLenArray(base) => true,
        TypeDescriptor::Compound(c) => {
            let ghost views = field_views(c.fields@);
            proof {
                lemma_field_views(c.fields@);
                crate::types::lemma_fields_have_vlen(views);
            }
            let n: usize = c.fields.len();
            let mut i: usize = 0;
            while i < n
                invariant
                    i <= n == c.fields@.len() == views.len(),
                    *desc == TypeDescriptor::Compound(*c),
                    views == field_views(c.fields@),
                    forall|k: int| 0 <= k < n ==> #[trigger] views[k] == c.fields@[k].model(),
                    desc@.has_vlen() == (exists|k: int|
                        0 <= k < n && (#[trigger] views[k]).ty.has_vlen()),
                    forall|k: int| 0 <= k < i ==> !(#[trigger] views[k]).ty.has_vlen(),
                decreases n - i,
            {
                proof {
                    lemma_field_smaller(*desc, *c, i as int);
                    assert(views[i as int] == c.fields@[i as int].model());
                }
                if has_vlen(&c.fields[i].ty) {
                    return true;
                }
                i += 1;
            }
            false
        },
        TypeDescriptor::FixedArray(base, n) => has_vlen(base),
        _ => false,
    }
}

/// A side store of variable-length payloads, which slots refer to by 1-based number.
pub type VlenStore = Vec<Vec<u8>>;

/// The payloads of a store.
pub open spec fn payloads(store: Seq<Vec<u8>>) -> Seq<Seq<u8>> {
    store.map_values(|v: Vec<u8>| v@)
}

/// A slot in file layout.
pub open spec fn slot(len: nat, idx: nat) -> Seq<u8> {
    le_bytes(len, 4) + le_bytes(idx, 4) + zeroes(8)
}

pub(crate) fn model_slot(len: u64, idx: u64) -> (r: Vec<u8>)
    ensures
        r@ == slot(len as nat, idx as nat),
        r@.len() == 16,
{
    let mut s: Vec<u8> = Vec::new();
    push_le(&mut s, len, 4);
    push_le(&mut s, idx, 4);
    push_le(&mut s, 0, 8);
    proof {
        lemma_le_bytes_len(len as nat, 4);
        lemma_le_bytes_len(idx as nat, 4);
        assert(le_bytes(0, 8) =~= zeroes(8)) by {
            reveal_with_fuel(le_bytes, 9);
        }
        assert(s@ =~= slot(len as nat, idx as nat));
    }
    s
}

/// The length and the number in a slot.
pub fn slot_parts(slot: &[u8]) -> (r: (u32, u32))
    requires
        slot@.len() >= 8,
    ensures
        r.0 == le_at(slot@, 0, 4),
        r.1 == le_at(slot@, 4, 4),
{
    let a = vstd::slice::slice_subrange(slot, 0, 4);
    let b = vstd::slice::slice_subrange(slot, 4, 8);
    proof {
        lemma_le_bound(a@);
        lemma_le_bound(b@);
        reveal_with_fuel(pow256, 5);
    }
    (uint_of(a) as u32, uint_of(b) as u32)
}

/// What a slot reads back as.
pub proof fn law_slot_parts(len: nat, idx: nat)
    requires
        len < 0x1_0000_0000,
        idx < 0x1_0000_0000,
    ensures
        le_at(slot(len, idx), 0, 4) == len,
        le_at(slot(len, idx), 4, 4) == idx,
{
    reveal_with_fuel(pow256, 5);
    law_le_round_trip(len, 4);
    law_le_round_trip(idx, 4);
    let s = slot(len, idx);
    assert(s.subrange(0, 4) =~= le_bytes(len, 4));
    assert(s.subrange(4, 8) =~= le_bytes(idx, 4));
}

/// A numeric type.
#[derive(Clone, Copy, Debug, PartialEq, Eq, Structural)]
pub enum NumericType {
    Signed(IntSize),
    Unsigned(IntSize),
    Float(FloatSize),
}

impl NumericType {
    /// The width in bytes.
    pub open spec fn bytes(self) -> nat {
        match self {
            NumericType::Signed(w) => w.bytes(),
            NumericType::Unsigned(w) => w.bytes(),
            NumericType::Float(w) => w.bytes(),
        }
    }

    /// The smallest integer of the type.
    pub open spec fn low(self) -> int {
        match self {
            NumericType::Signed(w) => -(pow256(w.bytes()) / 2),
            _ => 0,
        }
    }

    /// The largest integer of the type.
    pub open spec fn high(self) -> int {
        match self {
            NumericType::Signed(w) => pow256(w.bytes()) / 2 - 1,
            _ => pow256(self.bytes()) - 1,
        }
    }

    /// The integer that a bit pattern stands for.
    pub open spec fn value(self, pattern: nat) -> int {
        if pattern > self.high() {
            pattern - pow256(self.bytes())
        } else {
            pattern as int
        }
    }

    /// The bit pattern of the integer of this type that is closest to `v`.
    pub open spec fn saturated(self, v: int) -> nat {
        let c = if v < self.low() {
            self.low()
        } else if v > self.high() {
            self.high()
        } else {
            v
        };
        if c < 0 {
            (c + pow256(self.bytes())) as nat
        } else {
            c as nat
        }
    }
}

/// An integer that the destination type can hold keeps its value.
pub proof fn law_integer_conversion_exact(from: NumericType, to: NumericType, pattern: nat)
    requires
        !(from is Float),
        !(to is Float),
        pattern < pow256(from.bytes()),
        to.low() <= from.value(pattern) <= to.high(),
    ensures
        to.value(to.saturated(from.value(pattern))) == from.value(pattern),
        to.saturated(from.value(pattern)) < pow256(to.bytes()),
{
    lemma_pow256();
}

/// The numeric type of a description.
pub open spec fn numeric(t: TypeView) -> Option<NumericType> {
    match t {
        TypeView::Integer(w) => Some(NumericType::Signed(w)),
        TypeView::Unsigned(w) => Some(NumericType::Unsigned(w)),
        TypeView::Float(w) => Some(NumericType::Float(w)),
        _ => None,
    }
}

fn numeric_type(t: &TypeDescriptor) -> (r: Option<NumericType>)
    ensures
        r == numeric(t@),
{
    match t {
        TypeDescriptor::Integer(w) => Some(NumericType::Signed(*w)),
        TypeDescriptor::Unsigned(w) => Some(NumericType::Unsigned(*w)),
        TypeDescriptor::Float(w) => Some(NumericType::Float(*w)),
        _ => None,
    }
}

fn power256(w: IntSize) -> (r: i128)
    ensures
        r == pow256(w.bytes()),
        256 <= r <= 0x1_0000_0000_0000_0000,
        r % 2 == 0,
{
    proof {
        lemma_pow256();
    }
    match w {
        IntSize::U1 => 0x100,
        IntSize::U2 => 0x1_0000,
        IntSize::U4 => 0x1_0000_0000,
        IntSize::U8 => 0x1_0000_0000_0000_0000,
    }
}

fn read_integer(signed: bool, w: IntSize, pattern: u64) -> (r: i128)
    requires
        pattern < pow256(w.bytes()),
    ensures
        r == (if signed {
            NumericType::Signed(w)
        } else {
            NumericType::Unsigned(w)
        }).value(pattern as nat),
        -0x8000_0000_0000_0000 <= r < 0x1_0000_0000_0000_0000,
{
    proof {
        lemma_pow256();
    }
    let p: i128 = power256(w);
    if signed && pattern as i128 > p / 2 - 1 {
        pattern as i128 - p
    } else {
        pattern as i128
    }
}

fn saturate(signed: bool, w: IntSize, v: i128) -> (r: u64)
    ensures
        r == (if signed {
            NumericType::Signed(w)
        } else {
            NumericType::Unsigned(w)
        }).saturated(v as int),
        r < pow256(w.bytes()),
{
    proof {
        lemma_pow256();
    }
    let p: i128 = power256(w);
    let (low, high): (i128, i128) = if signed {
        (-(p / 2), p / 2 - 1)
    } else {
        (0, p - 1)
    };
    let c: i128 = if v < low {
        low
    } else if v > high {
        high
    } else {
        v
    };
    if c < 0 {
        (c + p) as u64
    } else {
        c as u64
    }
}

pub open spec fn is_vlen_text(t: TypeView) -> bool {
    t is VarLenAscii || t is VarLenUnicode
}

pub open spec fn is_fixed_text(t: TypeView) -> bool {
    t is FixedAscii || t is FixedUnicode
}

/// The first field of a name.
pub open spec fn field_named(fields: Seq<FieldView>, name: Seq<char>, from: int) -> Option<int>
    decreases fields.len() - from,
{
    if from < 0 || from >= fields.len() {
        None
    } else if fields[from].name == name {
        Some(from)
    } else {
        field_named(fields, name, from + 1)
    }
}

proof fn lemma_field_named(fields: Seq<FieldView>, name: Seq<char>, from: int)
    requires
        0 <= from,
    ensures
        field_named(fields, name, from) matches Some(k) ==> from <= k < fields.len()
            && fields[k].name == name,
    decreases fields.len() - from,
{
    if from < fields.len() && fields[from].name != name {
        lemma_field_named(fields, name, from + 1);
    }
}

/// Why elements of one type cannot be converted to the other, where they cannot.
pub open spec fn mismatch(src: TypeView, dst: TypeView) -> Option<Seq<char>>
    decreases src, 0nat,
{
    if numeric(src) is Some && numeric(dst) is Some {
        None
    } else {
        let refused = Some("incompatible datatypes: "@ + src.text() + " vs "@ + dst.text());
        match (src, dst) {
            (TypeView::VarLenArray(a), TypeView::VarLenArray(b)) => mismatch(*a, *b),
            (TypeView::FixedArray(a, n), TypeView::FixedArray(b, m)) => if n != m {
                Some("array length mismatch: "@ + decimal(n) + " vs "@ + decimal(m))
            } else {
                mismatch(*a, *b)
            },
            (
                TypeView::Compound { fields: a, size: x },
                TypeView::Compound { fields: b, size: y },
            ) => fields_mismatch(a, b, 0),
            (
                TypeView::Enum { base: a, signed: x, members: v },
                TypeView::Enum { base: b, signed: y, members: w },
            ) => if a == b && x == y {
                None
            } else {
                refused
            },
            (TypeView::Boolean, TypeView::Boolean) => None,
            (TypeView::Enum { base, signed, members }, TypeView::Boolean) => if base
                == IntSize::U1 {
                None
            } else {
                refused
            },
            (TypeView::Boolean, TypeView::Enum { base, signed, members }) => if base
                == IntSize::U1 {
                None
            } else {
                refused
            },
            _ => if (is_vlen_text(src) || is_fixed_text(src)) && (is_vlen_text(dst)
                || is_fixed_text(dst)) {
                None
            } else {
                refused
            },
        }
    }
}

/// The same for the fields `b[j]` on of the destination.
pub open spec fn fields_mismatch(a: Seq<FieldView>, b: Seq<FieldView>, j: int) -> Option<Seq<char>>
    decreases a, (b.len() - j) as nat,
{
    if j < 0 || j >= b.len() {
        None
    } else {
        match field_named(a, b[j].name, 0) {
            None => Some("missing compound field '"@ + b[j].name + "'"@),
            Some(k) => if 0 <= k < a.len() {
                match mismatch(a[k].ty, b[j].ty) {
                    Some(e) => Some(e),
                    None => fields_mismatch(a, b, j + 1),
                }
            } else {
                None
            },
        }
    }
}

/// The first field of a name.
fn find_field(fields: &Vec<CompoundField>, name: &String) -> (r: Option<usize>)
    ensures
        match (r, field_named(field_views(fields@), name@, 0)) {
            (Some(i), Some(k)) => i == k && i < fields@.len(),
            (None, None) => true,
            _ => false,
        },
{
    let ghost views = field_views(fields@);
    proof {
        lemma_field_views(fields@);
    }
    let n: usize = fields.len();
    let mut i: usize = 0;
    while i < n
        invariant
            i <= n == fields@.len() == views.len(),
            views == field_views(fields@),
            forall|k: int| 0 <= k < n ==> #[trigger] views[k] == fields@[k].model(),
            field_named(views, name@, 0) == field_named(views, name@, i as int),
        decreases n - i,
    {
        assert(views[i as int].name == fields@[i as int].name@);
        if fields[i].name.eq(name) {
            return Some(i);
        }
        i += 1;
    }
    None
}

fn refusal(src: &TypeDescriptor, dst: &TypeDescriptor) -> (r: Error)
    ensures
        r@ == "incompatible datatypes: "@ + src@.text() + " vs "@ + dst@.text(),
{
    let head = join("incompatible datatypes: ", src.to_text().as_str());
    let mid = join(head.as_str(), " vs ");
    Error::from_text(join(mid.as_str(), dst.to_text().as_str()))
}

fn text_type(t: &TypeDescriptor) -> (r: (bool, bool))
    ensures
        r.0 == is_vlen_text(t@),
        r.1 == is_fixed_text(t@),
{
    match t {
        TypeDescriptor::VarLenAscii | TypeDescriptor::VarLenUnicode => (true, false),
        TypeDescriptor::FixedAscii(n) => (false, true),
        TypeDescriptor::FixedUnicode(n) => (false, true),
        _ => (false, false),
    }
}

/// Checks that elements of `src` can be converted to `dst`.
pub fn check_compatible(src: &TypeDescriptor, dst: &TypeDescriptor) -> (r: Result<(), Error>)
    ensures
        match mismatch(src@, dst@) {
            Some(m) => r matches Err(e) && e@ == m,
            None => r is Ok,
        },
    decreases src,
{
    if numeric_type(src).is_some() && numeric_type(dst).is_some() {
        return Ok(());
    }
    match (src, dst) {
        (TypeDescriptor::VarLenArray(a), TypeDescriptor::VarLenArray(b)) => {
            check_compatible(a, b)
        },
        (TypeDescriptor::FixedArray(a, n), TypeDescriptor::FixedArray(b, m)) => {
            if *n != *m {
                let head = with_number("array length mismatch: ", *n as u64);
                let mid = join(head.as_str(), " vs ");
                return Err(Error::from_text(with_number(mid.as_str(), *m as u64)));
            }
            check_compatible(a, b)
        },
        (TypeDescriptor::Compound(a), TypeDescriptor::Compound(b)) => {
            let ghost (va, vb) = (field_views(a.fields@), field_views(b.fields@));
            proof {
                lemma_field_views(a.fields@);
                lemma_field_views(b.fields@);
            }
            let n: usize = b.fields.len();
            let mut j: usize = 0;
            while j < n
                invariant
                    j <= n == b.fields@.len() == vb.len(),
                    *src == TypeDescriptor::Compound(*a),
                    *dst == TypeDescriptor::Compound(*b),
                    va == field_views(a.fields@),
                    vb == field_views(b.fields@),
                    va.len() == a.fields@.len(),
                    forall|k: int|
                        0 <= k < va.len() ==> #[trigger] va[k] == a.fields@[k].model(),
                    forall|k: int| 0 <= k < n ==> #[trigger] vb[k] == b.fields@[k].model(),
                    mismatch(src@, dst@) == fields_mismatch(va, vb, j as int),
                decreases n - j,
            {
                let bf = &b.fields[j];
                assert(vb[j as int] == bf.model());
                match find_field(&a.fields, &bf.name) {
                    None => {
                        let head = join("missing compound field '", bf.name.as_str());
                        return Err(Error::from_text(join(head.as_str(), "'")));
                    },
                    Some(k) => {
                        proof {
                            lemma_field_smaller(*src, *a, k as int);
                            assert(va[k as int] == a.fields@[k as int].model());
                        }
                        check_compatible(&a.fields[k].ty, &bf.ty)?;
                    },
                }
                j += 1;
            }
            Ok(())
        },
        (TypeDescriptor::Enum(a), TypeDescriptor::Enum(b)) => {
            if a.size == b.size && a.signed == b.signed {
                Ok(())
            } else {
                Err(refusal(src, dst))
            }
        },
        (TypeDescriptor::Boolean, TypeDescriptor::Boolean) => Ok(()),
        (TypeDescriptor::Enum(e), TypeDescriptor::Boolean) => {
            if e.size == IntSize::U1 {
                Ok(())
            } else {
                Err(refusal(src, dst))
            }
        },
        (TypeDescriptor::Boolean, TypeDescriptor::Enum(e)) => {
            if e.size == IntSize::U1 {
                Ok(())
            } else {
                Err(refusal(src, dst))
            }
        },
        _ => {
            let (sv, sf) = text_type(src);
            let (dv, df) = text_type(dst);
            if (sv || sf) && (dv || df) {
                Ok(())
            } else {
                Err(refusal(src, dst))
            }
        },
    }
}

/// The sum of the file sizes of fields.
pub open spec fn total_size(fields: Seq<FieldView>) -> nat
    decreases fields.len(),
{
    if fields.len() == 0 {
        0
    } else {
        total_size(fields.drop_last()) + fields.last().ty.disk_size()
    }
}

/// Fields one behind the other.
pub open spec fn packed_fields(fields: Seq<FieldView>) -> Seq<FieldView> {
    Seq::new(
        fields.len(),
        |i: int| FieldView { offset: total_size(fields.take(i)), ..fields[i] },
    )
}

/// The type that elements of a memory type are stored as. The fields of compounds
/// stand in the order of their indices; where one has a variable-length component,
/// they are packed, since it has another size in a file.
pub open spec fn disk_repr(t: TypeView) -> TypeView
    decreases t, 0nat,
{
    match t {
        TypeView::Compound { fields, size } => {
            let stored = disk_fields(
                fields,
                crate::format::datatype::index_order(fields, fields.len()),
            );
            if t.has_vlen() {
                TypeView::Compound { fields: packed_fields(stored), size: total_size(stored) }
            } else {
                TypeView::Compound { fields: stored, size }
            }
        },
        TypeView::FixedArray(base, n) => TypeView::FixedArray(Box::new(disk_repr(*base)), n),
        TypeView::VarLenArray(base) => TypeView::VarLenArray(Box::new(disk_repr(*base))),
        _ => t,
    }
}

/// The fields at some positions with their types as stored.
pub open spec fn disk_fields(fields: Seq<FieldView>, order: Seq<int>) -> Seq<FieldView>
    decreases fields, order.len(),
{
    if order.len() == 0 || order.last() < 0 || order.last() >= fields.len() {
        Seq::empty()
    } else {
        let f = fields[order.last()];
        disk_fields(fields, order.drop_last()).push(FieldView { ty: disk_repr(f.ty), ..f })
    }
}

proof fn lemma_total_size(fields: Seq<FieldView>, k: int)
    requires
        0 <= k <= fields.len(),
    ensures
        total_size(fields.take(k)) <= total_size(fields),
    decreases fields.len() - k,
{
    if k == fields.len() {
        assert(fields.take(k) =~= fields);
    } else {
        lemma_total_size(fields, k + 1);
        assert(fields.take(k + 1).drop_last() =~= fields.take(k));
    }
}

/// The types of `fields` are `sized`, and so are they with other offsets.
proof fn lemma_sized_repacked(a: Seq<FieldView>, b: Seq<FieldView>)
    requires
        a.len() == b.len(),
        forall|i: int| 0 <= i < a.len() ==> (#[trigger] a[i]).ty == b[i].ty,
    ensures
        crate::types::fields_sized(a) == crate::types::fields_sized(b),
    decreases a.len(),
{
    if a.len() > 0 {
        assert forall|i: int| 0 <= i < a.drop_last().len() implies (#[trigger] a.drop_last()[i]).ty
            == b.drop_last()[i].ty by {
            assert(a[i].ty == b[i].ty);
        }
        lemma_sized_repacked(a.drop_last(), b.drop_last());
        assert(a[a.len() - 1].ty == b[b.len() - 1].ty);
    }
}

proof fn lemma_all_sized(fields: Seq<FieldView>)
    requires
        forall|i: int| 0 <= i < fields.len() ==> (#[trigger] fields[i]).ty.sized(),
    ensures
        crate::types::fields_sized(fields),
    decreases fields.len(),
{
    if fields.len() > 0 {
        let init = fields.drop_last();
        assert forall|i: int| 0 <= i < init.len() implies (#[trigger] init[i]).ty.sized() by {
            assert(init[i] == fields[i]);
        }
        lemma_all_sized(init);
        assert(fields[fields.len() - 1].ty.sized());
    }
}

/// The fields of a compound as stored, in the order of their indices, if all have sizes.
fn stored_fields(desc: &TypeDescriptor, c: &CompoundType) -> (r: Option<Vec<CompoundField>>)
    requires
        *desc == TypeDescriptor::Compound(*c),
    ensures
        ({
            let whole = disk_fields(
                field_views(c.fields@),
                crate::format::datatype::index_order(field_views(c.fields@), c.fields@.len()),
            );
            match r {
                Some(v) => crate::types::fields_sized(whole) && field_views(v@) == whole,
                None => !crate::types::fields_sized(whole),
            }
        }),
    decreases desc, 0nat,
{
    let ghost views = field_views(c.fields@);
    proof {
        lemma_field_views(c.fields@);
    }
    let n: usize = c.fields.len();
    let order = order_by_index(&c.fields);
    let ghost ints = order@.map_values(|x: usize| x as int);
    let ghost whole = disk_fields(views, ints);
    proof {
        lemma_disk_fields_len(views, ints);
    }
    let mut out: Vec<CompoundField> = Vec::new();
    let mut i: usize = 0;
    assert(ints.take(0) =~= Seq::empty());
    while i < n
        invariant
            i <= n == c.fields@.len() == views.len() == ints.len(),
            *desc == TypeDescriptor::Compound(*c),
            views == field_views(c.fields@),
            forall|k: int| 0 <= k < n ==> #[trigger] views[k] == c.fields@[k].model(),
            ints == order@.map_values(|x: usize| x as int),
            ints == crate::format::datatype::index_order(views, c.fields@.len()),
            crate::format::datatype::positions(ints, n as int),
            whole == disk_fields(views, ints),
            whole.len() == n,
            forall|k: int|
                0 <= k < n ==> #[trigger] whole[k] == (FieldView {
                    ty: disk_repr(views[ints[k]].ty),
                    ..views[ints[k]]
                }),
            forall|k: int| 0 <= k < i ==> (#[trigger] whole[k]).ty.sized(),
            out@.len() == i,
            field_views(out@) == whole.take(i as int),
        decreases n - i,
    {
        assert(ints[i as int] == order@[i as int]);
        let k: usize = order[i];
        let f = &c.fields[k];
        proof {
            assert(views[k as int] == f.model());
            lemma_field_smaller(*desc, *c, k as int);
            if crate::types::fields_sized(whole) {
                lemma_fields_sized(whole, i as int);
            }
        }
        let ghost before = out@;
        let ty = match disk_form(&f.ty) {
            Some(t) => t,
            None => {
                return None;
            },
        };
        let field = CompoundField { name: f.name.clone(), ty, offset: f.offset, index: f.index };
        out.push(field);
        i += 1;
        proof {
            lemma_field_views_push(before, field);
            assert(field.model() == whole[i - 1]);
            assert(field_views(out@) =~= whole.take(i as int));
        }
    }
    proof {
        assert(whole.take(n as int) =~= whole);
        lemma_all_sized(whole);
    }
    Some(out)
}

proof fn lemma_disk_fields_len(fields: Seq<FieldView>, order: Seq<int>)
    requires
        crate::format::datatype::positions(order, fields.len() as int),
    ensures
        disk_fields(fields, order).len() == order.len(),
        forall|k: int|
            0 <= k < order.len() ==> #[trigger] disk_fields(fields, order)[k] == (FieldView {
                ty: disk_repr(fields[order[k]].ty),
                ..fields[order[k]]
            }),
    decreases order.len(),
{
    if order.len() > 0 {
        let init = order.drop_last();
        assert forall|i: int| 0 <= i < init.len() implies 0 <= #[trigger] init[i] < fields.len() by {
            assert(init[i] == order[i]);
        }
        lemma_disk_fields_len(fields, init);
        assert(order[order.len() - 1] == order.last());
        assert forall|k: int| 0 <= k < order.len() implies #[trigger] disk_fields(fields, order)[k]
            == (FieldView { ty: disk_repr(fields[order[k]].ty), ..fields[order[k]] }) by {
            if k < init.len() {
                assert(disk_fields(fields, order)[k] == disk_fields(fields, init)[k]);
                assert(init[k] == order[k]);
            }
        }
    }
}

/// Moves fields one behind the other, if their total size is in range.
fn pack(fields: Vec<CompoundField>) -> (r: Option<(Vec<CompoundField>, usize)>)
    requires
        crate::types::fields_sized(field_views(fields@)),
    ensures
        match r {
            Some((v, size)) => field_views(v@) == packed_fields(field_views(fields@)) && size
                == total_size(field_views(fields@)),
            None => total_size(field_views(fields@)) > usize::MAX,
        },
{
    let ghost views = field_views(fields@);
    proof {
        lemma_field_views(fields@);
    }
    let n: usize = fields.len();
    let mut out: Vec<CompoundField> = Vec::new();
    let mut offset: usize = 0;
    let mut i: usize = 0;
    assert(views.take(0) =~= Seq::empty());
    assert(packed_fields(views).take(0) =~= Seq::empty());
    while i < n
        invariant
            i <= n == fields@.len() == views.len(),
            views == field_views(fields@),
            forall|k: int| 0 <= k < n ==> #[trigger] views[k] == fields@[k].model(),
            crate::types::fields_sized(views),
            offset == total_size(views.take(i as int)),
            field_views(out@) == packed_fields(views).take(i as int),
        decreases n - i,
    {
        let f = &fields[i];
        proof {
            assert(views[i as int] == f.model());
            lemma_fields_sized(views, i as int);
            lemma_total_size(views, i + 1);
            assert(views.take(i + 1).drop_last() =~= views.take(i as int));
        }
        let ghost before = out@;
        let field = CompoundField {
            name: f.name.clone(),
            ty: f.ty.duplicate(),
            offset,
            index: f.index,
        };
        offset = match offset.checked_add(disk_size(&f.ty)) {
            Some(x) => x,
            None => {
                return None;
            },
        };
        out.push(field);
        i += 1;
        proof {
            lemma_field_views_push(before, field);
            assert(field.model() == packed_fields(views)[i - 1]);
            assert(field_views(out@) =~= packed_fields(views).take(i as int));
        }
    }
    assert(views.take(n as int) =~= views);
    assert(packed_fields(views).take(n as int) =~= packed_fields(views));
    Some((out, offset))
}

/// The type that elements of a memory type are stored as, if it has a size.
pub fn disk_form(desc: &TypeDescriptor) -> (r: Option<TypeDescriptor>)
    ensures
        match r {
            Some(t) => t@ == disk_repr(desc@) && disk_repr(desc@).sized(),
            None => !disk_repr(desc@).sized(),
        },
    decreases desc, 1nat,
{
    let made = match desc {
        TypeDescriptor::Compound(c) => {
            let ghost views = field_views(c.fields@);
            let ghost stored = disk_fields(
                views,
                crate::format::datatype::index_order(views, c.fields@.len()),
            );
            proof {
                lemma_field_views(c.fields@);
                if desc@.has_vlen() {
                    lemma_sized_repacked(packed_fields(stored), stored);
                }
            }
            let fields = match stored_fields(desc, c) {
                Some(v) => v,
                None => {
                    return None;
                },
            };
            if has_vlen(desc) {
                match pack(fields) {
                    Some((packed, size)) => TypeDescriptor::Compound(
                        CompoundType { fields: packed, size },
                    ),
                    None => {
                        return None;
                    },
                }
            } else {
                TypeDescriptor::Compound(CompoundType { fields, size: c.size })
            }
        },
        TypeDescriptor::FixedArray(base, n) => match disk_form(base) {
            Some(b) => TypeDescriptor::FixedArray(Box::new(b), *n),
            None => {
                return None;
            },
        },
        TypeDescriptor::VarLenArray(base) => match disk_form(base) {
            Some(b) => TypeDescriptor::VarLenArray(Box::new(b)),
            None => {
                return None;
            },
        },
        _ => desc.duplicate(),
    };
    if made.is_sized() {
        Some(made)
    } else {
        None
    }
}

/// The type that elements of a memory type are stored as.
pub fn to_disk_repr(desc: &TypeDescriptor) -> (r: TypeDescriptor)
    requires
        disk_repr(desc@).sized(),
    ensures
        r@ == disk_repr(desc@),
{
    match disk_form(desc) {
        Some(t) => t,
        None => desc.duplicate(),
    }
}

/// A floating-point conversion that is still to be made: the number in `bits` goes to
/// place `offset` of block `block`, block 0 being the elements themselves.
#[derive(Clone, Copy, Debug, PartialEq, Eq, Structural)]
pub struct FloatJob {
    pub block: usize,
    pub offset: usize,
    pub from: NumericType,
    pub to: NumericType,
    pub bits: u64,
}

/// What a conversion puts beside the elements: payload blocks, and conversions of
/// floating-point numbers.
#[derive(Debug)]
pub struct Sink {
    pub blocks: VlenStore,
    pub floats: Vec<FloatJob>,
}

/// The view of a [`Sink`].
#[verifier::ext_equal]
pub struct SinkView {
    pub blocks: Seq<Seq<u8>>,
    pub floats: Seq<FloatJob>,
}

impl View for Sink {
    type V = SinkView;

    open spec fn view(&self) -> SinkView {
        SinkView { blocks: payloads(self.blocks@), floats: self.floats@ }
    }
}

/// Which way elements are converted.
#[derive(Clone, Copy, Debug, PartialEq, Eq, Structural)]
pub enum Direction {
    /// From file layout to memory layout.
    ToMemory,
    /// From memory layout to file layout.
    ToFile,
}

impl Direction {
    /// Bytes of an element that is read.
    pub open spec fn source_size(self, t: TypeView) -> nat {
        match self {
            Direction::ToMemory => t.disk_size(),
            Direction::ToFile => t.size(),
        }
    }

    /// Bytes of an element that is written.
    pub open spec fn target_size(self, t: TypeView) -> nat {
        match self {
            Direction::ToMemory => t.size(),
            Direction::ToFile => t.disk_size(),
        }
    }
}

/// The payload of a number; none is empty.
pub open spec fn payload(store: Seq<Seq<u8>>, idx: nat) -> Seq<u8> {
    if 1 <= idx <= store.len() {
        store[idx - 1]
    } else {
        Seq::empty()
    }
}

/// The first `n` bytes, as far as there are so many.
pub open spec fn at_most(s: Seq<u8>, n: int) -> Seq<u8> {
    if n < s.len() {
        s.take(n)
    } else {
        s
    }
}

/// The text that a slot refers to. In memory it ends before a zero byte.
pub open spec fn text_in(dir: Direction, s: Seq<u8>, store: Seq<Seq<u8>>) -> Seq<u8> {
    match dir {
        Direction::ToMemory => at_most(payload(store, le_at(s, 4, 4)), le_at(s, 0, 4) as int),
        Direction::ToFile => {
            let b = payload(store, le_at(s, 0, 8));
            match nul_at(b, 0) {
                Some(k) => b.take(k),
                None => b,
            }
        },
    }
}

/// A slot for a text, and the sink with the text. An empty text takes no block in a
/// file.
pub open spec fn text_out(dir: Direction, text: Seq<u8>, st: SinkView) -> (Seq<u8>, SinkView) {
    let id = st.blocks.len() + 1;
    let more = SinkView { blocks: st.blocks.push(text), floats: st.floats };
    match dir {
        Direction::ToMemory => (le_bytes(id, 8), more),
        Direction::ToFile => if text.len() == 0 {
            (slot(0, 0), st)
        } else {
            (slot(text.len(), id), more)
        },
    }
}

/// The number of elements of a sequence and their bytes.
pub open spec fn list_in(dir: Direction, s: Seq<u8>, store: Seq<Seq<u8>>) -> (nat, Seq<u8>) {
    match dir {
        Direction::ToMemory => (le_at(s, 0, 4), payload(store, le_at(s, 4, 4))),
        Direction::ToFile => (le_at(s, 0, 8), payload(store, le_at(s, 8, 8))),
    }
}

/// A slot for a sequence of `n` elements in block `id`.
pub open spec fn list_out(dir: Direction, n: nat, id: nat) -> Seq<u8> {
    match dir {
        Direction::ToMemory => le_bytes(n, 8) + le_bytes(id, 8),
        Direction::ToFile => slot(n, id),
    }
}

/// `s` in a cell of `n` bytes: cut, or filled up with zeros.
pub open spec fn fitted(s: Seq<u8>, n: nat) -> Seq<u8> {
    if s.len() >= n {
        s.take(n as int)
    } else {
        s + zeroes((n - s.len()) as nat)
    }
}

/// `s` without the zeros at its end.
pub open spec fn trimmed(s: Seq<u8>) -> Seq<u8>
    decreases s.len(),
{
    if s.len() > 0 && s.last() == 0 {
        trimmed(s.drop_last())
    } else {
        s
    }
}

/// `d` with its beginning replaced by that of `s`.
pub open spec fn overlaid(s: Seq<u8>, d: Seq<u8>) -> Seq<u8> {
    if s.len() < d.len() {
        s + d.skip(s.len() as int)
    } else {
        s.take(d.len() as int)
    }
}

/// The sink behind a call, with the element.
pub type Outcome = Result<(Seq<u8>, SinkView), Seq<char>>;

/// The conversion of the element `s` of type `src` to `dst`, in a cell that holds `d`
/// at place `offset` of block `block`.
pub open spec fn converted(
    dir: Direction,
    src: TypeView,
    dst: TypeView,
    s: Seq<u8>,
    d: Seq<u8>,
    store: Seq<Seq<u8>>,
    st: SinkView,
    block: nat,
    offset: nat,
) -> Outcome
    decreases src, 0nat, 0nat,
{
    match (src, dst) {
        (TypeView::VarLenArray(a), TypeView::VarLenArray(b)) => {
            let (n, bytes) = list_in(dir, s, store);
            if dir == Direction::ToFile && n == 0 {
                Ok((slot(0, 0), st))
            } else {
                let id = st.blocks.len() + 1;
                let more = SinkView { blocks: st.blocks.push(Seq::empty()), floats: st.floats };
                match list_converted(dir, *a, *b, bytes, n, Seq::empty(), store, more, id) {
                    Err(e) => Err(e),
                    Ok((buf, after)) => Ok(
                        (
                            list_out(dir, n, id),
                            SinkView {
                                blocks: after.blocks.update(id - 1, buf),
                                floats: after.floats,
                            },
                        ),
                    ),
                }
            }
        },
        (
            TypeView::Compound { fields: a, size: x },
            TypeView::Compound { fields: b, size: y },
        ) => fields_converted(dir, a, b, 0, s, d, store, st, block, offset),
        (TypeView::FixedArray(a, n), TypeView::FixedArray(b, m)) => array_converted(
            dir,
            *a,
            *b,
            s,
            d,
            n,
            Seq::empty(),
            store,
            st,
            block,
            offset,
        ),
        _ => scalar_converted(dir, src, dst, s, d, store, st, block, offset),
    }
}

/// The same for a type without components.
pub open spec fn scalar_converted(
    dir: Direction,
    src: TypeView,
    dst: TypeView,
    s: Seq<u8>,
    d: Seq<u8>,
    store: Seq<Seq<u8>>,
    st: SinkView,
    block: nat,
    offset: nat,
) -> Outcome {
    if is_vlen_text(src) && is_vlen_text(dst) {
        Ok(text_out(dir, text_in(dir, s, store), st))
    } else if is_fixed_text(src) && is_fixed_text(dst) {
        Ok((fitted(s, d.len()), st))
    } else if is_fixed_text(src) && is_vlen_text(dst) {
        Ok(text_out(dir, trimmed(s), st))
    } else if is_vlen_text(src) && is_fixed_text(dst) {
        Ok((fitted(text_in(dir, s, store), d.len()), st))
    } else {
        match (numeric(src), numeric(dst)) {
            (Some(a), Some(b)) => if a == b {
                Ok((overlaid(s, d), st))
            } else if a is Float || b is Float {
                Ok(
                    (
                        d,
                        SinkView {
                            blocks: st.blocks,
                            floats: st.floats.push(
                                FloatJob {
                                    block: block as usize,
                                    offset: offset as usize,
                                    from: a,
                                    to: b,
                                    bits: le(s) as u64,
                                },
                            ),
                        },
                    ),
                )
            } else {
                Ok((le_bytes(b.saturated(a.value(le(s))), b.bytes()), st))
            },
            _ => Ok((overlaid(s, d), st)),
        }
    }
}

/// The conversion of the elements of a sequence from the number `i` on.
pub open spec fn list_converted(
    dir: Direction,
    a: TypeView,
    b: TypeView,
    bytes: Seq<u8>,
    left: nat,
    acc: Seq<u8>,
    store: Seq<Seq<u8>>,
    st: SinkView,
    block: nat,
) -> Outcome
    decreases a, 1nat, left,
{
    let width = dir.source_size(a) as int;
    let cell = dir.target_size(b);
    if left == 0 {
        Ok((acc, st))
    } else if bytes.len() < width {
        Err("vlen store entry too short"@)
    } else if acc.len() + cell > usize::MAX {
        Err("out of memory"@)
    } else {
        match converted(
            dir,
            a,
            b,
            bytes.take(width),
            zeroes(cell),
            store,
            st,
            block,
            acc.len(),
        ) {
            Err(e) => Err(e),
            Ok((e, after)) => list_converted(
                dir,
                a,
                b,
                bytes.skip(width),
                (left - 1) as nat,
                acc + e,
                store,
                after,
                block,
            ),
        }
    }
}

/// The conversion of the last `left` elements of an array, behind the converted
/// `acc`.
pub open spec fn array_converted(
    dir: Direction,
    a: TypeView,
    b: TypeView,
    s: Seq<u8>,
    d: Seq<u8>,
    left: nat,
    acc: Seq<u8>,
    store: Seq<Seq<u8>>,
    st: SinkView,
    block: nat,
    offset: nat,
) -> Outcome
    decreases a, 1nat, left,
{
    let width = dir.source_size(a) as int;
    let cell = dir.target_size(b) as int;
    if left == 0 {
        Ok((acc, st))
    } else {
        match converted(
            dir,
            a,
            b,
            s.take(width),
            d.take(cell),
            store,
            st,
            block,
            offset + acc.len(),
        ) {
            Err(e) => Err(e),
            Ok((e, after)) => array_converted(
                dir,
                a,
                b,
                s.skip(width),
                d.skip(cell),
                (left - 1) as nat,
                acc + e,
                store,
                after,
                block,
                offset,
            ),
        }
    }
}

/// The conversion of the fields `b[j]` on of a compound.
pub open spec fn fields_converted(
    dir: Direction,
    a: Seq<FieldView>,
    b: Seq<FieldView>,
    j: int,
    s: Seq<u8>,
    d: Seq<u8>,
    store: Seq<Seq<u8>>,
    st: SinkView,
    block: nat,
    offset: nat,
) -> Outcome
    decreases a, 1nat, (b.len() - j) as nat,
{
    if j < 0 || j >= b.len() {
        Ok((d, st))
    } else {
        match field_named(a, b[j].name, 0) {
            None => Ok((d, st)),
            Some(k) => if !(0 <= k < a.len()) {
                Ok((d, st))
            } else {
                let width = dir.source_size(a[k].ty) as int;
                let cell = dir.target_size(b[j].ty) as int;
                let from = a[k].offset as int;
                let to = b[j].offset as int;
                if from + width > s.len() || to + cell > d.len() {
                    Err("compound field out of bounds"@)
                } else {
                    match converted(
                        dir,
                        a[k].ty,
                        b[j].ty,
                        s.subrange(from, from + width),
                        d.subrange(to, to + cell),
                        store,
                        st,
                        block,
                        (offset + to) as nat,
                    ) {
                        Err(e) => Err(e),
                        Ok((e, after)) => fields_converted(
                            dir,
                            a,
                            b,
                            j + 1,
                            s,
                            crate::format::patched(d, to, e),
                            store,
                            after,
                            block,
                            offset,
                        ),
                    }
                }
            },
        }
    }
}

/// Whether a conversion came out as `s` says, with the sink `after`.
pub open spec fn same_outcome(r: Result<Vec<u8>, Error>, after: SinkView, s: Outcome) -> bool {
    match (r, s) {
        (Ok(v), Ok((w, st))) => v@ == w && after == st,
        (Err(e), Err(m)) => e@ == m,
        _ => false,
    }
}

fn source_width(dir: Direction, t: &TypeDescriptor) -> (r: usize)
    requires
        t@.sized(),
    ensures
        r == dir.source_size(t@),
{
    match dir {
        Direction::ToMemory => disk_size(t),
        Direction::ToFile => t.size(),
    }
}

fn target_width(dir: Direction, t: &TypeDescriptor) -> (r: usize)
    requires
        t@.sized(),
    ensures
        r == dir.target_size(t@),
{
    match dir {
        Direction::ToMemory => t.size(),
        Direction::ToFile => disk_size(t),
    }
}

pub(crate) fn zero_bytes(n: usize) -> (r: Vec<u8>)
    ensures
        r@ == zeroes(n as nat),
{
    let r: Vec<u8> = vec![0u8; n];
    assert(r@ =~= zeroes(n as nat));
    r
}

fn payload_of(store: &[Vec<u8>], idx: u64) -> (r: Vec<u8>)
    ensures
        r@ == payload(payloads(store@), idx as nat),
{
    let n: usize = store.len();
    if idx >= 1 && idx <= n as u64 {
        let i: usize = (idx - 1) as usize;
        assert(payloads(store@)[i as int] == store@[i as int]@);
        vstd::slice::slice_to_vec(store[i].as_slice())
    } else {
        Vec::new()
    }
}

fn read_text(dir: Direction, s: &[u8], store: &[Vec<u8>]) -> (r: Vec<u8>)
    requires
        s@.len() >= 8,
    ensures
        r@ == text_in(dir, s@, payloads(store@)),
{
    match dir {
        Direction::ToMemory => {
            let (len, idx) = slot_parts(s);
            let mut b = payload_of(store, idx as u64);
            if (len as usize) < b.len() {
                b.truncate(len as usize);
            }
            b
        },
        Direction::ToFile => {
            let idx: u64 = uint_of(vstd::slice::slice_subrange(s, 0, 8));
            let mut b = payload_of(store, idx);
            let n: usize = b.len();
            let mut i: usize = 0;
            while i < n
                invariant
                    i <= n == b@.len(),
                    nul_at(b@, 0) == nul_at(b@, i as int),
                    b@ == payload(payloads(store@), idx as nat),
                    idx == le_at(s@, 0, 8),
                    dir == Direction::ToFile,
                decreases n - i,
            {
                if b[i] == 0 {
                    b.truncate(i);
                    return b;
                }
                i += 1;
            }
            b
        },
    }
}

pub(crate) proof fn lemma_payloads_push(store: Seq<Vec<u8>>, v: Vec<u8>)
    ensures
        payloads(store.push(v)) == payloads(store).push(v@),
        payloads(store).len() == store.len(),
{
    assert(payloads(store.push(v)) =~= payloads(store).push(v@));
}

fn write_text(dir: Direction, text: Vec<u8>, sink: &mut Sink) -> (r: Vec<u8>)
    ensures
        (r@, final(sink)@) == text_out(dir, text@, old(sink)@),
        r@.len() == (match dir {
            Direction::ToMemory => 8int,
            Direction::ToFile => 16,
        }),
        final(sink)@.blocks.len() >= old(sink)@.blocks.len(),
{
    let n: usize = text.len();
    let ghost bytes = text@;
    proof {
        lemma_payloads_push(sink.blocks@, text);
    }
    if dir == Direction::ToFile && n == 0 {
        return model_slot(0, 0);
    }
    sink.blocks.push(text);
    let id: usize = sink.blocks.len();
    match dir {
        Direction::ToMemory => {
            let mut r: Vec<u8> = Vec::new();
            push_le(&mut r, id as u64, 8);
            proof {
                lemma_le_bytes_len(id as nat, 8);
                assert(r@ =~= le_bytes(id as nat, 8));
            }
            r
        },
        Direction::ToFile => model_slot(n as u64, id as u64),
    }
}

/// `s` in a cell of `n` bytes.
fn fit(s: &[u8], n: usize) -> (r: Vec<u8>)
    ensures
        r@ == fitted(s@, n as nat),
        r@.len() == n,
{
    let m: usize = s.len();
    if m >= n {
        let r = vstd::slice::slice_to_vec(vstd::slice::slice_subrange(s, 0, n));
        assert(r@ =~= s@.take(n as int));
        return r;
    }
    let mut r = vstd::slice::slice_to_vec(s);
    let mut pad = zero_bytes(n - m);
    r.append(&mut pad);
    r
}

fn trim(s: &[u8]) -> (r: Vec<u8>)
    ensures
        r@ == trimmed(s@),
{
    let mut n: usize = s.len();
    assert(s@.take(n as int) =~= s@);
    while n > 0 && s[n - 1] == 0
        invariant
            n <= s@.len(),
            trimmed(s@) == trimmed(s@.take(n as int)),
        decreases n,
    {
        assert(s@.take(n as int).drop_last() =~= s@.take(n - 1));
        n -= 1;
    }
    let r = vstd::slice::slice_to_vec(vstd::slice::slice_subrange(s, 0, n));
    assert(r@ =~= s@.take(n as int));
    r
}

fn overlay(s: &[u8], d: Vec<u8>) -> (r: Vec<u8>)
    ensures
        r@ == overlaid(s@, d@),
        r@.len() == d@.len(),
{
    let (n, m): (usize, usize) = (s.len(), d.len());
    if n < m {
        let mut r = vstd::slice::slice_to_vec(s);
        let mut tail = vstd::slice::slice_to_vec(
            vstd::slice::slice_subrange(d.as_slice(), n, m),
        );
        assert(tail@ =~= d@.skip(n as int));
        r.append(&mut tail);
        r
    } else {
        let r = vstd::slice::slice_to_vec(vstd::slice::slice_subrange(s, 0, m));
        assert(r@ =~= s@.take(m as int));
        r
    }
}

/// Converts a number between two different types, or lists the conversion.
fn convert_numeric(
    a: NumericType,
    b: NumericType,
    s: &[u8],
    d: Vec<u8>,
    sink: &mut Sink,
    block: usize,
    offset: usize,
) -> (r: Vec<u8>)
    requires
        a != b,
        s@.len() == a.bytes(),
        d@.len() == b.bytes(),
    ensures
        r@.len() == d@.len(),
        final(sink)@.blocks == old(sink)@.blocks,
        if a is Float || b is Float {
            r@ == d@ && final(sink)@.floats == old(sink)@.floats.push(
                FloatJob { block, offset, from: a, to: b, bits: le(s@) as u64 },
            )
        } else {
            r@ == le_bytes(b.saturated(a.value(le(s@))), b.bytes()) && final(sink)@.floats == old(
                sink,
            )@.floats
        },
{
    let bits: u64 = uint_of(s);
    proof {
        lemma_le_bound(s@);
    }
    let v: i128 = match a {
        NumericType::Signed(w) => read_integer(true, w, bits),
        NumericType::Unsigned(w) => read_integer(false, w, bits),
        NumericType::Float(w) => {
            sink.floats.push(FloatJob { block, offset, from: a, to: b, bits });
            return d;
        },
    };
    let mut r: Vec<u8> = Vec::new();
    let (pattern, width): (u64, usize) = match b {
        NumericType::Signed(w) => (saturate(true, w, v), w.width()),
        NumericType::Unsigned(w) => (saturate(false, w, v), w.width()),
        NumericType::Float(w) => {
            sink.floats.push(FloatJob { block, offset, from: a, to: b, bits });
            return d;
        },
    };
    push_le(&mut r, pattern, width);
    proof {
        lemma_le_bytes_len(pattern as nat, width as nat);
        assert(r@ =~= le_bytes(pattern as nat, width as nat));
    }
    r
}

/// Converts an element of a type without components.
fn convert_scalar(
    dir: Direction,
    src: &TypeDescriptor,
    dst: &TypeDescriptor,
    s: &[u8],
    d: Vec<u8>,
    store: &[Vec<u8>],
    sink: &mut Sink,
    block: usize,
    offset: usize,
) -> (r: Vec<u8>)
    requires
        s@.len() == dir.source_size(src@),
        d@.len() == dir.target_size(dst@),
    ensures
        scalar_converted(
            dir,
            src@,
            dst@,
            s@,
            d@,
            payloads(store@),
            old(sink)@,
            block as nat,
            offset as nat,
        ) == Ok::<(Seq<u8>, SinkView), Seq<char>>((r@, final(sink)@)),
        r@.len() == d@.len(),
        final(sink)@.blocks.len() >= old(sink)@.blocks.len(),
{
    let (sv, sf) = text_type(src);
    let (dv, df) = text_type(dst);
    if sv && dv {
        let text = read_text(dir, s, store);
        write_text(dir, text, sink)
    } else if sf && df {
        fit(s, d.len())
    } else if sf && dv {
        let text = trim(s);
        write_text(dir, text, sink)
    } else if sv && df {
        let text = read_text(dir, s, store);
        fit(text.as_slice(), d.len())
    } else {
        match (numeric_type(src), numeric_type(dst)) {
            (Some(a), Some(b)) => {
                if a == b {
                    overlay(s, d)
                } else {
                    let r = convert_numeric(a, b, s, d, sink, block, offset);
                    proof {
                        assert(sink@ =~= SinkView {
                            blocks: old(sink)@.blocks,
                            floats: sink@.floats,
                        });
                    }
                    r
                }
            },
            _ => overlay(s, d),
        }
    }
}

/// Converts the elements of a sequence.
fn convert_list(
    dir: Direction,
    a: &TypeDescriptor,
    b: &TypeDescriptor,
    bytes: &[u8],
    n: u64,
    store: &[Vec<u8>],
    sink: &mut Sink,
    block: usize,
) -> (r: Result<Vec<u8>, Error>)
    requires
        a@.sized(),
        b@.sized(),
        mismatch(a@, b@) is None,
    ensures
        same_outcome(
            r,
            final(sink)@,
            list_converted(
                dir,
                a@,
                b@,
                bytes@,
                n as nat,
                Seq::empty(),
                payloads(store@),
                old(sink)@,
                block as nat,
            ),
        ),
        final(sink)@.blocks.len() >= old(sink)@.blocks.len(),
    decreases a, 1nat,
{
    let width: usize = source_width(dir, a);
    let cell: usize = target_width(dir, b);
    let total: usize = bytes.len();
    let ghost whole = list_converted(
        dir,
        a@,
        b@,
        bytes@,
        n as nat,
        Seq::empty(),
        payloads(store@),
        sink@,
        block as nat,
    );
    let mut out: Vec<u8> = Vec::new();
    let mut at: usize = 0;
    let mut i: u64 = 0;
    assert(bytes@.skip(0) =~= bytes@);
    while i < n
        invariant
            i <= n,
            a@.sized(),
            b@.sized(),
            mismatch(a@, b@) is None,
            width == dir.source_size(a@),
            cell == dir.target_size(b@),
            at <= total == bytes@.len(),
            whole == list_converted(
                dir,
                a@,
                b@,
                bytes@,
                n as nat,
                Seq::empty(),
                payloads(store@),
                old(sink)@,
                block as nat,
            ),
            whole == list_converted(
                dir,
                a@,
                b@,
                bytes@.skip(at as int),
                (n - i) as nat,
                out@,
                payloads(store@),
                sink@,
                block as nat,
            ),
            sink@.blocks.len() >= old(sink)@.blocks.len(),
        decreases n - i,
    {
        let ghost rest = bytes@.skip(at as int);
        if total - at < width {
            return Err(Error::new("vlen store entry too short"));
        }
        let here: usize = out.len();
        if cell > usize::MAX - here {
            return Err(Error::new("out of memory"));
        }
        let sd = vstd::slice::slice_subrange(bytes, at, at + width);
        proof {
            assert(sd@ =~= rest.take(width as int));
            assert(rest.skip(width as int) =~= bytes@.skip(at + width));
        }
        let mut e = convert_element(dir, a, b, sd, zero_bytes(cell), store, sink, block, here)?;
        out.append(&mut e);
        at = at + width;
        i += 1;
    }
    Ok(out)
}

/// Converts the elements of an array of `n`.
fn convert_array(
    dir: Direction,
    a: &TypeDescriptor,
    b: &TypeDescriptor,
    s: &[u8],
    d: Vec<u8>,
    n: usize,
    store: &[Vec<u8>],
    sink: &mut Sink,
    block: usize,
    offset: usize,
) -> (r: Result<Vec<u8>, Error>)
    requires
        a@.sized(),
        b@.sized(),
        mismatch(a@, b@) is None,
        s@.len() == dir.source_size(a@) * n,
        d@.len() == dir.target_size(b@) * n,
        offset + d@.len() <= usize::MAX,
    ensures
        same_outcome(
            r,
            final(sink)@,
            array_converted(
                dir,
                a@,
                b@,
                s@,
                d@,
                n as nat,
                Seq::empty(),
                payloads(store@),
                old(sink)@,
                block as nat,
                offset as nat,
            ),
        ),
        r matches Ok(v) ==> v@.len() == d@.len(),
        final(sink)@.blocks.len() >= old(sink)@.blocks.len(),
    decreases a, 1nat,
{
    let width: usize = source_width(dir, a);
    let cell: usize = target_width(dir, b);
    let ghost whole = array_converted(
        dir,
        a@,
        b@,
        s@,
        d@,
        n as nat,
        Seq::empty(),
        payloads(store@),
        sink@,
        block as nat,
        offset as nat,
    );
    let mut out: Vec<u8> = Vec::new();
    let (total, space): (usize, usize) = (s.len(), d.len());
    let mut at: usize = 0;
    let mut i: usize = 0;
    assert(s@.skip(0) =~= s@ && d@.skip(0) =~= d@);
    assert(width * 0 == 0 && cell * 0 == 0) by (nonlinear_arith);
    while i < n
        invariant
            i <= n,
            a@.sized(),
            b@.sized(),
            mismatch(a@, b@) is None,
            width == dir.source_size(a@),
            cell == dir.target_size(b@),
            s@.len() == total == width * n,
            d@.len() == space == cell * n,
            at == width * i,
            out@.len() == cell * i,
            offset + d@.len() <= usize::MAX,
            whole == array_converted(
                dir,
                a@,
                b@,
                s@,
                d@,
                n as nat,
                Seq::empty(),
                payloads(store@),
                old(sink)@,
                block as nat,
                offset as nat,
            ),
            whole == array_converted(
                dir,
                a@,
                b@,
                s@.skip(at as int),
                d@.skip(out@.len() as int),
                (n - i) as nat,
                out@,
                payloads(store@),
                sink@,
                block as nat,
                offset as nat,
            ),
            sink@.blocks.len() >= old(sink)@.blocks.len(),
        decreases n - i,
    {
        let here: usize = out.len();
        proof {
            assert(width * i + width <= width * n && width * (i + 1) == width * i + width)
                by (nonlinear_arith)
                requires
                    i + 1 <= n,
                    width >= 0,
            ;
            assert(cell * i + cell <= cell * n && cell * (i + 1) == cell * i + cell)
                by (nonlinear_arith)
                requires
                    i + 1 <= n,
                    cell >= 0,
            ;
        }
        let sd = vstd::slice::slice_subrange(s, at, at + width);
        let dd = vstd::slice::slice_to_vec(
            vstd::slice::slice_subrange(d.as_slice(), here, here + cell),
        );
        proof {
            assert(sd@ =~= s@.skip(at as int).take(width as int));
            assert(dd@ =~= d@.skip(here as int).take(cell as int));
            assert(s@.skip(at as int).skip(width as int) =~= s@.skip(at + width));
            assert(d@.skip(here as int).skip(cell as int) =~= d@.skip(here + cell));
        }
        let mut e = convert_element(dir, a, b, sd, dd, store, sink, block, offset + here)?;
        out.append(&mut e);
        at = at + width;
        i += 1;
    }
    Ok(out)
}

/// `d` with `e` at place `at`.
pub(crate) fn place(d: &Vec<u8>, at: usize, e: &Vec<u8>) -> (r: Vec<u8>)
    requires
        at + e@.len() <= d@.len(),
    ensures
        r@ == crate::format::patched(d@, at as int, e@),
        r@.len() == d@.len(),
{
    let n: usize = d.len();
    let m: usize = e.len();
    let mut r = vstd::slice::slice_to_vec(vstd::slice::slice_subrange(d.as_slice(), 0, at));
    let mut mid = vstd::slice::slice_to_vec(e.as_slice());
    let mut tail = vstd::slice::slice_to_vec(
        vstd::slice::slice_subrange(d.as_slice(), at + m, n),
    );
    r.append(&mut mid);
    r.append(&mut tail);
    r
}

/// Converts the fields of a compound.
fn convert_fields(
    dir: Direction,
    a: &Vec<CompoundField>,
    b: &Vec<CompoundField>,
    s: &[u8],
    d: Vec<u8>,
    store: &[Vec<u8>],
    sink: &mut Sink,
    block: usize,
    offset: usize,
) -> (r: Result<Vec<u8>, Error>)
    requires
        crate::types::fields_sized(field_views(a@)),
        crate::types::fields_sized(field_views(b@)),
        fields_mismatch(field_views(a@), field_views(b@), 0) is None,
        offset + d@.len() <= usize::MAX,
    ensures
        same_outcome(
            r,
            final(sink)@,
            fields_converted(
                dir,
                field_views(a@),
                field_views(b@),
                0,
                s@,
                d@,
                payloads(store@),
                old(sink)@,
                block as nat,
                offset as nat,
            ),
        ),
        r matches Ok(v) ==> v@.len() == d@.len(),
        final(sink)@.blocks.len() >= old(sink)@.blocks.len(),
    decreases a@, 1nat,
{
    let ghost (va, vb) = (field_views(a@), field_views(b@));
    proof {
        lemma_field_views(a@);
        lemma_field_views(b@);
    }
    let ghost whole = fields_converted(
        dir,
        va,
        vb,
        0,
        s@,
        d@,
        payloads(store@),
        sink@,
        block as nat,
        offset as nat,
    );
    let n: usize = b.len();
    let (total, space): (usize, usize) = (s.len(), d.len());
    let mut cur: Vec<u8> = d;
    let mut j: usize = 0;
    while j < n
        invariant
            j <= n == b@.len() == vb.len(),
            va == field_views(a@),
            vb == field_views(b@),
            va.len() == a@.len(),
            forall|k: int| 0 <= k < va.len() ==> #[trigger] va[k] == a@[k].model(),
            forall|k: int| 0 <= k < n ==> #[trigger] vb[k] == b@[k].model(),
            crate::types::fields_sized(va),
            crate::types::fields_sized(vb),
            fields_mismatch(va, vb, j as int) is None,
            cur@.len() == space == d@.len(),
            total == s@.len(),
            offset + space <= usize::MAX,
            whole == fields_converted(
                dir,
                va,
                vb,
                0,
                s@,
                d@,
                payloads(store@),
                old(sink)@,
                block as nat,
                offset as nat,
            ),
            whole == fields_converted(
                dir,
                va,
                vb,
                j as int,
                s@,
                cur@,
                payloads(store@),
                sink@,
                block as nat,
                offset as nat,
            ),
            sink@.blocks.len() >= old(sink)@.blocks.len(),
        decreases n - j,
    {
        let bf = &b[j];
        assert(vb[j as int] == bf.model());
        match find_field(a, &bf.name) {
            None => {
                return Ok(cur);
            },
            Some(k) => {
                let af = &a[k];
                proof {
                    assert(va[k as int] == af.model());
                    lemma_fields_sized(va, k as int);
                    lemma_fields_sized(vb, j as int);
                    assert(decreases_to!(a@ => a@[k as int]));
                    assert(decreases_to!(a@[k as int] => a@[k as int].ty));
                }
                let width: usize = source_width(dir, &af.ty);
                let cell: usize = target_width(dir, &bf.ty);
                if af.offset > total || width > total - af.offset || bf.offset > space || cell
                    > space - bf.offset {
                    return Err(Error::new("compound field out of bounds"));
                }
                let sd = vstd::slice::slice_subrange(s, af.offset, af.offset + width);
                let dd = vstd::slice::slice_to_vec(
                    vstd::slice::slice_subrange(cur.as_slice(), bf.offset, bf.offset + cell),
                );
                let e = convert_element(
                    dir,
                    &af.ty,
                    &bf.ty,
                    sd,
                    dd,
                    store,
                    sink,
                    block,
                    offset + bf.offset,
                )?;
                cur = place(&cur, bf.offset, &e);
            },
        }
        j += 1;
    }
    Ok(cur)
}

/// Converts an element.
fn convert_element(
    dir: Direction,
    src: &TypeDescriptor,
    dst: &TypeDescriptor,
    s: &[u8],
    d: Vec<u8>,
    store: &[Vec<u8>],
    sink: &mut Sink,
    block: usize,
    offset: usize,
) -> (r: Result<Vec<u8>, Error>)
    requires
        src@.sized(),
        dst@.sized(),
        mismatch(src@, dst@) is None,
        s@.len() == dir.source_size(src@),
        d@.len() == dir.target_size(dst@),
        offset + d@.len() <= usize::MAX,
    ensures
        same_outcome(
            r,
            final(sink)@,
            converted(
                dir,
                src@,
                dst@,
                s@,
                d@,
                payloads(store@),
                old(sink)@,
                block as nat,
                offset as nat,
            ),
        ),
        r matches Ok(v) ==> v@.len() == d@.len(),
        final(sink)@.blocks.len() >= old(sink)@.blocks.len(),
    decreases src, 0nat,
{
    match (src, dst) {
        (TypeDescriptor::VarLenArray(a), TypeDescriptor::VarLenArray(b)) => {
            let (n, idx): (u64, u64) = match dir {
                Direction::ToMemory => {
                    let (len, at) = slot_parts(s);
                    (len as u64, at as u64)
                },
                Direction::ToFile => (
                    uint_of(vstd::slice::slice_subrange(s, 0, 8)),
                    uint_of(vstd::slice::slice_subrange(s, 8, 16)),
                ),
            };
            if dir == Direction::ToFile && n == 0 {
                return Ok(model_slot(0, 0));
            }
            let bytes = payload_of(store, idx);
            let empty: Vec<u8> = Vec::new();
            proof {
                lemma_payloads_push(sink.blocks@, empty);
            }
            sink.blocks.push(empty);
            let id: usize = sink.blocks.len();
            assert(sink@ =~= SinkView {
                blocks: old(sink)@.blocks.push(Seq::empty()),
                floats: old(sink)@.floats,
            });
            let buf = convert_list(dir, a, b, bytes.as_slice(), n, store, sink, id)?;
            let ghost after = sink@;
            sink.blocks.set(id - 1, buf);
            proof {
                assert(sink@ =~= SinkView {
                    blocks: after.blocks.update(id - 1, buf@),
                    floats: after.floats,
                });
            }
            let mut r: Vec<u8> = Vec::new();
            match dir {
                Direction::ToMemory => {
                    push_le(&mut r, n, 8);
                    push_le(&mut r, id as u64, 8);
                    proof {
                        lemma_le_bytes_len(n as nat, 8);
                        lemma_le_bytes_len(id as nat, 8);
                        assert(r@ =~= list_out(dir, n as nat, id as nat));
                    }
                },
                Direction::ToFile => {
                    r = model_slot(n, id as u64);
                },
            }
            Ok(r)
        },
        (TypeDescriptor::Compound(a), TypeDescriptor::Compound(b)) => {
            assert(decreases_to!(src => a.fields@)) by {
                assert(decreases_to!(a.fields => a.fields@));
                assert(decreases_to!(*a => a.fields));
                assert(decreases_to!(*src => src->Compound_0));
            }
            convert_fields(dir, &a.fields, &b.fields, s, d, store, sink, block, offset)
        },
        (TypeDescriptor::FixedArray(a, n), TypeDescriptor::FixedArray(b, m)) => {
            convert_array(dir, a, b, s, d, *n, store, sink, block, offset)
        },
        _ => Ok(convert_scalar(dir, src, dst, s, d, store, sink, block, offset)),
    }
}

/// Elements in another layout, with what belongs to them.
#[derive(Debug)]
pub struct Converted {
    pub bytes: Vec<u8>,
    pub sink: Sink,
}

/// The conversion of the last `left` elements, behind the converted `acc`.
pub open spec fn elements_converted(
    dir: Direction,
    src: TypeView,
    dst: TypeView,
    data: Seq<u8>,
    left: nat,
    acc: Seq<u8>,
    store: Seq<Seq<u8>>,
    st: SinkView,
) -> Outcome
    decreases left,
{
    let width = dir.source_size(src) as int;
    let cell = dir.target_size(dst);
    if left == 0 {
        Ok((acc, st))
    } else if data.len() < width {
        Err("source data too short"@)
    } else if acc.len() + cell > usize::MAX {
        Err("out of memory"@)
    } else {
        match converted(
            dir,
            src,
            dst,
            data.take(width),
            zeroes(cell),
            store,
            st,
            0,
            acc.len(),
        ) {
            Err(e) => Err(e),
            Ok((e, after)) => elements_converted(
                dir,
                src,
                dst,
                data.skip(width),
                (left - 1) as nat,
                acc + e,
                store,
                after,
            ),
        }
    }
}

/// The conversion of `n` elements, where the types allow it.
pub open spec fn all_converted(
    dir: Direction,
    src: TypeView,
    dst: TypeView,
    data: Seq<u8>,
    n: nat,
    store: Seq<Seq<u8>>,
    st: SinkView,
) -> Outcome {
    match mismatch(src, dst) {
        Some(e) => Err(e),
        None => elements_converted(dir, src, dst, data, n, Seq::empty(), store, st),
    }
}

/// Whether a conversion with its own sink came out as `s` says.
pub open spec fn same_converted(r: Result<Converted, Error>, s: Outcome) -> bool {
    match (r, s) {
        (Ok(v), Ok((w, st))) => v.bytes@ == w && v.sink@ == st,
        (Err(e), Err(m)) => e@ == m,
        _ => false,
    }
}

fn convert_all(
    dir: Direction,
    src: &TypeDescriptor,
    dst: &TypeDescriptor,
    data: &[u8],
    n: usize,
    store: &[Vec<u8>],
    start: VlenStore,
) -> (r: Result<Converted, Error>)
    requires
        src@.sized(),
        dst@.sized(),
    ensures
        same_converted(
            r,
            all_converted(
                dir,
                src@,
                dst@,
                data@,
                n as nat,
                payloads(store@),
                SinkView { blocks: payloads(start@), floats: Seq::empty() },
            ),
        ),
{
    let ghost st = SinkView { blocks: payloads(start@), floats: Seq::<FloatJob>::empty() };
    check_compatible(src, dst)?;
    let ghost whole = elements_converted(
        dir,
        src@,
        dst@,
        data@,
        n as nat,
        Seq::empty(),
        payloads(store@),
        st,
    );
    let mut sink = Sink { blocks: start, floats: Vec::new() };
    assert(sink@ =~= st);
    let width: usize = source_width(dir, src);
    let cell: usize = target_width(dir, dst);
    let total: usize = data.len();
    let mut out: Vec<u8> = Vec::new();
    let mut at: usize = 0;
    let mut i: usize = 0;
    assert(data@.skip(0) =~= data@);
    while i < n
        invariant
            i <= n,
            src@.sized(),
            dst@.sized(),
            mismatch(src@, dst@) is None,
            width == dir.source_size(src@),
            cell == dir.target_size(dst@),
            at <= total == data@.len(),
            st == (SinkView { blocks: payloads(start@), floats: Seq::<FloatJob>::empty() }),
            whole == elements_converted(
                dir,
                src@,
                dst@,
                data@,
                n as nat,
                Seq::empty(),
                payloads(store@),
                st,
            ),
            whole == elements_converted(
                dir,
                src@,
                dst@,
                data@.skip(at as int),
                (n - i) as nat,
                out@,
                payloads(store@),
                sink@,
            ),
        decreases n - i,
    {
        let ghost rest = data@.skip(at as int);
        if total - at < width {
            return Err(Error::new("source data too short"));
        }
        let here: usize = out.len();
        if cell > usize::MAX - here {
            return Err(Error::new("out of memory"));
        }
        let sd = vstd::slice::slice_subrange(data, at, at + width);
        proof {
            assert(sd@ =~= rest.take(width as int));
            assert(rest.skip(width as int) =~= data@.skip(at + width));
        }
        let mut e = convert_element(
            dir,
            src,
            dst,
            sd,
            zero_bytes(cell),
            store,
            &mut sink,
            0,
            here,
        )?;
        out.append(&mut e);
        at = at + width;
        i += 1;
    }
    Ok(Converted { bytes: out, sink })
}

/// Converts `n` elements from file layout to memory layout. The payloads of
/// variable-length components come as blocks of their own.
pub fn model_to_mem(
    src: &TypeDescriptor,
    dst: &TypeDescriptor,
    data: &[u8],
    store: &VlenStore,
    n: usize,
) -> (r: Result<Converted, Error>)
    requires
        src@.sized(),
        dst@.sized(),
    ensures
        same_converted(
            r,
            all_converted(
                Direction::ToMemory,
                src@,
                dst@,
                data@,
                n as nat,
                payloads(store@),
                SinkView { blocks: Seq::empty(), floats: Seq::empty() },
            ),
        ),
{
    let start: VlenStore = Vec::new();
    assert(payloads(start@) =~= Seq::empty());
    convert_all(Direction::ToMemory, src, dst, data, n, store.as_slice(), start)
}

/// Converts `n` elements from memory layout, whose pointers are the numbers of
/// `blocks`, to file layout. Payloads are appended to `store`.
pub fn mem_to_model(
    src: &TypeDescriptor,
    dst: &TypeDescriptor,
    data: &[u8],
    blocks: &VlenStore,
    store: VlenStore,
    n: usize,
) -> (r: Result<Converted, Error>)
    requires
        src@.sized(),
        dst@.sized(),
    ensures
        same_converted(
            r,
            all_converted(
                Direction::ToFile,
                src@,
                dst@,
                data@,
                n as nat,
                payloads(blocks@),
                SinkView { blocks: payloads(store@), floats: Seq::empty() },
            ),
        ),
{
    convert_all(Direction::ToFile, src, dst, data, n, blocks.as_slice(), store)
}

/// A text that went to a file reads back as it was.
pub proof fn law_text_from_file(text: Seq<u8>, st: SinkView)
    requires
        text.len() < 0x1_0000_0000,
        st.blocks.len() + 1 < 0x1_0000_0000,
    ensures
        ({
            let (cell, after) = text_out(Direction::ToFile, text, st);
            text_in(Direction::ToMemory, cell, after.blocks) == text
        }),
{
    let id = st.blocks.len() + 1;
    law_slot_parts(text.len(), id);
    law_slot_parts(0, 0);
    let (cell, after) = text_out(Direction::ToFile, text, st);
    assert(text_in(Direction::ToMemory, cell, after.blocks) =~= text);
}

/// A text without zero bytes that went to memory reads back as it was.
pub proof fn law_text_from_memory(text: Seq<u8>, st: SinkView)
    requires
        forall|i: int| 0 <= i < text.len() ==> #[trigger] text[i] != 0,
        st.blocks.len() + 1 < 0x1_0000_0000_0000_0000,
    ensures
        ({
            let (cell, after) = text_out(Direction::ToMemory, text, st);
            text_in(Direction::ToFile, cell, after.blocks) == text
        }),
{
    let id = st.blocks.len() + 1;
    lemma_pow256();
    law_le_round_trip(id, 8);
    let (cell, after) = text_out(Direction::ToMemory, text, st);
    assert(cell.subrange(0, 8) =~= cell);
    lemma_no_nul(text, 0);
}

proof fn lemma_no_nul(s: Seq<u8>, from: int)
    requires
        0 <= from,
        forall|i: int| 0 <= i < s.len() ==> #[trigger] s[i] != 0,
    ensures
        nul_at(s, from) is None,
    decreases s.len() - from,
{
    if from < s.len() {
        lemma_no_nul(s, from + 1);
    }
}

/// Whether elements have neither fields nor variable-length components.
pub open spec fn flat(t: TypeView) -> bool
    decreases t,
{
    match t {
        TypeView::FixedArray(base, n) => flat(*base),
        TypeView::Compound { fields, size } => false,
        TypeView::VarLenArray(base) => false,
        TypeView::VarLenAscii => false,
        TypeView::VarLenUnicode => false,
        _ => true,
    }
}

/// Converting flat elements to their own type keeps their bytes.
pub proof fn law_same_type_keeps_bytes(
    dir: Direction,
    t: TypeView,
    s: Seq<u8>,
    d: Seq<u8>,
    store: Seq<Seq<u8>>,
    st: SinkView,
    block: nat,
    offset: nat,
)
    requires
        flat(t),
        s.len() == t.size(),
        d.len() == t.size(),
    ensures
        t.disk_size() == t.size(),
        mismatch(t, t) is None,
        converted(dir, t, t, s, d, store, st, block, offset) == Ok::<
            (Seq<u8>, SinkView),
            Seq<char>,
        >((s, st)),
    decreases t, 0nat, 0nat,
{
    match t {
        TypeView::FixedArray(base, n) => {
            lemma_flat_sizes(*base);
            lemma_array_kept(dir, *base, s, d, n, Seq::empty(), store, st, block, offset);
            assert(Seq::<u8>::empty() + s =~= s);
        },
        _ => {
            assert(overlaid(s, d) =~= s);
            assert(fitted(s, d.len()) =~= s);
        },
    }
}

proof fn lemma_flat_sizes(t: TypeView)
    requires
        flat(t),
    ensures
        t.disk_size() == t.size(),
        mismatch(t, t) is None,
    decreases t,
{
    if let TypeView::FixedArray(base, n) = t {
        lemma_flat_sizes(*base);
    }
}

proof fn lemma_array_kept(
    dir: Direction,
    base: TypeView,
    s: Seq<u8>,
    d: Seq<u8>,
    left: nat,
    acc: Seq<u8>,
    store: Seq<Seq<u8>>,
    st: SinkView,
    block: nat,
    offset: nat,
)
    requires
        flat(base),
        s.len() == base.size() * left,
        d.len() == base.size() * left,
    ensures
        array_converted(dir, base, base, s, d, left, acc, store, st, block, offset) == Ok::<
            (Seq<u8>, SinkView),
            Seq<char>,
        >((acc + s, st)),
    decreases base, 1nat, left,
{
    let w = base.size() as int;
    lemma_flat_sizes(base);
    if left == 0 {
        assert(w * 0 == 0) by (nonlinear_arith);
        assert(acc + s =~= acc);
    } else {
        assert(w * left == w + w * (left - 1)) by (nonlinear_arith);
        assert(0 <= w * (left - 1)) by (nonlinear_arith)
            requires
                w >= 0,
                left >= 1,
        ;
        law_same_type_keeps_bytes(
            dir,
            base,
            s.take(w),
            d.take(w),
            store,
            st,
            block,
            offset + acc.len(),
        );
        lemma_array_kept(
            dir,
            base,
            s.skip(w),
            d.skip(w),
            (left - 1) as nat,
            acc + s.take(w),
            store,
            st,
            block,
            offset,
        );
        assert(acc + s.take(w) + s.skip(w) =~= acc + s);
    }
}

} // verus!
