//! Datatype messages.
//!
//! Integers, floats, strings, compounds and enumerations are written in version 1 of
//! the message, arrays in version 2. Versions 1 to 3 are read.

use vstd::prelude::*;
use vstd::utf8::encode_utf8;

use crate::error::Error;
use crate::format::convert::disk_size;
use crate::format::{
    aligned8, dropped, eof_text, le, le_bytes, push_le, taken_bytes, taken_uint, uint_of, zeroes,
    Buf, Cursor,
};
use crate::text::{decimal, from_utf8_lossy, same_text, text_of, with_number};
use crate::types::{
    field_views, lemma_field_smaller, lemma_field_views, lemma_field_views_push,
    lemma_fields_sized, member_views, CompoundField, CompoundType, EnumMember, EnumType, FieldView,
    FloatSize, IntSize, MemberView, TypeDescriptor, TypeView,
};

verus! {

/// Which components of a stored element are big-endian.
#[derive(Debug)]
pub enum OrderTree {
    /// Nothing below needs swapping.
    Plain,
    /// Swap this scalar leaf (width in bytes).
    SwapLeaf(usize),
    /// Recurse into compound fields at their offsets.
    Compound(Vec<(usize, OrderTree)>),
    /// `n` consecutive elements of `stride` bytes each.
    Array { n: usize, stride: usize, inner: Box<OrderTree> },
    /// Variable-length data: swap base elements inside the side store.
    VarLen { base_stride: usize, inner: Box<OrderTree> },
}

/// The view of an [`OrderTree`].
pub enum OrderView {
    Plain,
    SwapLeaf(nat),
    Compound(Seq<(nat, OrderView)>),
    Array { n: nat, stride: nat, inner: Box<OrderView> },
    VarLen { base_stride: nat, inner: Box<OrderView> },
}

impl OrderTree {
    /// The view.
    pub open spec fn model(self) -> OrderView
        decreases self,
    {
        match self {
            OrderTree::Plain => OrderView::Plain,
            OrderTree::SwapLeaf(n) => OrderView::SwapLeaf(n as nat),
            OrderTree::Compound(parts) => OrderView::Compound(part_views(parts@)),
            OrderTree::Array { n, stride, inner } => OrderView::Array {
                n: n as nat,
                stride: stride as nat,
                inner: Box::new(inner.model()),
            },
            OrderTree::VarLen { base_stride, inner } => OrderView::VarLen {
                base_stride: base_stride as nat,
                inner: Box::new(inner.model()),
            },
        }
    }

    /// Whether nothing needs swapping.
    pub fn is_none(&self) -> (r: bool)
        ensures
            r == (self@ is Plain),
    {
        match self {
            OrderTree::Plain => true,
            _ => false,
        }
    }

    fn from_parts(parts: Vec<(usize, OrderTree)>) -> (r: Self)
        ensures
            r@ == order_of_parts(part_views(parts@)),
    {
        let n: usize = parts.len();
        let mut i: usize = 0;
        proof {
            lemma_part_views(parts@);
        }
        while i < n
            invariant
                i <= n == parts@.len(),
                part_views(parts@).len() == n,
                forall|k: int|
                    0 <= k < n ==> (#[trigger] part_views(parts@)[k]).1 == parts@[k].1.model(),
                forall|k: int| 0 <= k < i ==> (#[trigger] part_views(parts@)[k]).1 is Plain,
            decreases n - i,
        {
            let part = &parts[i];
            if !part.1.is_none() {
                assert(!(part_views(parts@)[i as int].1 is Plain));
                return OrderTree::Compound(parts);
            }
            assert(part_views(parts@)[i as int].1 is Plain);
            i += 1;
        }
        OrderTree::Plain
    }
}

/// The views of ordered parts.
pub open spec fn part_views(parts: Seq<(usize, OrderTree)>) -> Seq<(nat, OrderView)>
    decreases parts,
{
    if parts.len() == 0 {
        Seq::empty()
    } else {
        part_views(parts.drop_last()).push((parts.last().0 as nat, parts.last().1.model()))
    }
}

pub proof fn lemma_part_views(parts: Seq<(usize, OrderTree)>)
    ensures
        part_views(parts).len() == parts.len(),
        forall|i: int|
            0 <= i < parts.len() ==> #[trigger] part_views(parts)[i] == (
                parts[i].0 as nat,
                parts[i].1.model(),
            ),
    decreases parts.len(),
{
    if parts.len() > 0 {
        lemma_part_views(parts.drop_last());
        assert forall|i: int| 0 <= i < parts.len() implies #[trigger] part_views(parts)[i] == (
            parts[i].0 as nat,
            parts[i].1.model(),
        ) by {
            if i < parts.len() - 1 {
                assert(part_views(parts)[i] == part_views(parts.drop_last())[i]);
            }
        }
    }
}

impl View for OrderTree {
    type V = OrderView;

    open spec fn view(&self) -> OrderView {
        self.model()
    }
}

/// The order of a compound with the given orders of its fields.
pub open spec fn order_of_parts(parts: Seq<(nat, OrderView)>) -> OrderView {
    if forall|i: int| 0 <= i < parts.len() ==> (#[trigger] parts[i]).1 is Plain {
        OrderView::Plain
    } else {
        OrderView::Compound(parts)
    }
}

/// A decoded type, which components are big-endian, and what follows it.
pub struct Decoded {
    pub ty: TypeView,
    pub order: OrderView,
    pub rest: Seq<u8>,
}

/// The position of the first zero byte.
pub open spec fn nul_at(s: Seq<u8>, from: int) -> Option<int>
    decreases s.len() - from,
{
    if from < 0 || from >= s.len() {
        None
    } else if s[from] == 0 {
        Some(from)
    } else {
        nul_at(s, from + 1)
    }
}

/// A name up to its zero byte, and what follows it. Before version 3 names fill
/// multiples of 8 bytes.
pub open spec fn name_taken(s: Seq<u8>, version: int) -> Result<(Seq<u8>, Seq<u8>), Seq<char>> {
    match nul_at(s, 0) {
        None => Err(eof_text()),
        Some(k) => Ok(
            (
                s.take(k),
                dropped(
                    s,
                    if version < 3 {
                        aligned8(k + 1)
                    } else {
                        k + 1
                    },
                ),
            ),
        ),
    }
}

/// `n` names.
pub open spec fn names_taken(s: Seq<u8>, version: int, n: nat, acc: Seq<Seq<char>>) -> Result<
    (Seq<Seq<char>>, Seq<u8>),
    Seq<char>,
>
    decreases n,
{
    if n == 0 {
        Ok((acc, s))
    } else {
        match name_taken(s, version) {
            Err(e) => Err(e),
            Ok((name, r)) => names_taken(r, version, (n - 1) as nat, acc.push(text_of(name))),
        }
    }
}

/// A number of `n` bytes in the given byte order.
pub open spec fn value_of(s: Seq<u8>, swapped: bool) -> nat {
    if swapped {
        le(s.reverse())
    } else {
        le(s)
    }
}

/// The values for the names from `names[i]` on.
pub open spec fn members_taken(
    s: Seq<u8>,
    size: nat,
    swapped: bool,
    names: Seq<Seq<char>>,
    acc: Seq<MemberView>,
) -> Result<(Seq<MemberView>, Seq<u8>), Seq<char>>
    decreases names.len() - acc.len(),
{
    if acc.len() >= names.len() {
        Ok((acc, s))
    } else {
        match taken_bytes(s, size) {
            Err(e) => Err(e),
            Ok((raw, r)) => members_taken(
                r,
                size,
                swapped,
                names,
                acc.push(
                    MemberView {
                        name: names[acc.len() as int],
                        value: value_of(raw, swapped) as u64,
                    },
                ),
            ),
        }
    }
}

/// Whether an enumeration is the one that booleans are stored as.
pub open spec fn is_bool(size: IntSize, members: Seq<MemberView>) -> bool {
    &&& size == IntSize::U1
    &&& members.len() == 2
    &&& exists|i: int|
        0 <= i < 2 && (#[trigger] members[i]).name == "FALSE"@ && members[i].value == 0
    &&& exists|i: int|
        0 <= i < 2 && (#[trigger] members[i]).name == "TRUE"@ && members[i].value == 1
}

/// The number of bytes that hold `n`.
pub open spec fn byte_count(n: nat) -> nat
    decreases n,
{
    if n < 256 {
        1
    } else {
        1 + byte_count(n / 256)
    }
}

/// `n` numbers of 4 bytes.
pub open spec fn dims_taken(s: Seq<u8>, n: nat, acc: Seq<nat>) -> Result<
    (Seq<nat>, Seq<u8>),
    Seq<char>,
>
    decreases n,
{
    if n == 0 {
        Ok((acc, s))
    } else {
        match taken_uint(s, 4) {
            Err(e) => Err(e),
            Ok((d, r)) => dims_taken(r, (n - 1) as nat, acc.push(d)),
        }
    }
}

/// The product of some numbers.
pub open spec fn product(v: Seq<nat>) -> nat
    decreases v.len(),
{
    if v.len() == 0 {
        1
    } else {
        product(v.drop_last()) * v.last()
    }
}

/// Arrays of arrays with the given lengths, outermost first.
pub open spec fn nested(base: TypeView, dims: Seq<nat>) -> TypeView
    decreases dims.len(),
{
    if dims.len() == 0 {
        base
    } else {
        TypeView::FixedArray(Box::new(nested(base, dims.skip(1))), dims[0])
    }
}

/// The message that starts with `s`: version and class, class bits, size, and the
/// properties of the class.
pub open spec fn decoded(s: Seq<u8>) -> Result<Decoded, Seq<char>>
    decreases s.len(), 0nat,
{
    if s.len() < 8 {
        Err(eof_text())
    } else {
        let version = s[0] as int / 16;
        let class = s[0] as int % 16;
        let bits = s[1] as int;
        let count = (s[1] + 256 * s[2]) as nat;
        let size = le(s.subrange(4, 8));
        let body = s.skip(8);
        let swap = if bits % 2 == 1 {
            OrderView::SwapLeaf(size)
        } else {
            OrderView::Plain
        };
        if class == 0 {
            if body.len() < 4 {
                Err(eof_text())
            } else {
                match IntSize::of_bytes(size as int) {
                    None => Err("invalid integer size"@),
                    Some(w) => Ok(
                        Decoded {
                            ty: if bits / 8 % 2 == 1 {
                                TypeView::Integer(w)
                            } else {
                                TypeView::Unsigned(w)
                            },
                            order: swap,
                            rest: body.skip(4),
                        },
                    ),
                }
            }
        } else if class == 1 {
            if body.len() < 12 {
                Err(eof_text())
            } else {
                match FloatSize::of_bytes(size as int) {
                    None => Err("unsupported float size"@),
                    Some(w) => Ok(
                        Decoded { ty: TypeView::Float(w), order: swap, rest: body.skip(12) },
                    ),
                }
            }
        } else if class == 3 {
            Ok(
                Decoded {
                    ty: if bits / 16 == 1 {
                        TypeView::FixedUnicode(size)
                    } else {
                        TypeView::FixedAscii(size)
                    },
                    order: OrderView::Plain,
                    rest: body,
                },
            )
        } else if class == 4 {
            if body.len() < 4 {
                Err(eof_text())
            } else {
                match IntSize::of_bytes(size as int) {
                    None => Err("invalid bitfield size"@),
                    Some(w) => Ok(
                        Decoded { ty: TypeView::Unsigned(w), order: swap, rest: body.skip(4) },
                    ),
                }
            }
        } else if class == 5 || class == 7 {
            Ok(
                Decoded {
                    ty: TypeView::FixedArray(Box::new(TypeView::Unsigned(IntSize::U1)), size),
                    order: OrderView::Plain,
                    rest: if class == 5 {
                        dropped(body, bits)
                    } else {
                        body
                    },
                },
            )
        } else if class == 6 {
            match fields_decoded(body, version, size, count, Seq::empty(), Seq::empty()) {
                Err(e) => Err(e),
                Ok((fields, orders, rest)) => Ok(
                    Decoded {
                        ty: TypeView::Compound { fields, size },
                        order: order_of_parts(orders),
                        rest,
                    },
                ),
            }
        } else if class == 8 {
            match decoded(body) {
                Err(e) => Err(e),
                Ok(base) => enum_decoded(base, version, count),
            }
        } else if class == 9 {
            match decoded(body) {
                Err(e) => Err(e),
                Ok(base) => Ok(vlen_decoded(base, bits % 16 == 1, s[2] as int % 16 == 1)),
            }
        } else if class == 10 {
            array_decoded(body, version)
        } else {
            Err("unsupported datatype class "@ + decimal(class as nat))
        }
    }
}

/// An enumeration over a decoded base type.
pub open spec fn enum_decoded(base: Decoded, version: int, count: nat) -> Result<
    Decoded,
    Seq<char>,
> {
    match base.ty {
        TypeView::Integer(w) => enum_members_decoded(base, w, true, version, count),
        TypeView::Unsigned(w) => enum_members_decoded(base, w, false, version, count),
        _ => Err("enum base must be integer"@),
    }
}

pub open spec fn enum_members_decoded(
    base: Decoded,
    w: IntSize,
    signed: bool,
    version: int,
    count: nat,
) -> Result<Decoded, Seq<char>> {
    match names_taken(base.rest, version, count, Seq::empty()) {
        Err(e) => Err(e),
        Ok((names, r)) => match members_taken(
            r,
            w.bytes(),
            !(base.order is Plain),
            names,
            Seq::empty(),
        ) {
            Err(e) => Err(e),
            Ok((members, rest)) => Ok(
                Decoded {
                    ty: if is_bool(w, members) {
                        TypeView::Boolean
                    } else {
                        TypeView::Enum { base: w, signed, members }
                    },
                    order: base.order,
                    rest,
                },
            ),
        },
    }
}

/// A variable-length type over a decoded base type.
pub open spec fn vlen_decoded(base: Decoded, text: bool, unicode: bool) -> Decoded {
    Decoded {
        ty: if text {
            if unicode {
                TypeView::VarLenUnicode
            } else {
                TypeView::VarLenAscii
            }
        } else {
            TypeView::VarLenArray(Box::new(base.ty))
        },
        order: if !text && !(base.order is Plain) {
            OrderView::VarLen { base_stride: base.ty.disk_size(), inner: Box::new(base.order) }
        } else {
            OrderView::Plain
        },
        rest: base.rest,
    }
}

/// The dimensions of an array type, and what follows them.
pub open spec fn array_dims(body: Seq<u8>, version: int) -> Result<(Seq<nat>, Seq<u8>), Seq<char>> {
    if body.len() == 0 {
        Err(eof_text())
    } else {
        let n = body[0] as nat;
        let r = dropped(
            body,
            if version == 2 {
                4
            } else {
                1
            },
        );
        match dims_taken(r, n, Seq::empty()) {
            Err(e) => Err(e),
            Ok((dims, r2)) => Ok(
                (
                    dims,
                    if version == 2 {
                        dropped(r2, 4 * n as int)
                    } else {
                        r2
                    },
                ),
            ),
        }
    }
}

/// An array over a decoded base type.
pub open spec fn array_of(base: Decoded, dims: Seq<nat>) -> Result<Decoded, Seq<char>> {
    let ty = nested(base.ty, dims);
    if !ty.sized() || product(dims) > usize::MAX {
        Err("datatype size overflow"@)
    } else {
        Ok(
            Decoded {
                ty,
                order: if base.order is Plain {
                    OrderView::Plain
                } else {
                    OrderView::Array {
                        n: product(dims),
                        stride: base.ty.disk_size(),
                        inner: Box::new(base.order),
                    }
                },
                rest: base.rest,
            },
        )
    }
}

pub open spec fn array_decoded(body: Seq<u8>, version: int) -> Result<Decoded, Seq<char>>
    decreases body.len(), 1nat,
{
    match array_dims(body, version) {
        Err(e) => Err(e),
        Ok((dims, r)) => if r.len() >= body.len() {
            Err(Seq::empty())
        } else {
            match decoded(r) {
                Err(e) => Err(e),
                Ok(base) => array_of(base, dims),
            }
        },
    }
}

/// The offset of a field, and what stands before its type.
pub open spec fn offset_taken(s: Seq<u8>, version: int, size: nat) -> Result<
    (nat, Seq<u8>),
    Seq<char>,
> {
    if version >= 3 {
        taken_uint(s, byte_count(size))
    } else {
        match taken_uint(s, 4) {
            Err(e) => Err(e),
            Ok((o, r)) => Ok(
                (
                    o,
                    if version == 1 {
                        dropped(r, 28)
                    } else {
                        r
                    },
                ),
            ),
        }
    }
}

/// The name and the offset of a field, and its type.
pub open spec fn field_head(s: Seq<u8>, version: int, size: nat) -> Result<
    (Seq<char>, nat, Seq<u8>),
    Seq<char>,
> {
    match name_taken(s, version) {
        Err(e) => Err(e),
        Ok((name, r)) => match offset_taken(r, version, size) {
            Err(e) => Err(e),
            Ok((offset, r2)) => Ok((text_of(name), offset, r2)),
        },
    }
}

/// The fields of a compound up to the number `count`, and their orders.
pub open spec fn fields_decoded(
    s: Seq<u8>,
    version: int,
    size: nat,
    count: nat,
    fields: Seq<FieldView>,
    orders: Seq<(nat, OrderView)>,
) -> Result<(Seq<FieldView>, Seq<(nat, OrderView)>, Seq<u8>), Seq<char>>
    decreases s.len(), 1nat,
{
    if fields.len() >= count {
        Ok((fields, orders, s))
    } else {
        match field_head(s, version, size) {
            Err(e) => Err(e),
            Ok((name, offset, r)) => if r.len() >= s.len() {
                Err(Seq::empty())
            } else {
                match decoded(r) {
                    Err(e) => Err(e),
                    Ok(d) => if d.rest.len() >= s.len() {
                        Err(Seq::empty())
                    } else {
                        fields_decoded(
                            d.rest,
                            version,
                            size,
                            count,
                            fields.push(
                                FieldView { name, ty: d.ty, offset, index: fields.len() },
                            ),
                            orders.push((offset, d.order)),
                        )
                    },
                }
            },
        }
    }
}

proof fn lemma_name_shorter(s: Seq<u8>, version: int)
    ensures
        name_taken(s, version) matches Ok((name, r)) ==> r.len() < s.len(),
{
    lemma_nul_at(s, 0);
}

proof fn lemma_nul_at(s: Seq<u8>, from: int)
    requires
        0 <= from,
    ensures
        nul_at(s, from) matches Some(k) ==> from <= k < s.len() && s[k] == 0 && forall|i: int|
            from <= i < k ==> s[i] != 0,
    decreases s.len() - from,
{
    if from < s.len() && s[from] != 0 {
        lemma_nul_at(s, from + 1);
    }
}

proof fn lemma_names_shorter(s: Seq<u8>, version: int, n: nat, acc: Seq<Seq<char>>)
    ensures
        names_taken(s, version, n, acc) matches Ok((names, r)) ==> r.len() <= s.len()
            && names.len() == acc.len() + n,
    decreases n,
{
    if n > 0 {
        lemma_name_shorter(s, version);
        if let Ok((name, r)) = name_taken(s, version) {
            lemma_names_shorter(r, version, (n - 1) as nat, acc.push(text_of(name)));
        }
    }
}

proof fn lemma_members_shorter(
    s: Seq<u8>,
    size: nat,
    swapped: bool,
    names: Seq<Seq<char>>,
    acc: Seq<MemberView>,
)
    ensures
        members_taken(s, size, swapped, names, acc) matches Ok((m, r)) ==> r.len() <= s.len(),
    decreases names.len() - acc.len(),
{
    if acc.len() < names.len() {
        if let Ok((raw, r)) = taken_bytes(s, size) {
            lemma_members_shorter(
                r,
                size,
                swapped,
                names,
                acc.push(
                    MemberView {
                        name: names[acc.len() as int],
                        value: value_of(raw, swapped) as u64,
                    },
                ),
            );
        }
    }
}

proof fn lemma_dims_shorter(s: Seq<u8>, n: nat, acc: Seq<nat>)
    ensures
        dims_taken(s, n, acc) matches Ok((dims, r)) ==> r.len() <= s.len() && dims.len()
            == acc.len() + n,
    decreases n,
{
    if n > 0 {
        if let Ok((d, r)) = taken_uint(s, 4) {
            lemma_dims_shorter(r, (n - 1) as nat, acc.push(d));
        }
    }
}

proof fn lemma_enum_shorter(base: Decoded, version: int, count: nat)
    ensures
        enum_decoded(base, version, count) matches Ok(d) ==> d.rest.len() <= base.rest.len(),
{
    let w = match base.ty {
        TypeView::Integer(w) => w,
        TypeView::Unsigned(w) => w,
        _ => IntSize::U1,
    };
    lemma_names_shorter(base.rest, version, count, Seq::empty());
    if let Ok((names, r)) = names_taken(base.rest, version, count, Seq::empty()) {
        lemma_members_shorter(r, w.bytes(), !(base.order is Plain), names, Seq::empty());
    }
}

/// A message takes at least its fixed part.
pub proof fn lemma_decoded_shorter(s: Seq<u8>)
    ensures
        decoded(s) matches Ok(d) ==> d.rest.len() + 8 <= s.len(),
    decreases s.len(), 0nat,
{
    if s.len() >= 8 {
        let version = s[0] as int / 16;
        let class = s[0] as int % 16;
        let count = (s[1] + 256 * s[2]) as nat;
        let size = le(s.subrange(4, 8));
        let body = s.skip(8);
        if class == 6 {
            lemma_fields_shorter(body, version, size, count, Seq::empty(), Seq::empty());
        } else if class == 8 {
            lemma_decoded_shorter(body);
            if let Ok(base) = decoded(body) {
                lemma_enum_shorter(base, version, count);
            }
        } else if class == 9 {
            lemma_decoded_shorter(body);
        } else if class == 10 {
            let whole = array_decoded(body, version);
            if let Ok((dims, r)) = array_dims(body, version) {
                lemma_array_dims_shorter(body, version);
                lemma_decoded_shorter(r);
            }
            assert(whole matches Ok(d) ==> d.rest.len() <= body.len());
        }
    }
}

proof fn lemma_array_dims_shorter(body: Seq<u8>, version: int)
    ensures
        array_dims(body, version) matches Ok((dims, r)) ==> r.len() < body.len(),
{
    if body.len() > 0 {
        let r = dropped(
            body,
            if version == 2 {
                4
            } else {
                1
            },
        );
        lemma_dims_shorter(r, body[0] as nat, Seq::empty());
    }
}

proof fn lemma_field_head_shorter(s: Seq<u8>, version: int, size: nat)
    ensures
        field_head(s, version, size) matches Ok((name, o, r)) ==> r.len() < s.len(),
{
    lemma_name_shorter(s, version);
}

proof fn lemma_fields_shorter(
    s: Seq<u8>,
    version: int,
    size: nat,
    count: nat,
    fields: Seq<FieldView>,
    orders: Seq<(nat, OrderView)>,
)
    ensures
        fields_decoded(s, version, size, count, fields, orders) matches Ok((f, o, r)) ==> r.len()
            <= s.len(),
    decreases s.len(), 1nat,
{
    if fields.len() < count {
        if let Ok((name, offset, r)) = field_head(s, version, size) {
            if r.len() < s.len() {
                lemma_decoded_shorter(r);
                if let Ok(d) = decoded(r) {
                    if d.rest.len() < s.len() {
                        lemma_fields_shorter(
                            d.rest,
                            version,
                            size,
                            count,
                            fields.push(
                                FieldView { name, ty: d.ty, offset, index: fields.len() },
                            ),
                            orders.push((offset, d.order)),
                        );
                    }
                }
            }
        }
    }
}

/// Whether decoding came out as `s` says, with `after` still to be read.
pub open spec fn decoded_as(
    r: Result<(TypeDescriptor, OrderTree), Error>,
    after: Seq<u8>,
    s: Result<Decoded, Seq<char>>,
) -> bool {
    match (r, s) {
        (Ok((ty, order)), Ok(d)) => ty@ == d.ty && order@ == d.order && after == d.rest
            && ty@.sized(),
        (Err(e), Err(m)) => e@ == m,
        _ => false,
    }
}

/// Reads a name.
fn read_name(c: &mut Cursor, version: u8) -> (r: Result<String, Error>)
    ensures
        final(c).data@ == old(c).data@,
        old(c).within() ==> final(c).within(),
        match (r, name_taken(old(c).rest(), version as int)) {
            (Ok(v), Ok((name, rest))) => v@ == text_of(name) && final(c).rest() == rest,
            (Err(e), Err(m)) => e@ == m,
            _ => false,
        },
{
    let ghost s = c.rest();
    let mut name: Vec<u8> = Vec::new();
    let mut more: bool = true;
    assert(s.take(0) =~= name@);
    assert(s.skip(0) =~= s);
    while more
        invariant
            c.data@ == old(c).data@,
            old(c).within() ==> c.within(),
            s == old(c).rest(),
            name@.len() <= s.len(),
            name@ == s.take(name@.len() as int),
            nul_at(s, 0) == nul_at(s, name@.len() as int),
            more ==> c.rest() == s.skip(name@.len() as int),
            !more ==> nul_at(s, 0) == Some(name@.len() as int) && name@.len() < s.len() && c.rest()
                == s.skip(name@.len() as int + 1),
        decreases s.len() - name@.len() + (if more {
            1int
        } else {
            0
        }),
    {
        let b: u64 = c.next_uint(1)?;
        let ghost k = name@.len() as int;
        proof {
            assert(s.skip(k).take(1) =~= seq![s[k]]);
            crate::format::lemma_le_small(s.skip(k).take(1));
            assert(s.skip(k).skip(1) =~= s.skip(k + 1));
        }
        if b == 0 {
            more = false;
        } else {
            name.push(b as u8);
            assert(name@ =~= s.take(k + 1));
        }
    }
    let n: usize = name.len();
    if version < 3 {
        let over: usize = n % 8;
        let pad: usize = 7 - over;
        proof {
            assert(aligned8(n + 1) == n + 1 + pad);
            assert(dropped(s.skip(n + 1), pad as int) =~= dropped(s, aligned8(n + 1)));
        }
        c.pass(pad);
    }
    Ok(from_utf8_lossy(name.as_slice()))
}

/// Minimum number of bytes needed to represent `n`.
fn bytes_for(n: u64) -> (r: usize)
    ensures
        r == byte_count(n as nat),
        1 <= r <= 8,
        n <= u32::MAX ==> r <= 4,
{
    proof {
        reveal_with_fuel(byte_count, 9);
    }
    if n < 0x100 {
        1
    } else if n < 0x1_0000 {
        2
    } else if n < 0x100_0000 {
        3
    } else if n < 0x1_0000_0000 {
        4
    } else if n < 0x100_0000_0000 {
        5
    } else if n < 0x1_0000_0000_0000 {
        6
    } else if n < 0x100_0000_0000_0000 {
        7
    } else {
        8
    }
}

fn is_bool_enum(size: IntSize, members: &Vec<EnumMember>) -> (r: bool)
    ensures
        r == is_bool(size, member_views(members@)),
{
    let ghost m = member_views(members@);
    if size != IntSize::U1 || members.len() != 2 {
        return false;
    }
    let mut no: bool = false;
    let mut yes: bool = false;
    let mut i: usize = 0;
    while i < 2
        invariant
            i <= 2,
            members@.len() == 2,
            m == member_views(members@),
            no == (exists|k: int|
                0 <= k < i && (#[trigger] m[k]).name == "FALSE"@ && m[k].value == 0),
            yes == (exists|k: int|
                0 <= k < i && (#[trigger] m[k]).name == "TRUE"@ && m[k].value == 1),
        decreases 2 - i,
    {
        let item = &members[i];
        assert(m[i as int].name == item.name@ && m[i as int].value == item.value);
        if same_text(&item.name, "FALSE") && item.value == 0 {
            no = true;
        }
        if same_text(&item.name, "TRUE") && item.value == 1 {
            yes = true;
        }
        i += 1;
    }
    no && yes
}

/// Reads the names and values of an enumeration over the base type `w`.
fn decode_members(c: &mut Cursor, version: u8, count: usize, w: IntSize, swapped: bool) -> (r:
    Result<Vec<EnumMember>, Error>)
    ensures
        final(c).data@ == old(c).data@,
        old(c).within() ==> final(c).within(),
        match (r, names_taken(old(c).rest(), version as int, count as nat, Seq::empty())) {
            (r, Ok((names, rest))) => match (
                r,
                members_taken(rest, w.bytes(), swapped, names, Seq::empty()),
            ) {
                (Ok(v), Ok((m, rest2))) => member_views(v@) == m && final(c).rest() == rest2,
                (Err(e), Err(m)) => e@ == m,
                _ => false,
            },
            (Err(e), Err(m)) => e@ == m,
            _ => false,
        },
{
    let ghost whole = names_taken(c.rest(), version as int, count as nat, Seq::empty());
    let mut names: Vec<String> = Vec::new();
    let ghost mut texts: Seq<Seq<char>> = Seq::empty();
    let mut i: usize = 0;
    while i < count
        invariant
            i <= count,
            c.data@ == old(c).data@,
            old(c).within() ==> c.within(),
            whole == names_taken(old(c).rest(), version as int, count as nat, Seq::empty()),
            whole == names_taken(c.rest(), version as int, (count - i) as nat, texts),
            texts.len() == names@.len() == i,
            forall|k: int| 0 <= k < i ==> (#[trigger] names@[k])@ == texts[k],
        decreases count - i,
    {
        let name = read_name(c, version)?;
        proof {
            texts = texts.push(name@);
        }
        names.push(name);
        i += 1;
    }
    assert(whole == Ok::<(Seq<Seq<char>>, Seq<u8>), Seq<char>>((texts, c.rest())));
    let ghost rest = c.rest();
    let ghost all = members_taken(rest, w.bytes(), swapped, texts, Seq::empty());
    let size: usize = w.width();
    let mut members: Vec<EnumMember> = Vec::new();
    assert(member_views(members@) =~= Seq::empty());
    let mut j: usize = 0;
    while j < count
        invariant
            j <= count == texts.len(),
            names@.len() == count,
            size == w.bytes(),
            1 <= size <= 8,
            c.data@ == old(c).data@,
            old(c).within() ==> c.within(),
            whole == names_taken(old(c).rest(), version as int, count as nat, Seq::empty()),
            whole == Ok::<(Seq<Seq<char>>, Seq<u8>), Seq<char>>((texts, rest)),
            all == members_taken(rest, w.bytes(), swapped, texts, Seq::empty()),
            members@.len() == j,
            all == members_taken(c.rest(), size as nat, swapped, texts, member_views(members@)),
            forall|k: int| 0 <= k < count ==> (#[trigger] names@[k])@ == texts[k],
        decreases count - j,
    {
        let raw = c.next_bytes(size)?;
        let value: u64 = if swapped {
            let back = reversed(raw);
            uint_of(back.as_slice())
        } else {
            uint_of(raw)
        };
        let ghost before = members@;
        let member = EnumMember { name: names[j].clone(), value };
        members.push(member);
        proof {
            assert(member_views(members@) =~= member_views(before).push(
                MemberView { name: texts[j as int], value: value_of(raw@, swapped) as u64 },
            ));
        }
        j += 1;
    }
    Ok(members)
}

pub(crate) fn reversed(s: &[u8]) -> (r: Vec<u8>)
    ensures
        r@ == s@.reverse(),
{
    let n: usize = s.len();
    let mut out: Vec<u8> = Vec::new();
    let mut i: usize = 0;
    while i < n
        invariant
            i <= n == s@.len(),
            out@ == s@.reverse().take(i as int),
        decreases n - i,
    {
        out.push(s[n - 1 - i]);
        i += 1;
        assert(out@ =~= s@.reverse().take(i as int));
    }
    assert(s@.reverse().take(n as int) =~= s@.reverse());
    out
}

/// Reads an enumeration, whose base type is `base`.
fn decode_enum(
    c: &mut Cursor,
    version: u8,
    count: usize,
    base: TypeDescriptor,
    order: OrderTree,
) -> (r: Result<(TypeDescriptor, OrderTree), Error>)
    ensures
        final(c).data@ == old(c).data@,
        old(c).within() ==> final(c).within(),
        decoded_as(
            r,
            final(c).rest(),
            enum_decoded(
                Decoded { ty: base@, order: order@, rest: old(c).rest() },
                version as int,
                count as nat,
            ),
        ),
{
    let (w, signed) = match base {
        TypeDescriptor::Integer(s) => (s, true),
        TypeDescriptor::Unsigned(s) => (s, false),
        _ => return Err(Error::new("enum base must be integer")),
    };
    let swapped: bool = !order.is_none();
    let members = decode_members(c, version, count, w, swapped)?;
    if is_bool_enum(w, &members) {
        return Ok((TypeDescriptor::Boolean, order));
    }
    let ty = TypeDescriptor::Enum(EnumType { size: w, signed, members });
    Ok((ty, order))
}

/// Reads the dimensions of an array.
fn decode_dims(c: &mut Cursor, version: u8) -> (r: Result<Vec<u64>, Error>)
    ensures
        final(c).data@ == old(c).data@,
        old(c).within() ==> final(c).within(),
        match (r, array_dims(old(c).rest(), version as int)) {
            (Ok(v), Ok((dims, rest))) => nats(v@) == dims
                && final(c).rest() == rest && forall|i: int|
                0 <= i < v@.len() ==> #[trigger] v@[i] <= u32::MAX,
            (Err(e), Err(m)) => e@ == m,
            _ => false,
        },
{
    let ghost s = c.rest();
    let ndim: u64 = c.next_uint(1)?;
    proof {
        assert(s.take(1) =~= seq![s[0]]);
        crate::format::lemma_le_small(s.take(1));
    }
    if version == 2 {
        c.pass(3);
        assert(c.rest() =~= dropped(s, 4));
    }
    let ghost start = c.rest();
    let ghost whole = dims_taken(start, ndim as nat, Seq::empty());
    let mut dims: Vec<u64> = Vec::new();
    let mut i: u64 = 0;
    assert(nats(dims@) =~= Seq::empty());
    while i < ndim
        invariant
            i <= ndim <= 255,
            c.data@ == old(c).data@,
            old(c).within() ==> c.within(),
            whole == dims_taken(start, ndim as nat, Seq::empty()),
            whole == dims_taken(
                c.rest(),
                (ndim - i) as nat,
                nats(dims@),
            ),
            s == old(c).rest(),
            s.len() >= 1,
            ndim == s[0],
            start == dropped(s, if version == 2 { 4 } else { 1 }),
            forall|i: int| 0 <= i < dims@.len() ==> #[trigger] dims@[i] <= u32::MAX,
        decreases ndim - i,
    {
        let ghost r = c.rest();
        let d: u64 = c.next_uint(4)?;
        let ghost before = dims@;
        proof {
            crate::format::lemma_le_bound(r.take(4));
            reveal_with_fuel(crate::format::pow256, 5);
        }
        dims.push(d);
        assert(nats(dims@) =~= nats(before).push(d as nat));
        i += 1;
    }
    if version == 2 {
        c.pass(4 * ndim as usize);
    }
    Ok(dims)
}

/// `a * b`, where it fits.
fn times(a: usize, b: u64) -> (r: Option<usize>)
    ensures
        r matches Some(v) ==> v == a * b,
        r is None <==> a * b > usize::MAX,
{
    assert(a as int * b as int <= 0xffff_ffff_ffff_ffff * 0xffff_ffff_ffff_ffff) by (nonlinear_arith)
        requires
            0 <= a as int <= 0xffff_ffff_ffff_ffff,
            0 <= b as int <= 0xffff_ffff_ffff_ffff,
    ;
    let p: u128 = a as u128 * b as u128;
    if p > usize::MAX as u128 {
        None
    } else {
        Some(p as usize)
    }
}

proof fn lemma_product_zero(v: Seq<nat>, i: int)
    requires
        0 <= i < v.len(),
        v[i] == 0,
    ensures
        product(v) == 0,
    decreases v.len(),
{
    if i < v.len() - 1 {
        lemma_product_zero(v.drop_last(), i);
        assert(0 * v.last() == 0) by (nonlinear_arith);
    } else {
        assert(product(v.drop_last()) * 0 == 0) by (nonlinear_arith);
    }
}

proof fn lemma_product_grows(v: Seq<nat>, k: int)
    requires
        0 <= k <= v.len(),
        forall|i: int| 0 <= i < v.len() ==> #[trigger] v[i] > 0,
    ensures
        product(v.take(k)) <= product(v),
        product(v.take(k)) > 0,
    decreases v.len() - k,
{
    if k == v.len() {
        assert(v.take(k) =~= v);
        lemma_product_positive(v);
    } else {
        lemma_product_grows(v, k + 1);
        assert(v.take(k + 1).drop_last() =~= v.take(k));
        lemma_product_positive(v.take(k));
        let (p, x) = (product(v.take(k)), v[k]);
        assert(p <= p * x) by (nonlinear_arith)
            requires
                x >= 1,
                p >= 0,
        ;
    }
}

proof fn lemma_product_positive(v: Seq<nat>)
    requires
        forall|i: int| 0 <= i < v.len() ==> #[trigger] v[i] > 0,
    ensures
        product(v) > 0,
    decreases v.len(),
{
    if v.len() > 0 {
        assert forall|i: int| 0 <= i < v.drop_last().len() implies #[trigger] v.drop_last()[i]
            > 0 by {
            assert(v[i] > 0);
        }
        lemma_product_positive(v.drop_last());
        let p = product(v.drop_last());
        assert(p * v.last() > 0) by (nonlinear_arith)
            requires
                p > 0,
                v.last() > 0,
        ;
    }
}

/// Dimensions as numbers.
pub open spec fn nats(v: Seq<u64>) -> Seq<nat> {
    v.map_values(|x: u64| x as nat)
}

/// The product of dimensions, where it fits.
pub fn checked_product(dims: &[u64]) -> (r: Option<usize>)
    ensures
        r matches Some(v) ==> v == product(nats(dims@)),
        r is None <==> product(nats(dims@)) > usize::MAX,
{
    let n: usize = dims.len();
    let ghost all = nats(dims@);
    let mut k: usize = 0;
    while k < n
        invariant
            k <= n == dims@.len(),
            all == nats(dims@),
            forall|i: int| 0 <= i < k ==> #[trigger] dims@[i] > 0,
        decreases n - k,
    {
        if dims[k] == 0 {
            proof {
                lemma_product_zero(all, k as int);
            }
            return Some(0);
        }
        k += 1;
    }
    assert forall|i: int| 0 <= i < all.len() implies #[trigger] all[i] > 0 by {
        assert(dims@[i] > 0);
    }
    let mut total: usize = 1;
    let mut i: usize = 0;
    assert(all.take(0) =~= Seq::empty());
    while i < n
        invariant
            i <= n == dims@.len(),
            all == nats(dims@),
            forall|i: int| 0 <= i < all.len() ==> #[trigger] all[i] > 0,
            total == product(all.take(i as int)),
        decreases n - i,
    {
        proof {
            assert(all.take(i + 1).drop_last() =~= all.take(i as int));
            assert(all.take(i + 1).last() == dims@[i as int]);
            lemma_product_grows(all, i + 1);
        }
        match times(total, dims[i]) {
            Some(v) => {
                total = v;
            },
            None => {
                return None;
            },
        }
        i += 1;
    }
    assert(all.take(n as int) =~= all);
    Some(total)
}

proof fn lemma_nested_sizes(base: TypeView, dims: Seq<nat>)
    requires
        base.sized(),
    ensures
        nested(base, dims).disk_size() == base.disk_size() * product(dims),
        nested(base, dims).size() == base.size() * product(dims),
    decreases dims.len(),
{
    let (x, y) = (base.disk_size(), base.size());
    if dims.len() == 0 {
        assert(x * 1 == x && y * 1 == y) by (nonlinear_arith);
    } else {
        let tail = dims.skip(1);
        lemma_nested_sizes(base, tail);
        lemma_product_front(dims);
        let (p, d) = (product(tail), dims[0]);
        assert((x * p) * d == x * (d * p) && (y * p) * d == y * (d * p)) by (nonlinear_arith);
    }
}

proof fn lemma_product_front(v: Seq<nat>)
    requires
        v.len() > 0,
    ensures
        product(v) == v[0] * product(v.skip(1)),
    decreases v.len(),
{
    let t = v.skip(1);
    if v.len() == 1 {
        assert(v.drop_last() =~= Seq::empty());
        assert(t =~= Seq::empty());
        assert(product(v.drop_last()) == 1);
        let x = v[0];
        assert(1 * x == x * 1) by (nonlinear_arith);
    } else {
        lemma_product_front(v.drop_last());
        assert(v.drop_last().skip(1) =~= t.drop_last());
        let (a, b, c) = (v[0], product(t.drop_last()), v.last());
        assert((a * b) * c == a * (b * c)) by (nonlinear_arith);
    }
}

/// Arrays of arrays over `base`, with the given lengths, where the sizes fit.
fn nest(base: TypeDescriptor, dims: &[u64]) -> (r: Option<TypeDescriptor>)
    requires
        base@.sized(),
        forall|i: int| 0 <= i < dims@.len() ==> #[trigger] dims@[i] <= u32::MAX,
    ensures
        r matches Some(t) ==> t@ == nested(base@, nats(dims@)) && t@.sized(),
        r is None <==> !nested(base@, nats(dims@)).sized(),
{
    let n: usize = dims.len();
    let ghost all = nats(dims@);
    let ghost b = base@;
    let mut disk: usize = disk_size(&base);
    let mut mem: usize = base.size();
    let mut ty: TypeDescriptor = base;
    let mut i: usize = n;
    assert(all.skip(n as int) =~= Seq::empty());
    while i > 0
        invariant
            i <= n == dims@.len(),
            all == nats(dims@),
            b == base@,
            forall|i: int| 0 <= i < dims@.len() ==> #[trigger] dims@[i] <= u32::MAX,
            ty@ == nested(b, all.skip(i as int)),
            ty@.sized(),
            disk == ty@.disk_size(),
            mem == ty@.size(),
        decreases i,
    {
        i -= 1;
        let d: u64 = dims[i];
        proof {
            assert(all.skip(i as int).skip(1) =~= all.skip(i + 1));
            assert(all.skip(i as int)[0] == d);
        }
        let ghost inner = ty@;
        let outer = TypeDescriptor::FixedArray(Box::new(ty), d as usize);
        let ok: bool = match (times(disk, d), times(mem, d)) {
            (Some(x), Some(y)) => {
                disk = x;
                mem = y;
                true
            },
            _ => false,
        };
        assert(outer@ == nested(b, all.skip(i as int)));
        assert(ok == outer@.sized());
        if !ok {
            proof {
                lemma_unsized(b, all, i as int);
            }
            return None;
        }
        ty = outer;
    }
    assert(all.skip(0) =~= all);
    Some(ty)
}

/// Where an inner array is too large, so is the outer one.
proof fn lemma_unsized(base: TypeView, dims: Seq<nat>, i: int)
    requires
        0 <= i <= dims.len(),
        !nested(base, dims.skip(i)).sized(),
    ensures
        !nested(base, dims).sized(),
    decreases i,
{
    if i == 0 {
        assert(dims.skip(0) =~= dims);
    } else {
        assert(dims.skip(i - 1).skip(1) =~= dims.skip(i));
        lemma_unsized(base, dims, i - 1);
    }
}

/// Reads an array type.
fn decode_array(c: &mut Cursor, version: u8) -> (r: Result<(TypeDescriptor, OrderTree), Error>)
    ensures
        final(c).data@ == old(c).data@,
        old(c).within() ==> final(c).within(),
        decoded_as(r, final(c).rest(), array_decoded(old(c).rest(), version as int)),
    decreases old(c).rest().len(), 1nat,
{
    let ghost s = c.rest();
    proof {
        lemma_array_dims_shorter(s, version as int);
    }
    let dims = decode_dims(c, version)?;
    let (base, order) = decode_tree(c)?;
    let stride: usize = disk_size(&base);
    let total = checked_product(dims.as_slice());
    match (nest(base, dims.as_slice()), total) {
        (Some(ty), Some(n)) => {
            if order.is_none() {
                Ok((ty, OrderTree::Plain))
            } else {
                Ok((ty, OrderTree::Array { n, stride, inner: Box::new(order) }))
            }
        },
        _ => Err(Error::new("datatype size overflow")),
    }
}

/// Reads the fields of a compound type of `size` bytes.
fn decode_compound(c: &mut Cursor, version: u8, size: usize, count: usize) -> (r: Result<
    (TypeDescriptor, OrderTree),
    Error,
>)
    requires
        size <= u32::MAX,
    ensures
        final(c).data@ == old(c).data@,
        old(c).within() ==> final(c).within(),
        match (
            r,
            fields_decoded(
                old(c).rest(),
                version as int,
                size as nat,
                count as nat,
                Seq::empty(),
                Seq::empty(),
            ),
        ) {
            (Ok((ty, order)), Ok((fields, orders, rest))) => {
                &&& ty@ == (TypeView::Compound { fields, size: size as nat })
                &&& ty@.sized()
                &&& order@ == order_of_parts(orders)
                &&& final(c).rest() == rest
            },
            (Err(e), Err(m)) => e@ == m,
            _ => false,
        },
    decreases old(c).rest().len(), 1nat,
{
    let ghost whole = fields_decoded(
        c.rest(),
        version as int,
        size as nat,
        count as nat,
        Seq::empty(),
        Seq::empty(),
    );
    let mut fields: Vec<CompoundField> = Vec::new();
    let mut orders: Vec<(usize, OrderTree)> = Vec::new();
    let mut index: usize = 0;
    while index < count
        invariant
            index <= count,
            size <= u32::MAX,
            c.data@ == old(c).data@,
            old(c).within() ==> c.within(),
            c.rest().len() <= old(c).rest().len(),
            fields@.len() == index,
            field_views(fields@).len() == index,
            crate::types::fields_sized(field_views(fields@)),
            whole == fields_decoded(
                old(c).rest(),
                version as int,
                size as nat,
                count as nat,
                Seq::empty(),
                Seq::empty(),
            ),
            whole == fields_decoded(
                c.rest(),
                version as int,
                size as nat,
                count as nat,
                field_views(fields@),
                part_views(orders@),
            ),
        decreases count - index,
    {
        let ghost s = c.rest();
        proof {
            lemma_field_head_shorter(s, version as int, size as nat);
            lemma_name_shorter(s, version as int);
        }
        let name = read_name(c, version)?;
        let ghost s2 = c.rest();
        let offset: u64 = if version >= 3 {
            let width: usize = bytes_for(size as u64);
            c.next_uint(width)?
        } else {
            c.next_uint(4)?
        };
        proof {
            let w = if version >= 3 {
                byte_count(size as nat)
            } else {
                4
            };
            lemma_small_uint(s2, w);
        }
        if version == 1 {
            c.pass(28);
        }
        proof {
            lemma_decoded_shorter(c.rest());
        }
        let (ty, order) = decode_tree(c)?;
        let ghost (before, parts) = (fields@, orders@);
        let field = CompoundField { name, ty, offset: offset as usize, index };
        orders.push((offset as usize, order));
        fields.push(field);
        proof {
            lemma_field_views_push(before, field);
            assert(orders@.drop_last() =~= parts);
            assert(field_views(fields@).drop_last() =~= field_views(before));
        }
        index += 1;
    }
    let order = OrderTree::from_parts(orders);
    Ok((TypeDescriptor::Compound(CompoundType { fields, size }), order))
}

/// A number of at most four bytes fits the address type.
proof fn lemma_small_uint(s: Seq<u8>, n: nat)
    requires
        n <= 4,
    ensures
        taken_uint(s, n) matches Ok((v, r)) ==> v <= 0xffff_ffff,
{
    if n <= s.len() {
        crate::format::lemma_le_bound(s.take(n as int));
        reveal_with_fuel(crate::format::pow256, 5);
    }
}

/// Reads an integer or bit field of `size` bytes.
fn decode_int(c: &mut Cursor, size: usize, bits: u8, bitfield: bool) -> (r: Result<
    (TypeDescriptor, OrderTree),
    Error,
>)
    ensures
        final(c).data@ == old(c).data@,
        old(c).within() ==> final(c).within(),
        if old(c).rest().len() < 4 {
            r matches Err(e) && e@ == eof_text()
        } else {
            match IntSize::of_bytes(size as int) {
                None => r matches Err(e) && e@ == (if bitfield {
                    "invalid bitfield size"@
                } else {
                    "invalid integer size"@
                }),
                Some(w) => r matches Ok((ty, order)) && final(c).rest() == old(c).rest().skip(4)
                    && ty@ == (if !bitfield && bits / 8 % 2 == 1 {
                    TypeView::Integer(w)
                } else {
                    TypeView::Unsigned(w)
                }) && order@ == (if bits % 2 == 1 {
                    OrderView::SwapLeaf(size as nat)
                } else {
                    OrderView::Plain
                }),
            }
        },
{
    let _props = c.next_bytes(4)?;
    let order = if bits % 2 == 1 {
        OrderTree::SwapLeaf(size)
    } else {
        OrderTree::Plain
    };
    match IntSize::from_int(size) {
        Some(w) => {
            if !bitfield && bits / 8 % 2 == 1 {
                Ok((TypeDescriptor::Integer(w), order))
            } else {
                Ok((TypeDescriptor::Unsigned(w), order))
            }
        },
        None => {
            if bitfield {
                Err(Error::new("invalid bitfield size"))
            } else {
                Err(Error::new("invalid integer size"))
            }
        },
    }
}

/// Reads a type and which of its components are big-endian.
#[verifier::rlimit(60)]
fn decode_tree(c: &mut Cursor) -> (r: Result<(TypeDescriptor, OrderTree), Error>)
    ensures
        final(c).data@ == old(c).data@,
        old(c).within() ==> final(c).within(),
        decoded_as(r, final(c).rest(), decoded(old(c).rest())),
    decreases old(c).rest().len(), 0nat,
{
    let ghost s = c.rest();
    if c.remaining() < 8 {
        return Err(Error::new("unexpected end of file"));
    }
    let head = c.next_bytes(8)?;
    let version: u8 = head[0] / 16;
    let class: u8 = head[0] % 16;
    let bits: u8 = head[1];
    let size: usize = uint_of(vstd::slice::slice_subrange(head, 4, 8)) as usize;
    proof {
        assert(head@.subrange(4, 8) =~= s.subrange(4, 8));
        crate::format::lemma_le_bound(s.subrange(4, 8));
        reveal_with_fuel(crate::format::pow256, 5);
        assert(c.rest() =~= s.skip(8));
    }
    let count: usize = head[1] as usize + 256 * head[2] as usize;
    if class == 0 {
        decode_int(c, size, bits, false)
    } else if class == 1 {
        let _props = c.next_bytes(12)?;
        let order = if bits % 2 == 1 {
            OrderTree::SwapLeaf(size)
        } else {
            OrderTree::Plain
        };
        match FloatSize::from_int(size) {
            Some(w) => Ok((TypeDescriptor::Float(w), order)),
            None => Err(Error::new("unsupported float size")),
        }
    } else if class == 3 {
        if bits / 16 == 1 {
            Ok((TypeDescriptor::FixedUnicode(size), OrderTree::Plain))
        } else {
            Ok((TypeDescriptor::FixedAscii(size), OrderTree::Plain))
        }
    } else if class == 4 {
        decode_int(c, size, bits, true)
    } else if class == 5 || class == 7 {
        if class == 5 {
            c.pass(bits as usize);
        }
        let byte = TypeDescriptor::Unsigned(IntSize::U1);
        assert(byte@ == TypeView::Unsigned(IntSize::U1));
        proof {
            let t = TypeView::FixedArray(Box::new(TypeView::Unsigned(IntSize::U1)), size as nat);
            assert(t.size() == size && t.disk_size() == size) by {
                assert(1 * size as nat == size as nat) by (nonlinear_arith);
                reveal_with_fuel(TypeView::size, 2);
                reveal_with_fuel(TypeView::disk_size, 2);
            }
            assert(t.sized()) by {
                reveal_with_fuel(TypeView::sized, 2);
            }
        }
        Ok((TypeDescriptor::FixedArray(Box::new(byte), size), OrderTree::Plain))
    } else if class == 6 {
        decode_compound(c, version, size, count)
    } else if class == 8 {
        let (base, order) = decode_tree(c)?;
        decode_enum(c, version, count, base, order)
    } else if class == 9 {
        let (base, order) = decode_tree(c)?;
        if bits % 16 == 1 {
            if head[2] % 16 == 1 {
                Ok((TypeDescriptor::VarLenUnicode, OrderTree::Plain))
            } else {
                Ok((TypeDescriptor::VarLenAscii, OrderTree::Plain))
            }
        } else {
            let stride: usize = disk_size(&base);
            let ty = TypeDescriptor::VarLenArray(Box::new(base));
            if order.is_none() {
                Ok((ty, OrderTree::Plain))
            } else {
                Ok((ty, OrderTree::VarLen { base_stride: stride, inner: Box::new(order) }))
            }
        }
    } else if class == 10 {
        decode_array(c, version)
    } else {
        Err(Error::from_text(with_number("unsupported datatype class ", class as u64)))
    }
}

/// Reads a datatype message at the position of the cursor.
pub fn decode(c: &mut Cursor) -> (r: Result<TypeDescriptor, Error>)
    ensures
        final(c).data@ == old(c).data@,
        match (r, decoded(old(c).rest())) {
            (Ok(ty), Ok(d)) => ty@ == d.ty && final(c).rest() == d.rest && final(c).pos
                + d.rest.len() == final(c).data@.len() && ty@.sized(),
            (Err(e), Err(m)) => e@ == m,
            _ => false,
        },
{
    let ghost s = c.rest();
    let (ty, _order) = decode_tree(c)?;
    proof {
        lemma_decoded_shorter(s);
    }
    Ok(ty)
}

/// Whether a class says nothing about the byte order where it has nothing to swap.
pub open spec fn silent_class(class: int) -> bool {
    class == 1 || class == 3 || class == 9 || class == 10
}

/// Reads a datatype message, and reports in `order` which components are stored
/// big-endian. Classes that have nothing to report leave `order` as it is, and so
/// does an error.
pub fn decode_ordered(c: &mut Cursor, order: &mut OrderTree) -> (r: Result<TypeDescriptor, Error>)
    ensures
        final(c).data@ == old(c).data@,
        match (r, decoded(old(c).rest())) {
            (Ok(ty), Ok(d)) => {
                &&& ty@ == d.ty
                &&& ty@.sized()
                &&& final(c).rest() == d.rest
                &&& final(c).pos + d.rest.len() == final(c).data@.len()
                &&& final(order)@ == (if d.order is Plain && silent_class(
                    old(c).rest()[0] as int % 16,
                ) {
                    old(order)@
                } else {
                    d.order
                })
            },
            (Err(e), Err(m)) => e@ == m && final(order)@ == old(order)@,
            _ => false,
        },
{
    let ghost s = c.rest();
    let class: u8 = if c.pos < c.data.len() {
        c.data[c.pos] % 16
    } else {
        0
    };
    let (ty, tree) = decode_tree(c)?;
    proof {
        lemma_decoded_shorter(s);
    }
    let silent: bool = class == 1 || class == 3 || class == 9 || class == 10;
    if !(silent && tree.is_none()) {
        *order = tree;
    }
    Ok(ty)
}

/// The message of an integer type.
pub open spec fn int_message(size: nat, signed: bool) -> Seq<u8> {
    seq![
        0x10u8,
        if signed {
            8u8
        } else {
            0u8
        },
        0u8,
        0u8,
    ] + le_bytes(size, 4) + le_bytes(0, 2) + le_bytes(size * 8, 2)
}

/// The layout of a floating-point type: precision, place and width of the exponent,
/// width of the mantissa, exponent bias and place of the sign.
pub open spec fn float_layout(w: FloatSize) -> (nat, u8, u8, u8, nat, u8) {
    match w {
        FloatSize::U2 => (16, 10, 5, 10, 15, 15),
        FloatSize::U4 => (32, 23, 8, 23, 127, 31),
        FloatSize::U8 => (64, 52, 11, 52, 1023, 63),
    }
}

/// The message of a floating-point type.
pub open spec fn float_message(w: FloatSize) -> Seq<u8> {
    let (precision, exp_loc, exp_size, mant_size, bias, sign) = float_layout(w);
    seq![0x11u8, 0x20u8, sign, 0u8] + le_bytes(w.bytes(), 4) + le_bytes(0, 2) + le_bytes(
        precision,
        2,
    ) + seq![exp_loc, exp_size, 0u8, mant_size] + le_bytes(bias, 4)
}

/// The message of a fixed-length string type, padded with zeros.
pub open spec fn string_message(n: nat, unicode: bool) -> Seq<u8> {
    seq![
        0x13u8,
        if unicode {
            0x11u8
        } else {
            1u8
        },
        0u8,
        0u8,
    ] + le_bytes(n, 4)
}

/// A name with its zero byte, filled up to a multiple of 8 bytes.
pub open spec fn name_message(name: Seq<char>) -> Seq<u8> {
    let text = encode_utf8(name);
    text + zeroes((aligned8(text.len() as int + 1) - text.len()) as nat)
}

pub open spec fn names_message(members: Seq<MemberView>) -> Seq<u8>
    decreases members.len(),
{
    if members.len() == 0 {
        Seq::empty()
    } else {
        names_message(members.drop_last()) + name_message(members.last().name)
    }
}

pub open spec fn values_message(members: Seq<MemberView>, size: nat) -> Seq<u8>
    decreases members.len(),
{
    if members.len() == 0 {
        Seq::empty()
    } else {
        values_message(members.drop_last(), size) + le_bytes(members.last().value as nat, size)
    }
}

/// The message of an enumeration: the base type, the names and the values.
pub open spec fn enum_message(base: IntSize, signed: bool, members: Seq<MemberView>) -> Seq<u8> {
    seq![0x18u8] + le_bytes(members.len(), 2) + seq![0u8] + le_bytes(base.bytes(), 4)
        + int_message(base.bytes(), signed) + names_message(members) + values_message(
        members,
        base.bytes(),
    )
}

/// The members of the enumeration that booleans are stored as.
pub open spec fn bool_members() -> Seq<MemberView> {
    seq![
        MemberView { name: "FALSE"@, value: 0 },
        MemberView { name: "TRUE"@, value: 1 },
    ]
}

/// Where position `k` goes in an order of positions by index: behind those with the
/// same index or a smaller one.
pub open spec fn place_for(fields: Seq<FieldView>, order: Seq<int>, k: int, j: nat) -> nat
    decreases j,
{
    if j == 0 || fields[order[j - 1]].index <= fields[k].index {
        j
    } else {
        place_for(fields, order, k, (j - 1) as nat)
    }
}

/// The first `n` positions by the index of their fields.
pub open spec fn index_order(fields: Seq<FieldView>, n: nat) -> Seq<int>
    decreases n,
{
    if n == 0 {
        Seq::empty()
    } else {
        let order = index_order(fields, (n - 1) as nat);
        order.insert(place_for(fields, order, n - 1, order.len()) as int, n - 1)
    }
}

/// The message of a type.
pub open spec fn encoded(t: TypeView) -> Seq<u8>
    decreases t, 0nat,
{
    match t {
        TypeView::Integer(w) => int_message(w.bytes(), true),
        TypeView::Unsigned(w) => int_message(w.bytes(), false),
        TypeView::Float(w) => float_message(w),
        TypeView::Boolean => enum_message(IntSize::U1, true, bool_members()),
        TypeView::Enum { base, signed, members } => enum_message(base, signed, members),
        TypeView::Compound { fields, size } => seq![0x16u8] + le_bytes(fields.len(), 2) + seq![0u8]
            + le_bytes(size, 4) + fields_encoded(fields, index_order(fields, fields.len())),
        TypeView::FixedArray(base, n) => seq![0x2au8, 0u8, 0u8, 0u8] + le_bytes(
            base.disk_size() * n,
            4,
        ) + seq![1u8, 0u8, 0u8, 0u8] + le_bytes(n, 4) + le_bytes(0, 4) + encoded(*base),
        TypeView::FixedAscii(n) => string_message(n, false),
        TypeView::FixedUnicode(n) => string_message(n, true),
        TypeView::VarLenArray(base) => seq![0x19u8, 0u8, 0u8, 0u8] + le_bytes(16, 4) + encoded(
            *base,
        ),
        TypeView::VarLenAscii => seq![0x19u8, 1u8, 0u8, 0u8] + le_bytes(16, 4) + int_message(
            1,
            false,
        ),
        TypeView::VarLenUnicode => seq![0x19u8, 1u8, 1u8, 0u8] + le_bytes(16, 4) + int_message(
            1,
            false,
        ),
    }
}

/// The messages of the fields at some positions: name, offset, and type.
pub open spec fn fields_encoded(fields: Seq<FieldView>, order: Seq<int>) -> Seq<u8>
    decreases fields, order.len(),
{
    if order.len() == 0 || order.last() < 0 || order.last() >= fields.len() {
        Seq::empty()
    } else {
        let f = fields[order.last()];
        fields_encoded(fields, order.drop_last()) + (name_message(f.name) + le_bytes(f.offset, 4)
            + zeroes(28) + encoded(f.ty))
    }
}

fn encode_int(b: &mut Buf, size: usize, signed: bool)
    requires
        1 <= size <= 8,
    ensures
        final(b)@ == old(b)@ + int_message(size as nat, signed),
{
    b.u8(0x10);
    b.u8(if signed {
        8
    } else {
        0
    });
    b.u8(0);
    b.u8(0);
    b.u32(size as u32);
    b.u16(0);
    b.u16((size * 8) as u16);
    assert(b@ =~= old(b)@ + int_message(size as nat, signed));
}

fn encode_float(b: &mut Buf, w: FloatSize)
    ensures
        final(b)@ == old(b)@ + float_message(w),
{
    let (precision, exp_loc, exp_size, mant_size, bias, sign): (u16, u8, u8, u8, u32, u8) =
        match w {
        FloatSize::U2 => (16, 10, 5, 10, 15, 15),
        FloatSize::U4 => (32, 23, 8, 23, 127, 31),
        FloatSize::U8 => (64, 52, 11, 52, 1023, 63),
    };
    b.u8(0x11);
    b.u8(0x20);
    b.u8(sign);
    b.u8(0);
    b.u32(w.width() as u32);
    b.u16(0);
    b.u16(precision);
    b.u8(exp_loc);
    b.u8(exp_size);
    b.u8(0);
    b.u8(mant_size);
    b.u32(bias);
    assert(b@ =~= old(b)@ + float_message(w));
}

fn encode_string(b: &mut Buf, n: usize, unicode: bool)
    ensures
        final(b)@ == old(b)@ + string_message(n as nat, unicode),
{
    b.u8(0x13);
    b.u8(if unicode {
        0x11
    } else {
        1
    });
    b.u8(0);
    b.u8(0);
    push_le(&mut b.bytes, n as u64, 4);
    assert(b@ =~= old(b)@ + string_message(n as nat, unicode));
}

fn encode_name(b: &mut Buf, name: &String)
    ensures
        final(b)@ == old(b)@ + name_message(name@),
{
    let text = name.as_str().as_bytes();
    let n: usize = text.len();
    b.raw(text);
    let pad: usize = 8 - n % 8;
    b.zeros(pad);
    assert(aligned8(n + 1) == n + pad);
    assert(b@ =~= old(b)@ + name_message(name@));
}

fn encode_enum(b: &mut Buf, base: IntSize, signed: bool, members: &Vec<EnumMember>)
    ensures
        final(b)@ == old(b)@ + enum_message(base, signed, member_views(members@)),
{
    let ghost start = b@;
    let ghost views = member_views(members@);
    let n: usize = members.len();
    let size: usize = base.width();
    b.u8(0x18);
    push_le(&mut b.bytes, n as u64, 2);
    b.u8(0);
    b.u32(size as u32);
    encode_int(b, size, signed);
    let ghost head = b@;
    let mut i: usize = 0;
    assert(views.take(0) =~= Seq::empty());
    assert(b@ =~= head + names_message(views.take(0)));
    while i < n
        invariant
            i <= n == members@.len(),
            views == member_views(members@),
            b@ == head + names_message(views.take(i as int)),
        decreases n - i,
    {
        let ghost before = b@;
        encode_name(b, &members[i].name);
        i += 1;
        proof {
            assert(views.take(i as int).drop_last() =~= views.take(i - 1));
            assert(b@ =~= head + names_message(views.take(i as int)));
        }
    }
    assert(views.take(n as int) =~= views);
    let ghost named = b@;
    let mut j: usize = 0;
    assert(b@ =~= named + values_message(views.take(0), size as nat));
    while j < n
        invariant
            j <= n == members@.len(),
            1 <= size <= 8,
            views == member_views(members@),
            b@ == named + values_message(views.take(j as int), size as nat),
        decreases n - j,
    {
        push_le(&mut b.bytes, members[j].value, size);
        j += 1;
        proof {
            assert(views.take(j as int).drop_last() =~= views.take(j - 1));
            assert(b@ =~= named + values_message(views.take(j as int), size as nat));
        }
    }
    assert(views.take(n as int) =~= views);
    assert(b@ =~= start + enum_message(base, signed, views));
}

fn encode_bool(b: &mut Buf)
    ensures
        final(b)@ == old(b)@ + enum_message(IntSize::U1, true, bool_members()),
{
    let mut members: Vec<EnumMember> = Vec::new();
    members.push(EnumMember { name: String::from_str("FALSE"), value: 0 });
    members.push(EnumMember { name: String::from_str("TRUE"), value: 1 });
    assert(member_views(members@) =~= bool_members());
    encode_enum(b, IntSize::U1, true, &members);
}

/// Whether `order` holds positions below `n` only.
pub open spec fn positions(order: Seq<int>, n: int) -> bool {
    forall|i: int| 0 <= i < order.len() ==> 0 <= #[trigger] order[i] < n
}

/// The positions of fields by their index.
pub fn order_by_index(fields: &Vec<CompoundField>) -> (r: Vec<usize>)
    ensures
        r@.map_values(|x: usize| x as int) == index_order(
            field_views(fields@),
            fields@.len(),
        ),
        r@.len() == fields@.len(),
        positions(r@.map_values(|x: usize| x as int), fields@.len() as int),
{
    let ghost views = field_views(fields@);
    proof {
        lemma_field_views(fields@);
    }
    let n: usize = fields.len();
    let mut order: Vec<usize> = Vec::new();
    let mut k: usize = 0;
    assert(order@.map_values(|x: usize| x as int) =~= Seq::empty());
    while k < n
        invariant
            k <= n == fields@.len() == views.len(),
            views == field_views(fields@),
            forall|i: int| 0 <= i < n ==> #[trigger] views[i] == fields@[i].model(),
            order@.len() == k,
            order@.map_values(|x: usize| x as int) == index_order(views, k as nat),
            forall|i: int| 0 <= i < k ==> #[trigger] order@[i] < k,
        decreases n - k,
    {
        let ghost before = order@.map_values(|x: usize| x as int);
        let mut j: usize = k;
        while j > 0 && fields[order[j - 1]].index > fields[k].index
            invariant
                j <= k < n == fields@.len() == views.len(),
                forall|i: int| 0 <= i < n ==> #[trigger] views[i] == fields@[i].model(),
                order@.len() == k,
                before == order@.map_values(|x: usize| x as int),
                forall|i: int| 0 <= i < k ==> #[trigger] order@[i] < k,
                place_for(views, before, k as int, k as nat) == place_for(
                    views,
                    before,
                    k as int,
                    j as nat,
                ),
            decreases j,
        {
            proof {
                assert(before[j - 1] == order@[j - 1]);
                assert(views[order@[j - 1] as int] == fields@[order@[j - 1] as int].model());
                assert(views[k as int] == fields@[k as int].model());
            }
            j -= 1;
        }
        proof {
            if j > 0 {
                assert(before[j - 1] == order@[j - 1]);
                assert(views[order@[j - 1] as int] == fields@[order@[j - 1] as int].model());
                assert(views[k as int] == fields@[k as int].model());
            }
        }
        order.insert(j, k);
        k += 1;
        assert(order@.map_values(|x: usize| x as int) =~= index_order(views, k as nat));
    }
    order
}

/// Appends the message of a type.
fn encode_into(b: &mut Buf, desc: &TypeDescriptor)
    requires
        desc@.sized(),
    ensures
        final(b)@ == old(b)@ + encoded(desc@),
    decreases desc,
{
    let ghost start = b@;
    match desc {
        TypeDescriptor::Integer(w) => encode_int(b, w.width(), true),
        TypeDescriptor::Unsigned(w) => encode_int(b, w.width(), false),
        TypeDescriptor::Float(w) => encode_float(b, *w),
        TypeDescriptor::Boolean => encode_bool(b),
        TypeDescriptor::Enum(e) => encode_enum(b, e.size, e.signed, &e.members),
        TypeDescriptor::Compound(c) => {
            let ghost views = field_views(c.fields@);
            let n: usize = c.fields.len();
            proof {
                lemma_field_views(c.fields@);
            }
            b.u8(0x16);
            push_le(&mut b.bytes, n as u64, 2);
            b.u8(0);
            push_le(&mut b.bytes, c.size as u64, 4);
            let ghost head = b@;
            let order = order_by_index(&c.fields);
            let ghost ints = order@.map_values(|x: usize| x as int);
            let mut i: usize = 0;
            assert(ints.take(0) =~= Seq::empty());
            assert(b@ =~= head + fields_encoded(views, ints.take(0)));
            while i < n
                invariant
                    i <= n == c.fields@.len() == views.len() == ints.len(),
                    *desc == TypeDescriptor::Compound(*c),
                    views == field_views(c.fields@),
                    forall|k: int| 0 <= k < n ==> #[trigger] views[k] == c.fields@[k].model(),
                    crate::types::fields_sized(views),
                    ints == order@.map_values(|x: usize| x as int),
                    positions(ints, n as int),
                    b@ == head + fields_encoded(views, ints.take(i as int)),
                decreases n - i,
            {
                let ghost before = b@;
                assert(ints[i as int] == order@[i as int]);
                let k: usize = order[i];
                let f = &c.fields[k];
                proof {
                    assert(views[k as int] == f.model());
                    lemma_fields_sized(views, k as int);
                    lemma_field_smaller(*desc, *c, k as int);
                }
                encode_name(b, &f.name);
                push_le(&mut b.bytes, f.offset as u64, 4);
                b.zeros(28);
                encode_into(b, &f.ty);
                i += 1;
                proof {
                    assert(ints.take(i as int).drop_last() =~= ints.take(i - 1));
                    assert(ints.take(i as int).last() == k);
                    assert(b@ =~= head + fields_encoded(views, ints.take(i as int)));
                }
            }
            assert(ints.take(n as int) =~= ints);
            assert(b@ =~= start + encoded(desc@));
        },
        TypeDescriptor::FixedArray(base, n) => {
            b.u8(0x2a);
            b.u8(0);
            b.u8(0);
            b.u8(0);
            push_le(&mut b.bytes, (disk_size(base) * *n) as u64, 4);
            b.u8(1);
            b.u8(0);
            b.u8(0);
            b.u8(0);
            push_le(&mut b.bytes, *n as u64, 4);
            b.u32(0);
            encode_into(b, base);
            assert(b@ =~= start + encoded(desc@));
        },
        TypeDescriptor::FixedAscii(n) => encode_string(b, *n, false),
        TypeDescriptor::FixedUnicode(n) => encode_string(b, *n, true),
        TypeDescriptor::VarLenArray(base) => {
            b.u8(0x19);
            b.u8(0);
            b.u8(0);
            b.u8(0);
            b.u32(16);
            encode_into(b, base);
            assert(b@ =~= start + encoded(desc@));
        },
        TypeDescriptor::VarLenAscii => {
            encode_vlen_string(b, false);
        },
        TypeDescriptor::VarLenUnicode => {
            encode_vlen_string(b, true);
        },
    }
}

fn encode_vlen_string(b: &mut Buf, unicode: bool)
    ensures
        final(b)@ == old(b)@ + encoded(
            if unicode {
                TypeView::VarLenUnicode
            } else {
                TypeView::VarLenAscii
            },
        ),
{
    let ghost start = b@;
    b.u8(0x19);
    b.u8(1);
    b.u8(if unicode {
        1
    } else {
        0
    });
    b.u8(0);
    b.u32(16);
    encode_int(b, 1, false);
    assert(b@ =~= start + encoded(
        if unicode {
            TypeView::VarLenUnicode
        } else {
            TypeView::VarLenAscii
        },
    ));
}

/// The message of a type.
pub fn encode(desc: &TypeDescriptor) -> (r: Vec<u8>)
    requires
        desc@.sized(),
    ensures
        r@ == encoded(desc@),
{
    let mut b = Buf::new();
    encode_into(&mut b, desc);
    assert(b@ =~= encoded(desc@));
    b.bytes
}

} // verus!
