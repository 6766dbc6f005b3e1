//! What the datatype messages of all classes and versions say.

use vstd::prelude::*;

use crate::format::datatype::{
    array_decoded, array_dims, array_of, byte_count, decoded, dims_taken, enum_decoded,
    field_head, fields_decoded, is_bool, members_taken, name_taken, names_taken, nested,
    product, value_of, Decoded, OrderView,
};
use crate::format::datatype_laws::{lemma_nul, lemma_uint};
use crate::format::{
    aligned8, dropped, law_le_round_trip, le, le_bytes, lemma_le_bytes_len, lemma_pow256,
    pow256,
};
use crate::text::text_of;
use crate::types::{FieldView, FloatSize, IntSize, MemberView, TypeView};

verus! {

/// The first eight bytes of a datatype message: the version and the class in one, the bits
/// of the class in three, and the size of an element.
pub open spec fn class_head(version: nat, class: nat, b: (u8, u8, u8), size: nat) -> Seq<u8> {
    seq![(16 * version + class) as u8, b.0, b.1, b.2] + le_bytes(size, 4)
}

proof fn lemma_class(version: nat, class: nat, b: (u8, u8, u8), size: nat, body: Seq<u8>)
    requires
        version < 16,
        class < 16,
        size < 0x1_0000_0000,
    ensures
        ({
            let s = class_head(version, class, b, size) + body;
            &&& s.len() == 8 + body.len()
            &&& s[0] as int / 16 == version
            &&& s[0] as int % 16 == class
            &&& s[1] == b.0
            &&& s[2] == b.1
            &&& le(s.subrange(4, 8)) == size
            &&& s.skip(8) == body
        }),
{
    lemma_pow256();
    law_le_round_trip(size, 4);
    lemma_le_bytes_len(size, 4);
    let s = class_head(version, class, b, size) + body;
    assert(s[0] == 16 * version + class);
    assert(s.subrange(4, 8) =~= le_bytes(size, 4));
    assert(s.skip(8) =~= body);
}

/// How a scalar of some bytes stands in the file: turned where the lowest class bit is set.
pub open spec fn scalar_order(bits: u8, size: nat) -> OrderView {
    if bits % 2 == 1 {
        OrderView::SwapLeaf(size)
    } else {
        OrderView::Plain
    }
}

// Scalars.

/// A number of the class 0 is an integer: signed where the fourth class bit is set, and
/// big-endian where the first is. Four bytes on its bits follow.
pub proof fn law_integer_type(
    version: nat,
    b: (u8, u8, u8),
    w: IntSize,
    props: Seq<u8>,
    s: Seq<u8>,
)
    requires
        version < 16,
        props.len() == 4,
    ensures
        decoded(class_head(version, 0, b, w.bytes()) + (props + s)) == Ok::<Decoded, Seq<char>>(
            Decoded {
                ty: if b.0 / 8 % 2 == 1 {
                    TypeView::Integer(w)
                } else {
                    TypeView::Unsigned(w)
                },
                order: scalar_order(b.0, w.bytes()),
                rest: s,
            },
        ),
{
    lemma_class(version, 0, b, w.bytes(), props + s);
    assert((props + s).skip(4) =~= s);
}

/// A bit field, of the class 4, is an unsigned integer of its size.
pub proof fn law_bit_field_type(
    version: nat,
    b: (u8, u8, u8),
    w: IntSize,
    props: Seq<u8>,
    s: Seq<u8>,
)
    requires
        version < 16,
        props.len() == 4,
    ensures
        decoded(class_head(version, 4, b, w.bytes()) + (props + s)) == Ok::<Decoded, Seq<char>>(
            Decoded { ty: TypeView::Unsigned(w), order: scalar_order(b.0, w.bytes()), rest: s },
        ),
{
    lemma_class(version, 4, b, w.bytes(), props + s);
    assert((props + s).skip(4) =~= s);
}

/// A number of the class 1 is a floating-point one; twelve bytes on its bits follow.
pub proof fn law_float_type(
    version: nat,
    b: (u8, u8, u8),
    w: FloatSize,
    props: Seq<u8>,
    s: Seq<u8>,
)
    requires
        version < 16,
        props.len() == 12,
    ensures
        decoded(class_head(version, 1, b, w.bytes()) + (props + s)) == Ok::<Decoded, Seq<char>>(
            Decoded { ty: TypeView::Float(w), order: scalar_order(b.0, w.bytes()), rest: s },
        ),
{
    lemma_class(version, 1, b, w.bytes(), props + s);
    assert((props + s).skip(12) =~= s);
}

/// A text of the class 3 has a fixed size, and the character set that the high half of the
/// first class byte gives.
pub proof fn law_text_type(version: nat, b: (u8, u8, u8), size: nat, s: Seq<u8>)
    requires
        version < 16,
        size < 0x1_0000_0000,
    ensures
        decoded(class_head(version, 3, b, size) + s) == Ok::<Decoded, Seq<char>>(
            Decoded {
                ty: if 16 <= b.0 < 32 {
                    TypeView::FixedUnicode(size)
                } else {
                    TypeView::FixedAscii(size)
                },
                order: OrderView::Plain,
                rest: s,
            },
        ),
{
    lemma_class(version, 3, b, size, s);
}

/// Opaque elements, of the class 5, and references, of the class 7, are bytes. Behind an
/// opaque type stands a tag, as long as the first class byte says.
pub proof fn law_opaque_type(
    version: nat,
    class: nat,
    b: (u8, u8, u8),
    size: nat,
    tag: Seq<u8>,
    s: Seq<u8>,
)
    requires
        version < 16,
        class == 5 || class == 7,
        size < 0x1_0000_0000,
        tag.len() == (if class == 5 {
            b.0 as nat
        } else {
            0
        }),
    ensures
        decoded(class_head(version, class, b, size) + (tag + s)) == Ok::<Decoded, Seq<char>>(
            Decoded {
                ty: TypeView::FixedArray(Box::new(TypeView::Unsigned(IntSize::U1)), size),
                order: OrderView::Plain,
                rest: s,
            },
        ),
{
    lemma_class(version, class, b, size, tag + s);
    if class == 5 {
        assert(dropped(tag + s, b.0 as int) =~= s);
    } else {
        assert(tag + s =~= s);
    }
}

// Types over others.

/// A variable-length type, of the class 9, is a text where its first class bits are one, in
/// the character set of the second byte, else a list of its base; its elements stand as the
/// base does.
pub proof fn law_list_type(version: nat, b: (u8, u8, u8), size: nat, body: Seq<u8>, base: Decoded)
    requires
        version < 16,
        size < 0x1_0000_0000,
        decoded(body) == Ok::<Decoded, Seq<char>>(base),
    ensures
        ({
            let r = decoded(class_head(version, 9, b, size) + body);
            let text = b.0 % 16 == 1;
            &&& r is Ok
            &&& r->Ok_0.rest == base.rest
            &&& text && b.1 % 16 == 1 ==> r->Ok_0.ty == TypeView::VarLenUnicode
            &&& text && b.1 % 16 != 1 ==> r->Ok_0.ty == TypeView::VarLenAscii
            &&& !text ==> r->Ok_0.ty == TypeView::VarLenArray(Box::new(base.ty))
            &&& text || base.order is Plain ==> r->Ok_0.order is Plain
            &&& !text && !(base.order is Plain) ==> r->Ok_0.order == (OrderView::VarLen {
                base_stride: base.ty.disk_size(),
                inner: Box::new(base.order),
            })
        }),
{
    lemma_class(version, 9, b, size, body);
}

/// Numbers of four bytes.
pub open spec fn sizes(v: Seq<nat>) -> Seq<u8>
    decreases v.len(),
{
    if v.len() == 0 {
        Seq::empty()
    } else {
        le_bytes(v[0], 4) + sizes(v.skip(1))
    }
}

proof fn lemma_sizes(v: Seq<nat>, s: Seq<u8>, acc: Seq<nat>)
    requires
        forall|i: int| 0 <= i < v.len() ==> (#[trigger] v[i]) < 0x1_0000_0000,
    ensures
        dims_taken(sizes(v) + s, v.len(), acc) == Ok::<(Seq<nat>, Seq<u8>), Seq<char>>(
            (acc + v, s),
        ),
    decreases v.len(),
{
    if v.len() == 0 {
        assert(sizes(v) + s =~= s);
        assert(acc + v =~= acc);
    } else {
        let rest = v.skip(1);
        lemma_pow256();
        assert(v[0] < 0x1_0000_0000);
        lemma_uint(v[0], 4, sizes(rest) + s);
        assert(le_bytes(v[0], 4) + (sizes(rest) + s) =~= sizes(v) + s);
        assert forall|i: int| 0 <= i < rest.len() implies (#[trigger] rest[i]) < 0x1_0000_0000 by {
            assert(rest[i] == v[i + 1]);
        }
        lemma_sizes(rest, s, acc.push(v[0]));
        assert(acc.push(v[0]) + rest =~= acc + v);
    }
}

/// An array, of the class 10, gives its rank and its dimensions before its base, and in
/// version 2 three bytes behind the rank and four for each dimension behind the last that
/// say nothing. Its elements stand as the base does, one behind the other.
pub proof fn law_array_type(
    version: nat,
    b: (u8, u8, u8),
    size: nat,
    dims: Seq<nat>,
    gap: Seq<u8>,
    order: Seq<u8>,
    body: Seq<u8>,
    base: Decoded,
)
    requires
        version < 16,
        size < 0x1_0000_0000,
        dims.len() < 256,
        forall|i: int| 0 <= i < dims.len() ==> (#[trigger] dims[i]) < 0x1_0000_0000,
        gap.len() == (if version == 2 {
            3nat
        } else {
            0
        }),
        order.len() == (if version == 2 {
            4 * dims.len()
        } else {
            0
        }),
        decoded(body) == Ok::<Decoded, Seq<char>>(base),
    ensures
        ({
            let r = decoded(
                class_head(version, 10, b, size) + (seq![dims.len() as u8] + (gap + (sizes(dims) + (
                order + body)))),
            );
            let ty = nested(base.ty, dims);
            &&& r is Ok <==> ty.sized() && product(dims) <= usize::MAX
            &&& r is Ok ==> r->Ok_0.ty == ty && r->Ok_0.rest == base.rest
            &&& r is Ok && base.order is Plain ==> r->Ok_0.order is Plain
            &&& r is Ok && !(base.order is Plain) ==> r->Ok_0.order == (OrderView::Array {
                n: product(dims),
                stride: base.ty.disk_size(),
                inner: Box::new(base.order),
            })
        }),
{
    let tail = sizes(dims) + (order + body);
    let all = seq![dims.len() as u8] + (gap + tail);
    lemma_class(version, 10, b, size, all);
    assert(all[0] == dims.len());
    if version == 2 {
        assert(dropped(all, 4) =~= tail);
        assert(dropped(order + body, 4 * dims.len() as int) =~= body);
    } else {
        assert(dropped(all, 1) =~= tail);
        assert(order + body =~= body);
    }
    lemma_sizes(dims, order + body, Seq::empty());
    assert(Seq::<nat>::empty() + dims =~= dims);
    assert(array_dims(all, version as int) == Ok::<(Seq<nat>, Seq<u8>), Seq<char>>((dims, body)));
    assert(body.len() < all.len());
    assert(array_decoded(all, version as int) == array_of(base, dims));
    assert(decoded(class_head(version, 10, b, size) + all) == array_decoded(all, version as int));
}

/// An array of some dimensions is one of its first over arrays of the others.
pub proof fn law_array_nested(base: TypeView, dims: Seq<nat>)
    ensures
        dims.len() == 0 ==> nested(base, dims) == base,
        dims.len() == 1 ==> nested(base, dims) == TypeView::FixedArray(Box::new(base), dims[0]),
        dims.len() > 0 ==> nested(base, dims) == TypeView::FixedArray(
            Box::new(nested(base, dims.skip(1))),
            dims[0],
        ),
{
    if dims.len() == 1 {
        assert(dims.skip(1).len() == 0);
        assert(nested(base, dims.skip(1)) == base);
    }
}

// Names.

/// A name ends before its zero byte. Before version 3 it takes a multiple of eight bytes,
/// from then on just its own and that one.
pub proof fn law_name_part(name: Seq<u8>, version: int, fill: Seq<u8>, s: Seq<u8>)
    requires
        forall|i: int| 0 <= i < name.len() ==> #[trigger] name[i] != 0,
        version < 3 ==> fill.len() < 8 && (name.len() + 1 + fill.len()) % 8 == 0,
        version >= 3 ==> fill.len() == 0,
    ensures
        name_taken(name + (seq![0u8] + (fill + s)), version) == Ok::<
            (Seq<u8>, Seq<u8>),
            Seq<char>,
        >((name, s)),
{
    let all = name + (seq![0u8] + (fill + s));
    let k = name.len() as int;
    assert(all[k] == 0);
    assert forall|i: int| 0 <= i < k implies #[trigger] all[i] != 0 by {
        assert(all[i] == name[i]);
    }
    lemma_nul(all, k, 0);
    assert(all.take(k) =~= name);
    assert(version < 3 ==> aligned8(k + 1) == k + 1 + fill.len());
    assert(dropped(all, k + 1 + fill.len()) =~= s);
}

// Compounds.

/// The bytes of the offset of a field: in version 1 with 28 that say nothing behind it, and
/// from version 3 on as many as the size of the compound needs.
pub open spec fn offset_bytes(version: int, size: nat, offset: nat, gap: Seq<u8>) -> Seq<u8> {
    if version < 3 {
        le_bytes(offset, 4) + gap
    } else if size < 0x100 {
        le_bytes(offset, 1)
    } else if size < 0x1_0000 {
        le_bytes(offset, 2)
    } else if size < 0x100_0000 {
        le_bytes(offset, 3)
    } else {
        le_bytes(offset, 4)
    }
}

/// A field of a compound has the name, the offset and the type that stand behind each other;
/// the next one follows its type.
pub proof fn law_field_type(
    name: Seq<u8>,
    version: int,
    fill: Seq<u8>,
    size: nat,
    offset: nat,
    gap: Seq<u8>,
    body: Seq<u8>,
    d: Decoded,
    count: nat,
    fields: Seq<FieldView>,
    orders: Seq<(nat, OrderView)>,
)
    requires
        forall|i: int| 0 <= i < name.len() ==> #[trigger] name[i] != 0,
        version < 3 ==> fill.len() < 8 && (name.len() + 1 + fill.len()) % 8 == 0,
        version >= 3 ==> fill.len() == 0,
        gap.len() == (if version == 1 {
            28nat
        } else {
            0
        }),
        size < 0x1_0000_0000,
        offset < 0x1_0000_0000,
        version >= 3 ==> offset <= size,
        decoded(body) == Ok::<Decoded, Seq<char>>(d),
        d.rest.len() <= body.len(),
        fields.len() < count,
    ensures
        fields_decoded(
            name + (seq![0u8] + (fill + (offset_bytes(version, size, offset, gap) + body))),
            version,
            size,
            count,
            fields,
            orders,
        ) == fields_decoded(
            d.rest,
            version,
            size,
            count,
            fields.push(
                FieldView { name: text_of(name), ty: d.ty, offset, index: fields.len() },
            ),
            orders.push((offset, d.order)),
        ),
{
    lemma_pow256();
    let ob = offset_bytes(version, size, offset, gap);
    let s = name + (seq![0u8] + (fill + (ob + body)));
    law_name_part(name, version, fill, ob + body);
    reveal_with_fuel(byte_count, 5);
    reveal_with_fuel(pow256, 5);
    if version < 3 {
        lemma_uint(offset, 4, gap + body);
        assert(ob + body =~= le_bytes(offset, 4) + (gap + body));
        if version == 1 {
            assert(dropped(gap + body, 28) =~= body);
        } else {
            assert(gap + body =~= body);
        }
    } else {
        lemma_uint(offset, byte_count(size), body);
    }
    assert(field_head(s, version, size) == Ok::<(Seq<char>, nat, Seq<u8>), Seq<char>>(
        (text_of(name), offset, body),
    ));
    assert(s.len() == name.len() + 1 + fill.len() + ob.len() + body.len());
}

// Enumerations.

/// A number in the other byte order is the same number with its bytes turned round.
pub proof fn law_value_turned(s: Seq<u8>, v: nat, n: nat)
    requires
        v < pow256(n),
    ensures
        value_of(s.reverse(), true) == value_of(s, false),
        value_of(le_bytes(v, n), false) == v,
        value_of(le_bytes(v, n).reverse(), true) == v,
{
    law_le_round_trip(v, n);
    assert(s.reverse().reverse() =~= s);
    assert(le_bytes(v, n).reverse().reverse() =~= le_bytes(v, n));
}

/// Cells one behind the other.
pub open spec fn all_cells(v: Seq<Seq<u8>>) -> Seq<u8>
    decreases v.len(),
{
    if v.len() == 0 {
        Seq::empty()
    } else {
        v[0] + all_cells(v.skip(1))
    }
}

/// The values of an enumeration come in the order of its names, each in a cell of its own.
pub proof fn law_enum_values(
    raws: Seq<Seq<u8>>,
    size: nat,
    swapped: bool,
    names: Seq<Seq<char>>,
    acc: Seq<MemberView>,
    s: Seq<u8>,
)
    requires
        acc.len() + raws.len() == names.len(),
        forall|i: int| 0 <= i < raws.len() ==> (#[trigger] raws[i]).len() == size,
    ensures
        ({
            let r = members_taken(all_cells(raws) + s, size, swapped, names, acc);
            &&& r is Ok
            &&& r->Ok_0.1 == s
            &&& (r->Ok_0).0.len() == names.len()
            &&& forall|i: int| 0 <= i < acc.len() ==> #[trigger] (r->Ok_0).0[i] == acc[i]
            &&& forall|i: int|
                acc.len() <= i < names.len() ==> #[trigger] (r->Ok_0).0[i] == (MemberView {
                    name: names[i],
                    value: value_of(raws[i - acc.len()], swapped) as u64,
                })
        }),
    decreases raws.len(),
{
    let all = all_cells(raws) + s;
    if raws.len() == 0 {
        assert(all =~= s);
    } else {
        let rest = raws.skip(1);
        let more = all_cells(rest) + s;
        let k = acc.len() as int;
        let m = MemberView { name: names[k], value: value_of(raws[0], swapped) as u64 };
        assert(raws[0].len() == size);
        assert(all =~= raws[0] + more);
        assert(all.take(size as int) =~= raws[0]);
        assert(all.skip(size as int) =~= more);
        assert forall|i: int| 0 <= i < rest.len() implies (#[trigger] rest[i]).len() == size by {
            assert(rest[i] == raws[i + 1]);
        }
        law_enum_values(rest, size, swapped, names, acc.push(m), s);
        let r = members_taken(all, size, swapped, names, acc);
        assert(r == members_taken(more, size, swapped, names, acc.push(m)));
        let v = (r->Ok_0).0;
        assert forall|i: int| 0 <= i < k implies #[trigger] v[i] == acc[i] by {
            assert(v[i] == acc.push(m)[i]);
        }
        assert forall|i: int| k <= i < names.len() implies #[trigger] v[i] == (MemberView {
            name: names[i],
            value: value_of(raws[i - k], swapped) as u64,
        }) by {
            if i == k {
                assert(v[i] == acc.push(m)[i]);
            } else {
                assert(rest[i - k - 1] == raws[i - k]);
            }
        }
    }
}

/// An enumeration, of the class 8, has the integer that it stands before as its base, and
/// the byte order of that for its values; the names stand before these.
pub proof fn law_enum_type(
    version: nat,
    b: (u8, u8, u8),
    size: nat,
    body: Seq<u8>,
    base: Decoded,
    w: IntSize,
    names: Seq<Seq<char>>,
    raws: Seq<Seq<u8>>,
    s: Seq<u8>,
)
    requires
        version < 16,
        size < 0x1_0000_0000,
        decoded(body) == Ok::<Decoded, Seq<char>>(base),
        base.ty == TypeView::Integer(w) || base.ty == TypeView::Unsigned(w),
        names.len() == b.0 + 256 * b.1,
        raws.len() == names.len(),
        forall|i: int| 0 <= i < raws.len() ==> (#[trigger] raws[i]).len() == w.bytes(),
        names_taken(base.rest, version as int, names.len(), Seq::empty()) == Ok::<
            (Seq<Seq<char>>, Seq<u8>),
            Seq<char>,
        >((names, all_cells(raws) + s)),
    ensures
        ({
            let members = Seq::new(
                names.len(),
                |i: int|
                    MemberView {
                        name: names[i],
                        value: value_of(raws[i], !(base.order is Plain)) as u64,
                    },
            );
            decoded(class_head(version, 8, b, size) + body) == Ok::<Decoded, Seq<char>>(
                Decoded {
                    ty: if is_bool(w, members) {
                        TypeView::Boolean
                    } else {
                        TypeView::Enum { base: w, signed: base.ty is Integer, members }
                    },
                    order: base.order,
                    rest: s,
                },
            )
        }),
{
    lemma_class(version, 8, b, size, body);
    let swapped = !(base.order is Plain);
    law_enum_values(raws, w.bytes(), swapped, names, Seq::empty(), s);
    let got = members_taken(all_cells(raws) + s, w.bytes(), swapped, names, Seq::empty())->Ok_0;
    let members = Seq::new(
        names.len(),
        |i: int| MemberView { name: names[i], value: value_of(raws[i], swapped) as u64 },
    );
    assert(got.0 =~= members);
    assert(enum_decoded(base, version as int, names.len()) is Ok);
}

} // verus!
