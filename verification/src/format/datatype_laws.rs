//! Reading a datatype message gives back the type that was written.

use vstd::prelude::*;
use vstd::utf8::encode_utf8;

use crate::format::datatype::{
    array_decoded, array_dims, bool_members, decoded, dims_taken, encoded, enum_decoded,
    enum_message, field_head, fields_decoded, fields_encoded, index_order, int_message, is_bool,
    members_taken, name_message, name_taken, names_message, names_taken, nested, nul_at,
    order_of_parts, place_for, product, string_message, value_of, values_message, Decoded,
    OrderView,
};
use crate::format::{
    aligned8, law_le_round_trip, le, le_bytes, lemma_le_bytes_len, pow256, taken_uint, zeroes,
};
use crate::text::{law_text_of_utf8, text_of};
use crate::types::{FieldView, IntSize, MemberView, TypeView};

verus! {

/// Whether a name can be told from the zero byte behind it.
pub open spec fn plain_name(name: Seq<char>) -> bool {
    forall|i: int| 0 <= i < encode_utf8(name).len() ==> #[trigger] encode_utf8(name)[i] != 0
}

/// Whether the message of a type holds all of it: sizes, counts and values fit their
/// fields, names hold no zero bytes, the fields of compounds stand in the order of
/// their indices, and no enumeration passes for a boolean.
pub open spec fn storable(t: TypeView) -> bool
    decreases t,
{
    match t {
        TypeView::Enum { base, signed, members } => {
            &&& members.len() < 0x1_0000
            &&& !is_bool(base, members)
            &&& forall|i: int|
                0 <= i < members.len() ==> plain_name((#[trigger] members[i]).name)
                    && members[i].value < pow256(base.bytes())
        },
        TypeView::Compound { fields, size } => {
            &&& fields.len() < 0x1_0000
            &&& size < 0x1_0000_0000
            &&& fields_storable(fields)
        },
        TypeView::FixedArray(base, n) => n < 0x1_0000_0000 && storable(*base),
        TypeView::FixedAscii(n) => n < 0x1_0000_0000,
        TypeView::FixedUnicode(n) => n < 0x1_0000_0000,
        TypeView::VarLenArray(base) => storable(*base),
        _ => true,
    }
}

pub open spec fn fields_storable(fields: Seq<FieldView>) -> bool
    decreases fields,
{
    fields.len() > 0 ==> {
        let f = fields.last();
        &&& fields_storable(fields.drop_last())
        &&& plain_name(f.name)
        &&& f.offset < 0x1_0000_0000
        &&& f.index == fields.len() - 1
        &&& storable(f.ty)
    }
}

proof fn lemma_fields_storable(fields: Seq<FieldView>, i: int)
    requires
        fields_storable(fields),
        0 <= i < fields.len(),
    ensures
        plain_name(fields[i].name),
        fields[i].offset < 0x1_0000_0000,
        fields[i].index == i,
        storable(fields[i].ty),
    decreases fields.len(),
{
    if i < fields.len() - 1 {
        lemma_fields_storable(fields.drop_last(), i);
        assert(fields.drop_last()[i] == fields[i]);
    }
}

/// The fixed part of a message.
proof fn lemma_head(b: Seq<u8>, size: nat, body: Seq<u8>)
    requires
        b.len() == 4,
        size < 0x1_0000_0000,
    ensures
        ({
            let m = b + le_bytes(size, 4) + body;
            &&& m.len() >= 8
            &&& m[0] == b[0]
            &&& m[1] == b[1]
            &&& m[2] == b[2]
            &&& le(m.subrange(4, 8)) == size
            &&& m.skip(8) == body
        }),
{
    lemma_le_bytes_len(size, 4);
    reveal_with_fuel(pow256, 5);
    law_le_round_trip(size, 4);
    let m = b + le_bytes(size, 4) + body;
    assert(m.subrange(4, 8) =~= le_bytes(size, 4));
    assert(m.skip(8) =~= body);
}

pub proof fn lemma_uint(v: nat, n: nat, s: Seq<u8>)
    requires
        v < pow256(n),
    ensures
        taken_uint(le_bytes(v, n) + s, n) == Ok::<(nat, Seq<u8>), Seq<char>>((v, s)),
{
    law_le_round_trip(v, n);
    let all = le_bytes(v, n) + s;
    assert(all.take(n as int) =~= le_bytes(v, n));
    assert(all.skip(n as int) =~= s);
}

pub proof fn lemma_nul(s: Seq<u8>, k: int, from: int)
    requires
        0 <= from <= k < s.len(),
        s[k] == 0,
        forall|i: int| 0 <= i < k ==> #[trigger] s[i] != 0,
    ensures
        nul_at(s, from) == Some(k),
    decreases k - from,
{
    if from < k {
        lemma_nul(s, k, from + 1);
    }
}

pub proof fn lemma_name(name: Seq<char>, s: Seq<u8>)
    requires
        plain_name(name),
    ensures
        name_taken(name_message(name) + s, 1) == Ok::<(Seq<u8>, Seq<u8>), Seq<char>>(
            (encode_utf8(name), s),
        ),
        text_of(encode_utf8(name)) == name,
        name_taken(name_message(name) + s, 2) == Ok::<(Seq<u8>, Seq<u8>), Seq<char>>(
            (encode_utf8(name), s),
        ),
{
    let text = encode_utf8(name);
    let k = text.len() as int;
    let all = name_message(name) + s;
    law_text_of_utf8(name);
    assert(aligned8(k + 1) >= k + 1);
    assert(all[k] == 0);
    assert forall|i: int| 0 <= i < k implies #[trigger] all[i] != 0 by {
        assert(text[i] != 0);
    }
    lemma_nul(all, k, 0);
    assert(all.take(k) =~= text);
    assert(all.skip(aligned8(k + 1)) =~= s);
}

/// The names of members.
spec fn names_of(members: Seq<MemberView>) -> Seq<Seq<char>> {
    members.map_values(|m: MemberView| m.name)
}

proof fn lemma_names_front(members: Seq<MemberView>)
    requires
        members.len() > 0,
    ensures
        names_message(members) == name_message(members[0].name) + names_message(members.skip(1)),
    decreases members.len(),
{
    let init = members.drop_last();
    if members.len() == 1 {
        assert(init =~= Seq::empty());
        assert(members.skip(1) =~= Seq::empty());
        assert(names_message(members) =~= name_message(members[0].name) + names_message(
            members.skip(1),
        ));
    } else {
        lemma_names_front(init);
        assert(init.skip(1) =~= members.skip(1).drop_last());
        assert(names_message(members) =~= name_message(members[0].name) + names_message(
            members.skip(1),
        ));
    }
}

proof fn lemma_values_front(members: Seq<MemberView>, size: nat)
    requires
        members.len() > 0,
    ensures
        values_message(members, size) == le_bytes(members[0].value as nat, size) + values_message(
            members.skip(1),
            size,
        ),
    decreases members.len(),
{
    let init = members.drop_last();
    if members.len() == 1 {
        assert(init =~= Seq::empty());
        assert(members.skip(1) =~= Seq::empty());
        assert(values_message(members, size) =~= le_bytes(members[0].value as nat, size)
            + values_message(members.skip(1), size));
    } else {
        lemma_values_front(init, size);
        assert(init.skip(1) =~= members.skip(1).drop_last());
        assert(values_message(members, size) =~= le_bytes(members[0].value as nat, size)
            + values_message(members.skip(1), size));
    }
}

proof fn lemma_names(members: Seq<MemberView>, acc: Seq<Seq<char>>, s: Seq<u8>)
    requires
        forall|i: int| 0 <= i < members.len() ==> plain_name((#[trigger] members[i]).name),
    ensures
        names_taken(names_message(members) + s, 1, members.len(), acc) == Ok::<
            (Seq<Seq<char>>, Seq<u8>),
            Seq<char>,
        >((acc + names_of(members), s)),
    decreases members.len(),
{
    if members.len() == 0 {
        assert(names_message(members) + s =~= s);
        assert(acc + names_of(members) =~= acc);
    } else {
        let first = members[0].name;
        let rest = members.skip(1);
        lemma_names_front(members);
        assert(names_message(members) + s =~= name_message(first) + (names_message(rest) + s));
        lemma_name(first, names_message(rest) + s);
        assert forall|i: int| 0 <= i < rest.len() implies plain_name((#[trigger] rest[i]).name) by {
            assert(rest[i] == members[i + 1]);
        }
        lemma_names(rest, acc.push(first), s);
        assert(acc.push(first) + names_of(rest) =~= acc + names_of(members));
    }
}

proof fn lemma_members(
    members: Seq<MemberView>,
    size: nat,
    acc: Seq<MemberView>,
    names: Seq<Seq<char>>,
    s: Seq<u8>,
)
    requires
        1 <= size <= 8,
        forall|i: int| 0 <= i < members.len() ==> (#[trigger] members[i]).value < pow256(size),
        names == names_of(acc + members),
    ensures
        members_taken(values_message(members, size) + s, size, false, names, acc) == Ok::<
            (Seq<MemberView>, Seq<u8>),
            Seq<char>,
        >((acc + members, s)),
    decreases members.len(),
{
    if members.len() == 0 {
        assert(values_message(members, size) + s =~= s);
        assert(acc + members =~= acc);
    } else {
        let first = members[0];
        let rest = members.skip(1);
        let word = le_bytes(first.value as nat, size);
        let tail = values_message(rest, size) + s;
        lemma_values_front(members, size);
        let all = values_message(members, size) + s;
        assert(all =~= word + tail);
        lemma_le_bytes_len(first.value as nat, size);
        law_le_round_trip(first.value as nat, size);
        assert(all.take(size as int) =~= word);
        assert(all.skip(size as int) =~= tail);
        assert(names[acc.len() as int] == first.name) by {
            assert((acc + members)[acc.len() as int] == first);
        }
        assert forall|i: int| 0 <= i < rest.len() implies (#[trigger] rest[i]).value < pow256(
            size,
        ) by {
            assert(rest[i] == members[i + 1]);
        }
        assert(acc.push(first) + rest =~= acc + members);
        lemma_members(rest, size, acc.push(first), names, s);
        let read = MemberView { name: first.name, value: value_of(word, false) as u64 };
        assert(read == first);
    }
}

proof fn lemma_int(w: IntSize, signed: bool, s: Seq<u8>)
    ensures
        decoded(int_message(w.bytes(), signed) + s) == Ok::<Decoded, Seq<char>>(
            Decoded {
                ty: if signed {
                    TypeView::Integer(w)
                } else {
                    TypeView::Unsigned(w)
                },
                order: OrderView::Plain,
                rest: s,
            },
        ),
{
    let b = seq![
        0x10u8,
        if signed {
            8u8
        } else {
            0u8
        },
        0u8,
        0u8,
    ];
    let props = le_bytes(0, 2) + le_bytes(w.bytes() * 8, 2);
    let all = int_message(w.bytes(), signed) + s;
    lemma_head(b, w.bytes(), props + s);
    assert(all =~= b + le_bytes(w.bytes(), 4) + (props + s));
    lemma_le_bytes_len(0, 2);
    lemma_le_bytes_len(w.bytes() * 8, 2);
    assert((props + s).skip(4) =~= s);
}

proof fn lemma_count(n: nat)
    requires
        n < 0x1_0000,
    ensures
        le_bytes(n, 2).len() == 2,
        le_bytes(n, 2)[0] + 256 * le_bytes(n, 2)[1] == n,
{
    reveal_with_fuel(le_bytes, 3);
}

/// Reading the names and values of an enumeration.
proof fn lemma_enum_members(base: IntSize, signed: bool, members: Seq<MemberView>, s: Seq<u8>)
    requires
        forall|i: int|
            0 <= i < members.len() ==> plain_name((#[trigger] members[i]).name) && members[i].value
                < pow256(base.bytes()),
    ensures
        enum_decoded(
            Decoded {
                ty: if signed {
                    TypeView::Integer(base)
                } else {
                    TypeView::Unsigned(base)
                },
                order: OrderView::Plain,
                rest: names_message(members) + (values_message(members, base.bytes()) + s),
            },
            1,
            members.len(),
        ) == Ok::<Decoded, Seq<char>>(
            Decoded {
                ty: if is_bool(base, members) {
                    TypeView::Boolean
                } else {
                    TypeView::Enum { base, signed, members }
                },
                order: OrderView::Plain,
                rest: s,
            },
        ),
{
    let size = base.bytes();
    lemma_names(members, Seq::empty(), values_message(members, size) + s);
    let names = names_of(members);
    assert(Seq::<Seq<char>>::empty() + names =~= names);
    assert(Seq::<MemberView>::empty() + members =~= members);
    lemma_members(members, size, Seq::empty(), names, s);
}

#[verifier::rlimit(60)]
proof fn lemma_enum(base: IntSize, signed: bool, members: Seq<MemberView>, s: Seq<u8>)
    requires
        members.len() < 0x1_0000,
        forall|i: int|
            0 <= i < members.len() ==> plain_name((#[trigger] members[i]).name) && members[i].value
                < pow256(base.bytes()),
    ensures
        decoded(enum_message(base, signed, members) + s) == Ok::<Decoded, Seq<char>>(
            Decoded {
                ty: if is_bool(base, members) {
                    TypeView::Boolean
                } else {
                    TypeView::Enum { base, signed, members }
                },
                order: OrderView::Plain,
                rest: s,
            },
        ),
{
    let size = base.bytes();
    let b = seq![0x18u8] + le_bytes(members.len(), 2) + seq![0u8];
    lemma_count(members.len());
    let tail = names_message(members) + (values_message(members, size) + s);
    let body = int_message(size, signed) + tail;
    let all = enum_message(base, signed, members) + s;
    lemma_head(b, size, body);
    assert(all =~= b + le_bytes(size, 4) + body);
    lemma_int(base, signed, tail);
    lemma_enum_members(base, signed, members, s);
    let d = decoded(body)->Ok_0;
    assert(all[0] == 0x18 && all[1] + 256 * all[2] == members.len());
    assert(decoded(all) == enum_decoded(d, 1, members.len()));
}

proof fn lemma_bool_members()
    ensures
        is_bool(IntSize::U1, bool_members()),
        forall|i: int|
            0 <= i < 2 ==> plain_name((#[trigger] bool_members()[i]).name)
                && bool_members()[i].value < pow256(1),
{
    let m = bool_members();
    assert(m[0].name == "FALSE"@ && m[1].name == "TRUE"@);
    reveal_with_fuel(pow256, 2);
    reveal_strlit("FALSE");
    reveal_strlit("TRUE");
    lemma_ascii_plain("FALSE"@);
    lemma_ascii_plain("TRUE"@);
}

/// The text of ASCII characters other than zero holds no zero bytes.
proof fn lemma_ascii_plain(s: Seq<char>)
    requires
        forall|i: int| 0 <= i < s.len() ==> 0 < (#[trigger] s[i]) as u32 && s[i] as u32 <= 0x7f,
    ensures
        plain_name(s),
    decreases s.len(),
{
    if s.len() > 0 {
        let rest = s.drop_first();
        assert forall|i: int| 0 <= i < rest.len() implies 0 < (#[trigger] rest[i]) as u32
            && rest[i] as u32 <= 0x7f by {
            assert(rest[i] == s[i + 1]);
        }
        lemma_ascii_plain(rest);
        assert(0 < s[0] as u32 && s[0] as u32 <= 0x7f);
        let b = vstd::utf8::encode_scalar(s[0] as u32);
        let c = s[0] as u32;
        assert((c & 0x7f) as u8 == c) by (bit_vector)
            requires
                c <= 0x7f,
        ;
        assert(b.len() == 1 && b[0] == c);
        assert(encode_utf8(s) =~= b + encode_utf8(rest));
        assert forall|i: int| 0 <= i < encode_utf8(s).len() implies #[trigger] encode_utf8(s)[i]
            != 0 by {
            if i >= 1 {
                assert(encode_utf8(s)[i] == encode_utf8(rest)[i - 1]);
            }
        }
    }
}

/// The positions of fields whose indices are their positions.
proof fn lemma_index_order(fields: Seq<FieldView>, n: nat)
    requires
        n <= fields.len(),
        forall|i: int| 0 <= i < fields.len() ==> (#[trigger] fields[i]).index == i,
    ensures
        index_order(fields, n) == Seq::new(n, |i: int| i),
    decreases n,
{
    if n > 0 {
        lemma_index_order(fields, (n - 1) as nat);
        let order = index_order(fields, (n - 1) as nat);
        assert(fields[n - 1].index == n - 1);
        if n > 1 {
            assert(order[n - 2] == n - 2);
            assert(fields[n - 2].index == n - 2);
        }
        assert(place_for(fields, order, n - 1, order.len()) == n - 1);
        assert(order.insert(n - 1, n - 1) =~= Seq::new(n, |i: int| i));
    }
    assert(index_order(fields, n) =~= Seq::new(n, |i: int| i));
}

/// The message of one field.
spec fn field_message(f: FieldView) -> Seq<u8> {
    name_message(f.name) + le_bytes(f.offset, 4) + zeroes(28) + encoded(f.ty)
}

/// The messages of the fields from `k` on.
spec fn fields_from(fields: Seq<FieldView>, k: int) -> Seq<u8>
    decreases fields.len() - k,
{
    if k < 0 || k >= fields.len() {
        Seq::empty()
    } else {
        field_message(fields[k]) + fields_from(fields, k + 1)
    }
}

proof fn lemma_fields_from(fields: Seq<FieldView>, k: nat)
    requires
        k <= fields.len(),
    ensures
        fields_encoded(fields, Seq::new(k, |i: int| i)) + fields_from(fields, k as int)
            == fields_from(fields, 0),
    decreases k,
{
    let order = Seq::new(k, |i: int| i);
    if k == 0 {
        assert(fields_encoded(fields, order) + fields_from(fields, 0) =~= fields_from(fields, 0));
    } else {
        lemma_fields_from(fields, (k - 1) as nat);
        let init = Seq::new((k - 1) as nat, |i: int| i);
        assert(order.drop_last() =~= init);
        assert(order.last() == k - 1);
        let m = field_message(fields[k - 1]);
        assert(fields_encoded(fields, order) == fields_encoded(fields, init) + m);
        assert(fields_encoded(fields, init) + (m + fields_from(fields, k as int)) =~= (
        fields_encoded(fields, init) + m) + fields_from(fields, k as int));
    }
}

/// Fields with no big-endian component.
spec fn plain_orders(fields: Seq<FieldView>) -> Seq<(nat, OrderView)> {
    fields.map_values(|f: FieldView| (f.offset, OrderView::Plain))
}

/// Reading the head of a field.
proof fn lemma_field_head(f: FieldView, size: nat, s: Seq<u8>)
    requires
        plain_name(f.name),
        f.offset < 0x1_0000_0000,
    ensures
        field_head(field_message(f) + s, 1, size) == Ok::<(Seq<char>, nat, Seq<u8>), Seq<char>>(
            (f.name, f.offset, encoded(f.ty) + s),
        ),
{
    let tail = encoded(f.ty) + s;
    let after = le_bytes(f.offset, 4) + (zeroes(28) + tail);
    let all = field_message(f) + s;
    assert(all =~= name_message(f.name) + after);
    lemma_name(f.name, after);
    reveal_with_fuel(pow256, 5);
    lemma_uint(f.offset, 4, zeroes(28) + tail);
    assert((zeroes(28) + tail).skip(28) =~= tail);
}

proof fn lemma_compound_fields(
    t: TypeView,
    fields: Seq<FieldView>,
    size: nat,
    k: int,
    s: Seq<u8>,
)
    requires
        t == (TypeView::Compound { fields, size }),
        t.sized(),
        fields_storable(fields),
        0 <= k <= fields.len(),
    ensures
        fields_decoded(
            fields_from(fields, k) + s,
            1,
            size,
            fields.len(),
            fields.take(k),
            plain_orders(fields.take(k)),
        ) == Ok::<(Seq<FieldView>, Seq<(nat, OrderView)>, Seq<u8>), Seq<char>>(
            (fields, plain_orders(fields), s),
        ),
    decreases t, fields.len() - k,
{
    if k == fields.len() {
        assert(fields.take(k) =~= fields);
        assert(fields_from(fields, k) + s =~= s);
    } else {
        let f = fields[k];
        let after = fields_from(fields, k + 1) + s;
        let all = fields_from(fields, k) + s;
        assert(all =~= field_message(f) + after);
        lemma_fields_storable(fields, k);
        crate::types::lemma_fields_sized(fields, k);
        lemma_field_head(f, size, after);
        assert(decreases_to!(t => fields)) by {
            assert(decreases_to!(t => t->fields));
        }
        assert(decreases_to!(fields => fields[k]));
        assert(decreases_to!(fields[k] => fields[k].ty));
        law_datatype_round_trip(f.ty, after);
        let read = FieldView { name: f.name, ty: f.ty, offset: f.offset, index: k as nat };
        assert(read == f);
        assert(fields.take(k).push(f) =~= fields.take(k + 1));
        assert(plain_orders(fields.take(k)).push((f.offset, OrderView::Plain)) =~= plain_orders(
            fields.take(k + 1),
        ));
        lemma_compound_fields(t, fields, size, k + 1, s);
        lemma_le_bytes_len(f.offset, 4);
        assert(field_message(f).len() >= 32);
    }
}

/// Reading the message of a type gives the type, and leaves what follows it.
#[verifier::rlimit(40)]
pub proof fn law_datatype_round_trip(t: TypeView, s: Seq<u8>)
    requires
        storable(t),
        t.sized(),
    ensures
        decoded(encoded(t) + s) == Ok::<Decoded, Seq<char>>(
            Decoded { ty: t, order: OrderView::Plain, rest: s },
        ),
    decreases t, usize::MAX + 1int,
{
    match t {
        TypeView::Integer(w) => lemma_int(w, true, s),
        TypeView::Unsigned(w) => lemma_int(w, false, s),
        TypeView::Float(w) => lemma_float(w, s),
        TypeView::Boolean => {
            lemma_bool_members();
            lemma_enum(IntSize::U1, true, bool_members(), s);
        },
        TypeView::Enum { base, signed, members } => lemma_enum(base, signed, members, s),
        TypeView::Compound { fields, size } => {
            let n = fields.len();
            let b = seq![0x16u8] + le_bytes(n, 2) + seq![0u8];
            assert forall|i: int| 0 <= i < n implies (#[trigger] fields[i]).index == i by {
                lemma_fields_storable(fields, i);
            }
            lemma_index_order(fields, n);
            lemma_fields_from(fields, n);
            let order = Seq::new(n, |i: int| i);
            assert(fields_encoded(fields, order) =~= fields_from(fields, 0));
            let body = fields_from(fields, 0) + s;
            lemma_count(n);
            lemma_head(b, size, body);
            assert(encoded(t) + s =~= b + le_bytes(size, 4) + body);
            assert(fields.take(0) =~= Seq::empty());
            assert(plain_orders(fields.take(0)) =~= Seq::empty());
            lemma_compound_fields(t, fields, size, 0, s);
            assert(order_of_parts(plain_orders(fields)) is Plain);
        },
        TypeView::FixedArray(base, n) => lemma_array(t, *base, n, s),
        TypeView::FixedAscii(n) => lemma_string(n, false, s),
        TypeView::FixedUnicode(n) => lemma_string(n, true, s),
        TypeView::VarLenArray(base) => {
            let b = seq![0x19u8, 0u8, 0u8, 0u8];
            lemma_head(b, 16, encoded(*base) + s);
            assert(encoded(t) + s =~= b + le_bytes(16, 4) + (encoded(*base) + s));
            law_datatype_round_trip(*base, s);
        },
        TypeView::VarLenAscii => {
            let b = seq![0x19u8, 1u8, 0u8, 0u8];
            lemma_head(b, 16, int_message(1, false) + s);
            assert(encoded(t) + s =~= b + le_bytes(16, 4) + (int_message(1, false) + s));
            lemma_int(IntSize::U1, false, s);
        },
        TypeView::VarLenUnicode => {
            let b = seq![0x19u8, 1u8, 1u8, 0u8];
            lemma_head(b, 16, int_message(1, false) + s);
            assert(encoded(t) + s =~= b + le_bytes(16, 4) + (int_message(1, false) + s));
            lemma_int(IntSize::U1, false, s);
        },
    }
}

proof fn lemma_float(w: crate::types::FloatSize, s: Seq<u8>)
    ensures
        decoded(crate::format::datatype::float_message(w) + s) == Ok::<Decoded, Seq<char>>(
            Decoded { ty: TypeView::Float(w), order: OrderView::Plain, rest: s },
        ),
{
    let (precision, exp_loc, exp_size, mant_size, bias, sign) =
        crate::format::datatype::float_layout(w);
    let b = seq![0x11u8, 0x20u8, sign, 0u8];
    let props = le_bytes(0, 2) + le_bytes(precision, 2) + seq![exp_loc, exp_size, 0u8, mant_size]
        + le_bytes(bias, 4);
    lemma_le_bytes_len(0, 2);
    lemma_le_bytes_len(precision, 2);
    lemma_le_bytes_len(bias, 4);
    lemma_head(b, w.bytes(), props + s);
    assert(crate::format::datatype::float_message(w) + s =~= b + le_bytes(w.bytes(), 4) + (props
        + s));
    assert((props + s).skip(12) =~= s);
}

proof fn lemma_string(n: nat, unicode: bool, s: Seq<u8>)
    requires
        n < 0x1_0000_0000,
    ensures
        decoded(string_message(n, unicode) + s) == Ok::<Decoded, Seq<char>>(
            Decoded {
                ty: if unicode {
                    TypeView::FixedUnicode(n)
                } else {
                    TypeView::FixedAscii(n)
                },
                order: OrderView::Plain,
                rest: s,
            },
        ),
{
    let b = seq![
        0x13u8,
        if unicode {
            0x11u8
        } else {
            1u8
        },
        0u8,
        0u8,
    ];
    lemma_head(b, n, s);
}

proof fn lemma_array(t: TypeView, base: TypeView, n: nat, s: Seq<u8>)
    requires
        t == TypeView::FixedArray(Box::new(base), n),
        storable(t),
        t.sized(),
    ensures
        decoded(encoded(t) + s) == Ok::<Decoded, Seq<char>>(
            Decoded { ty: t, order: OrderView::Plain, rest: s },
        ),
    decreases t, usize::MAX as int,
{
    let b = seq![0x2au8, 0u8, 0u8, 0u8];
    let total = base.disk_size() * n;
    let tail = encoded(base) + s;
    let dims = le_bytes(n, 4) + (le_bytes(0, 4) + tail);
    let body = seq![1u8, 0u8, 0u8, 0u8] + dims;
    let all = encoded(t) + s;
    let low = total % 0x1_0000_0000;
    reveal_with_fuel(pow256, 5);
    crate::format::lemma_le_bytes_residue(total, 4, 4);
    assert(le_bytes(total, 4) == le_bytes(low, 4));
    lemma_head(b, low, body);
    assert(all =~= b + le_bytes(low, 4) + body);
    lemma_uint(n, 4, le_bytes(0, 4) + tail);
    lemma_le_bytes_len(0, 4);
    assert(body.skip(4) =~= dims);
    assert((le_bytes(0, 4) + tail).skip(4) =~= tail);
    let one = Seq::<nat>::empty().push(n);
    assert(dims_taken(dims, 1, Seq::empty()) == Ok::<(Seq<nat>, Seq<u8>), Seq<char>>(
        (one, le_bytes(0, 4) + tail),
    )) by {
        reveal_with_fuel(dims_taken, 2);
    }
    assert(body[0] == 1);
    assert(array_dims(body, 2) == Ok::<(Seq<nat>, Seq<u8>), Seq<char>>((one, tail)));
    law_datatype_round_trip(base, s);
    assert(one.skip(1) =~= Seq::empty());
    assert(one.drop_last() =~= Seq::empty());
    assert(nested(base, one) == t) by {
        reveal_with_fuel(nested, 2);
    }
    assert(product(one) == n) by {
        assert(product(Seq::empty()) == 1);
        assert(1 * n == n) by (nonlinear_arith);
    }
    lemma_n_fits(n);
    assert(array_decoded(body, 2) == decoded(all));
}

proof fn lemma_n_fits(n: nat)
    requires
        n < 0x1_0000_0000,
    ensures
        n <= usize::MAX,
{
}

} // verus!
