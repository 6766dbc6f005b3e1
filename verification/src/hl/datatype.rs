//! Datatypes and the conversions between them.

use vstd::prelude::*;

use crate::format::convert::disk_size;
use crate::types::{
    field_views, lemma_field_smaller, lemma_field_views, member_views, CompoundField, CompoundType,
    EnumMember, FieldView, TypeDescriptor, TypeView,
};

verus! {

/// The quality of a conversion between datatypes, from the best on.
#[derive(Clone, Copy, Debug, PartialEq, Eq, Structural)]
pub enum Conversion {
    /// The layouts are identical: a plain copy suffices.
    NoOp,
    /// A compiled (hard) conversion exists.
    Hard,
    /// A soft (generic) conversion exists.
    Soft,
}

impl Conversion {
    /// The place in the order from the best on.
    pub open spec fn rank(self) -> nat {
        match self {
            Conversion::NoOp => 1,
            Conversion::Hard => 2,
            Conversion::Soft => 3,
        }
    }

    /// The worse of two conversions.
    pub open spec fn worse(self, other: Conversion) -> Conversion {
        if self.rank() >= other.rank() {
            self
        } else {
            other
        }
    }

    /// The worse of this conversion and another one.
    pub fn or_worse(self, other: Conversion) -> (r: Conversion)
        ensures
            r == self.worse(other),
    {
        match (self, other) {
            (Conversion::Soft, _) => Conversion::Soft,
            (_, Conversion::Soft) => Conversion::Soft,
            (Conversion::Hard, _) => Conversion::Hard,
            (_, Conversion::Hard) => Conversion::Hard,
            _ => Conversion::NoOp,
        }
    }
}

impl Default for Conversion {
    fn default() -> (r: Self)
        ensures
            r == Conversion::NoOp,
    {
        Conversion::NoOp
    }
}

/// The byte order of a datatype.
#[derive(Clone, Copy, Debug, PartialEq, Eq, Structural)]
pub enum ByteOrder {
    LittleEndian,
    BigEndian,
    Vax,
    Mixed,
    /// The datatype has none.
    Unordered,
}

/// Whether a type is a number.
pub open spec fn numeric(t: TypeView) -> bool {
    t is Integer || t is Unsigned || t is Float
}

/// Whether a type is a string of a fixed length.
pub open spec fn fixed_string(t: TypeView) -> bool {
    t is FixedAscii || t is FixedUnicode
}

/// Whether a type is a string of any length.
pub open spec fn vlen_string(t: TypeView) -> bool {
    t is VarLenAscii || t is VarLenUnicode
}

/// Whether a type is an enumeration in one byte.
pub open spec fn byte_enum(t: TypeView) -> bool {
    t matches TypeView::Enum { base, .. } && base.bytes() == 1
}

/// The first field from `i` on with the given name.
pub open spec fn field_named(fields: Seq<FieldView>, name: Seq<char>, i: int) -> Option<nat>
    decreases fields.len() - i,
{
    if i < 0 || i >= fields.len() {
        None
    } else if fields[i].name == name {
        Some(i as nat)
    } else {
        field_named(fields, name, i + 1)
    }
}

/// The worst conversion of the first `n` fields of `b`, each from the field of `a`
/// with its name. A field that moves makes it a soft one.
pub open spec fn fields_path(a: Seq<FieldView>, b: Seq<FieldView>, n: nat) -> Option<Conversion>
    decreases b, n,
{
    if n == 0 || n > b.len() {
        Some(Conversion::NoOp)
    } else {
        let bf = b[n - 1];
        match fields_path(a, b, (n - 1) as nat) {
            None => None,
            Some(worst) => match field_named(a, bf.name, 0) {
                None => None,
                Some(k) => match path(a[k as int].ty, bf.ty) {
                    None => None,
                    Some(p) => Some(
                        worst.worse(p).worse(
                            if a[k as int].offset == bf.offset {
                                Conversion::NoOp
                            } else {
                                Conversion::Soft
                            },
                        ),
                    ),
                },
            },
        }
    }
}

/// The conversion from one type to another, if there is one.
pub open spec fn path(src: TypeView, dst: TypeView) -> Option<Conversion>
    decreases dst, 0nat,
{
    if src == dst {
        Some(Conversion::NoOp)
    } else if numeric(src) && numeric(dst) {
        Some(Conversion::Hard)
    } else if (fixed_string(src) || vlen_string(src)) && (fixed_string(dst) || vlen_string(dst)) {
        Some(Conversion::Soft)
    } else if byte_enum(src) && dst is Boolean || src is Boolean && byte_enum(dst) {
        Some(Conversion::Soft)
    } else {
        match (src, dst) {
            (
                TypeView::Compound { fields: a, size: _ },
                TypeView::Compound { fields: b, size: _ },
            ) => if a.len() != b.len() {
                None
            } else {
                fields_path(a, b, b.len())
            },
            (TypeView::FixedArray(a, n), TypeView::FixedArray(b, m)) => if n == m {
                path(*a, *b)
            } else {
                None
            },
            (TypeView::VarLenArray(a), TypeView::VarLenArray(b)) => path(*a, *b),
            _ => None,
        }
    }
}

fn same_members(a: &Vec<EnumMember>, b: &Vec<EnumMember>) -> (r: bool)
    ensures
        r == (member_views(a@) == member_views(b@)),
{
    let n: usize = a.len();
    if n != b.len() {
        assert(member_views(a@).len() != member_views(b@).len());
        return false;
    }
    let mut i: usize = 0;
    while i < n
        invariant
            i <= n == a@.len() == b@.len(),
            forall|j: int|
                0 <= j < i ==> #[trigger] member_views(a@)[j] == member_views(b@)[j],
        decreases n - i,
    {
        let (x, y) = (&a[i], &b[i]);
        assert(member_views(a@)[i as int].name == x.name@);
        assert(member_views(b@)[i as int].name == y.name@);
        if x.value != y.value || x.name != y.name {
            assert(member_views(a@)[i as int] != member_views(b@)[i as int]);
            return false;
        }
        i += 1;
    }
    assert(member_views(a@) =~= member_views(b@));
    true
}

/// Whether two descriptions are of the same type.
pub fn same_type(a: &TypeDescriptor, b: &TypeDescriptor) -> (r: bool)
    ensures
        r == (a@ == b@),
    decreases b,
{
    match (a, b) {
        (TypeDescriptor::Integer(x), TypeDescriptor::Integer(y)) => *x == *y,
        (TypeDescriptor::Unsigned(x), TypeDescriptor::Unsigned(y)) => *x == *y,
        (TypeDescriptor::Float(x), TypeDescriptor::Float(y)) => *x == *y,
        (TypeDescriptor::Boolean, TypeDescriptor::Boolean) => true,
        (TypeDescriptor::Enum(x), TypeDescriptor::Enum(y)) => x.size == y.size && x.signed
            == y.signed && same_members(&x.members, &y.members),
        (TypeDescriptor::Compound(x), TypeDescriptor::Compound(y)) => {
            proof {
                lemma_field_views(x.fields@);
                lemma_field_views(y.fields@);
            }
            let ghost (u, v) = (field_views(x.fields@), field_views(y.fields@));
            let n: usize = x.fields.len();
            if x.size != y.size || n != y.fields.len() {
                assert(u.len() == n && v.len() == y.fields@.len());
                return false;
            }
            let mut i: usize = 0;
            while i < n
                invariant
                    i <= n == x.fields@.len() == y.fields@.len(),
                    *b == TypeDescriptor::Compound(*y),
                    *a == TypeDescriptor::Compound(*x),
                    u == field_views(x.fields@),
                    v == field_views(y.fields@),
                    u.len() == n == v.len(),
                    forall|k: int| 0 <= k < n ==> #[trigger] u[k] == x.fields@[k].model(),
                    forall|k: int| 0 <= k < n ==> #[trigger] v[k] == y.fields@[k].model(),
                    forall|k: int| 0 <= k < i ==> #[trigger] u[k] == v[k],
                decreases n - i,
            {
                let (f, g) = (&x.fields[i], &y.fields[i]);
                proof {
                    lemma_field_smaller(*b, *y, i as int);
                    assert(u[i as int] == f.model());
                    assert(v[i as int] == g.model());
                }
                if f.offset != g.offset || f.index != g.index || f.name != g.name {
                    assert(u[i as int] != v[i as int]);
                    return false;
                }
                if !same_type(&f.ty, &g.ty) {
                    assert(u[i as int] != v[i as int]);
                    return false;
                }
                i += 1;
            }
            assert(u =~= v);
            true
        },
        (TypeDescriptor::FixedArray(x, n), TypeDescriptor::FixedArray(y, m)) => *n == *m
            && same_type(x, y),
        (TypeDescriptor::FixedAscii(n), TypeDescriptor::FixedAscii(m)) => *n == *m,
        (TypeDescriptor::FixedUnicode(n), TypeDescriptor::FixedUnicode(m)) => *n == *m,
        (TypeDescriptor::VarLenArray(x), TypeDescriptor::VarLenArray(y)) => same_type(x, y),
        (TypeDescriptor::VarLenAscii, TypeDescriptor::VarLenAscii) => true,
        (TypeDescriptor::VarLenUnicode, TypeDescriptor::VarLenUnicode) => true,
        _ => false,
    }
}

/// Finds a field by its name.
fn find_field(fields: &Vec<CompoundField>, name: &String) -> (r: Option<usize>)
    ensures
        r is Some <==> field_named(field_views(fields@), name@, 0) is Some,
        r matches Some(k) ==> field_named(field_views(fields@), name@, 0) == Some(k as nat) && k
            < fields@.len(),
{
    proof {
        lemma_field_views(fields@);
    }
    let ghost views = field_views(fields@);
    let n: usize = fields.len();
    let mut i: usize = 0;
    while i < n
        invariant
            i <= n == fields@.len() == views.len(),
            views == field_views(fields@),
            forall|k: int| 0 <= k < n ==> #[trigger] views[k] == fields@[k].model(),
            field_named(views, name@, 0) == field_named(views, name@, i as int),
        decreases n - i,
    {
        assert(views[i as int] == fields@[i as int].model());
        if fields[i].name == *name {
            return Some(i);
        }
        i += 1;
    }
    None
}

fn is_number(t: &TypeDescriptor) -> (r: bool)
    ensures
        r == numeric(t@),
{
    matches!(t, TypeDescriptor::Integer(_) | TypeDescriptor::Unsigned(_) | TypeDescriptor::Float(_))
}

fn is_string(t: &TypeDescriptor) -> (r: bool)
    ensures
        r == (fixed_string(t@) || vlen_string(t@)),
{
    matches!(t, TypeDescriptor::FixedAscii(_) | TypeDescriptor::FixedUnicode(_)
        | TypeDescriptor::VarLenAscii | TypeDescriptor::VarLenUnicode)
}

fn is_byte_enum(t: &TypeDescriptor) -> (r: bool)
    ensures
        r == byte_enum(t@),
{
    match t {
        TypeDescriptor::Enum(e) => e.size.width() == 1,
        _ => false,
    }
}

/// The conversion between the fields of two compounds.
fn convert_fields(a: &CompoundType, b: &CompoundType, Ghost(whole): Ghost<TypeDescriptor>) -> (r:
    Option<Conversion>)
    requires
        whole == TypeDescriptor::Compound(*b),
    ensures
        r == fields_path(field_views(a.fields@), field_views(b.fields@), b.fields@.len()),
    decreases whole, 0nat,
{
    let ghost (u, v) = (field_views(a.fields@), field_views(b.fields@));
    proof {
        lemma_field_views(a.fields@);
        lemma_field_views(b.fields@);
    }
    let n: usize = b.fields.len();
    let mut worst = Conversion::NoOp;
    let mut i: usize = 0;
    while i < n
        invariant
            i <= n == b.fields@.len(),
            whole == TypeDescriptor::Compound(*b),
            u == field_views(a.fields@),
            v == field_views(b.fields@),
            u.len() == a.fields@.len(),
            v.len() == n,
            forall|k: int| 0 <= k < u.len() ==> #[trigger] u[k] == a.fields@[k].model(),
            forall|k: int| 0 <= k < n ==> #[trigger] v[k] == b.fields@[k].model(),
            fields_path(u, v, i as nat) == Some(worst),
        decreases n - i,
    {
        let bf = &b.fields[i];
        assert(v[i as int] == bf.model());
        let ghost step = fields_path(u, v, (i + 1) as nat);
        let k: usize = match find_field(&a.fields, &bf.name) {
            Some(k) => k,
            None => {
                proof {
                    assert(step is None);
                    lemma_fields_none(u, v, (i + 1) as nat, n as nat);
                }
                return None;
            },
        };
        assert(u[k as int] == a.fields@[k as int].model());
        proof {
            lemma_field_smaller(whole, *b, i as int);
        }
        let p = match conversion_path(&a.fields[k].ty, &bf.ty) {
            Some(p) => p,
            None => {
                proof {
                    assert(step is None);
                    lemma_fields_none(u, v, (i + 1) as nat, n as nat);
                }
                return None;
            },
        };
        let moved = if a.fields[k].offset == bf.offset {
            Conversion::NoOp
        } else {
            Conversion::Soft
        };
        worst = worst.or_worse(p).or_worse(moved);
        assert(step == Some(worst));
        i += 1;
    }
    Some(worst)
}

/// Where a field has no conversion the compound has none.
proof fn lemma_fields_none(a: Seq<FieldView>, b: Seq<FieldView>, k: nat, n: nat)
    requires
        0 < k <= n <= b.len(),
        fields_path(a, b, k) is None,
    ensures
        fields_path(a, b, n) is None,
    decreases n - k,
{
    if k < n {
        lemma_fields_none(a, b, k, (n - 1) as nat);
    }
}

/// The conversion from one type to another, if there is one.
pub fn conversion_path(src: &TypeDescriptor, dst: &TypeDescriptor) -> (r: Option<Conversion>)
    ensures
        r == path(src@, dst@),
    decreases dst, 1nat,
{
    if same_type(src, dst) {
        return Some(Conversion::NoOp);
    }
    if is_number(src) && is_number(dst) {
        return Some(Conversion::Hard);
    }
    if is_string(src) && is_string(dst) {
        return Some(Conversion::Soft);
    }
    if is_byte_enum(src) && matches!(dst, TypeDescriptor::Boolean) || matches!(
        src,
        TypeDescriptor::Boolean
    ) && is_byte_enum(dst) {
        return Some(Conversion::Soft);
    }
    match (src, dst) {
        (TypeDescriptor::Compound(a), TypeDescriptor::Compound(b)) => {
            proof {
                lemma_field_views(a.fields@);
                lemma_field_views(b.fields@);
            }
            if a.fields.len() != b.fields.len() {
                return None;
            }
            convert_fields(a, b, Ghost(*dst))
        },
        (TypeDescriptor::FixedArray(a, n), TypeDescriptor::FixedArray(b, m)) => if *n == *m {
            conversion_path(a, b)
        } else {
            None
        },
        (TypeDescriptor::VarLenArray(a), TypeDescriptor::VarLenArray(b)) => conversion_path(a, b),
        _ => None,
    }
}

/// A datatype.
#[derive(Debug)]
pub struct Datatype {
    pub desc: TypeDescriptor,
}

impl View for Datatype {
    type V = TypeView;

    open spec fn view(&self) -> TypeView {
        self.desc@
    }
}

impl Datatype {
    /// Bytes of an element in a file.
    pub fn size(&self) -> (r: usize)
        requires
            self@.sized(),
        ensures
            r == self@.disk_size(),
    {
        disk_size(&self.desc)
    }

    /// The byte order: little-endian, and none for strings and compounds.
    pub fn byte_order(&self) -> (r: ByteOrder)
        ensures
            r == (if self@ is Compound || fixed_string(self@) || vlen_string(self@) {
                ByteOrder::Unordered
            } else {
                ByteOrder::LittleEndian
            }),
    {
        if is_string(&self.desc) || matches!(self.desc, TypeDescriptor::Compound(_)) {
            ByteOrder::Unordered
        } else {
            ByteOrder::LittleEndian
        }
    }

    /// The best conversion to `dst`, if there is one.
    pub fn conv_path(&self, dst: &Datatype) -> (r: Option<Conversion>)
        ensures
            r == path(self@, dst@),
    {
        conversion_path(&self.desc, &dst.desc)
    }

    /// A copy of the description.
    pub fn to_descriptor(&self) -> (r: TypeDescriptor)
        ensures
            r@ == self@,
    {
        self.desc.duplicate()
    }

    pub fn from_descriptor(desc: &TypeDescriptor) -> (r: Self)
        ensures
            r@ == desc@,
    {
        Datatype { desc: desc.duplicate() }
    }
}

/// Every type converts to itself with a plain copy.
pub proof fn law_path_reflexive(t: TypeView)
    ensures
        path(t, t) == Some(Conversion::NoOp),
{
}

} // verus!
