//! Descriptions of the types of dataset and attribute elements.

use vstd::prelude::*;

use crate::text::{decimal, decimal_string, join};

verus! {

/// The width of an integer.
#[derive(Clone, Copy, Debug, PartialEq, Eq, Structural)]
pub enum IntSize {
    U1,
    U2,
    U4,
    U8,
}

impl IntSize {
    /// The width in bytes.
    pub open spec fn bytes(self) -> nat {
        match self {
            IntSize::U1 => 1,
            IntSize::U2 => 2,
            IntSize::U4 => 4,
            IntSize::U8 => 8,
        }
    }

    /// The width of `n` bytes, where there is one.
    pub open spec fn of_bytes(n: int) -> Option<IntSize> {
        if n == 1 {
            Some(IntSize::U1)
        } else if n == 2 {
            Some(IntSize::U2)
        } else if n == 4 {
            Some(IntSize::U4)
        } else if n == 8 {
            Some(IntSize::U8)
        } else {
            None
        }
    }

    pub fn from_int(size: usize) -> (r: Option<Self>)
        ensures
            r == Self::of_bytes(size as int),
    {
        match size {
            1 => Some(IntSize::U1),
            2 => Some(IntSize::U2),
            4 => Some(IntSize::U4),
            8 => Some(IntSize::U8),
            _ => None,
        }
    }

    pub fn width(self) -> (r: usize)
        ensures
            r == self.bytes(),
            1 <= r <= 8,
    {
        match self {
            IntSize::U1 => 1,
            IntSize::U2 => 2,
            IntSize::U4 => 4,
            IntSize::U8 => 8,
        }
    }
}

/// The width of a floating-point number.
#[derive(Clone, Copy, Debug, PartialEq, Eq, Structural)]
pub enum FloatSize {
    U2,
    U4,
    U8,
}

impl FloatSize {
    /// The width in bytes.
    pub open spec fn bytes(self) -> nat {
        match self {
            FloatSize::U2 => 2,
            FloatSize::U4 => 4,
            FloatSize::U8 => 8,
        }
    }

    /// The width of `n` bytes, where there is one.
    pub open spec fn of_bytes(n: int) -> Option<FloatSize> {
        if n == 2 {
            Some(FloatSize::U2)
        } else if n == 4 {
            Some(FloatSize::U4)
        } else if n == 8 {
            Some(FloatSize::U8)
        } else {
            None
        }
    }

    pub fn from_int(size: usize) -> (r: Option<Self>)
        ensures
            r == Self::of_bytes(size as int),
    {
        match size {
            2 => Some(FloatSize::U2),
            4 => Some(FloatSize::U4),
            8 => Some(FloatSize::U8),
            _ => None,
        }
    }

    pub fn width(self) -> (r: usize)
        ensures
            r == self.bytes(),
            2 <= r <= 8,
    {
        match self {
            FloatSize::U2 => 2,
            FloatSize::U4 => 4,
            FloatSize::U8 => 8,
        }
    }
}

/// A named value of an enumeration.
#[derive(Debug)]
pub struct EnumMember {
    pub name: String,
    pub value: u64,
}

/// The view of an [`EnumMember`].
pub struct MemberView {
    pub name: Seq<char>,
    pub value: u64,
}

/// An enumeration over an integer type.
#[derive(Debug)]
pub struct EnumType {
    pub size: IntSize,
    pub signed: bool,
    pub members: Vec<EnumMember>,
}

/// A field of a compound type.
#[derive(Debug)]
pub struct CompoundField {
    pub name: String,
    pub ty: TypeDescriptor,
    pub offset: usize,
    pub index: usize,
}

/// The view of a [`CompoundField`].
pub struct FieldView {
    pub name: Seq<char>,
    pub ty: TypeView,
    pub offset: nat,
    pub index: nat,
}

/// A record of named fields at byte offsets.
#[derive(Debug)]
pub struct CompoundType {
    pub fields: Vec<CompoundField>,
    pub size: usize,
}

/// The type of an element.
#[derive(Debug)]
pub enum TypeDescriptor {
    Integer(IntSize),
    Unsigned(IntSize),
    Float(FloatSize),
    Boolean,
    Enum(EnumType),
    Compound(CompoundType),
    FixedArray(Box<TypeDescriptor>, usize),
    FixedAscii(usize),
    FixedUnicode(usize),
    VarLenArray(Box<TypeDescriptor>),
    VarLenAscii,
    VarLenUnicode,
}

/// The view of a [`TypeDescriptor`].
pub enum TypeView {
    Integer(IntSize),
    Unsigned(IntSize),
    Float(FloatSize),
    Boolean,
    Enum { base: IntSize, signed: bool, members: Seq<MemberView> },
    Compound { fields: Seq<FieldView>, size: nat },
    FixedArray(Box<TypeView>, nat),
    FixedAscii(nat),
    FixedUnicode(nat),
    VarLenArray(Box<TypeView>),
    VarLenAscii,
    VarLenUnicode,
}

/// The views of enumeration members.
pub open spec fn member_views(members: Seq<EnumMember>) -> Seq<MemberView> {
    members.map_values(|m: EnumMember| MemberView { name: m.name@, value: m.value })
}

impl TypeDescriptor {
    /// The view.
    pub open spec fn model(self) -> TypeView
        decreases self,
    {
        match self {
            TypeDescriptor::Integer(s) => TypeView::Integer(s),
            TypeDescriptor::Unsigned(s) => TypeView::Unsigned(s),
            TypeDescriptor::Float(s) => TypeView::Float(s),
            TypeDescriptor::Boolean => TypeView::Boolean,
            TypeDescriptor::Enum(e) => TypeView::Enum {
                base: e.size,
                signed: e.signed,
                members: member_views(e.members@),
            },
            TypeDescriptor::Compound(c) => TypeView::Compound {
                fields: field_views(c.fields@),
                size: c.size as nat,
            },
            TypeDescriptor::FixedArray(base, n) => TypeView::FixedArray(
                Box::new(base.model()),
                n as nat,
            ),
            TypeDescriptor::FixedAscii(n) => TypeView::FixedAscii(n as nat),
            TypeDescriptor::FixedUnicode(n) => TypeView::FixedUnicode(n as nat),
            TypeDescriptor::VarLenArray(base) => TypeView::VarLenArray(Box::new(base.model())),
            TypeDescriptor::VarLenAscii => TypeView::VarLenAscii,
            TypeDescriptor::VarLenUnicode => TypeView::VarLenUnicode,
        }
    }
}

/// The views of compound fields.
pub open spec fn field_views(fields: Seq<CompoundField>) -> Seq<FieldView>
    decreases fields,
{
    if fields.len() == 0 {
        Seq::empty()
    } else {
        field_views(fields.drop_last()).push(
            FieldView {
                name: fields.last().name@,
                ty: fields.last().ty.model(),
                offset: fields.last().offset as nat,
                index: fields.last().index as nat,
            },
        )
    }
}

impl View for TypeDescriptor {
    type V = TypeView;

    open spec fn view(&self) -> TypeView {
        self.model()
    }
}

impl CompoundField {
    /// The view.
    pub open spec fn model(self) -> FieldView {
        FieldView {
            name: self.name@,
            ty: self.ty.model(),
            offset: self.offset as nat,
            index: self.index as nat,
        }
    }
}

/// The type of a field is smaller than that of the compound.
pub proof fn lemma_field_smaller(t: TypeDescriptor, c: CompoundType, i: int)
    requires
        t == TypeDescriptor::Compound(c),
        0 <= i < c.fields@.len(),
    ensures
        decreases_to!(t => c.fields@[i].ty),
{
    assert(decreases_to!(c.fields@[i] => c.fields@[i].ty));
    assert(decreases_to!(c.fields@ => c.fields@[i]));
    assert(decreases_to!(c.fields => c.fields@));
    assert(decreases_to!(c => c.fields));
    assert(decreases_to!(t => t->Compound_0));
}

pub proof fn lemma_field_views(fields: Seq<CompoundField>)
    ensures
        field_views(fields).len() == fields.len(),
        forall|i: int|
            0 <= i < fields.len() ==> #[trigger] field_views(fields)[i] == fields[i].model(),
    decreases fields.len(),
{
    if fields.len() > 0 {
        lemma_field_views(fields.drop_last());
        assert forall|i: int| 0 <= i < fields.len() implies #[trigger] field_views(fields)[i]
            == fields[i].model() by {
            if i < fields.len() - 1 {
                assert(field_views(fields)[i] == field_views(fields.drop_last())[i]);
            }
        }
    }
}

pub proof fn lemma_field_views_push(fields: Seq<CompoundField>, f: CompoundField)
    ensures
        field_views(fields.push(f)) == field_views(fields).push(f.model()),
{
    assert(fields.push(f).drop_last() =~= fields);
}

impl TypeView {
    /// Bytes of an element in memory.
    pub open spec fn size(self) -> nat
        decreases self,
    {
        match self {
            TypeView::Integer(s) => s.bytes(),
            TypeView::Unsigned(s) => s.bytes(),
            TypeView::Float(s) => s.bytes(),
            TypeView::Boolean => 1,
            TypeView::Enum { base, signed, members } => base.bytes(),
            TypeView::Compound { fields, size } => size,
            TypeView::FixedArray(base, n) => base.size() * n,
            TypeView::FixedAscii(n) => n,
            TypeView::FixedUnicode(n) => n,
            TypeView::VarLenArray(base) => 16,
            TypeView::VarLenAscii => 8,
            TypeView::VarLenUnicode => 8,
        }
    }

    /// Bytes of an element in a file: variable-length elements are heap references.
    pub open spec fn disk_size(self) -> nat
        decreases self,
    {
        match self {
            TypeView::FixedArray(base, n) => base.disk_size() * n,
            TypeView::VarLenArray(base) => 16,
            TypeView::VarLenAscii => 16,
            TypeView::VarLenUnicode => 16,
            _ => self.size(),
        }
    }

    /// Whether all sizes are within the range of the address type.
    pub open spec fn sized(self) -> bool
        decreases self,
    {
        &&& self.size() <= usize::MAX
        &&& self.disk_size() <= usize::MAX
        &&& match self {
            TypeView::Compound { fields, size } => fields_sized(fields),
            TypeView::FixedArray(base, n) => base.sized(),
            TypeView::VarLenArray(base) => base.sized(),
            _ => true,
        }
    }

    /// Whether the type has a variable-length component.
    pub open spec fn has_vlen(self) -> bool
        decreases self,
    {
        match self {
            TypeView::VarLenArray(base) => true,
            TypeView::VarLenAscii => true,
            TypeView::VarLenUnicode => true,
            TypeView::Compound { fields, size } => fields_have_vlen(fields),
            TypeView::FixedArray(base, n) => base.has_vlen(),
            _ => false,
        }
    }

    /// How the type is written in messages.
    pub open spec fn text(self) -> Seq<char>
        decreases self,
    {
        match self {
            TypeView::Integer(s) => int_text(s, true),
            TypeView::Unsigned(s) => int_text(s, false),
            TypeView::Float(FloatSize::U2) => "float16"@,
            TypeView::Float(FloatSize::U4) => "float32"@,
            TypeView::Float(FloatSize::U8) => "float64"@,
            TypeView::Boolean => "bool"@,
            TypeView::Enum { base, signed, members } => "enum ("@ + int_text(base, signed) + ")"@,
            TypeView::Compound { fields, size } => "compound ("@ + decimal(fields.len())
                + " fields)"@,
            TypeView::FixedArray(base, n) => "["@ + base.text() + "; "@ + decimal(n) + "]"@,
            TypeView::FixedAscii(n) => "string (len "@ + decimal(n) + ")"@,
            TypeView::FixedUnicode(n) => "unicode (len "@ + decimal(n) + ")"@,
            TypeView::VarLenArray(base) => "["@ + base.text() + "] (var len)"@,
            TypeView::VarLenAscii => "string (var len)"@,
            TypeView::VarLenUnicode => "unicode (var len)"@,
        }
    }
}

/// How an integer type is written in messages.
pub open spec fn int_text(size: IntSize, signed: bool) -> Seq<char> {
    match (size, signed) {
        (IntSize::U1, true) => "int8"@,
        (IntSize::U2, true) => "int16"@,
        (IntSize::U4, true) => "int32"@,
        (IntSize::U8, true) => "int64"@,
        (IntSize::U1, false) => "uint8"@,
        (IntSize::U2, false) => "uint16"@,
        (IntSize::U4, false) => "uint32"@,
        (IntSize::U8, false) => "uint64"@,
    }
}

pub open spec fn fields_sized(fields: Seq<FieldView>) -> bool
    decreases fields,
{
    fields.len() > 0 ==> fields_sized(fields.drop_last()) && fields.last().ty.sized()
}

pub open spec fn fields_have_vlen(fields: Seq<FieldView>) -> bool
    decreases fields,
{
    fields.len() > 0 && (fields_have_vlen(fields.drop_last()) || fields.last().ty.has_vlen())
}

pub proof fn lemma_fields_sized(fields: Seq<FieldView>, i: int)
    requires
        fields_sized(fields),
        0 <= i < fields.len(),
    ensures
        fields[i].ty.sized(),
    decreases fields.len(),
{
    if i < fields.len() - 1 {
        lemma_fields_sized(fields.drop_last(), i);
        assert(fields.drop_last()[i] == fields[i]);
    }
}

pub proof fn lemma_fields_have_vlen(fields: Seq<FieldView>)
    ensures
        fields_have_vlen(fields) <==> exists|i: int|
            0 <= i < fields.len() && (#[trigger] fields[i]).ty.has_vlen(),
    decreases fields.len(),
{
    if fields.len() > 0 {
        let init = fields.drop_last();
        lemma_fields_have_vlen(init);
        if fields_have_vlen(init) {
            let i = choose|i: int| 0 <= i < init.len() && (#[trigger] init[i]).ty.has_vlen();
            assert(fields[i].ty.has_vlen());
        }
        if fields.last().ty.has_vlen() {
            assert(fields[fields.len() - 1].ty.has_vlen());
        }
        if exists|i: int| 0 <= i < fields.len() && (#[trigger] fields[i]).ty.has_vlen() {
            let i = choose|i: int| 0 <= i < fields.len() && (#[trigger] fields[i]).ty.has_vlen();
            if i < fields.len() - 1 {
                assert(init[i].ty.has_vlen());
            }
        }
    }
}

impl Clone for EnumMember {
    fn clone(&self) -> (r: Self)
        ensures
            r.name@ == self.name@,
            r.value == self.value,
    {
        EnumMember { name: self.name.clone(), value: self.value }
    }
}

impl Clone for EnumType {
    fn clone(&self) -> (r: Self)
        ensures
            r.size == self.size,
            r.signed == self.signed,
            member_views(r.members@) == member_views(self.members@),
    {
        let n: usize = self.members.len();
        let mut members: Vec<EnumMember> = Vec::new();
        let mut i: usize = 0;
        while i < n
            invariant
                i <= n == self.members@.len(),
                member_views(members@) == member_views(self.members@).take(i as int),
            decreases n - i,
        {
            let ghost before = members@;
            members.push(self.members[i].clone());
            i += 1;
            assert(member_views(members@) =~= member_views(before).push(
                member_views(self.members@)[i - 1],
            ));
            assert(member_views(members@) =~= member_views(self.members@).take(i as int));
        }
        assert(member_views(self.members@).take(n as int) =~= member_views(self.members@));
        EnumType { size: self.size, signed: self.signed, members }
    }
}

impl TypeDescriptor {
    /// A copy of the description.
    pub fn duplicate(&self) -> (r: TypeDescriptor)
        ensures
            r@ == self@,
        decreases self,
    {
        match self {
            TypeDescriptor::Integer(s) => TypeDescriptor::Integer(*s),
            TypeDescriptor::Unsigned(s) => TypeDescriptor::Unsigned(*s),
            TypeDescriptor::Float(s) => TypeDescriptor::Float(*s),
            TypeDescriptor::Boolean => TypeDescriptor::Boolean,
            TypeDescriptor::Enum(e) => TypeDescriptor::Enum(e.clone()),
            TypeDescriptor::Compound(c) => {
                let n: usize = c.fields.len();
                let mut fields: Vec<CompoundField> = Vec::new();
                let mut i: usize = 0;
                proof {
                    lemma_field_views(c.fields@);
                    assert(field_views(c.fields@).take(0) =~= Seq::empty());
                }
                while i < n
                    invariant
                        i <= n == c.fields@.len(),
                        *self == TypeDescriptor::Compound(*c),
                        field_views(c.fields@).len() == n,
                        forall|k: int|
                            0 <= k < n ==> #[trigger] field_views(c.fields@)[k]
                                == c.fields@[k].model(),
                        field_views(fields@) == field_views(c.fields@).take(i as int),
                    decreases n - i,
                {
                    let f = &c.fields[i];
                    let ghost before = fields@;
                    proof {
                        lemma_field_smaller(*self, *c, i as int);
                    }
                    let ty = f.ty.duplicate();
                    let copy = CompoundField {
                        name: f.name.clone(),
                        ty,
                        offset: f.offset,
                        index: f.index,
                    };
                    fields.push(copy);
                    i += 1;
                    proof {
                        lemma_field_views_push(before, copy);
                        assert(copy.model() == field_views(c.fields@)[i - 1]);
                        assert(field_views(fields@) =~= field_views(c.fields@).take(i as int));
                    }
                }
                assert(field_views(c.fields@).take(n as int) =~= field_views(c.fields@));
                TypeDescriptor::Compound(CompoundType { fields, size: c.size })
            },
            TypeDescriptor::FixedArray(base, n) => {
                let b = base.duplicate();
                TypeDescriptor::FixedArray(Box::new(b), *n)
            },
            TypeDescriptor::FixedAscii(n) => TypeDescriptor::FixedAscii(*n),
            TypeDescriptor::FixedUnicode(n) => TypeDescriptor::FixedUnicode(*n),
            TypeDescriptor::VarLenArray(base) => {
                let b = base.duplicate();
                TypeDescriptor::VarLenArray(Box::new(b))
            },
            TypeDescriptor::VarLenAscii => TypeDescriptor::VarLenAscii,
            TypeDescriptor::VarLenUnicode => TypeDescriptor::VarLenUnicode,
        }
    }

    /// The bytes of an element in memory and in a file, where all sizes are within the
    /// range of the address type.
    fn measure(&self) -> (r: Option<(usize, usize)>)
        ensures
            match r {
                Some((m, d)) => self@.sized() && m == self@.size() && d == self@.disk_size(),
                None => !self@.sized(),
            },
        decreases self,
    {
        match self {
            TypeDescriptor::Compound(c) => {
                let n: usize = c.fields.len();
                let mut i: usize = 0;
                let ghost views = field_views(c.fields@);
                proof {
                    lemma_field_views(c.fields@);
                }
                assert(views.take(0) =~= Seq::empty());
                while i < n
                    invariant
                        i <= n == c.fields@.len(),
                        *self == TypeDescriptor::Compound(*c),
                        views == field_views(c.fields@),
                        views.len() == n,
                        forall|k: int| 0 <= k < n ==> #[trigger] views[k] == c.fields@[k].model(),
                        fields_sized(views.take(i as int)),
                    decreases n - i,
                {
                    proof {
                        lemma_field_smaller(*self, *c, i as int);
                        assert(views[i as int] == c.fields@[i as int].model());
                    }
                    let f = &c.fields[i];
                    if f.ty.measure().is_none() {
                        proof {
                            if fields_sized(views) {
                                lemma_fields_sized(views, i as int);
                            }
                        }
                        return None;
                    }
                    i += 1;
                    assert(views.take(i as int).drop_last() =~= views.take(i - 1));
                }
                assert(views.take(n as int) =~= views);
                Some((c.size, c.size))
            },
            TypeDescriptor::FixedArray(base, n) => match base.measure() {
                None => None,
                Some((m, d)) => match (m.checked_mul(*n), d.checked_mul(*n)) {
                    (Some(a), Some(b)) => Some((a, b)),
                    _ => None,
                },
            },
            TypeDescriptor::VarLenArray(base) => match base.measure() {
                None => None,
                Some(_) => Some((16, 16)),
            },
            TypeDescriptor::VarLenAscii | TypeDescriptor::VarLenUnicode => Some((8, 16)),
            TypeDescriptor::Integer(s) | TypeDescriptor::Unsigned(s) => Some(
                (s.width(), s.width()),
            ),
            TypeDescriptor::Float(s) => Some((s.width(), s.width())),
            TypeDescriptor::Boolean => Some((1, 1)),
            TypeDescriptor::Enum(e) => Some((e.size.width(), e.size.width())),
            TypeDescriptor::FixedAscii(n) | TypeDescriptor::FixedUnicode(n) => Some((*n, *n)),
        }
    }

    /// Whether all sizes are within the range of the address type.
    pub fn is_sized(&self) -> (r: bool)
        ensures
            r == self@.sized(),
    {
        self.measure().is_some()
    }

    /// Bytes of an element in memory.
    pub fn size(&self) -> (r: usize)
        requires
            self@.sized(),
        ensures
            r == self@.size(),
        decreases self,
    {
        match self {
            TypeDescriptor::Integer(s) => s.width(),
            TypeDescriptor::Unsigned(s) => s.width(),
            TypeDescriptor::Float(s) => s.width(),
            TypeDescriptor::Boolean => 1,
            TypeDescriptor::Enum(e) => e.size.width(),
            TypeDescriptor::Compound(c) => c.size,
            TypeDescriptor::FixedArray(base, n) => base.size() * *n,
            TypeDescriptor::FixedAscii(n) => *n,
            TypeDescriptor::FixedUnicode(n) => *n,
            TypeDescriptor::VarLenArray(base) => 16,
            TypeDescriptor::VarLenAscii => 8,
            TypeDescriptor::VarLenUnicode => 8,
        }
    }

    /// How the type is written in messages.
    pub fn to_text(&self) -> (r: String)
        ensures
            r@ == self@.text(),
        decreases self,
    {
        match self {
            TypeDescriptor::Integer(s) => int_name(*s, true),
            TypeDescriptor::Unsigned(s) => int_name(*s, false),
            TypeDescriptor::Float(FloatSize::U2) => String::from_str("float16"),
            TypeDescriptor::Float(FloatSize::U4) => String::from_str("float32"),
            TypeDescriptor::Float(FloatSize::U8) => String::from_str("float64"),
            TypeDescriptor::Boolean => String::from_str("bool"),
            TypeDescriptor::Enum(e) => {
                let inner = int_name(e.size, e.signed);
                join(join("enum (", inner.as_str()).as_str(), ")")
            },
            TypeDescriptor::Compound(c) => {
                proof {
                    lemma_field_views(c.fields@);
                }
                let n = decimal_string(c.fields.len() as u64);
                join(join("compound (", n.as_str()).as_str(), " fields)")
            },
            TypeDescriptor::FixedArray(base, n) => {
                let inner = base.to_text();
                let head = join(join("[", inner.as_str()).as_str(), "; ");
                join(join(head.as_str(), decimal_string(*n as u64).as_str()).as_str(), "]")
            },
            TypeDescriptor::FixedAscii(n) => {
                let len = decimal_string(*n as u64);
                join(join("string (len ", len.as_str()).as_str(), ")")
            },
            TypeDescriptor::FixedUnicode(n) => {
                let len = decimal_string(*n as u64);
                join(join("unicode (len ", len.as_str()).as_str(), ")")
            },
            TypeDescriptor::VarLenArray(base) => {
                let inner = base.to_text();
                join(join("[", inner.as_str()).as_str(), "] (var len)")
            },
            TypeDescriptor::VarLenAscii => String::from_str("string (var len)"),
            TypeDescriptor::VarLenUnicode => String::from_str("unicode (var len)"),
        }
    }
}

fn int_name(size: IntSize, signed: bool) -> (r: String)
    ensures
        r@ == int_text(size, signed),
{
    match (size, signed) {
        (IntSize::U1, true) => String::from_str("int8"),
        (IntSize::U2, true) => String::from_str("int16"),
        (IntSize::U4, true) => String::from_str("int32"),
        (IntSize::U8, true) => String::from_str("int64"),
        (IntSize::U1, false) => String::from_str("uint8"),
        (IntSize::U2, false) => String::from_str("uint16"),
        (IntSize::U4, false) => String::from_str("uint32"),
        (IntSize::U8, false) => String::from_str("uint64"),
    }
}

impl Clone for TypeDescriptor {
    fn clone(&self) -> (r: Self)
        ensures
            r@ == self@,
    {
        self.duplicate()
    }
}

} // verus!
