//! Attributes and their creation.

use vstd::prelude::*;

use crate::error::{same_unit, Error};
use crate::format::convert::{disk_size, zero_bytes};
use crate::format::zeroes;
use crate::hl::extents::{Extents, ExtentsView};
use crate::hl::group::{between, named_error, with_object};
use crate::hl::location::Location;
use crate::hl::points::{wide, widen};
use crate::model::{
    attr_at, attr_views, count_elements, elements, AttrData, AttrView, FileState, FileView,
    NodeView,
};
use crate::types::{TypeDescriptor, TypeView};

verus! {

/// The number of elements of some extents.
pub open spec fn extents_total(e: ExtentsView) -> nat {
    elements(e is Null, e is Scalar, wide(e.dims()))
}

/// Whether elements can be counted, and their bytes held in memory.
pub open spec fn extents_hold(e: ExtentsView, esize: nat) -> bool {
    &&& e is Simple ==> crate::format::grid::countable(wide(e.dims()))
    &&& extents_total(e) * esize <= usize::MAX
}

/// A new attribute: all its bytes are zero.
pub open spec fn new_attr(name: Seq<char>, ty: TypeView, e: ExtentsView) -> AttrView {
    AttrView {
        name,
        dtype: ty,
        dims: wide(e.dims()),
        is_scalar: e is Scalar,
        is_null: e is Null,
        data: zeroes(extents_total(e) * ty.disk_size()),
        vlen: Seq::empty(),
    }
}

/// A file after an attribute was made.
pub open spec fn attr_created(
    f: FileView,
    owner: nat,
    name: Seq<char>,
    ty: TypeView,
    e: ExtentsView,
) -> (FileView, Result<(), Seq<char>>) {
    if !extents_hold(e, ty.disk_size()) {
        (f, Err("attribute too large"@))
    } else if f.read_only {
        (f, Err("unable to create attribute: file is read-only"@))
    } else {
        match f.object(owner) {
            None => (f, Err("dangling object"@)),
            Some(n) => if attr_at(n.attrs, name) is Some {
                (f, Err(between("attribute '"@, name, "' already exists"@)))
            } else {
                (
                    with_object(
                        f,
                        owner,
                        NodeView { attrs: n.attrs.push(new_attr(name, ty, e)), ..n },
                    ),
                    Ok(()),
                )
            },
        }
    }
}

impl Location {
    /// Makes an attribute of a type as it is in a file.
    pub fn create_attr(
        &self,
        state: &mut FileState,
        name: &str,
        dtype: TypeDescriptor,
        extents: &Extents,
    ) -> (r: Result<(), Error>)
        requires
            dtype@.sized(),
        ensures
            final(state)@ == attr_created(
                old(state)@,
                self.id as nat,
                name@,
                dtype@,
                extents@,
            ).0,
            same_unit(
                r,
                attr_created(old(state)@, self.id as nat, name@, dtype@, extents@).1,
            ),
    {
        let ghost f = state@;
        let esize: usize = disk_size(&dtype);
        let dims = widen(extents.dims().as_slice());
        let is_scalar = extents.is_scalar();
        let is_null = extents.is_null();
        let n: u64 = match count_elements(is_null, is_scalar, dims.as_slice()) {
            None => {
                return Err(Error::new("attribute too large"));
            },
            Some(n) => n,
        };
        assert(n as int * esize as int <= 0xffff_ffff_ffff_ffff * 0xffff_ffff_ffff_ffff)
            by (nonlinear_arith)
            requires
                0 <= n as int <= 0xffff_ffff_ffff_ffff,
                0 <= esize as int <= 0xffff_ffff_ffff_ffff,
        ;
        let bytes: u128 = n as u128 * esize as u128;
        if bytes > usize::MAX as u128 {
            return Err(Error::new("attribute too large"));
        }
        if state.read_only {
            return Err(Error::new("unable to create attribute: file is read-only"));
        }
        if state.try_get(self.id).is_none() {
            return Err(Error::new("dangling object"));
        }
        if state.get(self.id).attr_index(name).is_some() {
            return Err(named_error("attribute '", name, "' already exists"));
        }
        let a = AttrData {
            name: String::from_str(name),
            dtype,
            dims,
            is_scalar,
            is_null,
            data: zero_bytes(bytes as usize),
            vlen: Vec::new(),
        };
        assert(a@ =~= new_attr(name@, dtype@, extents@));
        let node = state.get_mut(self.id);
        let ghost before = node.attrs@;
        node.attrs.push(a);
        assert(attr_views(node.attrs@) =~= attr_views(before).push(a@));
        assert(state@ =~= attr_created(f, self.id as nat, name@, dtype@, extents@).0);
        Ok(())
    }
}

/// The number of the first attribute with a name is where the attribute is.
pub(crate) proof fn lemma_attr_at(attrs: Seq<AttrView>, name: Seq<char>)
    ensures
        match attr_at(attrs, name) {
            Some(i) => i < attrs.len() && attrs[i as int].name == name && forall|j: int|
                0 <= j < i ==> (#[trigger] attrs[j]).name != name,
            None => forall|j: int| 0 <= j < attrs.len() ==> (#[trigger] attrs[j]).name != name,
        },
    decreases attrs.len(),
{
    if attrs.len() > 0 && attrs[0].name != name {
        lemma_attr_at(attrs.skip(1), name);
        let rest = attrs.skip(1);
        match attr_at(attrs, name) {
            Some(i) => {
                assert forall|j: int| 0 <= j < i implies (#[trigger] attrs[j]).name != name by {
                    if j > 0 {
                        assert(rest[j - 1] == attrs[j]);
                    }
                }
            },
            None => {
                assert forall|j: int| 0 <= j < attrs.len() implies (#[trigger] attrs[j]).name
                    != name by {
                    if j > 0 {
                        assert(rest[j - 1] == attrs[j]);
                    }
                }
            },
        }
    }
}

/// An attribute that was made is found by its name, and no second one can be made
/// with it.
pub proof fn law_attr_created_found(
    f: FileView,
    owner: nat,
    name: Seq<char>,
    ty: TypeView,
    e: ExtentsView,
)
    requires
        attr_created(f, owner, name, ty, e).1 is Ok,
    ensures
        ({
            let g = attr_created(f, owner, name, ty, e).0;
            let attrs = g.object(owner)->0.attrs;
            &&& attr_at(attrs, name) == Some((attrs.len() - 1) as nat)
            &&& attrs.last() == new_attr(name, ty, e)
            &&& attr_created(g, owner, name, ty, e).1 is Err
        }),
{
    let before = f.object(owner)->0.attrs;
    let after = before.push(new_attr(name, ty, e));
    lemma_attr_at(before, name);
    lemma_attr_at(after, name);
    match attr_at(after, name) {
        Some(k) => {
            if k < before.len() {
                assert(after[k as int] == before[k as int]);
            }
        },
        None => {
            assert(after[after.len() - 1].name == name);
        },
    }
}

} // verus!
