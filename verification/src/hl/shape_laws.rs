//! What a dataset that was made says of itself.

use vstd::prelude::*;

use crate::hl::attribute::new_attr;
use crate::hl::container::PlaceView;
use crate::hl::dataset::{dataset_made, ChunkChoice, Layout, PlanView};
use crate::hl::dataset_laws::lemma_repeated_all;
use crate::hl::extents::ExtentsView;
use crate::hl::location::{commented, location_info, LocationType};
use crate::hl::shape::{
    attr_extents, container_storage, dataset_extents, dataset_settings, fill_value_of,
};
use crate::model::FileView;
use crate::types::TypeView;

verus! {

/// The extents of a dataset are those that it was made with.
pub proof fn law_made_extents(p: PlanView)
    requires
        dataset_made(p) is Ok,
    ensures
        dataset_extents(dataset_made(p)->Ok_0) == p.extents,
{
    let d = dataset_made(p)->Ok_0;
    if let ExtentsView::Simple(e) = p.extents {
        let r = dataset_extents(d)->Simple_0;
        assert(d.dims.len() == e.len() && d.maxdims.len() == e.len());
        assert forall|i: int| 0 <= i < e.len() implies r[i] == e[i] by {
            assert(p.extents.dims()[i] == e[i].dim);
            assert(p.extents.maxdims()[i] == e[i].max);
            assert(d.dims[i] == e[i].dim);
        }
        assert(r =~= e);
    }
}

/// The data of a new dataset take the bytes of all its elements.
pub proof fn law_made_storage(f: FileView, id: nat, p: PlanView)
    requires
        p.sound(),
        dataset_made(p) is Ok,
        f.dataset(id) == Some(dataset_made(p)->Ok_0),
    ensures
        container_storage(f, PlaceView::Dataset(id)) == p.total() * p.dtype.disk_size(),
{
    if let Some(Ok(v)) = p.fill {
        lemma_repeated_all(v, p.total());
    }
}

/// A dataset reports the filters, the chunks and the fill value that it was made with, and
/// says that it is chunked exactly where it has chunks.
pub proof fn law_made_settings(p: PlanView)
    requires
        p.sound(),
        dataset_made(p) is Ok,
        p.maps.len() == 0,
    ensures
        ({
            let s = dataset_settings(dataset_made(p)->Ok_0);
            &&& s.filters == p.filters
            &&& s.chunk is Some <==> s.layout == Layout::Chunked
            &&& p.chunk matches Some(ChunkChoice::Exact(c)) ==> s.chunk == Some(c)
            &&& p.chunk matches Some(ChunkChoice::Unchunked) ==> s.layout == Layout::Contiguous
            &&& p.filters.len() > 0 || p.resizable() ==> s.layout == Layout::Chunked
            &&& p.fill is None ==> s.fill_value is None
            &&& p.dtype is Integer || p.dtype is Unsigned ==> (p.fill matches Some(Ok(v))
                ==> s.fill_value == Some((p.dtype, v)))
        }),
{
    let d = dataset_made(p)->Ok_0;
    let s = dataset_settings(d);
    if let Some(ChunkChoice::Exact(c)) = p.chunk {
        assert(s.chunk->0 =~= c);
    }
    if let Some(Ok(v)) = p.fill {
        if p.dtype is Integer || p.dtype is Unsigned {
            assert(v.take(v.len() as int) =~= v);
        }
    }
}

/// The fill value of truth values is one byte, which is one exactly where the first byte
/// given is not zero.
pub proof fn law_fill_truth(bytes: Seq<u8>)
    ensures
        fill_value_of(TypeView::Boolean, bytes) matches Some((t, v)) && t == TypeView::Boolean
            && v.len() == 1 && (v[0] == 1 <==> bytes.len() > 0 && bytes[0] != 0) && v[0] <= 1,
{
}

/// An attribute has the sizes that it was made with, and these are its maxima.
pub proof fn law_attr_extents(name: Seq<char>, ty: TypeView, e: ExtentsView)
    ensures
        ({
            let r = attr_extents(new_attr(name, ty, e));
            &&& r is Null <==> e is Null
            &&& r is Scalar <==> e is Scalar
            &&& r.dims() == e.dims()
            &&& r.maxdims() == e.dims().map_values(|d: usize| Some(d))
        }),
{
    let r = attr_extents(new_attr(name, ty, e));
    if let ExtentsView::Simple(x) = e {
        let y = r->Simple_0;
        assert(y.len() == x.len());
        assert forall|i: int| 0 <= i < x.len() implies y[i].dim == x[i].dim && y[i].max == Some(
            x[i].dim,
        ) by {
            assert(e.dims()[i] == x[i].dim);
        }
    }
    assert(r.dims() =~= e.dims());
    assert(r.maxdims() =~= e.dims().map_values(|d: usize| Some(d)));
}

/// A comment that was set is the object's comment; nothing else of it changes, and no other
/// object does.
pub proof fn law_comment_set(f: FileView, id: nat, comment: Option<Seq<char>>, other: nat)
    requires
        !f.read_only,
        f.object(id) is Some,
    ensures
        ({
            let (g, r) = commented(f, id, comment);
            &&& r is Ok
            &&& g.object(id) matches Some(n) && n.comment == comment && n.kind == f.object(
                id,
            )->0.kind && n.attrs == f.object(id)->0.attrs && n.refcount == f.object(id)->0.refcount
                && n.mtime == f.object(id)->0.mtime
            &&& other != id ==> g.object(other) == f.object(other)
            &&& g.objects.len() == f.objects.len() && g.root == f.root
        }),
{
}

/// The type of an object says what it is, and its count of links and attributes are those
/// that it has.
pub proof fn law_location_info(f: FileView, fileno: u64, id: nat)
    requires
        id <= u64::MAX,
        f.object(id) matches Some(n) && n.refcount <= usize::MAX && n.attrs.len() <= usize::MAX,
    ensures
        ({
            let r = location_info(f, fileno, id);
            &&& r is Err <==> f.object(id)->0.kind is Unsupported
            &&& r is Ok ==> (r->Ok_0.loc_type == LocationType::Group <==> f.group(id) is Some)
            &&& r is Ok ==> (r->Ok_0.loc_type == LocationType::Dataset <==> f.dataset(id) is Some)
            &&& r is Ok ==> r->Ok_0.token.0 == id && r->Ok_0.fileno == fileno
            &&& r is Ok ==> r->Ok_0.num_links == f.object(id)->0.refcount
            &&& r is Ok ==> r->Ok_0.num_attrs == f.object(id)->0.attrs.len()
            &&& r is Ok ==> r->Ok_0.mtime == f.object(id)->0.mtime
        }),
{
}

} // verus!
