//! The extents of dataspaces.

use vstd::prelude::*;

verus! {

/// The type of a dimension.
pub type Ix = usize;

/// One dimension: its current size and its maximal one, if it has one.
#[derive(Clone, Copy, Debug, PartialEq, Eq)]
pub struct Extent {
    pub dim: Ix,
    pub max: Option<Ix>,
}

impl Extent {
    /// Whether the size is within its maximum.
    pub open spec fn sound(self) -> bool {
        self.max matches Some(m) ==> self.dim <= m
    }

    pub fn new(dim: Ix, max: Option<Ix>) -> (r: Self)
        ensures
            r.dim == dim,
            r.max == max,
    {
        Extent { dim, max }
    }

    pub fn is_valid(&self) -> (r: bool)
        ensures
            r == self.sound(),
    {
        match self.max {
            Some(m) => self.dim <= m,
            None => true,
        }
    }

    pub fn is_resizable(&self) -> (r: bool)
        ensures
            r == (self.max is None),
    {
        self.max.is_none()
    }
}

/// The dimensions of a simple dataspace.
#[derive(Debug)]
pub struct SimpleExtents {
    pub inner: Vec<Extent>,
}

impl SimpleExtents {
    pub fn from_vec(extents: Vec<Extent>) -> (r: Self)
        ensures
            r.inner@ == extents@,
    {
        SimpleExtents { inner: extents }
    }
}

/// The extents of a dataspace.
#[derive(Debug)]
pub enum Extents {
    /// No elements and no dimensions.
    Null,
    /// One element without dimensions.
    Scalar,
    /// An array.
    Simple(SimpleExtents),
}

/// The view of [`Extents`].
pub enum ExtentsView {
    Null,
    Scalar,
    Simple(Seq<Extent>),
}

impl View for Extents {
    type V = ExtentsView;

    open spec fn view(&self) -> ExtentsView {
        match *self {
            Extents::Null => ExtentsView::Null,
            Extents::Scalar => ExtentsView::Scalar,
            Extents::Simple(e) => ExtentsView::Simple(e.inner@),
        }
    }
}

/// The largest number of dimensions.
pub const MAX_RANK: usize = 32;

impl ExtentsView {
    /// The current sizes.
    pub open spec fn dims(self) -> Seq<usize> {
        match self {
            ExtentsView::Simple(e) => e.map_values(|x: Extent| x.dim),
            _ => Seq::empty(),
        }
    }

    /// The maximal sizes.
    pub open spec fn maxdims(self) -> Seq<Option<usize>> {
        match self {
            ExtentsView::Simple(e) => e.map_values(|x: Extent| x.max),
            _ => Seq::empty(),
        }
    }

    /// Whether there are not too many dimensions, each within its maximum.
    pub open spec fn sound(self) -> bool {
        match self {
            ExtentsView::Simple(e) => e.len() <= MAX_RANK && forall|i: int|
                0 <= i < e.len() ==> (#[trigger] e[i]).sound(),
            _ => true,
        }
    }

    /// The number of elements.
    pub open spec fn size(self) -> nat {
        match self {
            ExtentsView::Null => 0,
            ExtentsView::Scalar => 1,
            ExtentsView::Simple(e) => product(self.dims()),
        }
    }
}

/// The product of some sizes.
pub open spec fn product(v: Seq<usize>) -> nat
    decreases v.len(),
{
    if v.len() == 0 {
        1
    } else {
        product(v.drop_last()) * v.last() as nat
    }
}

/// Whether the partial products of sizes can be computed.
pub open spec fn products_fit(v: Seq<usize>) -> bool {
    forall|i: int| 0 <= i <= v.len() ==> #[trigger] product(v.take(i)) <= usize::MAX
}

/// Multiplies sizes.
pub fn multiply(v: &[usize]) -> (r: usize)
    requires
        products_fit(v@),
    ensures
        r == product(v@),
{
    let n: usize = v.len();
    let mut r: usize = 1;
    let mut i: usize = 0;
    assert(v@.take(0) =~= Seq::empty());
    while i < n
        invariant
            i <= n == v@.len(),
            r == product(v@.take(i as int)),
            products_fit(v@),
        decreases n - i,
    {
        proof {
            assert(v@.take(i + 1).drop_last() =~= v@.take(i as int));
            assert(product(v@.take(i + 1)) <= usize::MAX);
        }
        r = r * v[i];
        i += 1;
    }
    assert(v@.take(n as int) =~= v@);
    r
}

impl Clone for Extents {
    fn clone(&self) -> (r: Self)
        ensures
            r@ == self@,
    {
        match self {
            Extents::Null => Extents::Null,
            Extents::Scalar => Extents::Scalar,
            Extents::Simple(e) => {
                let mut inner: Vec<Extent> = Vec::new();
                let n: usize = e.inner.len();
                let mut i: usize = 0;
                while i < n
                    invariant
                        i <= n == e.inner@.len(),
                        inner@ =~= e.inner@.take(i as int),
                    decreases n - i,
                {
                    inner.push(e.inner[i]);
                    i += 1;
                }
                assert(inner@ =~= e.inner@);
                Extents::Simple(SimpleExtents { inner })
            },
        }
    }
}

impl Extents {
    pub fn simple(extents: SimpleExtents) -> (r: Self)
        ensures
            r@ == ExtentsView::Simple(extents.inner@),
    {
        Extents::Simple(extents)
    }

    /// Fixed sizes.
    pub fn fixed(dims: &[Ix]) -> (r: Self)
        ensures
            r@ matches ExtentsView::Simple(e) && e == dims@.map_values(
                |d: usize| Extent { dim: d, max: Some(d) },
            ),
    {
        let mut inner: Vec<Extent> = Vec::new();
        let n: usize = dims.len();
        let mut i: usize = 0;
        while i < n
            invariant
                i <= n == dims@.len(),
                inner@ =~= dims@.take(i as int).map_values(
                    |d: usize| Extent { dim: d, max: Some(d) },
                ),
            decreases n - i,
        {
            inner.push(Extent { dim: dims[i], max: Some(dims[i]) });
            i += 1;
        }
        assert(dims@.take(n as int) =~= dims@);
        Extents::Simple(SimpleExtents { inner })
    }

    pub fn is_null(&self) -> (r: bool)
        ensures
            r == (self@ is Null),
    {
        matches!(self, Extents::Null)
    }

    pub fn is_scalar(&self) -> (r: bool)
        ensures
            r == (self@ is Scalar),
    {
        matches!(self, Extents::Scalar)
    }

    pub fn is_simple(&self) -> (r: bool)
        ensures
            r == (self@ is Simple),
    {
        matches!(self, Extents::Simple(_))
    }

    pub fn ndim(&self) -> (r: usize)
        ensures
            r == self@.dims().len(),
    {
        match self {
            Extents::Simple(e) => e.inner.len(),
            _ => 0,
        }
    }

    pub fn dims(&self) -> (r: Vec<Ix>)
        ensures
            r@ == self@.dims(),
    {
        let mut v: Vec<Ix> = Vec::new();
        if let Extents::Simple(e) = self {
            let n: usize = e.inner.len();
            let mut i: usize = 0;
            while i < n
                invariant
                    i <= n == e.inner@.len(),
                    v@ =~= e.inner@.take(i as int).map_values(|x: Extent| x.dim),
                decreases n - i,
            {
                v.push(e.inner[i].dim);
                i += 1;
            }
            assert(e.inner@.take(n as int) =~= e.inner@);
        }
        assert(v@ =~= self@.dims());
        v
    }

    pub fn maxdims(&self) -> (r: Vec<Option<Ix>>)
        ensures
            r@ == self@.maxdims(),
    {
        let mut v: Vec<Option<Ix>> = Vec::new();
        if let Extents::Simple(e) = self {
            let n: usize = e.inner.len();
            let mut i: usize = 0;
            while i < n
                invariant
                    i <= n == e.inner@.len(),
                    v@ =~= e.inner@.take(i as int).map_values(|x: Extent| x.max),
                decreases n - i,
            {
                v.push(e.inner[i].max);
                i += 1;
            }
            assert(e.inner@.take(n as int) =~= e.inner@);
        }
        assert(v@ =~= self@.maxdims());
        v
    }

    pub fn is_valid(&self) -> (r: bool)
        ensures
            r == self@.sound(),
    {
        if let Extents::Simple(e) = self {
            let n: usize = e.inner.len();
            if n > MAX_RANK {
                return false;
            }
            let mut i: usize = 0;
            while i < n
                invariant
                    i <= n == e.inner@.len(),
                    self@ == ExtentsView::Simple(e.inner@),
                    forall|j: int| 0 <= j < i ==> (#[trigger] e.inner@[j]).sound(),
                decreases n - i,
            {
                if !e.inner[i].is_valid() {
                    return false;
                }
                i += 1;
            }
        }
        true
    }

    /// Whether a dimension has no maximum.
    pub fn is_resizable(&self) -> (r: bool)
        ensures
            r == exists|i: int|
                0 <= i < self@.maxdims().len() && #[trigger] self@.maxdims()[i] is None,
    {
        if let Extents::Simple(e) = self {
            let n: usize = e.inner.len();
            let mut i: usize = 0;
            while i < n
                invariant
                    i <= n == e.inner@.len(),
                    self@ == ExtentsView::Simple(e.inner@),
                    forall|j: int| 0 <= j < i ==> (#[trigger] e.inner@[j]).max is Some,
                decreases n - i,
            {
                if e.inner[i].max.is_none() {
                    assert(self@.maxdims()[i as int] is None);
                    return true;
                }
                i += 1;
            }
            assert forall|j: int|
                0 <= j < self@.maxdims().len() implies #[trigger] self@.maxdims()[j] is Some by {
                assert(self@.maxdims()[j] == e.inner@[j].max);
            }
        }
        false
    }

    /// The number of elements.
    pub fn size(&self) -> (r: usize)
        requires
            products_fit(self@.dims()),
        ensures
            r == self@.size(),
    {
        match self {
            Extents::Null => 0,
            Extents::Scalar => 1,
            Extents::Simple(_) => multiply(self.dims().as_slice()),
        }
    }
}

} // verus!
