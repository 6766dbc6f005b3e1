//! Dataspaces: extents with a selection.

use vstd::prelude::*;

use crate::error::Error;
use crate::format::{law_le_round_trip, le_at, le_bytes, lemma_pow256, push_le, Cursor};
use crate::hl::extents::{products_fit, Extent, Extents, ExtentsView, Ix, SimpleExtents};
use crate::hl::points::{indices, RawSelection, RawView};
use crate::hl::selection::{selection_back, Selection};

verus! {

/// Extents and what is selected of them.
#[derive(Debug)]
pub struct Dataspace {
    pub extents: Extents,
    pub selection: RawSelection,
}

/// The view of a [`Dataspace`].
pub struct SpaceView {
    pub extents: ExtentsView,
    pub selection: RawView,
}

impl View for Dataspace {
    type V = SpaceView;

    open spec fn view(&self) -> SpaceView {
        SpaceView { extents: self.extents@, selection: self.selection@ }
    }
}

/// A dataspace of which everything is selected.
pub open spec fn whole_space(e: ExtentsView) -> SpaceView {
    SpaceView { extents: e, selection: RawView::All }
}

/// Whether a dataspace came out as `s` says.
pub open spec fn same_space(r: Result<Dataspace, Error>, s: Result<SpaceView, Seq<char>>) -> bool {
    match (r, s) {
        (Ok(v), Ok(w)) => v@ == w,
        (Err(e), Err(m)) => e@ == m,
        _ => false,
    }
}

/// The dataspace of some extents.
pub open spec fn space_of(e: ExtentsView) -> Result<SpaceView, Seq<char>> {
    if e.sound() {
        Ok(whole_space(e))
    } else {
        Err("invalid extents"@)
    }
}

/// The maximal size as it is written: all ones for none.
pub open spec fn max_word(m: Option<usize>) -> nat {
    match m {
        Some(n) => n as nat,
        None => u64::MAX as nat,
    }
}

/// The sizes of dimensions, each with its maximum.
pub open spec fn extents_encoded(e: Seq<Extent>) -> Seq<u8>
    decreases e.len(),
{
    if e.len() == 0 {
        Seq::empty()
    } else {
        extents_encoded(e.drop_last()) + le_bytes(e.last().dim as nat, 8) + le_bytes(
            max_word(e.last().max),
            8,
        )
    }
}

/// The bytes of a dataspace: its kind, the low byte of its number of dimensions and
/// the dimensions.
pub open spec fn space_encoded(e: ExtentsView) -> Seq<u8> {
    match e {
        ExtentsView::Null => seq![2u8, 0],
        ExtentsView::Scalar => seq![0u8, 0],
        ExtentsView::Simple(v) => seq![1u8, (v.len() % 256) as u8] + extents_encoded(v),
    }
}

/// The maximal size that a word stands for.
pub open spec fn word_max(m: nat) -> Option<usize> {
    if m == u64::MAX {
        None
    } else {
        Some(m as usize)
    }
}

/// The `n` dimensions at `p`, behind `acc`.
pub open spec fn extents_decoded(s: Seq<u8>, p: int, n: nat, acc: Seq<Extent>) -> Result<
    Seq<Extent>,
    Seq<char>,
>
    decreases n,
{
    if n == 0 {
        Ok(acc)
    } else if p + 16 > s.len() {
        Err("dataspace decode: buffer too short"@)
    } else if le_at(s, p, 8) > usize::MAX || le_at(s, p + 8, 8) > usize::MAX && le_at(s, p + 8, 8)
        != u64::MAX {
        Err("dataspace decode: dimension too large"@)
    } else {
        extents_decoded(
            s,
            p + 16,
            (n - 1) as nat,
            acc.push(
                Extent { dim: le_at(s, p, 8) as usize, max: word_max(le_at(s, p + 8, 8)) },
            ),
        )
    }
}

/// The dataspace that bytes stand for.
pub open spec fn space_decoded(s: Seq<u8>) -> Result<SpaceView, Seq<char>> {
    if s.len() < 2 {
        Err("dataspace decode: buffer too short"@)
    } else if s[0] == 2 {
        space_of(ExtentsView::Null)
    } else if s[0] == 0 {
        space_of(ExtentsView::Scalar)
    } else {
        match extents_decoded(s, 2, s[1] as nat, Seq::empty()) {
            Err(e) => Err(e),
            Ok(v) => space_of(ExtentsView::Simple(v)),
        }
    }
}

impl Dataspace {
    /// A dataspace of which everything is selected.
    pub fn try_new(extents: Extents) -> (r: Result<Self, Error>)
        ensures
            same_space(r, space_of(extents@)),
    {
        if !extents.is_valid() {
            return Err(Error::new("invalid extents"));
        }
        Ok(Dataspace { extents, selection: RawSelection::All })
    }

    pub fn ndim(&self) -> (r: usize)
        ensures
            r == self@.extents.dims().len(),
    {
        self.extents.ndim()
    }

    pub fn shape(&self) -> (r: Vec<Ix>)
        ensures
            r@ == self@.extents.dims(),
    {
        self.extents.dims()
    }

    pub fn maxdims(&self) -> (r: Vec<Option<Ix>>)
        ensures
            r@ == self@.extents.maxdims(),
    {
        self.extents.maxdims()
    }

    /// Whether a dimension has no maximum.
    pub fn is_resizable(&self) -> (r: bool)
        ensures
            r == exists|i: int|
                0 <= i < self@.extents.maxdims().len()
                    && #[trigger] self@.extents.maxdims()[i] is None,
    {
        self.extents.is_resizable()
    }

    pub fn is_null(&self) -> (r: bool)
        ensures
            r == (self@.extents is Null),
    {
        self.extents.is_null()
    }

    pub fn is_scalar(&self) -> (r: bool)
        ensures
            r == (self@.extents is Scalar),
    {
        self.extents.is_scalar()
    }

    pub fn is_simple(&self) -> (r: bool)
        ensures
            r == (self@.extents is Simple),
    {
        self.extents.is_simple()
    }

    pub fn is_valid(&self) -> (r: bool)
        ensures
            r == self@.extents.sound(),
    {
        self.extents.is_valid()
    }

    /// The number of elements.
    pub fn size(&self) -> (r: usize)
        requires
            products_fit(self@.extents.dims()),
        ensures
            r == self@.extents.size(),
    {
        self.extents.size()
    }

    /// The extents as bytes.
    pub fn encode(&self) -> (r: Vec<u8>)
        ensures
            r@ == space_encoded(self@.extents),
    {
        let mut out: Vec<u8> = Vec::new();
        match &self.extents {
            Extents::Null => {
                out.push(2);
                out.push(0);
            },
            Extents::Scalar => {
                out.push(0);
                out.push(0);
            },
            Extents::Simple(e) => {
                let n: usize = e.inner.len();
                out.push(1);
                out.push((n % 256) as u8);
                let ghost head = out@;
                let mut i: usize = 0;
                assert(e.inner@.take(0) =~= Seq::empty());
                assert(out@ =~= head + extents_encoded(e.inner@.take(0)));
                while i < n
                    invariant
                        i <= n == e.inner@.len(),
                        out@ == head + extents_encoded(e.inner@.take(i as int)),
                    decreases n - i,
                {
                    let x = e.inner[i];
                    assert(e.inner@.take(i + 1).drop_last() =~= e.inner@.take(i as int));
                    push_le(&mut out, x.dim as u64, 8);
                    let max: u64 = match x.max {
                        Some(m) => m as u64,
                        None => u64::MAX,
                    };
                    push_le(&mut out, max, 8);
                    i += 1;
                    assert(out@ =~= head + extents_encoded(e.inner@.take(i as int)));
                }
                assert(e.inner@.take(n as int) =~= e.inner@);
            },
        }
        assert(out@ =~= space_encoded(self@.extents));
        out
    }

    /// The dataspace that bytes stand for.
    pub fn decode(buf: &[u8]) -> (r: Result<Self, Error>)
        ensures
            same_space(r, space_decoded(buf@)),
    {
        if buf.len() < 2 {
            return Err(Error::new("dataspace decode: buffer too short"));
        }
        let kind: u8 = buf[0];
        let ndim: usize = buf[1] as usize;
        if kind == 2 {
            return Self::try_new(Extents::Null);
        }
        if kind == 0 {
            return Self::try_new(Extents::Scalar);
        }
        let ghost whole = extents_decoded(buf@, 2, ndim as nat, Seq::empty());
        let mut inner: Vec<Extent> = Vec::new();
        let mut pos: usize = 2;
        let mut i: usize = 0;
        while i < ndim
            invariant
                i <= ndim,
                2 <= pos <= buf@.len(),
                ndim == buf@[1] as usize,
                buf@.len() >= 2,
                buf@[0] != 0,
                buf@[0] != 2,
                whole == extents_decoded(buf@, 2, ndim as nat, Seq::empty()),
                whole == extents_decoded(buf@, pos as int, (ndim - i) as nat, inner@),
            decreases ndim - i,
        {
            if buf.len() - pos < 16 {
                return Err(Error::new("dataspace decode: buffer too short"));
            }
            let mut c = Cursor::at(buf, pos);
            proof {
                crate::format::lemma_le_bound(buf@.subrange(pos as int, pos + 8));
                crate::format::lemma_le_bound(buf@.subrange(pos + 8, pos + 16));
                lemma_pow256();
            }
            let d: u64 = match c.u64() {
                Ok(v) => v,
                Err(e) => return Err(e),
            };
            let m: u64 = match c.u64() {
                Ok(v) => v,
                Err(e) => return Err(e),
            };
            if d > usize::MAX as u64 || (m > usize::MAX as u64 && m != u64::MAX) {
                return Err(Error::new("dataspace decode: dimension too large"));
            }
            let max: Option<usize> = if m == u64::MAX {
                None
            } else {
                Some(m as usize)
            };
            inner.push(Extent { dim: d as usize, max });
            pos += 16;
            i += 1;
        }
        Self::try_new(Extents::Simple(SimpleExtents { inner }))
    }

    /// The number of selected elements; the size where the selection does not fit.
    pub fn selection_size(&self) -> (r: usize)
        requires
            products_fit(self@.extents.dims()),
            self@.selection.sound(),
        ensures
            match indices(self@.selection, self@.extents.dims()) {
                Ok(v) => r == v.len(),
                Err(_) => r == self@.extents.size(),
            },
    {
        match self.selection.linear_indices(self.extents.dims().as_slice()) {
            Ok(v) => v.len(),
            Err(_) => self.extents.size(),
        }
    }

    /// A copy with the given selection.
    pub fn select(&self, selection: Selection) -> (r: Result<Self, Error>)
        requires
            selection@.sound(),
        ensures
            same_space(
                r,
                match selection@.raw(self@.extents.dims()) {
                    Err(e) => Err(e),
                    Ok(s) => Ok(SpaceView { extents: self@.extents, selection: s }),
                },
            ),
    {
        let shape = self.extents.dims();
        let raw = selection.into_raw(shape.as_slice())?;
        Ok(Dataspace { extents: self.extents.clone(), selection: raw })
    }

    /// A copy with the given selection, as it is.
    pub fn select_raw(&self, raw_sel: RawSelection) -> (r: Self)
        ensures
            r@ == (SpaceView { extents: self@.extents, selection: raw_sel@ }),
    {
        Dataspace { extents: self.extents.clone(), selection: raw_sel }
    }

    pub fn get_raw_selection(&self) -> (r: RawSelection)
        ensures
            r@ == self@.selection,
    {
        self.selection.clone()
    }

    pub fn get_selection(&self) -> (r: Result<Selection, Error>)
        ensures
            match (r, selection_back(self@.selection)) {
                (Ok(v), Ok(w)) => v@ == w,
                (Err(e), Err(m)) => e@ == m,
                _ => false,
            },
    {
        Selection::from_raw(self.selection.clone())
    }

    pub fn copy(&self) -> (r: Self)
        ensures
            r@ == self@,
    {
        Dataspace { extents: self.extents.clone(), selection: self.selection.clone() }
    }
}

proof fn lemma_encoded_at(e: Seq<Extent>, i: int)
    requires
        0 <= i <= e.len(),
    ensures
        extents_encoded(e).len() == 16 * e.len(),
        extents_encoded(e.take(i)).len() == 16 * i,
        extents_encoded(e).take(16 * i) == extents_encoded(e.take(i)),
    decreases e.len() - i,
{
    lemma_encoded_len(e);
    lemma_encoded_len(e.take(i));
    if i == e.len() {
        assert(e.take(i) =~= e);
        assert(extents_encoded(e).take(16 * i) =~= extents_encoded(e));
    } else {
        lemma_encoded_at(e, i + 1);
        let more = e.take(i + 1);
        assert(more.drop_last() =~= e.take(i));
        assert(extents_encoded(e).take(16 * i) =~= extents_encoded(more).take(16 * i));
        assert(extents_encoded(more).take(16 * i) =~= extents_encoded(e.take(i)));
    }
}

proof fn lemma_encoded_len(e: Seq<Extent>)
    ensures
        extents_encoded(e).len() == 16 * e.len(),
    decreases e.len(),
{
    if e.len() > 0 {
        lemma_encoded_len(e.drop_last());
        crate::format::lemma_le_bytes_len(e.last().dim as nat, 8);
        crate::format::lemma_le_bytes_len(max_word(e.last().max), 8);
    }
}

proof fn lemma_decoded_back(e: Seq<Extent>, head: Seq<u8>, i: int, acc: Seq<Extent>)
    requires
        head.len() == 2,
        0 <= i <= e.len(),
        acc == e.take(i),
        forall|j: int|
            0 <= j < e.len() ==> (#[trigger] e[j]).max is None || max_word(e[j].max) < u64::MAX,
    ensures
        extents_decoded(head + extents_encoded(e), 2 + 16 * i, (e.len() - i) as nat, acc) == Ok::<
            Seq<Extent>,
            Seq<char>,
        >(e),
    decreases e.len() - i,
{
    let s = head + extents_encoded(e);
    if i < e.len() {
        let p = 2 + 16 * i;
        lemma_encoded_at(e, i + 1);
        lemma_encoded_at(e, i);
        let (d, m) = (le_bytes(e[i].dim as nat, 8), le_bytes(max_word(e[i].max), 8));
        lemma_pow256();
        law_le_round_trip(e[i].dim as nat, 8);
        law_le_round_trip(max_word(e[i].max), 8);
        assert(e.take(i + 1).drop_last() =~= e.take(i));
        let part = extents_encoded(e.take(i)) + d + m;
        assert(extents_encoded(e.take(i + 1)) == part);
        assert(s.subrange(p, p + 8) =~= d) by {
            assert forall|k: int| 0 <= k < 8 implies s[p + k] == d[k] by {
                assert(extents_encoded(e).take(16 * (i + 1))[16 * i + k] == part[16 * i + k]);
            }
        }
        assert(s.subrange(p + 8, p + 16) =~= m) by {
            assert forall|k: int| 0 <= k < 8 implies s[p + 8 + k] == m[k] by {
                assert(extents_encoded(e).take(16 * (i + 1))[16 * i + 8 + k] == part[16 * i + 8
                    + k]);
            }
        }
        let next = acc.push(Extent { dim: e[i].dim, max: e[i].max });
        assert(next =~= e.take(i + 1));
        assert(e[i].max is None || max_word(e[i].max) < u64::MAX);
        lemma_decoded_back(e, head, i + 1, next);
    } else {
        assert(e.take(i) =~= e);
    }
}

/// The extents of a dataspace come back from its bytes. A maximum of all ones is
/// how no maximum is written.
pub proof fn law_space_round_trip(e: ExtentsView)
    requires
        e.sound(),
        e matches ExtentsView::Simple(v) ==> forall|j: int|
            0 <= j < v.len() ==> (#[trigger] v[j]).max is None || max_word(v[j].max) < u64::MAX,
    ensures
        space_decoded(space_encoded(e)) == Ok::<SpaceView, Seq<char>>(whole_space(e)),
{
    if let ExtentsView::Simple(v) = e {
        let head = seq![1u8, (v.len() % 256) as u8];
        assert(v.take(0) =~= Seq::empty());
        lemma_decoded_back(v, head, 0, Seq::empty());
    }
}

} // verus!
