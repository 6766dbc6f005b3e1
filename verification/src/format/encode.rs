//! Encoding of header messages.

use vstd::prelude::*;
use vstd::utf8::encode_utf8;

use crate::error::{same_bytes, Error};
use crate::format::filters::{filter_views, FilterView, RawFilter};
use crate::format::{align8, aligned8, le_bytes, push_le, zeroes, Buf, UNDEF};
use crate::model::{FillValue, FillView, Link, LinkTarget, LinkView, TargetView};

verus! {

/// Numbers of 8 bytes each.
pub open spec fn words64(v: Seq<u64>) -> Seq<u8>
    decreases v.len(),
{
    if v.len() == 0 {
        Seq::empty()
    } else {
        words64(v.drop_last()) + le_bytes(v.last() as nat, 8)
    }
}

/// Numbers of 4 bytes each.
pub open spec fn words32(v: Seq<u32>) -> Seq<u8>
    decreases v.len(),
{
    if v.len() == 0 {
        Seq::empty()
    } else {
        words32(v.drop_last()) + le_bytes(v.last() as nat, 4)
    }
}

/// Maximal dimensions as they are stored, one for each dimension.
pub open spec fn stored_limits(dims: Seq<u64>, maxdims: Seq<Option<u64>>) -> Seq<u64> {
    maxdims.map_values(
        |m: Option<u64>|
            match m {
                Some(v) => v,
                None => UNDEF,
            },
    ) + (if maxdims.len() < dims.len() {
        dims.skip(maxdims.len() as int)
    } else {
        Seq::empty()
    })
}

/// A dataspace message.
pub open spec fn dataspace_message(
    dims: Seq<u64>,
    maxdims: Seq<Option<u64>>,
    is_scalar: bool,
    is_null: bool,
) -> Seq<u8> {
    if is_null {
        seq![2u8, 0u8, 0u8, 2u8]
    } else if is_scalar {
        seq![1u8, 0u8, 0u8] + zeroes(5)
    } else {
        seq![1u8, (dims.len() % 256) as u8, 1u8] + zeroes(5) + words64(dims) + words64(
            stored_limits(dims, maxdims),
        )
    }
}

fn push_words64(b: &mut Buf, v: &[u64])
    ensures
        final(b)@ == old(b)@ + words64(v@),
{
    let n: usize = v.len();
    let ghost start = b@;
    let mut i: usize = 0;
    assert(v@.take(0) =~= Seq::empty());
    assert(start + words64(v@.take(0)) =~= start);
    while i < n
        invariant
            i <= n == v@.len(),
            b@ == start + words64(v@.take(i as int)),
        decreases n - i,
    {
        let ghost before = b@;
        b.u64(v[i]);
        proof {
            assert(v@.take(i + 1).drop_last() =~= v@.take(i as int));
            assert(b@ =~= start + words64(v@.take(i + 1)));
        }
        i += 1;
    }
    assert(v@.take(n as int) =~= v@);
}

fn push_words32(b: &mut Buf, v: &[u32])
    ensures
        final(b)@ == old(b)@ + words32(v@),
{
    let n: usize = v.len();
    let ghost start = b@;
    let mut i: usize = 0;
    assert(v@.take(0) =~= Seq::empty());
    assert(start + words32(v@.take(0)) =~= start);
    while i < n
        invariant
            i <= n == v@.len(),
            b@ == start + words32(v@.take(i as int)),
        decreases n - i,
    {
        let ghost before = b@;
        b.u32(v[i]);
        proof {
            assert(v@.take(i + 1).drop_last() =~= v@.take(i as int));
            assert(b@ =~= start + words32(v@.take(i + 1)));
        }
        i += 1;
    }
    assert(v@.take(n as int) =~= v@);
}

fn list_limits(dims: &[u64], maxdims: &[Option<u64>]) -> (r: Vec<u64>)
    ensures
        r@ == stored_limits(dims@, maxdims@),
{
    let n: usize = maxdims.len();
    let mut out: Vec<u64> = Vec::new();
    let mut i: usize = 0;
    let ghost f = |m: Option<u64>|
        match m {
            Some(v) => v,
            None => UNDEF,
        };
    while i < n
        invariant
            i <= n == maxdims@.len(),
            f == (|m: Option<u64>|
                match m {
                    Some(v) => v,
                    None => UNDEF,
                }),
            out@ =~= maxdims@.map_values(f).take(i as int),
        decreases n - i,
    {
        out.push(
            match maxdims[i] {
                Some(v) => v,
                None => UNDEF,
            },
        );
        i += 1;
    }
    let m: usize = dims.len();
    while i < m
        invariant
            n == maxdims@.len() <= i,
            i <= m || n >= m,
            m == dims@.len(),
            out@ =~= maxdims@.map_values(f) + (if n < m {
                dims@.subrange(n as int, i as int)
            } else {
                Seq::empty()
            }),
        decreases m - i,
    {
        out.push(dims[i]);
        i += 1;
    }
    assert(out@ =~= stored_limits(dims@, maxdims@));
    out
}

/// Encodes a dataspace message.
pub fn encode_dataspace(dims: &[u64], maxdims: &[Option<u64>], is_scalar: bool, is_null: bool) -> (r:
    Vec<u8>)
    ensures
        r@ == dataspace_message(dims@, maxdims@, is_scalar, is_null),
{
    let mut b = Buf::new();
    if is_null {
        b.u8(2);
        b.u8(0);
        b.u8(0);
        b.u8(2);
        assert(b@ =~= dataspace_message(dims@, maxdims@, is_scalar, is_null));
        return b.bytes;
    }
    b.u8(1);
    if is_scalar {
        b.u8(0);
        b.u8(0);
        b.zeros(5);
        assert(b@ =~= dataspace_message(dims@, maxdims@, is_scalar, is_null));
        return b.bytes;
    }
    let rank: usize = dims.len();
    b.u8((rank % 256) as u8);
    b.u8(1);
    b.zeros(5);
    push_words64(&mut b, dims);
    let limits = list_limits(dims, maxdims);
    push_words64(&mut b, limits.as_slice());
    assert(b@ =~= dataspace_message(dims@, maxdims@, is_scalar, is_null));
    b.bytes
}

/// A fill-value message.
pub open spec fn fill_message(fill: FillView) -> Seq<u8> {
    match fill {
        FillView::Undefined => seq![2u8, 2u8, 0u8, 0u8],
        FillView::Default => seq![2u8, 2u8, 0u8, 1u8] + le_bytes(0, 4),
        FillView::UserDefined(v) => seq![2u8, 2u8, 0u8, 1u8] + le_bytes(v.len(), 4) + v,
    }
}

/// Encodes a fill-value message.
pub fn encode_fill(fill: &FillValue) -> (r: Vec<u8>)
    ensures
        r@ == fill_message(fill@),
{
    let mut b = Buf::new();
    b.u8(2);
    b.u8(2);
    b.u8(0);
    match fill {
        FillValue::Undefined => {
            b.u8(0);
        },
        FillValue::Default => {
            b.u8(1);
            b.u32(0);
        },
        FillValue::UserDefined(v) => {
            b.u8(1);
            push_le(&mut b.bytes, v.len() as u64, 4);
            b.raw(v.as_slice());
        },
    }
    assert(b@ =~= fill_message(fill@));
    b.bytes
}

/// A text with a zero byte behind it, filled up to a multiple of 8 bytes; nothing for
/// an empty text.
pub open spec fn padded_name(text: Seq<u8>) -> Seq<u8> {
    if text.len() == 0 {
        Seq::empty()
    } else {
        text + zeroes((aligned8(text.len() as int + 1) - text.len()) as nat)
    }
}

/// A filter of a pipeline message.
pub open spec fn filter_message(f: FilterView) -> Seq<u8> {
    let name = padded_name(encode_utf8(f.name));
    le_bytes(f.id as nat, 2) + le_bytes(name.len(), 2) + le_bytes(1, 2) + le_bytes(
        f.cdata.len(),
        2,
    ) + name + words32(f.cdata) + (if f.cdata.len() % 2 == 1 {
        le_bytes(0, 4)
    } else {
        Seq::empty()
    })
}

/// Filters of a pipeline message.
pub open spec fn filter_messages(fs: Seq<FilterView>) -> Seq<u8>
    decreases fs.len(),
{
    if fs.len() == 0 {
        Seq::empty()
    } else {
        filter_messages(fs.drop_last()) + filter_message(fs.last())
    }
}

/// A filter pipeline message.
pub open spec fn pipeline_message(fs: Seq<FilterView>) -> Seq<u8> {
    seq![1u8, (fs.len() % 256) as u8] + zeroes(6) + filter_messages(fs)
}

fn push_filter(b: &mut Buf, f: &RawFilter)
    requires
        encode_utf8(f@.name).len() + 8 <= usize::MAX,
    ensures
        final(b)@ == old(b)@ + filter_message(f@),
{
    let ghost start = b@;
    let text = f.name.as_str().as_bytes();
    assert(text@ == encode_utf8(f@.name));
    let n: usize = text.len();
    let name_len: usize = if n == 0 {
        0
    } else {
        align8(n + 1)
    };
    let ghost name = padded_name(text@);
    assert(name.len() == name_len);
    b.u16(f.id);
    push_le(&mut b.bytes, name_len as u64, 2);
    b.u16(1);
    push_le(&mut b.bytes, f.cdata.len() as u64, 2);
    if n > 0 {
        b.raw(text);
        b.zeros(name_len - n);
    }
    push_words32(b, f.cdata.as_slice());
    if f.cdata.len() % 2 != 0 {
        b.u32(0);
    }
    assert(b@ =~= start + filter_message(f@));
}

/// Whether the names of filters have a length that can be padded.
pub open spec fn names_fit(fs: Seq<FilterView>) -> bool {
    forall|i: int|
        0 <= i < fs.len() ==> encode_utf8((#[trigger] fs[i]).name).len() + 8 <= usize::MAX
}

/// Encodes a filter pipeline message.
pub fn encode_filter_pipeline(filters: &[RawFilter]) -> (r: Vec<u8>)
    requires
        names_fit(filter_views(filters@)),
    ensures
        r@ == pipeline_message(filter_views(filters@)),
{
    let ghost views = filter_views(filters@);
    let n: usize = filters.len();
    let mut b = Buf::new();
    b.u8(1);
    b.u8((n % 256) as u8);
    b.zeros(6);
    let ghost start = b@;
    assert(start =~= seq![1u8, (n % 256) as u8] + zeroes(6));
    let mut i: usize = 0;
    assert(views.take(0) =~= Seq::empty());
    assert(start + filter_messages(views.take(0)) =~= start);
    while i < n
        invariant
            i <= n == filters@.len(),
            views == filter_views(filters@),
            names_fit(views),
            b@ == start + filter_messages(views.take(i as int)),
        decreases n - i,
    {
        proof {
            assert(views[i as int] == filters@[i as int]@);
            assert(views.take(i + 1).drop_last() =~= views.take(i as int));
        }
        let ghost before = b@;
        push_filter(&mut b, &filters[i]);
        assert(b@ =~= start + filter_messages(views.take(i + 1)));
        i += 1;
    }
    assert(views.take(n as int) =~= views);
    b.bytes
}

/// The class of the width of a name's length.
pub open spec fn length_class(n: nat) -> nat {
    if n < 0x100 {
        0
    } else if n < 0x1_0000 {
        1
    } else {
        2
    }
}

/// A length in a width of some class.
pub open spec fn length_bytes(n: nat) -> Seq<u8> {
    le_bytes(
        n,
        if n < 0x100 {
            1
        } else if n < 0x1_0000 {
            2
        } else {
            4
        },
    )
}

/// The flags of a link message.
pub open spec fn link_flags(l: LinkView) -> u8 {
    (length_class(encode_utf8(l.name).len()) + (if l.target is Hard {
        0nat
    } else {
        8nat
    }) + (if l.utf8 {
        16nat
    } else {
        0nat
    })) as u8
}

/// What stands between the flags and the length of the name.
pub open spec fn link_options(l: LinkView) -> Seq<u8> {
    (match l.target {
        TargetView::Hard(id) => Seq::empty(),
        TargetView::Soft(p) => seq![1u8],
        TargetView::External { file, path } => seq![64u8],
    }) + (if l.utf8 {
        seq![1u8]
    } else {
        Seq::empty()
    })
}

/// The target of a link message. A hard link leads to the header at `addr`.
pub open spec fn target_bytes(t: TargetView, addr: u64) -> Seq<u8> {
    match t {
        TargetView::Hard(id) => le_bytes(addr as nat, 8),
        TargetView::Soft(p) => le_bytes(encode_utf8(p).len(), 2) + encode_utf8(p),
        TargetView::External { file, path } => le_bytes(
            encode_utf8(file).len() + encode_utf8(path).len() + 3,
            2,
        ) + seq![0u8] + encode_utf8(file) + seq![0u8] + encode_utf8(path) + seq![0u8],
    }
}

/// A link message.
pub open spec fn link_message(l: LinkView, addr: u64) -> Seq<u8> {
    seq![1u8, link_flags(l)] + link_options(l) + length_bytes(encode_utf8(l.name).len())
        + encode_utf8(l.name) + target_bytes(l.target, addr)
}

/// Encodes a link message. A hard link leads to the header at `hard_target_oh`.
pub fn encode_link_message(link: &Link, hard_target_oh: Option<u64>) -> (r: Result<Vec<u8>, Error>)
    ensures
        same_bytes(
            r,
            match (link@.target, hard_target_oh) {
                (TargetView::Hard(id), None) => Err("missing hard link target"@),
                (_, Some(a)) => Ok(link_message(link@, a)),
                (_, None) => Ok(link_message(link@, 0)),
            },
        ),
{
    let name = link.name.as_str().as_bytes();
    let n: usize = name.len();
    let mut flags: u8 = if n < 0x100 {
        0
    } else if n < 0x1_0000 {
        1
    } else {
        2
    };
    let hard: bool = matches!(link.target, LinkTarget::Hard(_));
    if !hard {
        flags = flags + 8;
    }
    if link.utf8 {
        flags = flags + 16;
    }
    let mut b = Buf::new();
    b.u8(1);
    b.u8(flags);
    assert(b@ =~= seq![1u8, link_flags(link@)]);
    match &link.target {
        LinkTarget::Hard(_) => {},
        LinkTarget::Soft(_) => {
            b.u8(1);
        },
        LinkTarget::External { file: _, path: _ } => {
            b.u8(64);
        },
    }
    if link.utf8 {
        b.u8(1);
    }
    assert(b@ =~= seq![1u8, link_flags(link@)] + link_options(link@));
    let width: usize = if n < 0x100 {
        1
    } else if n < 0x1_0000 {
        2
    } else {
        4
    };
    push_le(&mut b.bytes, n as u64, width);
    b.raw(name);
    let ghost head = b@;
    match &link.target {
        LinkTarget::Hard(_) => match hard_target_oh {
            None => {
                return Err(Error::new("missing hard link target"));
            },
            Some(a) => {
                b.u64(a);
            },
        },
        LinkTarget::Soft(path) => {
            let p = path.as_str().as_bytes();
            push_le(&mut b.bytes, p.len() as u64, 2);
            b.raw(p);
            assert(b@ =~= head + target_bytes(link@.target, 0));
        },
        LinkTarget::External { file, path } => {
            let f = file.as_str().as_bytes();
            let p = path.as_str().as_bytes();
            let total: u128 = f.len() as u128 + p.len() as u128 + 3;
            proof {
                crate::format::lemma_le_bytes_residue(total as nat, 2, 2);
                reveal_with_fuel(crate::format::pow256, 3);
            }
            push_le(&mut b.bytes, (total % 0x1_0000) as u64, 2);
            b.u8(0);
            b.raw(f);
            b.u8(0);
            b.raw(p);
            b.u8(0);
            assert(b@ =~= head + target_bytes(link@.target, 0));
        },
    }
    Ok(b.bytes)
}

} // verus!
