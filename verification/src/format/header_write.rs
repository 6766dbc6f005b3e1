//! Writing of object headers.

use vstd::prelude::*;

use crate::error::Error;
use crate::format::dense::{push_sum, summed};
use crate::format::tree::{append, appended, end_of, extends, lemma_appended};
use crate::format::{aligned8, le_bytes, lemma_le_bytes_len, push_le, zeroes, Buf};
use crate::text::{decimal, join, with_number};

verus! {

/// A message to be written.
pub struct OutMessage {
    pub kind: u16,
    pub flags: u8,
    pub body: Vec<u8>,
    /// The index and the number of the shared message that the body refers to.
    pub shared: Option<(usize, usize)>,
}

/// The view of an [`OutMessage`].
#[verifier::ext_equal]
pub struct OutView {
    pub kind: u16,
    pub flags: u8,
    pub body: Seq<u8>,
    pub shared: Option<(nat, nat)>,
}

/// The view of a shared message's place.
pub open spec fn shared_view(s: Option<(usize, usize)>) -> Option<(nat, nat)> {
    match s {
        Some((a, b)) => Some((a as nat, b as nat)),
        None => None,
    }
}

impl View for OutMessage {
    type V = OutView;

    open spec fn view(&self) -> OutView {
        OutView {
            kind: self.kind,
            flags: self.flags,
            body: self.body@,
            shared: shared_view(self.shared),
        }
    }
}

/// The views of messages.
pub open spec fn out_views(v: Seq<OutMessage>) -> Seq<OutView> {
    v.map_values(|m: OutMessage| m@)
}

/// A message that is not shared.
pub open spec fn plain_message(kind: u16, body: Seq<u8>) -> OutView {
    OutView { kind, flags: 0, body, shared: None }
}

pub(crate) fn plain(kind: u16, body: Vec<u8>) -> (r: OutMessage)
    ensures
        r@ == plain_message(kind, body@),
{
    OutMessage { kind, flags: 0, body, shared: None }
}

/// The number that an error shows for a size.
pub open spec fn shown(n: int) -> nat {
    if n > u64::MAX {
        u64::MAX as nat
    } else {
        n as nat
    }
}

/// The error for a message of `n` bytes.
pub open spec fn oversized(n: int) -> Seq<char> {
    "object header message too large ("@ + decimal(shown(n))
        + " bytes > 65535); store large data in a dataset instead of an attribute"@
}

// Version 1.

/// A message in a header of version 1: its body is filled up to a multiple of 8 bytes.
pub open spec fn old_message(m: OutView) -> Result<Seq<u8>, Seq<char>> {
    let n = aligned8(m.body.len() as int);
    if n > 65535 {
        Err(oversized(n))
    } else {
        Ok(
            le_bytes(m.kind as nat, 2) + le_bytes(n as nat, 2) + seq![m.flags] + zeroes(3) + m.body
                + zeroes((n - m.body.len()) as nat),
        )
    }
}

/// The messages of a header of version 1.
pub open spec fn old_messages(ms: Seq<OutView>) -> Result<Seq<u8>, Seq<char>>
    decreases ms.len(),
{
    if ms.len() == 0 {
        Ok(Seq::empty())
    } else {
        match old_messages(ms.drop_last()) {
            Err(e) => Err(e),
            Ok(s) => match old_message(ms.last()) {
                Err(e) => Err(e),
                Ok(m) => Ok(s + m),
            },
        }
    }
}

/// A header of version 1.
pub open spec fn old_header(n: nat, body: Seq<u8>) -> Seq<u8> {
    seq![1u8, 0u8] + le_bytes(n, 2) + le_bytes(1, 4) + le_bytes(body.len(), 4) + zeroes(4) + body
}

// Version 2.

/// A message in a header of version 2.
pub open spec fn new_message(m: OutView) -> Result<Seq<u8>, Seq<char>> {
    if m.kind > 255 {
        Err("v2 object header message type out of range"@)
    } else if m.body.len() > 65535 {
        Err("object header message too large"@)
    } else {
        Ok(le_bytes(m.kind as nat, 1) + le_bytes(m.body.len(), 2) + seq![m.flags] + m.body)
    }
}

/// The messages of a header of version 2.
pub open spec fn new_messages(ms: Seq<OutView>) -> Result<Seq<u8>, Seq<char>>
    decreases ms.len(),
{
    if ms.len() == 0 {
        Ok(Seq::empty())
    } else {
        match new_messages(ms.drop_last()) {
            Err(e) => Err(e),
            Ok(s) => match new_message(ms.last()) {
                Err(e) => Err(e),
                Ok(m) => Ok(s + m),
            },
        }
    }
}

/// A header of version 2.
pub open spec fn new_header(body: Seq<u8>) -> Seq<u8> {
    summed(seq![79u8, 72u8, 68u8, 82u8, 2u8, 2u8] + le_bytes(body.len(), 4) + body)
}

// Places of shared messages.

/// The place of the id of a shared message: to be filled in once the heaps of shared
/// messages are written.
#[verifier::ext_equal]
pub struct PatchView {
    pub pos: nat,
    pub index: nat,
    pub item: nat,
}

/// The executable form of a [`PatchView`].
pub struct Patch {
    pub pos: usize,
    pub index: usize,
    pub item: usize,
}

impl View for Patch {
    type V = PatchView;

    open spec fn view(&self) -> PatchView {
        PatchView { pos: self.pos as nat, index: self.index as nat, item: self.item as nat }
    }
}

/// The views of places.
pub open spec fn patch_views(v: Seq<Patch>) -> Seq<PatchView> {
    v.map_values(|p: Patch| p@)
}

/// The number of bytes that messages take, where a message head has `head` bytes and
/// bodies are filled up if `fill`.
pub open spec fn span(ms: Seq<OutView>, head: nat, fill: bool) -> nat
    decreases ms.len(),
{
    if ms.len() == 0 {
        0
    } else {
        let n = ms.last().body.len();
        span(ms.drop_last(), head, fill) + head + (if fill {
            aligned8(n as int) as nat
        } else {
            n
        })
    }
}

/// The places of the ids of shared messages, where the first message stands at `base`.
pub open spec fn patches_of(ms: Seq<OutView>, base: nat, head: nat, fill: bool) -> Seq<PatchView>
    decreases ms.len(),
{
    if ms.len() == 0 {
        Seq::empty()
    } else {
        let before = patches_of(ms.drop_last(), base, head, fill);
        match ms.last().shared {
            None => before,
            Some((index, item)) => before.push(
                PatchView {
                    pos: base + span(ms.drop_last(), head, fill) + head + 2,
                    index,
                    item,
                },
            ),
        }
    }
}

/// An image with a header behind it, its address, and the places of its shared messages.
pub open spec fn header_written(s: Seq<u8>, ms: Seq<OutView>, dense: bool) -> Result<
    (Seq<u8>, u64, Seq<PatchView>),
    Seq<char>,
> {
    let at = appended(s, Seq::empty()).len();
    if dense {
        match new_messages(ms) {
            Err(e) => Err(e),
            Ok(body) => Ok(
                (appended(s, new_header(body)), end_of(s), patches_of(ms, at + 10, 4, false)),
            ),
        }
    } else {
        match old_messages(ms) {
            Err(e) => Err(e),
            Ok(body) => Ok(
                (
                    appended(s, old_header(ms.len(), body)),
                    end_of(s),
                    patches_of(ms, at + 16, 8, true),
                ),
            ),
        }
    }
}

/// Whether shared messages have bodies with room for an id.
pub open spec fn shared_fit(ms: Seq<OutView>) -> bool {
    forall|i: int| 0 <= i < ms.len() && (#[trigger] ms[i]).shared is Some ==> ms[i].body.len() == 10
}

/// Whether the ids at some places lie in an image.
pub open spec fn patches_fit(ps: Seq<PatchView>, len: nat) -> bool {
    forall|i: int| 0 <= i < ps.len() ==> (#[trigger] ps[i]).pos + 8 <= len
}

proof fn lemma_first_error(ms: Seq<OutView>, i: int)
    requires
        0 <= i <= ms.len(),
    ensures
        old_messages(ms.take(i)) is Err ==> old_messages(ms) == old_messages(ms.take(i)),
        new_messages(ms.take(i)) is Err ==> new_messages(ms) == new_messages(ms.take(i)),
    decreases ms.len() - i,
{
    if i < ms.len() {
        assert(ms.take(i + 1).drop_last() =~= ms.take(i));
        lemma_first_error(ms, i + 1);
    } else {
        assert(ms.take(i) =~= ms);
    }
}

pub(crate) proof fn lemma_old_len(ms: Seq<OutView>)
    ensures
        old_messages(ms) matches Ok(s) ==> s.len() == span(ms, 8, true),
    decreases ms.len(),
{
    if ms.len() > 0 {
        lemma_old_len(ms.drop_last());
        let m = ms.last();
        lemma_le_bytes_len(m.kind as nat, 2);
        lemma_le_bytes_len(aligned8(m.body.len() as int) as nat, 2);
    }
}

pub(crate) proof fn lemma_new_len(ms: Seq<OutView>)
    ensures
        new_messages(ms) matches Ok(s) ==> s.len() == span(ms, 4, false),
    decreases ms.len(),
{
    if ms.len() > 0 {
        lemma_new_len(ms.drop_last());
        let m = ms.last();
        lemma_le_bytes_len(m.kind as nat, 1);
        lemma_le_bytes_len(m.body.len(), 2);
    }
}

pub(crate) proof fn lemma_patches_fit(ms: Seq<OutView>, base: nat, head: nat, fill: bool, len: nat)
    requires
        shared_fit(ms),
        base + span(ms, head, fill) <= len,
    ensures
        patches_fit(patches_of(ms, base, head, fill), len),
    decreases ms.len(),
{
    if ms.len() > 0 {
        assert(shared_fit(ms.drop_last())) by {
            assert forall|i: int|
                0 <= i < ms.drop_last().len() && (#[trigger] ms.drop_last()[i]).shared is Some
                    implies ms.drop_last()[i].body.len() == 10 by {
                assert(ms[i] == ms.drop_last()[i]);
            }
        }
        lemma_patches_fit(ms.drop_last(), base, head, fill, len);
        assert(ms.last() == ms[ms.len() - 1]);
    }
}

fn push_old(b: &mut Buf, m: &OutMessage) -> (r: Result<(), Error>)
    ensures
        match (r, old_message(m@)) {
            (Ok(_), Ok(x)) => final(b)@ == old(b)@ + x,
            (Err(e), Err(x)) => e@ == x,
            _ => false,
        },
{
    let n: usize = m.body.len();
    let ghost before = b@;
    if n > 65528 {
        let size: u64 = if n as u64 > 0xffff_ffff_ffff_fff8 {
            0xffff_ffff_ffff_ffff
        } else {
            (n as u64 + 7) / 8 * 8
        };
        assert(size == shown(aligned8(n as int)));
        let text = with_number("object header message too large (", size);
        return Err(
            Error::from_text(
                join(
                    text.as_str(),
                    " bytes > 65535); store large data in a dataset instead of an attribute",
                ),
            ),
        );
    }
    let full: usize = (n + 7) / 8 * 8;
    assert(full == aligned8(n as int));
    b.u16(m.kind);
    push_le(&mut b.bytes, full as u64, 2);
    b.u8(m.flags);
    b.zeros(3);
    b.raw(m.body.as_slice());
    b.zeros(full - n);
    assert(b@ =~= before + old_message(m@)->Ok_0);
    Ok(())
}

fn push_new(b: &mut Buf, m: &OutMessage) -> (r: Result<(), Error>)
    ensures
        match (r, new_message(m@)) {
            (Ok(_), Ok(x)) => final(b)@ == old(b)@ + x,
            (Err(e), Err(x)) => e@ == x,
            _ => false,
        },
{
    let n: usize = m.body.len();
    let ghost before = b@;
    if m.kind > 255 {
        return Err(Error::new("v2 object header message type out of range"));
    }
    if n > 65535 {
        return Err(Error::new("object header message too large"));
    }
    push_le(&mut b.bytes, m.kind as u64, 1);
    push_le(&mut b.bytes, n as u64, 2);
    b.u8(m.flags);
    b.raw(m.body.as_slice());
    assert(b@ =~= before + new_message(m@)->Ok_0);
    Ok(())
}

fn bodies(ms: &Vec<OutMessage>, dense: bool) -> (r: Result<Buf, Error>)
    ensures
        match (
            r,
            if dense {
                new_messages(out_views(ms@))
            } else {
                old_messages(out_views(ms@))
            },
        ) {
            (Ok(b), Ok(x)) => b@ == x,
            (Err(e), Err(x)) => e@ == x,
            _ => false,
        },
{
    let ghost views = out_views(ms@);
    let mut b = Buf::new();
    let mut i: usize = 0;
    assert(views.take(0) =~= Seq::empty());
    assert(b@ =~= Seq::empty());
    while i < ms.len()
        invariant
            i <= ms@.len(),
            views == out_views(ms@),
            dense ==> new_messages(views.take(i as int)) == Ok::<Seq<u8>, Seq<char>>(b@),
            !dense ==> old_messages(views.take(i as int)) == Ok::<Seq<u8>, Seq<char>>(b@),
        decreases ms@.len() - i,
    {
        proof {
            assert(views.take(i + 1).drop_last() =~= views.take(i as int));
            assert(views.take(i + 1).last() == ms@[i as int]@);
            lemma_first_error(views, i + 1);
        }
        if dense {
            push_new(&mut b, &ms[i])?;
        } else {
            push_old(&mut b, &ms[i])?;
        }
        i += 1;
    }
    assert(views.take(views.len() as int) =~= views);
    Ok(b)
}

fn record_patches(
    patches: &mut Vec<Patch>,
    ms: &Vec<OutMessage>,
    base: usize,
    head: usize,
    fill: bool,
    Ghost(len): Ghost<nat>,
)
    requires
        shared_fit(out_views(ms@)),
        head <= 8,
        base + span(out_views(ms@), head as nat, fill) <= len <= usize::MAX,
    ensures
        patch_views(final(patches)@) == patch_views(old(patches)@) + patches_of(
            out_views(ms@),
            base as nat,
            head as nat,
            fill,
        ),
{
    let ghost views = out_views(ms@);
    let ghost before = patch_views(patches@);
    let mut off: usize = base;
    let mut i: usize = 0;
    assert(views.take(0) =~= Seq::empty());
    assert(before + Seq::<PatchView>::empty() =~= before);
    while i < ms.len()
        invariant
            i <= ms@.len(),
            views == out_views(ms@),
            head <= 8,
            shared_fit(views),
            base + span(views, head as nat, fill) <= len <= usize::MAX,
            off == base + span(views.take(i as int), head as nat, fill),
            patch_views(patches@) == before + patches_of(
                views.take(i as int),
                base as nat,
                head as nat,
                fill,
            ),
        decreases ms@.len() - i,
    {
        proof {
            assert(views.take(i + 1).drop_last() =~= views.take(i as int));
            assert(views.take(i + 1).last() == ms@[i as int]@);
            assert(views[i as int] == ms@[i as int]@);
            lemma_span_grows(views, (i + 1) as nat, head as nat, fill);
        }
        let n: usize = ms[i].body.len();
        let ghost was = patch_views(patches@);
        match ms[i].shared {
            None => {},
            Some((index, item)) => {
                let p = Patch { pos: off + head + 2, index, item };
                patches.push(p);
                assert(patch_views(patches@) =~= was.push(p@));
            },
        }
        assert(patch_views(patches@) =~= before + patches_of(
            views.take(i + 1),
            base as nat,
            head as nat,
            fill,
        ));
        if fill {
            off = off + head + (n + 7) / 8 * 8;
        } else {
            off = off + head + n;
        }
        i += 1;
    }
    assert(views.take(views.len() as int) =~= views);
}

proof fn lemma_span_grows(ms: Seq<OutView>, i: nat, head: nat, fill: bool)
    requires
        i <= ms.len(),
    ensures
        span(ms.take(i as int), head, fill) <= span(ms, head, fill),
    decreases ms.len() - i,
{
    if i < ms.len() {
        assert(ms.take((i + 1) as int).drop_last() =~= ms.take(i as int));
        lemma_span_grows(ms, i + 1, head, fill);
    } else {
        assert(ms.take(i as int) =~= ms);
    }
}

/// Writes an object header of version 2 if `dense`, of version 1 otherwise, and records
/// the places of its shared messages.
pub fn write_object_header(
    buf: &mut Vec<u8>,
    ms: &Vec<OutMessage>,
    dense: bool,
    patches: &mut Vec<Patch>,
) -> (r: Result<u64, Error>)
    requires
        shared_fit(out_views(ms@)),
        patches_fit(patch_views(old(patches)@), old(buf)@.len()),
    ensures
        match (r, header_written(old(buf)@, out_views(ms@), dense)) {
            (Ok(a), Ok(x)) => {
                &&& final(buf)@ == x.0
                &&& a == x.1
                &&& patch_views(final(patches)@) == patch_views(old(patches)@) + x.2
                &&& patches_fit(patch_views(final(patches)@), final(buf)@.len())
                &&& extends(final(buf)@, old(buf)@)
            },
            (Err(e), Err(x)) => e@ == x,
            _ => false,
        },
{
    let ghost s = buf@;
    let ghost views = out_views(ms@);
    let body: Buf = bodies(ms, dense)?;
    let mut h = Buf::new();
    if dense {
        h.u8(79);
        h.u8(72);
        h.u8(68);
        h.u8(82);
        h.u8(2);
        h.u8(2);
        push_le(&mut h.bytes, body.len() as u64, 4);
        h.raw(body.bytes.as_slice());
        let ghost text = h@;
        push_sum(&mut h);
        proof {
            lemma_le_bytes_len(body@.len(), 4);
            lemma_le_bytes_len(crate::format::checksum::lookup3(text) as nat, 4);
            assert(text =~= seq![79u8, 72u8, 68u8, 82u8, 2u8, 2u8] + le_bytes(body@.len(), 4)
                + body@);
            assert(h@ =~= new_header(body@));
            lemma_new_len(views);
        }
    } else {
        h.u8(1);
        h.u8(0);
        push_le(&mut h.bytes, ms.len() as u64, 2);
        h.u32(1);
        push_le(&mut h.bytes, body.len() as u64, 4);
        h.zeros(4);
        h.raw(body.bytes.as_slice());
        proof {
            lemma_le_bytes_len(views.len(), 2);
            lemma_le_bytes_len(1, 4);
            lemma_le_bytes_len(body@.len(), 4);
            assert(h@ =~= old_header(views.len(), body@));
            lemma_old_len(views);
        }
    }
    let addr: u64 = append(buf, h.bytes.as_slice());
    let total: usize = buf.len();
    proof {
        lemma_appended(s, h@);
        lemma_appended(s, Seq::empty());
    }
    let ghost before = patch_views(patches@);
    let (base, head): (usize, usize) = if dense {
        (addr as usize + 10, 4)
    } else {
        (addr as usize + 16, 8)
    };
    record_patches(patches, ms, base, head, !dense, Ghost(total as nat));
    proof {
        lemma_patches_fit(views, base as nat, head as nat, !dense, total as nat);
        let ps = patch_views(patches@);
        assert forall|i: int| 0 <= i < ps.len() implies (#[trigger] ps[i]).pos + 8
            <= buf@.len() by {
            if i < before.len() {
                assert(ps[i] == before[i]);
            }
        }
    }
    Ok(addr)
}

} // verus!
