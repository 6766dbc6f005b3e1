//! Object headers that go on in further blocks, and messages that refer to others.

use vstd::prelude::*;

use crate::format::gheap::rest_at;
use crate::format::header::{
    block_end, continuation, early_messages, header_messages, late_messages, late_opened,
    late_start, size_width, Collected, MessageView, MSG_DATATYPE,
};
use crate::format::object::{
    applied, covers, header_parsed, index_heap, info_taken, shared_place, HeaderView, ImageView,
};
use crate::format::{
    dropped, law_le_round_trip, le_at, le_bytes, lemma_le_bytes_len, lemma_pow256, taken_uint,
    UNDEF,
};

verus! {

/// Whether messages stand one behind the other from the place `pos` on, each behind a head
/// of `head` bytes. In headers of version 1 the head gives the kind in two bytes, the size
/// in two and the flags in one; in those of version 2 it gives the kind in one.
pub open spec fn messages_stand(
    data: Seq<u8>,
    pos: int,
    ms: Seq<MessageView>,
    head: int,
    old_form: bool,
) -> bool
    decreases ms.len(),
{
    ms.len() > 0 ==> {
        let m = ms[0];
        let at = pos + head;
        let end = at + m.body.len();
        &&& pos >= 0 && end <= data.len()
        &&& if old_form {
            &&& le_at(data, pos, 2) == m.mtype
            &&& le_at(data, pos + 2, 2) == m.body.len()
            &&& data[pos + 4] == m.flags
        } else {
            &&& data[pos] == m.mtype
            &&& le_at(data, pos + 1, 2) == m.body.len()
            &&& data[pos + 3] == m.flags
        }
        &&& data.subrange(at, end) == m.body
        &&& messages_stand(data, end, ms.skip(1), head, old_form)
    }
}

/// The bytes that messages take.
pub open spec fn messages_size(ms: Seq<MessageView>, head: int) -> int
    decreases ms.len(),
{
    if ms.len() == 0 {
        0
    } else {
        head + ms[0].body.len() + messages_size(ms.skip(1), head)
    }
}

/// Whether no message gives a further block.
pub open spec fn plain(ms: Seq<MessageView>) -> bool {
    forall|i: int| 0 <= i < ms.len() ==> !(#[trigger] ms[i]).continues()
}

/// The messages of some blocks, with the message behind each block but the last that gives
/// the next.
pub open spec fn in_blocks(blocks: Seq<Seq<MessageView>>, links: Seq<MessageView>) -> Seq<
    MessageView,
>
    decreases blocks.len(),
{
    if blocks.len() == 0 {
        Seq::empty()
    } else if blocks.len() == 1 {
        blocks[0]
    } else {
        blocks[0].push(links[0]) + in_blocks(blocks.skip(1), links.skip(1))
    }
}

/// Whether a block of messages from `at` on, with room for `size` bytes, and those that
/// follow it stand in a file. Each but the last ends with a message that gives the address
/// and the size of the next. In version 2 a further block starts with the signature OCHK
/// and ends with a checksum.
pub open spec fn blocks_stand(
    data: Seq<u8>,
    base: u64,
    at: int,
    size: int,
    blocks: Seq<Seq<MessageView>>,
    links: Seq<MessageView>,
    head: int,
    old_form: bool,
) -> bool
    decreases blocks.len(),
{
    &&& blocks.len() > 0
    &&& links.len() + 1 == blocks.len()
    &&& plain(blocks[0])
    &&& messages_stand(data, at, blocks[0], head, old_form)
    &&& {
        let n = messages_size(blocks[0], head);
        if blocks.len() == 1 {
            n <= size < n + head
        } else {
            let m = links[0];
            let place = base + le_at(m.body, 0, 8);
            let room = le_at(m.body, 8, 8) as int;
            &&& m.continues() && m.body.len() >= 16
            &&& messages_stand(data, at + n, seq![m], head, old_form)
            &&& n + head + m.body.len() <= size < n + head + m.body.len() + head
            &&& old_form ==> blocks_stand(
                data,
                base,
                place,
                room,
                blocks.skip(1),
                links.skip(1),
                head,
                old_form,
            )
            &&& !old_form ==> place + 4 <= data.len() && data.subrange(place, place + 4) == seq![
                79u8,
                67u8,
                72u8,
                75u8,
            ] && blocks_stand(
                data,
                base,
                place + 4,
                room - 8,
                blocks.skip(1),
                links.skip(1),
                head,
                old_form,
            )
        }
    }
}

proof fn lemma_early_run(
    data: Seq<u8>,
    base: u64,
    blocks: Seq<(int, int)>,
    bi: int,
    pos: int,
    left: nat,
    acc: Seq<MessageView>,
    ms: Seq<MessageView>,
)
    requires
        0 <= bi < blocks.len(),
        messages_stand(data, pos, ms, 8, true),
        plain(ms),
        pos + messages_size(ms, 8) <= blocks[bi].0 + blocks[bi].1,
        ms.len() <= left,
    ensures
        early_messages(data, base, blocks, bi, pos, left, acc) == early_messages(
            data,
            base,
            blocks,
            bi,
            pos + messages_size(ms, 8),
            (left - ms.len()) as nat,
            acc + ms,
        ),
    decreases ms.len(),
{
    if ms.len() == 0 {
        assert(acc + ms =~= acc);
    } else {
        let m = ms[0];
        let rest = ms.skip(1);
        lemma_size(rest, 8);
        assert(m == (MessageView {
            mtype: le_at(data, pos, 2) as u16,
            flags: data[pos + 4],
            body: data.subrange(pos + 8, pos + 8 + le_at(data, pos + 2, 2)),
        }));
        assert(!ms[0].continues());
        assert forall|i: int| 0 <= i < rest.len() implies !(#[trigger] rest[i]).continues() by {
            assert(rest[i] == ms[i + 1]);
        }
        lemma_early_run(
            data,
            base,
            blocks,
            bi,
            pos + 8 + m.body.len(),
            (left - 1) as nat,
            acc.push(m),
            rest,
        );
        assert(acc.push(m) + rest =~= acc + ms);
    }
}

proof fn lemma_size(ms: Seq<MessageView>, head: int)
    requires
        head >= 0,
    ensures
        messages_size(ms, head) >= 0,
    decreases ms.len(),
{
    if ms.len() > 0 {
        lemma_size(ms.skip(1), head);
    }
}

proof fn lemma_early_blocks(
    data: Seq<u8>,
    base: u64,
    list: Seq<(int, int)>,
    left: nat,
    acc: Seq<MessageView>,
    blocks: Seq<Seq<MessageView>>,
    links: Seq<MessageView>,
)
    requires
        list.len() > 0,
        blocks_stand(data, base, list.last().0, list.last().1, blocks, links, 8, true),
        in_blocks(blocks, links).len() <= left,
    ensures
        early_messages(data, base, list, list.len() - 1, list.last().0, left, acc) == (Collected {
            messages: acc + in_blocks(blocks, links),
            error: None,
        }),
    decreases blocks.len(),
{
    let bi = list.len() - 1;
    let (at, size) = list.last();
    let ms = blocks[0];
    let n = messages_size(ms, 8);
    lemma_size(ms, 8);
    lemma_early_run(data, base, list, bi, at, left, acc, ms);
    let k = (left - ms.len()) as nat;
    let pos = at + n;
    if blocks.len() == 1 {
        assert(pos + 8 > at + size);
        assert(early_messages(data, base, list, bi, pos, k, acc + ms) == early_messages(
            data,
            base,
            list,
            bi + 1,
            0,
            k,
            acc + ms,
        ));
    } else {
        let m = links[0];
        let end = pos + 8 + m.body.len();
        let more = list.push(continuation(base, m.body));
        let bs = blocks.skip(1);
        let ls = links.skip(1);
        assert(seq![m][0] == m);
        assert(m == (MessageView {
            mtype: le_at(data, pos, 2) as u16,
            flags: data[pos + 4],
            body: data.subrange(pos + 8, pos + 8 + le_at(data, pos + 2, 2)),
        }));
        assert(in_blocks(blocks, links) == ms.push(m) + in_blocks(bs, ls));
        assert(early_messages(data, base, list, bi, pos, k, acc + ms) == early_messages(
            data,
            base,
            more,
            bi,
            end,
            (k - 1) as nat,
            (acc + ms).push(m),
        ));
        assert(more[bi] == list[bi]);
        assert(more[bi + 1] == more.last());
        assert(early_messages(data, base, more, bi, end, (k - 1) as nat, (acc + ms).push(m))
            == early_messages(
            data,
            base,
            more,
            bi + 1,
            more.last().0,
            (k - 1) as nat,
            (acc + ms).push(m),
        ));
        lemma_early_blocks(data, base, more, (k - 1) as nat, (acc + ms).push(m), bs, ls);
        assert((acc + ms).push(m) + in_blocks(bs, ls) =~= acc + in_blocks(blocks, links));
    }
}

/// The messages of a header of version 1 are those of its first block, and those of each
/// further block behind the message that gives it.
pub proof fn law_old_blocks_read(
    data: Seq<u8>,
    base: u64,
    addr: u64,
    blocks: Seq<Seq<MessageView>>,
    links: Seq<MessageView>,
)
    requires
        base + addr + 16 <= data.len(),
        data[base + addr] == 1,
        le_at(data, base + addr + 2, 2) == in_blocks(blocks, links).len(),
        blocks_stand(
            data,
            base,
            base + addr + 16,
            le_at(data, base + addr + 8, 4) as int,
            blocks,
            links,
            8,
            true,
        ),
    ensures
        header_messages(data, base, addr) == (Collected {
            messages: in_blocks(blocks, links),
            error: None,
        }),
{
    let pos = base + addr;
    let s = rest_at(data, pos);
    assert(s.take(4)[0] == data[pos]);
    assert(seq![79u8, 72u8, 68u8, 82u8][0] == 79u8);
    assert(s.subrange(2, 4) =~= data.subrange(pos + 2, pos + 4));
    assert(s.subrange(8, 12) =~= data.subrange(pos + 8, pos + 12));
    let list = seq![(pos + 16, le_at(s, 8, 4) as int)];
    lemma_early_blocks(data, base, list, le_at(s, 2, 2), Seq::empty(), blocks, links);
    assert(Seq::<MessageView>::empty() + in_blocks(blocks, links) =~= in_blocks(blocks, links));
}

// Version 2.

proof fn lemma_late_run(
    data: Seq<u8>,
    base: u64,
    head: int,
    blocks: Seq<(int, int)>,
    bi: int,
    pos: int,
    acc: Seq<MessageView>,
    ms: Seq<MessageView>,
)
    requires
        head >= 4,
        0 <= bi < blocks.len(),
        bi <= data.len(),
        messages_stand(data, pos, ms, head, false),
        plain(ms),
        pos + messages_size(ms, head) <= block_end(blocks, bi),
    ensures
        late_messages(data, base, head, blocks, bi, pos, acc) == late_messages(
            data,
            base,
            head,
            blocks,
            bi,
            pos + messages_size(ms, head),
            acc + ms,
        ),
    decreases ms.len(),
{
    if ms.len() == 0 {
        assert(acc + ms =~= acc);
    } else {
        let m = ms[0];
        let rest = ms.skip(1);
        lemma_size(rest, head);
        assert(m == (MessageView {
            mtype: data[pos] as u16,
            flags: data[pos + 3],
            body: data.subrange(pos + head, pos + head + le_at(data, pos + 1, 2)),
        }));
        assert(!ms[0].continues());
        assert forall|i: int| 0 <= i < rest.len() implies !(#[trigger] rest[i]).continues() by {
            assert(rest[i] == ms[i + 1]);
        }
        lemma_late_run(data, base, head, blocks, bi, pos + head + m.body.len(), acc.push(m), rest);
        assert(acc.push(m) + rest =~= acc + ms);
    }
}

proof fn lemma_late_blocks(
    data: Seq<u8>,
    base: u64,
    head: int,
    list: Seq<(int, int)>,
    at: int,
    acc: Seq<MessageView>,
    blocks: Seq<Seq<MessageView>>,
    links: Seq<MessageView>,
)
    requires
        head >= 4,
        list.len() > 0,
        list.len() + blocks.len() <= data.len() + 1,
        blocks_stand(
            data,
            base,
            at,
            block_end(list, list.len() - 1) - at,
            blocks,
            links,
            head,
            false,
        ),
    ensures
        late_messages(data, base, head, list, list.len() - 1, at, acc) == (Collected {
            messages: acc + in_blocks(blocks, links),
            error: None,
        }),
    decreases blocks.len(),
{
    let bi = list.len() - 1;
    let ms = blocks[0];
    let n = messages_size(ms, head);
    lemma_size(ms, head);
    lemma_late_run(data, base, head, list, bi, at, acc, ms);
    let pos = at + n;
    if blocks.len() == 1 {
        assert(late_messages(data, base, head, list, bi, pos, acc + ms) == late_opened(
            data,
            base,
            head,
            list,
            bi + 1,
            acc + ms,
        ));
    } else {
        let m = links[0];
        let end = pos + head + m.body.len();
        let more = list.push(continuation(base, m.body));
        let bs = blocks.skip(1);
        let ls = links.skip(1);
        let got = (acc + ms).push(m);
        let place = more.last().0;
        assert(seq![m][0] == m);
        assert(m == (MessageView {
            mtype: data[pos] as u16,
            flags: data[pos + 3],
            body: data.subrange(pos + head, pos + head + le_at(data, pos + 1, 2)),
        }));
        assert(in_blocks(blocks, links) == ms.push(m) + in_blocks(bs, ls));
        assert(late_messages(data, base, head, list, bi, pos, acc + ms) == late_messages(
            data,
            base,
            head,
            more,
            bi,
            end,
            got,
        ));
        assert(more[bi] == list[bi]);
        assert(more[bi + 1] == more.last());
        assert(block_end(more, bi) == block_end(list, bi));
        assert(late_messages(data, base, head, more, bi, end, got) == late_opened(
            data,
            base,
            head,
            more,
            bi + 1,
            got,
        ));
        assert(rest_at(data, place).take(4) =~= data.subrange(place, place + 4));
        assert(late_opened(data, base, head, more, bi + 1, got) == late_messages(
            data,
            base,
            head,
            more,
            bi + 1,
            place + 4,
            got,
        ));
        lemma_late_blocks(data, base, head, more, place + 4, got, bs, ls);
        assert(got + in_blocks(bs, ls) =~= acc + in_blocks(blocks, links));
    }
}

/// The messages of a header of version 2 are those of its first block, and those of each
/// further block behind the message that gives it. The flags of the header say which times
/// and limits stand before the size of the first block, how wide that is, and whether the
/// head of a message holds two bytes more.
pub proof fn law_new_blocks_read(
    data: Seq<u8>,
    base: u64,
    addr: u64,
    flags: u8,
    blocks: Seq<Seq<MessageView>>,
    links: Seq<MessageView>,
)
    requires
        ({
            let pos = base + addr;
            let start = pos + 6 + (if flags / 32 % 2 == 1 {
                16int
            } else {
                0int
            }) + (if flags / 16 % 2 == 1 {
                4int
            } else {
                0int
            });
            let width = if flags % 4 == 0 {
                1int
            } else if flags % 4 == 1 {
                2int
            } else if flags % 4 == 2 {
                4int
            } else {
                8int
            };
            &&& start + width <= data.len()
            &&& data.subrange(pos, pos + 6) == seq![79u8, 72u8, 68u8, 82u8, 2u8, flags]
            &&& blocks_stand(
                data,
                base,
                start + width,
                le_at(data, start, width) as int,
                blocks,
                links,
                if flags / 4 % 2 == 1 {
                    6
                } else {
                    4
                },
                false,
            )
        }),
        blocks.len() <= data.len(),
    ensures
        header_messages(data, base, addr) == (Collected {
            messages: in_blocks(blocks, links),
            error: None,
        }),
{
    let pos = base + addr;
    let s = rest_at(data, pos);
    let first = data.subrange(pos, pos + 6);
    assert(s.take(4) =~= first.take(4));
    assert(first.take(4) =~= seq![79u8, 72u8, 68u8, 82u8]);
    assert(s[4] == first[4]);
    assert(s[5] == first[5]);
    let start = late_start(flags);
    let width = size_width(flags);
    assert(s.skip(start).take(width as int) =~= data.subrange(pos + start, pos + start + width));
    let head = if flags / 4 % 2 == 1 {
        6int
    } else {
        4int
    };
    let size = le_at(data, pos + start, width as int) as int;
    let list = seq![(pos + start + width, size)];
    assert(taken_uint(s.skip(start), width) matches Ok(t) && t.0 == size);
    lemma_late_blocks(data, base, head, list, pos + start + width, Seq::empty(), blocks, links);
    assert(Seq::<MessageView>::empty() + in_blocks(blocks, links) =~= in_blocks(blocks, links));
}

// Messages that refer to others.

/// An info message gives the addresses of a heap and of an index of names, behind the
/// number of `width` bytes that it holds where its flags say so.
pub proof fn law_info_parts(
    version: u8,
    flags: u8,
    width: nat,
    number: Seq<u8>,
    heap: u64,
    index: u64,
    s: Seq<u8>,
)
    requires
        number.len() == (if flags % 2 == 1 {
            width
        } else {
            0
        }),
    ensures
        info_taken(
            seq![version, flags] + (number + (le_bytes(heap as nat, 8) + (le_bytes(index as nat, 8)
                + s))),
            width,
        ) == Ok::<Option<(u64, u64)>, Seq<char>>(
            if heap != UNDEF && index != UNDEF {
                Some((heap, index))
            } else {
                None
            },
        ),
{
    lemma_pow256();
    law_le_round_trip(heap as nat, 8);
    law_le_round_trip(index as nat, 8);
    lemma_le_bytes_len(heap as nat, 8);
    lemma_le_bytes_len(index as nat, 8);
    let tail = le_bytes(heap as nat, 8) + (le_bytes(index as nat, 8) + s);
    let body = seq![version, flags] + (number + tail);
    assert(body[1] == flags);
    assert(body.skip(2) =~= number + tail);
    assert((number + tail).skip(number.len() as int) =~= tail);
    let b = tail.take(16);
    assert(b.subrange(0, 8) =~= le_bytes(heap as nat, 8));
    assert(b.subrange(8, 16) =~= le_bytes(index as nat, 8));
}

/// A shared datatype is the one of the header that the message gives the address of. In
/// version 1 fourteen bytes stand before the address.
pub proof fn law_shared_type(
    img: ImageView,
    flags: u8,
    version: u8,
    kind: u8,
    before: Seq<u8>,
    addr: u64,
    s: Seq<u8>,
    h: HeaderView,
    depth: nat,
)
    requires
        flags / 2 % 2 == 1,
        1 <= version <= 3,
        version == 3 ==> kind != 1,
        before.len() == (if version == 1 {
            14nat
        } else {
            0nat
        }),
        header_parsed(img, addr, depth) matches Ok(t) && t.dtype is Some,
    ensures
        applied(
            img,
            MessageView {
                mtype: MSG_DATATYPE,
                flags,
                body: seq![version, kind] + (before + (le_bytes(addr as nat, 8) + s)),
            },
            h,
            depth + 1,
        ) == Ok::<HeaderView, Seq<char>>(
            HeaderView { dtype: header_parsed(img, addr, depth)->Ok_0.dtype, ..h },
        ),
{
    lemma_pow256();
    law_le_round_trip(addr as nat, 8);
    lemma_le_bytes_len(addr as nat, 8);
    let tail = le_bytes(addr as nat, 8) + s;
    let body = seq![version, kind] + (before + tail);
    assert(body[0] == version && body[1] == kind);
    assert(body.skip(2) =~= before + tail);
    assert((before + tail).skip(before.len() as int) =~= tail);
    assert(tail.take(8) =~= le_bytes(addr as nat, 8));
    if version == 1 {
        assert(dropped(before + tail, 14) =~= tail);
    } else {
        assert(before + tail =~= tail);
    }
    assert(shared_place(body) == Ok::<u64, Seq<char>>(addr));
}

/// The heap of a shared message is that of the first index that covers its type.
pub proof fn law_index_heap(sohm: Seq<(u16, u64)>, mtype: u16)
    ensures
        match index_heap(sohm, mtype) {
            Some(a) => exists|i: int|
                0 <= i < sohm.len() && covers((#[trigger] sohm[i]).0, mtype) && sohm[i].1 == a
                    && forall|j: int| 0 <= j < i ==> !covers((#[trigger] sohm[j]).0, mtype),
            None => forall|j: int| 0 <= j < sohm.len() ==> !covers((#[trigger] sohm[j]).0, mtype),
        },
    decreases sohm.len(),
{
    if sohm.len() > 0 {
        let rest = sohm.skip(1);
        law_index_heap(rest, mtype);
        if covers(sohm[0].0, mtype) {
            assert(sohm[0].1 == index_heap(sohm, mtype)->0);
        } else {
            match index_heap(rest, mtype) {
                Some(a) => {
                    let i = choose|i: int|
                        0 <= i < rest.len() && covers((#[trigger] rest[i]).0, mtype) && rest[i].1
                            == a && forall|j: int|
                            0 <= j < i ==> !covers((#[trigger] rest[j]).0, mtype);
                    assert(sohm[i + 1] == rest[i]);
                    assert forall|j: int| 0 <= j < i + 1 implies !covers(
                        (#[trigger] sohm[j]).0,
                        mtype,
                    ) by {
                        if j > 0 {
                            assert(rest[j - 1] == sohm[j]);
                        }
                    }
                },
                None => {
                    assert forall|j: int| 0 <= j < sohm.len() implies !covers(
                        (#[trigger] sohm[j]).0,
                        mtype,
                    ) by {
                        if j > 0 {
                            assert(rest[j - 1] == sohm[j]);
                        }
                    }
                },
            }
        }
    }
}

} // verus!
