//! Object headers are read as they are written.

use vstd::prelude::*;

use crate::format::attr_write::block8;
use crate::format::checksum::lookup3;
use crate::format::gheap::{pad8, rest_at};
use crate::format::header::{
    block_end, early_messages, header_messages, late_messages, late_opened, late_start,
    size_width, Collected, MessageView, MSG_CONTINUATION,
};
use crate::format::header_write::{
    new_header, new_message, new_messages, old_header, old_message, old_messages, span, OutView,
};
use crate::format::stands::{lemma_stands, lemma_stands_number, lemma_stands_part, stands};
use crate::format::{aligned8, le_at, le_bytes, lemma_le_bytes_len, lemma_pow256, zeroes};

verus! {

/// A message as it is read: in headers of version 1 its body is filled up with zeroes.
pub open spec fn message_read(m: OutView, fill: bool) -> MessageView {
    MessageView {
        mtype: m.kind,
        flags: m.flags,
        body: if fill {
            block8(m.body)
        } else {
            m.body
        },
    }
}

/// The messages of a header as they are read.
pub open spec fn messages_read(ms: Seq<OutView>, fill: bool) -> Seq<MessageView> {
    ms.map_values(|m: OutView| message_read(m, fill))
}

/// Whether no message gives a continuation block.
pub open spec fn no_continuation(ms: Seq<OutView>) -> bool {
    forall|i: int| 0 <= i < ms.len() ==> (#[trigger] ms[i]).kind != MSG_CONTINUATION
}

/// The part of a header body that a message takes.
proof fn lemma_old_part(ms: Seq<OutView>, i: int)
    requires
        old_messages(ms) is Ok,
        0 <= i < ms.len(),
    ensures
        old_message(ms[i]) is Ok,
        span(ms.take(i), 8, true) + old_message(ms[i])->Ok_0.len() == span(
            ms.take(i + 1),
            8,
            true,
        ),
        span(ms.take(i + 1), 8, true) <= old_messages(ms)->Ok_0.len(),
        old_messages(ms)->Ok_0.subrange(
            span(ms.take(i), 8, true) as int,
            span(ms.take(i + 1), 8, true) as int,
        ) == old_message(ms[i])->Ok_0,
        old_messages(ms)->Ok_0.len() == span(ms, 8, true),
    decreases ms.len(),
{
    let body = old_messages(ms)->Ok_0;
    let init = ms.drop_last();
    let before = old_messages(init)->Ok_0;
    let m = ms.last();
    lemma_le_bytes_len(m.kind as nat, 2);
    lemma_le_bytes_len(aligned8(m.body.len() as int) as nat, 2);
    if init.len() > 0 {
        lemma_old_part(init, 0);
    }
    assert(before.len() == span(init, 8, true));
    if i < ms.len() - 1 {
        lemma_old_part(init, i);
        assert(init.take(i) =~= ms.take(i));
        assert(init.take(i + 1) =~= ms.take(i + 1));
        assert(init[i] == ms[i]);
        assert(body.subrange(
            span(ms.take(i), 8, true) as int,
            span(ms.take(i + 1), 8, true) as int,
        ) =~= before.subrange(
            span(ms.take(i), 8, true) as int,
            span(ms.take(i + 1), 8, true) as int,
        ));
    } else {
        assert(ms.take(i) =~= init);
        assert(ms.take(i + 1) =~= ms);
        assert(body.subrange(before.len() as int, body.len() as int) =~= old_message(m)->Ok_0);
    }
}

/// What is read of a message that stands at a place.
proof fn lemma_old_fields(data: Seq<u8>, pos: int, m: OutView)
    requires
        old_message(m) is Ok,
        stands(data, pos, old_message(m)->Ok_0),
    ensures
        le_at(data, pos, 2) == m.kind,
        le_at(data, pos + 2, 2) == aligned8(m.body.len() as int),
        data[pos + 4] == m.flags,
        data.subrange(pos + 8, pos + 8 + aligned8(m.body.len() as int)) == block8(m.body),
        pos + 8 + aligned8(m.body.len() as int) <= data.len(),
{
    let n = aligned8(m.body.len() as int);
    let all = old_message(m)->Ok_0;
    let a = le_bytes(m.kind as nat, 2);
    let b = le_bytes(n as nat, 2);
    lemma_pow256();
    lemma_le_bytes_len(m.kind as nat, 2);
    lemma_le_bytes_len(n as nat, 2);
    lemma_stands_part(data, pos, all, 0, 2);
    assert(all.subrange(0, 2) =~= a);
    lemma_stands_number(data, pos, m.kind as nat, 2);
    lemma_stands_part(data, pos, all, 2, 4);
    assert(all.subrange(2, 4) =~= b);
    lemma_stands_number(data, pos + 2, n as nat, 2);
    lemma_stands(data, pos, all);
    assert(all[4] == m.flags);
    lemma_stands_part(data, pos, all, 8, all.len() as int);
    assert(n - m.body.len() == pad8(m.body.len() as int));
    assert(all.subrange(8, all.len() as int) =~= block8(m.body));
}

proof fn lemma_early(
    data: Seq<u8>,
    base: u64,
    start: int,
    ms: Seq<OutView>,
    i: int,
    acc: Seq<MessageView>,
)
    requires
        old_messages(ms) is Ok,
        no_continuation(ms),
        stands(data, start, old_messages(ms)->Ok_0),
        0 <= i <= ms.len(),
        acc == messages_read(ms.take(i), true),
    ensures
        early_messages(
            data,
            base,
            seq![(start, old_messages(ms)->Ok_0.len() as int)],
            0,
            start + span(ms.take(i), 8, true),
            (ms.len() - i) as nat,
            acc,
        ) == (Collected { messages: messages_read(ms, true), error: None }),
    decreases ms.len() - i,
{
    let body = old_messages(ms)->Ok_0;
    let blocks = seq![(start, body.len() as int)];
    let pos = start + span(ms.take(i), 8, true);
    if i < ms.len() {
        lemma_old_part(ms, i);
        let m = ms[i];
        lemma_stands_part(
            data,
            start,
            body,
            span(ms.take(i), 8, true) as int,
            span(ms.take(i + 1), 8, true) as int,
        );
        lemma_old_fields(data, pos, m);
        lemma_le_bytes_len(m.kind as nat, 2);
        lemma_le_bytes_len(aligned8(m.body.len() as int) as nat, 2);
        let read = message_read(m, true);
        let size = le_at(data, pos + 2, 2);
        assert(read == (MessageView {
            mtype: le_at(data, pos, 2) as u16,
            flags: data[pos + 4],
            body: data.subrange(pos + 8, pos + 8 + size),
        }));
        assert(acc.push(read) =~= messages_read(ms.take(i + 1), true));
        assert(!read.continues());
        lemma_early(data, base, start, ms, i + 1, acc.push(read));
        assert(pos + 8 + size == start + span(ms.take(i + 1), 8, true));
        assert((ms.len() - i - 1) as nat == (ms.len() - (i + 1)) as nat);
    } else {
        assert(ms.take(i) =~= ms);
        reveal_with_fuel(early_messages, 2);
    }
}

/// A header of version 1 is read as it is written: its messages come back in their
/// order, with their bodies filled up to a multiple of 8 bytes.
pub proof fn law_old_header_read(data: Seq<u8>, base: u64, addr: u64, ms: Seq<OutView>)
    requires
        old_messages(ms) is Ok,
        no_continuation(ms),
        ms.len() <= 0xffff,
        old_messages(ms)->Ok_0.len() <= 0xffff_ffff,
        stands(data, base + addr, old_header(ms.len(), old_messages(ms)->Ok_0)),
    ensures
        header_messages(data, base, addr) == (Collected {
            messages: messages_read(ms, true),
            error: None,
        }),
{
    let body = old_messages(ms)->Ok_0;
    let pos = base + addr;
    let h = old_header(ms.len(), body);
    let s = rest_at(data, pos);
    lemma_pow256();
    lemma_le_bytes_len(ms.len(), 2);
    lemma_le_bytes_len(1, 4);
    lemma_le_bytes_len(body.len(), 4);
    lemma_stands(data, pos, h);
    assert(h[0] == 1);
    assert(s[0] == h[0]);
    assert(s.take(4)[0] == 1);
    lemma_stands_part(data, pos, h, 2, 4);
    assert(h.subrange(2, 4) =~= le_bytes(ms.len(), 2));
    lemma_stands_number(data, pos + 2, ms.len(), 2);
    lemma_stands_part(data, pos, h, 8, 12);
    assert(h.subrange(8, 12) =~= le_bytes(body.len(), 4));
    lemma_stands_number(data, pos + 8, body.len(), 4);
    assert(s.subrange(2, 4) =~= data.subrange(pos + 2, pos + 4));
    assert(s.subrange(8, 12) =~= data.subrange(pos + 8, pos + 12));
    lemma_stands_part(data, pos, h, 16, h.len() as int);
    assert(h.subrange(16, h.len() as int) =~= body);
    assert(ms.take(0) =~= Seq::empty());
    assert(messages_read(ms.take(0), true) =~= Seq::empty());
    lemma_early(data, base, pos + 16, ms, 0, Seq::empty());
}

// Version 2.

proof fn lemma_new_part(ms: Seq<OutView>, i: int)
    requires
        new_messages(ms) is Ok,
        0 <= i < ms.len(),
    ensures
        new_message(ms[i]) is Ok,
        span(ms.take(i), 4, false) + new_message(ms[i])->Ok_0.len() == span(
            ms.take(i + 1),
            4,
            false,
        ),
        span(ms.take(i + 1), 4, false) <= new_messages(ms)->Ok_0.len(),
        new_messages(ms)->Ok_0.subrange(
            span(ms.take(i), 4, false) as int,
            span(ms.take(i + 1), 4, false) as int,
        ) == new_message(ms[i])->Ok_0,
        new_messages(ms)->Ok_0.len() == span(ms, 4, false),
    decreases ms.len(),
{
    let body = new_messages(ms)->Ok_0;
    let init = ms.drop_last();
    let before = new_messages(init)->Ok_0;
    let m = ms.last();
    lemma_le_bytes_len(m.kind as nat, 1);
    lemma_le_bytes_len(m.body.len(), 2);
    if init.len() > 0 {
        lemma_new_part(init, 0);
    }
    assert(before.len() == span(init, 4, false));
    if i < ms.len() - 1 {
        lemma_new_part(init, i);
        assert(init.take(i) =~= ms.take(i));
        assert(init.take(i + 1) =~= ms.take(i + 1));
        assert(init[i] == ms[i]);
        assert(body.subrange(
            span(ms.take(i), 4, false) as int,
            span(ms.take(i + 1), 4, false) as int,
        ) =~= before.subrange(
            span(ms.take(i), 4, false) as int,
            span(ms.take(i + 1), 4, false) as int,
        ));
    } else {
        assert(ms.take(i) =~= init);
        assert(ms.take(i + 1) =~= ms);
        assert(body.subrange(before.len() as int, body.len() as int) =~= new_message(m)->Ok_0);
    }
}

proof fn lemma_new_fields(data: Seq<u8>, pos: int, m: OutView)
    requires
        new_message(m) is Ok,
        stands(data, pos, new_message(m)->Ok_0),
    ensures
        data[pos] == m.kind,
        le_at(data, pos + 1, 2) == m.body.len(),
        data[pos + 3] == m.flags,
        data.subrange(pos + 4, pos + 4 + m.body.len()) == m.body,
        pos + 4 + m.body.len() <= data.len(),
{
    let all = new_message(m)->Ok_0;
    lemma_pow256();
    lemma_le_bytes_len(m.kind as nat, 1);
    lemma_le_bytes_len(m.body.len(), 2);
    lemma_stands_part(data, pos, all, 1, 3);
    assert(all.subrange(1, 3) =~= le_bytes(m.body.len(), 2));
    lemma_stands_number(data, pos + 1, m.body.len(), 2);
    lemma_stands(data, pos, all);
    reveal_with_fuel(le_bytes, 2);
    assert(all[0] == m.kind);
    assert(all[3] == m.flags);
    lemma_stands_part(data, pos, all, 4, all.len() as int);
    assert(all.subrange(4, all.len() as int) =~= m.body);
}

proof fn lemma_late(
    data: Seq<u8>,
    base: u64,
    start: int,
    ms: Seq<OutView>,
    i: int,
    acc: Seq<MessageView>,
)
    requires
        new_messages(ms) is Ok,
        no_continuation(ms),
        stands(data, start, new_messages(ms)->Ok_0),
        0 <= i <= ms.len(),
        acc == messages_read(ms.take(i), false),
    ensures
        late_messages(
            data,
            base,
            4,
            seq![(start, new_messages(ms)->Ok_0.len() as int)],
            0,
            start + span(ms.take(i), 4, false),
            acc,
        ) == (Collected { messages: messages_read(ms, false), error: None }),
    decreases ms.len() - i,
{
    let body = new_messages(ms)->Ok_0;
    let blocks = seq![(start, body.len() as int)];
    let pos = start + span(ms.take(i), 4, false);
    if i < ms.len() {
        lemma_new_part(ms, i);
        let m = ms[i];
        lemma_stands_part(
            data,
            start,
            body,
            span(ms.take(i), 4, false) as int,
            span(ms.take(i + 1), 4, false) as int,
        );
        lemma_new_fields(data, pos, m);
        lemma_le_bytes_len(m.kind as nat, 1);
        lemma_le_bytes_len(m.body.len(), 2);
        let read = message_read(m, false);
        assert(acc.push(read) =~= messages_read(ms.take(i + 1), false));
        assert(!read.continues());
        lemma_late(data, base, start, ms, i + 1, acc.push(read));
        assert(block_end(blocks, 0) == start + body.len());
    } else {
        assert(ms.take(i) =~= ms);
        if ms.len() > 0 {
            lemma_new_part(ms, 0);
        }
        assert(block_end(blocks, 0) == start + body.len());
        assert(late_opened(data, base, 4, blocks, 1, acc) == (Collected {
            messages: acc,
            error: None,
        }));
    }
}

/// A header of version 2 without its checksum.
pub open spec fn unsummed(body: Seq<u8>) -> Seq<u8> {
    seq![79u8, 72u8, 68u8, 82u8, 2u8, 2u8] + le_bytes(body.len(), 4) + body
}

/// The messages of a header of version 2 are read whatever its checksum.
pub(crate) proof fn lemma_unsummed_read(data: Seq<u8>, base: u64, addr: u64, ms: Seq<OutView>)
    requires
        new_messages(ms) is Ok,
        no_continuation(ms),
        new_messages(ms)->Ok_0.len() <= 0xffff_ffff,
        stands(data, base + addr, unsummed(new_messages(ms)->Ok_0)),
    ensures
        header_messages(data, base, addr) == (Collected {
            messages: messages_read(ms, false),
            error: None,
        }),
{
    let body = new_messages(ms)->Ok_0;
    let pos = base + addr;
    let h = unsummed(body);
    let s = rest_at(data, pos);
    lemma_pow256();
    lemma_le_bytes_len(body.len(), 4);
    lemma_stands(data, pos, h);
    assert(h.take(4) =~= seq![79u8, 72u8, 68u8, 82u8]);
    assert(s.take(4) =~= s.take(h.len() as int).take(4));
    assert(h[4] == 2 && h[5] == 2);
    assert(s[4] == s.take(h.len() as int)[4]);
    assert(s[5] == s.take(h.len() as int)[5]);
    assert(late_start(2) == 6 && size_width(2) == 4);
    lemma_stands_part(data, pos, h, 6, 10);
    assert(h.subrange(6, 10) =~= le_bytes(body.len(), 4));
    lemma_stands_number(data, pos + 6, body.len(), 4);
    assert(s.skip(6).take(4) =~= data.subrange(pos + 6, pos + 10));
    lemma_stands_part(data, pos, h, 10, (10 + body.len()) as int);
    assert(h.subrange(10, (10 + body.len()) as int) =~= body);
    assert(ms.take(0) =~= Seq::empty());
    assert(messages_read(ms.take(0), false) =~= Seq::empty());
    lemma_late(data, base, pos + 10, ms, 0, Seq::empty());
}

/// A header that stands somewhere stands there without its checksum.
pub(crate) proof fn lemma_unsummed(data: Seq<u8>, pos: int, body: Seq<u8>)
    requires
        stands(data, pos, new_header(body)),
    ensures
        stands(data, pos, unsummed(body)),
{
    let h = new_header(body);
    lemma_le_bytes_len(lookup3(unsummed(body)) as nat, 4);
    lemma_stands_part(data, pos, h, 0, unsummed(body).len() as int);
    assert(h.subrange(0, unsummed(body).len() as int) =~= unsummed(body));
}

/// A header of version 2 is read as it is written: its messages come back in their
/// order.
pub proof fn law_new_header_read(data: Seq<u8>, base: u64, addr: u64, ms: Seq<OutView>)
    requires
        new_messages(ms) is Ok,
        no_continuation(ms),
        new_messages(ms)->Ok_0.len() <= 0xffff_ffff,
        stands(data, base + addr, new_header(new_messages(ms)->Ok_0)),
    ensures
        header_messages(data, base, addr) == (Collected {
            messages: messages_read(ms, false),
            error: None,
        }),
{
    lemma_unsummed(data, base + addr, new_messages(ms)->Ok_0);
    lemma_unsummed_read(data, base, addr, ms);
}

} // verus!
