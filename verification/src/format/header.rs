//! Object headers: the messages of both header versions, with their continuation
//! blocks.

use vstd::prelude::*;

use crate::error::Error;
use crate::format::gheap::{cursor_at, is_signature, rest_at};
use crate::format::v2::field;
use crate::format::{eof_text, le_at, lemma_le_bound, pow256, taken_bytes, taken_uint, Cursor};
use crate::text::{decimal, with_number};

verus! {

pub const MSG_NIL: u16 = 0x0000;

pub const MSG_DATASPACE: u16 = 0x0001;

pub const MSG_LINK_INFO: u16 = 0x0002;

pub const MSG_DATATYPE: u16 = 0x0003;

pub const MSG_FILL_OLD: u16 = 0x0004;

pub const MSG_FILL: u16 = 0x0005;

pub const MSG_LINK: u16 = 0x0006;

pub const MSG_LAYOUT: u16 = 0x0008;

pub const MSG_GROUP_INFO: u16 = 0x000a;

pub const MSG_FILTER: u16 = 0x000b;

pub const MSG_ATTRIBUTE: u16 = 0x000c;

pub const MSG_COMMENT: u16 = 0x000d;

pub const MSG_SHMESG_TABLE: u16 = 0x000f;

pub const MSG_CONTINUATION: u16 = 0x0010;

pub const MSG_SYMBOL_TABLE: u16 = 0x0011;

pub const MSG_MOD_TIME: u16 = 0x0012;

pub const MSG_ATTRIBUTE_INFO: u16 = 0x0015;

/// A message of an object header.
#[derive(Debug)]
pub struct Message<'a> {
    pub mtype: u16,
    pub flags: u8,
    pub body: &'a [u8],
}

/// The view of a [`Message`].
pub struct MessageView {
    pub mtype: u16,
    pub flags: u8,
    pub body: Seq<u8>,
}

impl<'a> View for Message<'a> {
    type V = MessageView;

    open spec fn view(&self) -> MessageView {
        MessageView { mtype: self.mtype, flags: self.flags, body: self.body@ }
    }
}

impl MessageView {
    /// Whether the body refers to a message that stands elsewhere.
    pub open spec fn shared(self) -> bool {
        self.flags / 2 % 2 == 1
    }

    /// Whether the message gives a continuation block.
    pub open spec fn continues(self) -> bool {
        self.mtype == MSG_CONTINUATION && !self.shared()
    }
}

/// The views of messages.
pub open spec fn message_views(v: Seq<Message>) -> Seq<MessageView> {
    v.map_values(|m: Message| m@)
}

/// The messages of a header, and the error that ended the list, if one did.
pub struct Collected {
    pub messages: Seq<MessageView>,
    pub error: Option<Seq<char>>,
}

/// The block that a continuation message gives: its place and its size.
pub open spec fn continuation(base: u64, body: Seq<u8>) -> (int, int) {
    ((base + le_at(body, 0, 8)) as int, le_at(body, 8, 8) as int)
}

/// The messages of a version 1 header from the place `pos` in the block `bi` on, with
/// `left` messages still to come.
pub open spec fn early_messages(
    data: Seq<u8>,
    base: u64,
    blocks: Seq<(int, int)>,
    bi: int,
    pos: int,
    left: nat,
    acc: Seq<MessageView>,
) -> Collected
    decreases 2 * left + (blocks.len() - bi),
{
    if bi < 0 || bi >= blocks.len() {
        Collected { messages: acc, error: None }
    } else {
        let end = blocks[bi].0 + blocks[bi].1;
        let next = if bi + 1 < blocks.len() {
            blocks[bi + 1].0
        } else {
            0
        };
        if pos + 8 > end || left == 0 {
            early_messages(data, base, blocks, bi + 1, next, left, acc)
        } else if data.len() < pos + 5 {
            Collected { messages: acc, error: Some(eof_text()) }
        } else {
            let size = le_at(data, pos + 2, 2);
            let at = pos + 8;
            if at + size > end || at + size > data.len() {
                early_messages(data, base, blocks, bi + 1, next, left, acc)
            } else {
                let m = MessageView {
                    mtype: le_at(data, pos, 2) as u16,
                    flags: data[pos + 4],
                    body: data.subrange(at, at + size),
                };
                if m.continues() {
                    if size < 16 {
                        Collected { messages: acc.push(m), error: Some(eof_text()) }
                    } else {
                        early_messages(
                            data,
                            base,
                            blocks.push(continuation(base, m.body)),
                            bi,
                            at + size,
                            (left - 1) as nat,
                            acc.push(m),
                        )
                    }
                } else {
                    early_messages(
                        data,
                        base,
                        blocks,
                        bi,
                        at + size,
                        (left - 1) as nat,
                        acc.push(m),
                    )
                }
            }
        }
    }
}

/// The messages of a version 2 header from the place `pos` in the block `bi` on. The
/// head of a message has `head` bytes. A header has no more blocks than the file has
/// bytes.
pub open spec fn late_messages(
    data: Seq<u8>,
    base: u64,
    head: int,
    blocks: Seq<(int, int)>,
    bi: int,
    pos: int,
    acc: Seq<MessageView>,
) -> Collected
    decreases data.len() + 1 - bi, 0nat, block_end(blocks, bi) - pos,
{
    if bi < 0 || bi >= blocks.len() {
        Collected { messages: acc, error: None }
    } else if head < 4 || bi > data.len() {
        Collected { messages: acc, error: Some("too many object header blocks"@) }
    } else {
        let end = block_end(blocks, bi);
        if pos + head > end {
            late_opened(data, base, head, blocks, bi + 1, acc)
        } else if data.len() < pos + head {
            Collected { messages: acc, error: Some(eof_text()) }
        } else {
            let size = le_at(data, pos + 1, 2);
            let at = pos + head;
            if at + size > end || at + size > data.len() {
                late_opened(data, base, head, blocks, bi + 1, acc)
            } else {
                let m = MessageView {
                    mtype: data[pos] as u16,
                    flags: data[pos + 3],
                    body: data.subrange(at, at + size),
                };
                if m.continues() {
                    if size < 16 {
                        Collected { messages: acc.push(m), error: Some(eof_text()) }
                    } else {
                        late_messages(
                            data,
                            base,
                            head,
                            blocks.push(continuation(base, m.body)),
                            bi,
                            at + size,
                            acc.push(m),
                        )
                    }
                } else {
                    late_messages(data, base, head, blocks, bi, at + size, acc.push(m))
                }
            }
        }
    }
}

/// The end of the messages of a block: in continuation blocks a checksum follows.
pub open spec fn block_end(blocks: Seq<(int, int)>, bi: int) -> int {
    if bi == 0 {
        blocks[bi].0 + blocks[bi].1
    } else {
        blocks[bi].0 + blocks[bi].1 - 4
    }
}

/// The same from the continuation block `bi` on, which starts with a signature.
pub open spec fn late_opened(
    data: Seq<u8>,
    base: u64,
    head: int,
    blocks: Seq<(int, int)>,
    bi: int,
    acc: Seq<MessageView>,
) -> Collected
    decreases data.len() + 1 - bi, 1nat, 0int,
{
    if bi < 0 || bi >= blocks.len() {
        Collected { messages: acc, error: None }
    } else if bi > data.len() {
        Collected { messages: acc, error: Some("too many object header blocks"@) }
    } else {
        match taken_bytes(rest_at(data, blocks[bi].0), 4) {
            Err(e) => Collected { messages: acc, error: Some(e) },
            Ok((sig, r)) => if sig != seq![79u8, 67u8, 72u8, 75u8] {
                Collected { messages: acc, error: Some("bad OCHK signature"@) }
            } else {
                late_messages(data, base, head, blocks, bi, blocks[bi].0 + 4, acc)
            },
        }
    }
}

/// The messages of the object header at an address.
pub open spec fn header_messages(data: Seq<u8>, base: u64, addr: u64) -> Collected {
    let pos = base + addr;
    let s = rest_at(data, pos);
    if s.len() < 4 {
        failed("object header address out of bounds"@)
    } else if s.take(4) != seq![79u8, 72u8, 68u8, 82u8] {
        if s[0] != 1 {
            failed("unsupported object header version "@ + decimal(s[0] as nat))
        } else if s.len() < 12 {
            failed(eof_text())
        } else {
            early_messages(
                data,
                base,
                seq![(pos + 16, le_at(s, 8, 4) as int)],
                0,
                pos + 16,
                le_at(s, 2, 2),
                Seq::empty(),
            )
        }
    } else if s.len() < 5 {
        failed(eof_text())
    } else if s[4] != 2 {
        failed("unsupported OHDR version "@ + decimal(s[4] as nat))
    } else if s.len() < 6 {
        failed(eof_text())
    } else {
        let start = late_start(s[5]);
        let width = size_width(s[5]);
        if s.len() < start {
            failed(eof_text())
        } else {
            match taken_uint(s.skip(start), width) {
                Err(e) => failed(e),
                Ok((size, r)) => late_messages(
                    data,
                    base,
                    if s[5] / 4 % 2 == 1 {
                        6
                    } else {
                        4
                    },
                    seq![(pos + start + width, size as int)],
                    0,
                    pos + start + width,
                    Seq::empty(),
                ),
            }
        }
    }
}

/// No messages, but an error.
pub open spec fn failed(e: Seq<char>) -> Collected {
    Collected { messages: Seq::empty(), error: Some(e) }
}

/// Where the size of the first block of a version 2 header stands.
pub open spec fn late_start(flags: u8) -> int {
    6 + (if flags / 32 % 2 == 1 {
        16int
    } else {
        0int
    }) + (if flags / 16 % 2 == 1 {
        4int
    } else {
        0int
    })
}

/// The width of that size.
pub open spec fn size_width(flags: u8) -> nat {
    if flags % 4 == 0 {
        1
    } else if flags % 4 == 1 {
        2
    } else if flags % 4 == 2 {
        4
    } else {
        8
    }
}

/// The messages that were read, and the error that ended them.
pub struct MessageList<'a> {
    pub messages: Vec<Message<'a>>,
    pub error: Option<Error>,
}

impl<'a> View for MessageList<'a> {
    type V = Collected;

    open spec fn view(&self) -> Collected {
        Collected {
            messages: message_views(self.messages@),
            error: match self.error {
                None => None,
                Some(e) => Some(e@),
            },
        }
    }
}

/// The views of blocks.
spec fn block_views(v: Seq<(u128, u128)>) -> Seq<(int, int)> {
    v.map_values(|b: (u128, u128)| (b.0 as int, b.1 as int))
}

/// Whether places and sizes are such as numbers of 8 bytes give.
spec fn modest_blocks(v: Seq<(u128, u128)>) -> bool {
    forall|i: int|
        0 <= i < v.len() ==> (#[trigger] v[i]).0 <= 0x4_0000_0000_0000_0000 && v[i].1
            <= 0x1_0000_0000_0000_0000
}

fn ended<'a>(messages: Vec<Message<'a>>, e: Error) -> (r: MessageList<'a>)
    ensures
        r@ == (Collected { messages: message_views(messages@), error: Some(e@) }),
{
    MessageList { messages, error: Some(e) }
}

/// Reads the block that a continuation message gives.
fn read_continuation(base: u64, body: &[u8]) -> (r: (u128, u128))
    requires
        body@.len() >= 16,
    ensures
        (r.0 as int, r.1 as int) == continuation(base, body@),
        r.0 <= 0x4_0000_0000_0000_0000,
        r.1 <= 0x1_0000_0000_0000_0000,
{
    (base as u128 + field(body, 0, 8) as u128, field(body, 8, 8) as u128)
}

proof fn lemma_short(s: Seq<u8>, p: int)
    requires
        0 <= p,
        p + 2 <= s.len(),
    ensures
        le_at(s, p, 2) < 0x1_0000,
{
    lemma_le_bound(s.subrange(p, p + 2));
    reveal_with_fuel(pow256, 3);
}

#[verifier::rlimit(40)]
fn read_early<'a>(data: &'a [u8], base: u64, start: u128, size: u64, count: u64) -> (r: MessageList<
    'a,
>)
    requires
        start <= 0x4_0000_0000_0000_0000,
        count <= 0xffff,
    ensures
        r@ == early_messages(
            data@,
            base,
            seq![(start as int, size as int)],
            0,
            start as int,
            count as nat,
            Seq::empty(),
        ),
{
    let total: u128 = data.len() as u128;
    let mut blocks: Vec<(u128, u128)> = Vec::new();
    blocks.push((start, size as u128));
    let mut messages: Vec<Message<'a>> = Vec::new();
    let mut bi: usize = 0;
    let mut pos: u128 = start;
    let mut left: u64 = count;
    let ghost whole = early_messages(
        data@,
        base,
        seq![(start as int, size as int)],
        0,
        start as int,
        count as nat,
        Seq::empty(),
    );
    assert(block_views(blocks@) =~= seq![(start as int, size as int)]);
    assert(message_views(messages@) =~= Seq::<MessageView>::empty());
    while bi < blocks.len()
        invariant
            total == data@.len() <= usize::MAX,
            whole == early_messages(
                data@,
                base,
                seq![(start as int, size as int)],
                0,
                start as int,
                count as nat,
                Seq::empty(),
            ),
            bi <= blocks@.len(),
            left <= count <= 0xffff,
            blocks@.len() <= 1 + count - left,
            modest_blocks(blocks@),
            pos <= 0x8_0000_0000_0000_0000,
            whole == early_messages(
                data@,
                base,
                block_views(blocks@),
                bi as int,
                pos as int,
                left as nat,
                message_views(messages@),
            ),
        decreases 2 * left + (blocks@.len() - bi),
    {
        assert(block_views(blocks@)[bi as int] == (blocks@[bi as int].0 as int, blocks@[bi as int].1 as int));
        let end: u128 = blocks[bi].0 + blocks[bi].1;
        let next: u128 = if bi + 1 < blocks.len() {
            assert(block_views(blocks@)[bi + 1].0 == blocks@[bi + 1].0);
            blocks[bi + 1].0
        } else {
            0
        };
        if pos + 8 > end || left == 0 {
            bi += 1;
            pos = next;
            continue;
        }
        if total < pos + 5 {
            return ended(messages, Error::new("unexpected end of file"));
        }
        let p: usize = pos as usize;
        proof {
            lemma_short(data@, p as int);
            lemma_short(data@, p + 2);
        }
        let size: u64 = field(data, p + 2, 2);
        let at: u128 = pos + 8;
        if at + size as u128 > end || at + size as u128 > total {
            bi += 1;
            pos = next;
            continue;
        }
        let m = Message {
            mtype: field(data, p, 2) as u16,
            flags: data[p + 4],
            body: vstd::slice::slice_subrange(data, at as usize, at as usize + size as usize),
        };
        let ghost before = messages@;
        let ghost old_blocks = blocks@;
        let mtype: u16 = m.mtype;
        let shared: bool = m.flags / 2 % 2 == 1;
        let body = m.body;
        messages.push(m);
        assert(message_views(messages@) =~= message_views(before).push(m@));
        if mtype == MSG_CONTINUATION && !shared {
            if size < 16 {
                return ended(messages, Error::new("unexpected end of file"));
            }
            let b: (u128, u128) = read_continuation(base, body);
            blocks.push(b);
            assert(block_views(blocks@) =~= block_views(old_blocks).push(
                continuation(base, body@),
            ));
        }
        pos = at + size as u128;
        left -= 1;
    }
    MessageList { messages, error: None }
}

#[verifier::rlimit(60)]
fn read_late<'a>(data: &'a [u8], base: u64, head: u8, start: u128, size: u64) -> (r: MessageList<
    'a,
>)
    requires
        start <= 0x4_0000_0000_0000_0000,
        head == 4 || head == 6,
    ensures
        r@ == late_messages(
            data@,
            base,
            head as int,
            seq![(start as int, size as int)],
            0,
            start as int,
            Seq::empty(),
        ),
{
    let total: u128 = data.len() as u128;
    let mut blocks: Vec<(u128, u128)> = Vec::new();
    blocks.push((start, size as u128));
    let mut messages: Vec<Message<'a>> = Vec::new();
    let mut bi: usize = 0;
    let mut pos: u128 = start;
    let ghost whole = late_messages(
        data@,
        base,
        head as int,
        seq![(start as int, size as int)],
        0,
        start as int,
        Seq::empty(),
    );
    assert(block_views(blocks@) =~= seq![(start as int, size as int)]);
    assert(message_views(messages@) =~= Seq::<MessageView>::empty());
    loop
        invariant
            total == data@.len() <= usize::MAX,
            head == 4 || head == 6,
            whole == late_messages(
                data@,
                base,
                head as int,
                seq![(start as int, size as int)],
                0,
                start as int,
                Seq::empty(),
            ),
            bi < blocks@.len(),
            bi <= data@.len(),
            modest_blocks(blocks@),
            pos <= 0x8_0000_0000_0000_0000,
            whole == late_messages(
                data@,
                base,
                head as int,
                block_views(blocks@),
                bi as int,
                pos as int,
                message_views(messages@),
            ),
        decreases data@.len() - bi, 0x10_0000_0000_0000_0000 - pos,
    {
        let ghost views = block_views(blocks@);
        assert(views[bi as int] == (blocks@[bi as int].0 as int, blocks@[bi as int].1 as int));
        let full: u128 = blocks[bi].0 + blocks[bi].1;
        // the last byte of the messages, four further on so that it is no negative number
        let end4: u128 = if bi == 0 {
            full + 4
        } else {
            full
        };
        assert(end4 - 4 == block_end(views, bi as int));
        let fits: bool = pos + head as u128 + 4 <= end4;
        if fits && total < pos + head as u128 {
            return ended(messages, Error::new("unexpected end of file"));
        }
        if fits {
            let p: usize = pos as usize;
            proof {
                lemma_short(data@, p + 1);
            }
            let size: u64 = field(data, p + 1, 2);
            let at: u128 = pos + head as u128;
            if at + size as u128 + 4 <= end4 && at + size as u128 <= total {
                let m = Message {
                    mtype: data[p] as u16,
                    flags: data[p + 3],
                    body: vstd::slice::slice_subrange(
                        data,
                        at as usize,
                        at as usize + size as usize,
                    ),
                };
                let ghost before = messages@;
                let ghost old_blocks = blocks@;
                let mtype: u16 = m.mtype;
                let shared: bool = m.flags / 2 % 2 == 1;
                let body = m.body;
                messages.push(m);
                assert(message_views(messages@) =~= message_views(before).push(m@));
                if mtype == MSG_CONTINUATION && !shared {
                    if size < 16 {
                        return ended(messages, Error::new("unexpected end of file"));
                    }
                    let b: (u128, u128) = read_continuation(base, body);
                    blocks.push(b);
                    assert(block_views(blocks@) =~= block_views(old_blocks).push(
                        continuation(base, body@),
                    ));
                }
                pos = at + size as u128;
                continue;
            }
        }
        assert(whole == late_opened(
            data@,
            base,
            head as int,
            views,
            bi + 1,
            message_views(messages@),
        ));
        let count: usize = blocks.len();
        bi += 1;
        if bi >= count {
            return MessageList { messages, error: None };
        }
        if bi > data.len() {
            return ended(messages, Error::new("too many object header blocks"));
        }
        assert(views[bi as int].0 == blocks@[bi as int].0);
        let place: u128 = blocks[bi].0;
        let n: usize = data.len();
        let mut c = Cursor::at(
            data,
            if place <= n as u128 {
                place as usize
            } else {
                n
            },
        );
        assert(c.rest() =~= rest_at(data@, place as int));
        match c.next_bytes(4) {
            Err(e) => {
                return ended(messages, e);
            },
            Ok(sig) => {
                if !is_signature(sig, 79, 67, 72, 75) {
                    return ended(messages, Error::new("bad OCHK signature"));
                }
            },
        }
        pos = place + 4;
    }
}

/// Reads the messages of the object header at an address.
pub fn read_messages<'a>(data: &'a [u8], base: u64, addr: u64) -> (r: MessageList<'a>)
    ensures
        r@ == header_messages(data@, base, addr),
{
    let none: Vec<Message<'a>> = Vec::new();
    assert(message_views(none@) =~= Seq::<MessageView>::empty());
    let mut c = cursor_at(data, base, addr);
    let ghost s = c.rest();
    let pos: u128 = base as u128 + addr as u128;
    let n: usize = c.remaining();
    if n < 4 {
        return ended(none, Error::new("object header address out of bounds"));
    }
    let from: usize = c.pos;
    let view = vstd::slice::slice_subrange(data, from, data.len());
    assert(view@ =~= s);
    let sig = vstd::slice::slice_subrange(view, 0, 4);
    assert(sig@ =~= s.take(4));
    if !is_signature(sig, 79, 72, 68, 82) {
        if view[0] != 1 {
            return ended(
                none,
                Error::from_text(
                    with_number("unsupported object header version ", view[0] as u64),
                ),
            );
        }
        if n < 12 {
            return ended(none, Error::new("unexpected end of file"));
        }
        proof {
            lemma_short(s, 2);
        }
        let count: u64 = field(view, 2, 2);
        let size: u64 = field(view, 8, 4);
        return read_early(data, base, pos + 16, size, count);
    }
    if n < 5 {
        return ended(none, Error::new("unexpected end of file"));
    }
    if view[4] != 2 {
        return ended(
            none,
            Error::from_text(with_number("unsupported OHDR version ", view[4] as u64)),
        );
    }
    if n < 6 {
        return ended(none, Error::new("unexpected end of file"));
    }
    let flags: u8 = view[5];
    let mut start: usize = 6;
    if flags / 32 % 2 == 1 {
        start = start + 16;
    }
    if flags / 16 % 2 == 1 {
        start = start + 4;
    }
    let width: usize = match flags % 4 {
        0 => 1,
        1 => 2,
        2 => 4,
        _ => 8,
    };
    if n < start || n - start < width {
        return ended(none, Error::new("unexpected end of file"));
    }
    let size: u64 = field(view, start, width);
    proof {
        assert(s.skip(start as int).take(width as int) =~= s.subrange(
            start as int,
            start + width,
        ));
        crate::format::v2::lemma_field_bound(s, start as int, width as int);
    }
    let head: u8 = if flags / 4 % 2 == 1 {
        6
    } else {
        4
    };
    read_late(data, base, head, pos + start as u128 + width as u128, size)
}

} // verus!
