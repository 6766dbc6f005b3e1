//! Version 2 B-trees, fractal heaps and extensible arrays.

use vstd::prelude::*;

use crate::error::Error;
use crate::format::bits::{lemma_pow2_monotone, lemma_pow2_values, pow2};
use crate::format::gheap::{cursor_at, is_signature, rest_at};
use crate::format::{eof_text, le, le_at, taken_bytes, uint_of, Cursor, UNDEF};
use crate::text::{decimal, with_number};

verus! {

/// The whole part of the binary logarithm.
pub open spec fn log2_floor(n: nat) -> nat
    decreases n,
{
    if n < 2 {
        0
    } else {
        1 + log2_floor(n / 2)
    }
}

pub proof fn lemma_log2(n: nat)
    requires
        n >= 1,
    ensures
        pow2(log2_floor(n)) <= n < pow2(log2_floor(n) + 1),
    decreases n,
{
    reveal_with_fuel(pow2, 2);
    if n >= 2 {
        lemma_log2(n / 2);
    }
}

pub proof fn lemma_log2_bound(n: nat, k: nat)
    requires
        1 <= n < pow2(k),
    ensures
        log2_floor(n) < k,
{
    lemma_log2(n);
    if log2_floor(n) >= k {
        lemma_pow2_monotone(k, log2_floor(n));
    }
}

/// The whole part of the binary logarithm, 0 for 0.
pub(crate) fn log2_gen(n: u64) -> (r: u32)
    ensures
        r == log2_floor(n as nat),
        r <= 63,
{
    proof {
        lemma_pow2_values();
        if n >= 1 {
            lemma_log2_bound(n as nat, 64);
        }
    }
    let mut x: u64 = n;
    let mut r: u32 = 0;
    while x >= 2
        invariant
            r + log2_floor(x as nat) == log2_floor(n as nat),
            log2_floor(n as nat) <= 63,
        decreases x,
    {
        x = x / 2;
        r += 1;
    }
    r
}

/// The number of zero bits below the lowest one, 64 for 0.
pub open spec fn trailing(n: nat) -> nat
    decreases n,
{
    if n == 0 {
        64
    } else if n % 2 == 1 {
        0
    } else {
        1 + trailing(n / 2)
    }
}

pub(crate) fn log2_of2(n: u64) -> (r: u32)
    ensures
        r == trailing(n as nat),
        r <= 64,
{
    if n == 0 {
        return 64;
    }
    let mut x: u64 = n;
    let mut r: u32 = 0;
    proof {
        lemma_pow2_values();
        lemma_trailing(n as nat, 64);
    }
    while x % 2 == 0
        invariant
            x >= 1,
            r + trailing(x as nat) == trailing(n as nat),
            trailing(n as nat) < 64,
        decreases x,
    {
        x = x / 2;
        r += 1;
    }
    r
}

pub proof fn lemma_trailing(n: nat, k: nat)
    requires
        1 <= n < pow2(k),
    ensures
        trailing(n) < k,
    decreases n,
{
    reveal_with_fuel(pow2, 2);
    if n % 2 == 0 {
        lemma_trailing(n / 2, (k - 1) as nat);
    }
}

/// Bytes that hold the numbers up to `limit`.
pub open spec fn limit_width(limit: nat) -> nat {
    log2_floor(
        if limit == 0 {
            1
        } else {
            limit
        },
    ) / 8 + 1
}

pub(crate) fn limit_enc_size(limit: u64) -> (r: usize)
    ensures
        r == limit_width(limit as nat),
        1 <= r <= 8,
{
    let n: u64 = if limit == 0 {
        1
    } else {
        limit
    };
    (log2_gen(n) / 8 + 1) as usize
}

pub(crate) fn power2(k: u32) -> (r: u64)
    requires
        k <= 63,
    ensures
        r == pow2(k as nat),
        r >= 1,
{
    let mut r: u64 = 1;
    let mut i: u32 = 0;
    proof {
        lemma_pow2_values();
    }
    while i < k
        invariant
            i <= k <= 63,
            r == pow2(i as nat),
            r >= 1,
            pow2(64) == 0x1_0000_0000_0000_0000,
        decreases k - i,
    {
        proof {
            lemma_pow2_monotone((i + 2) as nat, 65);
            lemma_pow2_monotone((i + 1) as nat, 63);
            assert(pow2(64) == 2 * pow2(63)) by {
                reveal_with_fuel(pow2, 2);
            }
        }
        r = r * 2;
        i += 1;
    }
    r
}

/// The number in `n` bytes from `p` on.
pub(crate) fn field(s: &[u8], p: usize, n: usize) -> (r: u64)
    requires
        n <= 8,
        p + n <= s@.len(),
    ensures
        r == le_at(s@, p as int, n as int),
{
    let total: usize = s.len();
    uint_of(vstd::slice::slice_subrange(s, p, p + n))
}

pub proof fn lemma_field_bound(s: Seq<u8>, p: int, n: int)
    requires
        0 <= p,
        0 <= n <= 8,
        p + n <= s.len(),
    ensures
        n <= 1 ==> le_at(s, p, n) < 0x100,
        n <= 2 ==> le_at(s, p, n) < 0x1_0000,
        n <= 4 ==> le_at(s, p, n) < 0x1_0000_0000,
        le_at(s, p, n) < 0x1_0000_0000_0000_0000,
{
    crate::format::lemma_le_bound(s.subrange(p, p + n));
    reveal_with_fuel(crate::format::pow256, 9);
}

// Version 2 B-trees.

/// The records of a version 2 B-tree in order.
#[derive(Debug)]
pub struct V2Btree {
    pub btree_type: u8,
    pub records: Vec<Vec<u8>>,
}

/// The views of records.
pub open spec fn record_views(v: Seq<Vec<u8>>) -> Seq<Seq<u8>> {
    v.map_values(|r: Vec<u8>| r@)
}

/// What a node of some depth can hold: the largest number of records, and of records
/// in its whole subtree.
pub struct LevelView {
    pub max: nat,
    pub total: nat,
}

/// The width of the number of records in the subtree of a child of a node of depth
/// `d`.
pub open spec fn child_total_width(below: LevelView) -> nat {
    limit_width(below.total)
}

/// The width of a pointer to a child.
pub open spec fn pointer_width(below: LevelView, d: nat) -> nat {
    8 + limit_width(below.max) + (if d > 1 {
        child_total_width(below)
    } else {
        0
    })
}

/// What nodes of depth `d` can hold, for nodes of `node` bytes and records of `rec`
/// bytes.
pub open spec fn level(node: nat, rec: nat, d: nat) -> Result<LevelView, Seq<char>>
    decreases d,
{
    if d == 0 {
        if node < 10 || rec == 0 {
            Err("bad v2 btree node size"@)
        } else {
            let m = ((node - 10) / rec as int) as nat;
            Ok(LevelView { max: m, total: m })
        }
    } else {
        match level(node, rec, (d - 1) as nat) {
            Err(e) => Err(e),
            Ok(below) => {
                let w = pointer_width(below, d);
                if node < 10 + w {
                    Err("bad v2 btree node size"@)
                } else {
                    let m = ((node - (10 + w)) / (rec + w) as int) as nat;
                    let total = (m + 1) * below.total + m;
                    if total > u64::MAX {
                        Err("v2 btree too deep"@)
                    } else {
                        Ok(LevelView { max: m, total: total as nat })
                    }
                }
            },
        }
    }
}

/// An image with the geometry of a B-tree in it.
pub struct TreeInfo {
    pub data: Seq<u8>,
    pub base: u64,
    pub btree_type: u8,
    pub node: nat,
    pub rec: nat,
}

/// `n` records of `rec` bytes.
pub open spec fn records_taken(s: Seq<u8>, rec: nat, n: nat, acc: Seq<Seq<u8>>) -> Result<
    (Seq<Seq<u8>>, Seq<u8>),
    Seq<char>,
>
    decreases n,
{
    if n == 0 {
        Ok((acc, s))
    } else {
        match taken_bytes(s, rec) {
            Err(e) => Err(e),
            Ok((r, rest)) => records_taken(rest, rec, (n - 1) as nat, acc.push(r)),
        }
    }
}

/// `n` child pointers: address and number of records, and in higher nodes the number
/// in the subtree.
pub open spec fn children_taken(
    s: Seq<u8>,
    width: nat,
    skipped: nat,
    n: nat,
    acc: Seq<(u64, u64)>,
) -> Result<Seq<(u64, u64)>, Seq<char>>
    decreases n,
{
    if n == 0 {
        Ok(acc)
    } else {
        match taken_bytes(s, 8 + width + skipped) {
            Err(e) => Err(e),
            Ok((b, rest)) => children_taken(
                rest,
                width,
                skipped,
                (n - 1) as nat,
                acc.push((le_at(b, 0, 8) as u64, le_at(b, 8, width as int) as u64)),
            ),
        }
    }
}

/// The signature of a node.
pub open spec fn node_signature(leaf: bool) -> Seq<u8> {
    if leaf {
        seq![66u8, 84u8, 76u8, 70u8]
    } else {
        seq![66u8, 84u8, 73u8, 78u8]
    }
}

/// The records of a node and, in an inner node, its children.
pub open spec fn node_read(t: TreeInfo, addr: u64, nrec: u64, depth: nat) -> Result<
    (Seq<Seq<u8>>, Seq<(u64, u64)>),
    Seq<char>,
> {
    match taken_bytes(rest_at(t.data, t.base + addr), 4) {
        Err(e) => Err(e),
        Ok((sig, r)) => if sig != node_signature(depth == 0) {
            Err(
                if depth == 0 {
                    "bad v2 btree node signature (expected BTLF)"@
                } else {
                    "bad v2 btree node signature (expected BTIN)"@
                },
            )
        } else {
            match taken_bytes(r, 2) {
                Err(e) => Err(e),
                Ok((b, r2)) => if b[1] != t.btree_type {
                    Err("v2 btree node type mismatch"@)
                } else {
                    match records_taken(r2, t.rec, nrec as nat, Seq::empty()) {
                        Err(e) => Err(e),
                        Ok((recs, r3)) => if depth == 0 {
                            Ok((recs, Seq::empty()))
                        } else {
                            match level(t.node, t.rec, (depth - 1) as nat) {
                                Err(e) => Err(e),
                                Ok(below) => match children_taken(
                                    r3,
                                    limit_width(below.max),
                                    if depth > 1 {
                                        child_total_width(below)
                                    } else {
                                        0
                                    },
                                    nrec as nat + 1,
                                    Seq::empty(),
                                ) {
                                    Err(e) => Err(e),
                                    Ok(children) => Ok((recs, children)),
                                },
                            }
                        },
                    }
                },
            }
        },
    }
}

/// The records of the subtree of a node, in order, behind `acc`.
pub open spec fn subtree(
    t: TreeInfo,
    addr: u64,
    nrec: u64,
    depth: nat,
    acc: Seq<Seq<u8>>,
) -> Result<Seq<Seq<u8>>, Seq<char>>
    decreases depth, 0nat,
{
    match node_read(t, addr, nrec, depth) {
        Err(e) => Err(e),
        Ok((recs, children)) => if depth == 0 {
            Ok(acc + recs)
        } else {
            children_walked(t, recs, children, 0, (depth - 1) as nat, acc)
        },
    }
}

/// The children from the number `i` on, each followed by a record of the node, behind
/// `acc`.
pub open spec fn children_walked(
    t: TreeInfo,
    recs: Seq<Seq<u8>>,
    children: Seq<(u64, u64)>,
    i: int,
    depth: nat,
    acc: Seq<Seq<u8>>,
) -> Result<Seq<Seq<u8>>, Seq<char>>
    decreases depth, (children.len() - i + 1) as nat,
{
    if i < 0 || i >= children.len() {
        Ok(acc)
    } else {
        match subtree(t, children[i].0, children[i].1, depth, acc) {
            Err(e) => Err(e),
            Ok(v) => children_walked(
                t,
                recs,
                children,
                i + 1,
                depth,
                if i < recs.len() {
                    v.push(recs[i])
                } else {
                    v
                },
            ),
        }
    }
}

/// The type and the records of the B-tree whose header is at an address.
pub open spec fn btree_read(data: Seq<u8>, base: u64, addr: u64) -> Result<
    (u8, Seq<Seq<u8>>),
    Seq<char>,
> {
    let s = rest_at(data, base + addr);
    if s.len() < 4 {
        Err(eof_text())
    } else if s.take(4) != seq![66u8, 84u8, 72u8, 68u8] {
        Err("bad BTHD signature"@)
    } else if s.len() < 5 {
        Err(eof_text())
    } else if s[4] != 0 {
        Err("unsupported v2 btree header version "@ + decimal(s[4] as nat))
    } else if s.len() < 38 {
        Err(eof_text())
    } else {
        let node = le_at(s, 6, 4);
        let rec = le_at(s, 10, 2);
        let depth = le_at(s, 12, 2);
        let root = le_at(s, 16, 8) as u64;
        let nrec = le_at(s, 24, 2) as u64;
        match level(node, rec, depth) {
            Err(e) => Err(e),
            Ok(top) => if root == UNDEF || nrec == 0 {
                Ok((s[5], Seq::empty()))
            } else {
                match subtree(
                    TreeInfo { data, base, btree_type: s[5], node, rec },
                    root,
                    nrec,
                    depth,
                    Seq::empty(),
                ) {
                    Err(e) => Err(e),
                    Ok(v) => Ok((s[5], v)),
                }
            },
        }
    }
}

/// What nodes of some depth can hold.
struct B2Level {
    max: u64,
    total: u64,
}

/// The levels up to `depth`.
fn levels_of(node: u64, rec: u64, depth: usize) -> (r: Result<Vec<B2Level>, Error>)
    requires
        node <= u32::MAX,
        rec <= u16::MAX,
        depth <= u16::MAX,
    ensures
        match r {
            Ok(v) => v@.len() == depth + 1 && forall|i: int|
                0 <= i <= depth ==> level(node as nat, rec as nat, i as nat) == Ok::<
                    LevelView,
                    Seq<char>,
                >(LevelView { max: (#[trigger] v@[i]).max as nat, total: v@[i].total as nat }),
            Err(e) => level(node as nat, rec as nat, depth as nat) == Err::<LevelView, Seq<char>>(
                e@,
            ),
        },
{
    proof {
        lemma_level_error(node as nat, rec as nat, 0, depth as nat);
    }
    if node < 10 || rec == 0 {
        return Err(Error::new("bad v2 btree node size"));
    }
    let m: u64 = (node - 10) / rec;
    let mut v: Vec<B2Level> = Vec::new();
    v.push(B2Level { max: m, total: m });
    let mut d: usize = 1;
    assert(level(node as nat, rec as nat, 0) == Ok::<LevelView, Seq<char>>(
        LevelView { max: m as nat, total: m as nat },
    ));
    while d <= depth
        invariant
            1 <= d <= depth + 1,
            depth <= u16::MAX,
            node <= u32::MAX,
            1 <= rec <= u16::MAX,
            v@.len() == d,
            forall|i: int|
                0 <= i < d ==> level(node as nat, rec as nat, i as nat) == Ok::<
                    LevelView,
                    Seq<char>,
                >(LevelView { max: (#[trigger] v@[i]).max as nat, total: v@[i].total as nat }),
        decreases depth + 1 - d,
    {
        let below = &v[d - 1];
        let (bmax, btotal): (u64, u64) = (below.max, below.total);
        let extra: usize = if d > 1 {
            limit_enc_size(btotal)
        } else {
            0
        };
        let w: u64 = (8 + limit_enc_size(bmax) + extra) as u64;
        proof {
            assert(v@[d - 1].max == bmax);
            lemma_level_error(node as nat, rec as nat, d as nat, depth as nat);
        }
        if node < 10 + w {
            return Err(Error::new("bad v2 btree node size"));
        }
        let m: u64 = (node - (10 + w)) / (rec + w);
        proof {
            assert(m <= node) by (nonlinear_arith)
                requires
                    m == (node - (10 + w)) / (rec + w),
                    rec + w >= 1,
                    node >= 10 + w,
            ;
            assert((m + 1) * btotal <= 0x1_0000_0000 * 0xffff_ffff_ffff_ffff) by (nonlinear_arith)
                requires
                    0 <= m < 0x1_0000_0000,
                    0 <= btotal <= 0xffff_ffff_ffff_ffff,
            ;
        }
        let total: u128 = (m as u128 + 1) * btotal as u128 + m as u128;
        if total > u64::MAX as u128 {
            return Err(Error::new("v2 btree too deep"));
        }
        v.push(B2Level { max: m, total: total as u64 });
        d += 1;
    }
    Ok(v)
}

/// An error of a lower level is that of the higher ones.
proof fn lemma_level_error(node: nat, rec: nat, a: nat, b: nat)
    requires
        a <= b,
    ensures
        level(node, rec, a) matches Err(e) ==> level(node, rec, b) == Err::<LevelView, Seq<char>>(
            e,
        ),
    decreases b - a,
{
    if a < b {
        lemma_level_error(node, rec, a, (b - 1) as nat);
    }
}

/// Whether levels are those of a tree.
spec fn levels_ok(levels: Seq<B2Level>, t: TreeInfo) -> bool {
    forall|i: int|
        0 <= i < levels.len() ==> level(t.node, t.rec, i as nat) == Ok::<LevelView, Seq<char>>(
            LevelView { max: (#[trigger] levels[i]).max as nat, total: levels[i].total as nat },
        )
}

/// Whether reading the records of a tree came out as `s` says.
pub open spec fn records_as(
    r: Result<Vec<Vec<u8>>, Error>,
    s: Result<Seq<Seq<u8>>, Seq<char>>,
) -> bool {
    match (r, s) {
        (Ok(v), Ok(w)) => record_views(v@) == w,
        (Err(e), Err(m)) => e@ == m,
        _ => false,
    }
}

fn read_records(c: &mut Cursor, rec: usize, n: u64) -> (r: Result<Vec<Vec<u8>>, Error>)
    ensures
        final(c).data@ == old(c).data@,
        match (r, records_taken(old(c).rest(), rec as nat, n as nat, Seq::empty())) {
            (Ok(v), Ok((w, rest))) => record_views(v@) == w && final(c).rest() == rest && v@.len()
                == n,
            (Err(e), Err(m)) => e@ == m,
            _ => false,
        },
{
    let ghost whole = records_taken(c.rest(), rec as nat, n as nat, Seq::empty());
    let mut out: Vec<Vec<u8>> = Vec::new();
    let mut i: u64 = 0;
    assert(record_views(out@) =~= Seq::<Seq<u8>>::empty());
    while i < n
        invariant
            i <= n,
            c.data@ == old(c).data@,
            out@.len() == i,
            whole == records_taken(c.rest(), rec as nat, (n - i) as nat, record_views(out@)),
            whole == records_taken(old(c).rest(), rec as nat, n as nat, Seq::empty()),
        decreases n - i,
    {
        let b = c.next_bytes(rec)?;
        let ghost before = out@;
        out.push(vstd::slice::slice_to_vec(b));
        assert(record_views(out@) =~= record_views(before).push(b@));
        i += 1;
    }
    Ok(out)
}

fn read_children(c: &mut Cursor, width: usize, skipped: usize, n: u128) -> (r: Result<
    Vec<(u64, u64)>,
    Error,
>)
    requires
        width <= 8,
        skipped <= 8,
    ensures
        match (
            r,
            children_taken(old(c).rest(), width as nat, skipped as nat, n as nat, Seq::empty()),
        ) {
            (Ok(v), Ok(w)) => v@ == w,
            (Err(e), Err(m)) => e@ == m,
            _ => false,
        },
{
    let ghost whole = children_taken(
        c.rest(),
        width as nat,
        skipped as nat,
        n as nat,
        Seq::empty(),
    );
    let mut out: Vec<(u64, u64)> = Vec::new();
    let mut i: u128 = 0;
    while i < n
        invariant
            i <= n,
            width <= 8,
            skipped <= 8,
            whole == children_taken(
                c.rest(),
                width as nat,
                skipped as nat,
                (n - i) as nat,
                out@,
            ),
            whole == children_taken(
                old(c).rest(),
                width as nat,
                skipped as nat,
                n as nat,
                Seq::empty(),
            ),
        decreases n - i,
    {
        let b = c.next_bytes(8 + width + skipped)?;
        out.push((field(b, 0, 8), field(b, 8, width)));
        i += 1;
    }
    Ok(out)
}

fn read_node(
    data: &[u8],
    base: u64,
    btree_type: u8,
    rec: usize,
    levels: &Vec<B2Level>,
    addr: u64,
    nrec: u64,
    depth: usize,
    Ghost(t): Ghost<TreeInfo>,
) -> (r: Result<(Vec<Vec<u8>>, Vec<(u64, u64)>), Error>)
    requires
        t.data == data@,
        t.base == base,
        t.btree_type == btree_type,
        t.rec == rec,
        depth < levels@.len(),
        levels_ok(levels@, t),
    ensures
        match (r, node_read(t, addr, nrec, depth as nat)) {
            (Ok((a, b)), Ok((x, y))) => record_views(a@) == x && b@ == y,
            (Err(e), Err(m)) => e@ == m,
            _ => false,
        },
{
    let mut c = cursor_at(data, base, addr);
    let sig = c.next_bytes(4)?;
    if depth == 0 {
        if !is_signature(sig, 66, 84, 76, 70) {
            return Err(Error::new("bad v2 btree node signature (expected BTLF)"));
        }
    } else if !is_signature(sig, 66, 84, 73, 78) {
        return Err(Error::new("bad v2 btree node signature (expected BTIN)"));
    }
    let b = c.next_bytes(2)?;
    if b[1] != btree_type {
        return Err(Error::new("v2 btree node type mismatch"));
    }
    let recs = read_records(&mut c, rec, nrec)?;
    if depth == 0 {
        return Ok((recs, Vec::new()));
    }
    let below = &levels[depth - 1];
    let skipped: usize = if depth > 1 {
        limit_enc_size(below.total)
    } else {
        0
    };
    let children = read_children(&mut c, limit_enc_size(below.max), skipped, nrec as u128 + 1)?;
    Ok((recs, children))
}

/// Reads the subtree of a node behind `out`.
fn walk_b2_node(
    data: &[u8],
    base: u64,
    btree_type: u8,
    rec: usize,
    levels: &Vec<B2Level>,
    addr: u64,
    nrec: u64,
    depth: usize,
    acc: Vec<Vec<u8>>,
    Ghost(t): Ghost<TreeInfo>,
) -> (r: Result<Vec<Vec<u8>>, Error>)
    requires
        t.data == data@,
        t.base == base,
        t.btree_type == btree_type,
        t.rec == rec,
        depth < levels@.len(),
        levels_ok(levels@, t),
    ensures
        records_as(r, subtree(t, addr, nrec, depth as nat, record_views(acc@))),
    decreases depth,
{
    let mut out = acc;
    let ghost first = record_views(out@);
    let ghost whole = subtree(t, addr, nrec, depth as nat, first);
    let (recs, children) = read_node(
        data,
        base,
        btree_type,
        rec,
        levels,
        addr,
        nrec,
        depth,
        Ghost(t),
    )?;
    if depth == 0 {
        let ghost before = out@;
        let mut recs = recs;
        let ghost more = recs@;
        out.append(&mut recs);
        assert(record_views(out@) =~= record_views(before) + record_views(more));
        return Ok(out);
    }
    let mut i: usize = 0;
    let n: usize = children.len();
    while i < n
        invariant
            i <= n == children@.len(),
            t.data == data@,
            t.base == base,
            t.btree_type == btree_type,
            t.rec == rec,
            0 < depth < levels@.len(),
            levels_ok(levels@, t),
            whole == children_walked(
                t,
                record_views(recs@),
                children@,
                i as int,
                (depth - 1) as nat,
                record_views(out@),
            ),
            whole == subtree(t, addr, nrec, depth as nat, first),
            first == record_views(acc@),
        decreases n - i,
    {
        let (caddr, cnrec): (u64, u64) = children[i];
        out =
        walk_b2_node(
            data,
            base,
            btree_type,
            rec,
            levels,
            caddr,
            cnrec,
            depth - 1,
            out,
            Ghost(t),
        )?;
        if i < recs.len() {
            let ghost before = out@;
            let copy = vstd::slice::slice_to_vec(recs[i].as_slice());
            out.push(copy);
            assert(record_views(out@) =~= record_views(before).push(record_views(recs@)[i as int]));
        }
        i += 1;
    }
    Ok(out)
}

/// Whether reading a tree came out as `s` says.
pub open spec fn btree_as(
    r: Result<V2Btree, Error>,
    s: Result<(u8, Seq<Seq<u8>>), Seq<char>>,
) -> bool {
    match (r, s) {
        (Ok(v), Ok((k, w))) => v.btree_type == k && record_views(v.records@) == w,
        (Err(e), Err(m)) => e@ == m,
        _ => false,
    }
}

/// Reads the B-tree whose header is at an address, with all its records.
pub fn read_v2btree(data: &[u8], base: u64, hdr_addr: u64) -> (r: Result<V2Btree, Error>)
    ensures
        btree_as(r, btree_read(data@, base, hdr_addr)),
{
    let mut c = cursor_at(data, base, hdr_addr);
    let ghost s = c.rest();
    let sig = c.next_bytes(4)?;
    if !is_signature(sig, 66, 84, 72, 68) {
        return Err(Error::new("bad BTHD signature"));
    }
    let version: u64 = c.next_uint(1)?;
    proof {
        lemma_one_byte(s, 4);
    }
    if version != 0 {
        return Err(Error::from_text(with_number("unsupported v2 btree header version ", version)));
    }
    let h = c.next_bytes(33)?;
    proof {
        assert(s.skip(4).skip(1) =~= s.skip(5));
        lemma_tail_fields(s, 5, 33);
        lemma_field_bound(h@, 1, 4);
        lemma_field_bound(h@, 5, 2);
        lemma_field_bound(h@, 7, 2);
    }
    let btree_type: u8 = h[0];
    let node: u64 = field(h, 1, 4);
    let rec: u64 = field(h, 5, 2);
    let depth: usize = field(h, 7, 2) as usize;
    let root: u64 = field(h, 11, 8);
    let nrec: u64 = field(h, 19, 2);
    let levels = levels_of(node, rec, depth)?;
    assert(levels@[depth as int].max >= 0);
    if root == UNDEF || nrec == 0 {
        let records: Vec<Vec<u8>> = Vec::new();
        assert(record_views(records@) =~= Seq::<Seq<u8>>::empty());
        return Ok(V2Btree { btree_type, records });
    }
    let ghost t = TreeInfo {
        data: data@,
        base,
        btree_type,
        node: node as nat,
        rec: rec as nat,
    };
    let none: Vec<Vec<u8>> = Vec::new();
    assert(record_views(none@) =~= Seq::<Seq<u8>>::empty());
    let records = walk_b2_node(
        data,
        base,
        btree_type,
        rec as usize,
        &levels,
        root,
        nrec,
        depth,
        none,
        Ghost(t),
    )?;
    Ok(V2Btree { btree_type, records })
}

/// A number of one byte is that byte.
pub proof fn lemma_one_byte(s: Seq<u8>, p: int)
    requires
        0 <= p,
    ensures
        p < s.len() ==> le(s.skip(p).take(1)) == s[p],
{
    reveal_with_fuel(le, 2);
}

/// The fields of a part are fields of the whole.
pub proof fn lemma_tail_fields(s: Seq<u8>, p: int, n: int)
    requires
        0 <= p,
        0 <= n,
        p + n <= s.len(),
    ensures
        forall|q: int, k: int|
            0 <= q && 0 <= k && q + k <= n ==> #[trigger] le_at(s.skip(p).take(n), q, k) == le_at(
                s,
                p + q,
                k,
            ),
{
    assert forall|q: int, k: int| 0 <= q && 0 <= k && q + k <= n implies #[trigger] le_at(
        s.skip(p).take(n),
        q,
        k,
    ) == le_at(s, p + q, k) by {
        assert(s.skip(p).take(n).subrange(q, q + k) =~= s.subrange(p + q, p + q + k));
    }
}

} // verus!
