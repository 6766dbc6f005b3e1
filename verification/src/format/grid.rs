//! Row-major numbering of the elements of an array.

use vstd::arithmetic::div_mod::{
    lemma_fundamental_div_mod, lemma_fundamental_div_mod_converse, lemma_mod_bound,
};
use vstd::prelude::*;

verus! {

/// The number of elements of an array.
pub open spec fn count(dims: Seq<u64>) -> nat
    decreases dims.len(),
{
    if dims.len() == 0 {
        1
    } else {
        dims[0] as nat * count(dims.skip(1))
    }
}

/// Whether coordinates lie within an array.
pub open spec fn within(dims: Seq<u64>, c: Seq<nat>) -> bool {
    c.len() == dims.len() && forall|i: int| 0 <= i < dims.len() ==> #[trigger] c[i] < dims[i]
}

/// The number of the element at some coordinates.
pub open spec fn number_of(dims: Seq<u64>, c: Seq<nat>) -> nat
    decreases dims.len(),
{
    if dims.len() == 0 {
        0
    } else {
        c[0] * count(dims.skip(1)) + number_of(dims.skip(1), c.skip(1))
    }
}

/// The coordinates of an element.
pub open spec fn coords_of(dims: Seq<u64>, e: nat) -> Seq<nat>
    decreases dims.len(),
{
    if dims.len() == 0 {
        Seq::empty()
    } else {
        let s = count(dims.skip(1));
        if s == 0 {
            seq![0nat] + coords_of(dims.skip(1), 0)
        } else {
            seq![e / s] + coords_of(dims.skip(1), e % s)
        }
    }
}

pub proof fn lemma_coords_len(dims: Seq<u64>, e: nat)
    ensures
        coords_of(dims, e).len() == dims.len(),
    decreases dims.len(),
{
    if dims.len() > 0 {
        let s = count(dims.skip(1));
        if s == 0 {
            lemma_coords_len(dims.skip(1), 0);
        } else {
            lemma_coords_len(dims.skip(1), e % s);
        }
    }
}

pub proof fn lemma_within_skip(dims: Seq<u64>, c: Seq<nat>)
    requires
        within(dims, c),
        dims.len() > 0,
    ensures
        c[0] < dims[0],
        within(dims.skip(1), c.skip(1)),
{
    assert forall|i: int| 0 <= i < dims.skip(1).len() implies #[trigger] c.skip(1)[i] < dims.skip(
        1,
    )[i] by {
        assert(c[i + 1] < dims[i + 1]);
    }
}

/// The number of an element of the array is below the number of elements.
pub proof fn lemma_number_bound(dims: Seq<u64>, c: Seq<nat>)
    requires
        within(dims, c),
    ensures
        number_of(dims, c) < count(dims),
    decreases dims.len(),
{
    if dims.len() > 0 {
        lemma_within_skip(dims, c);
        lemma_number_bound(dims.skip(1), c.skip(1));
        let (x, s, r, d) = (
            c[0],
            count(dims.skip(1)),
            number_of(dims.skip(1), c.skip(1)),
            dims[0] as nat,
        );
        assert(x * s + r < d * s) by (nonlinear_arith)
            requires
                x + 1 <= d,
                r < s,
        ;
    }
}

/// The coordinates of the element at some coordinates are those.
pub proof fn law_coords_of_number(dims: Seq<u64>, c: Seq<nat>)
    requires
        within(dims, c),
    ensures
        coords_of(dims, number_of(dims, c)) == c,
    decreases dims.len(),
{
    if dims.len() > 0 {
        lemma_within_skip(dims, c);
        law_coords_of_number(dims.skip(1), c.skip(1));
        lemma_number_bound(dims.skip(1), c.skip(1));
        let (x, s, r) = (c[0], count(dims.skip(1)), number_of(dims.skip(1), c.skip(1)));
        assert(x * s == s * x) by (nonlinear_arith);
        lemma_fundamental_div_mod_converse((x * s + r) as int, s as int, x as int, r as int);
        assert(seq![x] + c.skip(1) =~= c);
    } else {
        assert(c =~= Seq::empty());
    }
}

/// The element at the coordinates of an element is that.
pub proof fn law_number_of_coords(dims: Seq<u64>, e: nat)
    requires
        e < count(dims),
    ensures
        within(dims, coords_of(dims, e)),
        number_of(dims, coords_of(dims, e)) == e,
    decreases dims.len(),
{
    if dims.len() > 0 {
        let s = count(dims.skip(1));
        let d = dims[0] as nat;
        assert(s > 0) by (nonlinear_arith)
            requires
                e < d * s,
                e >= 0,
        ;
        lemma_fundamental_div_mod(e as int, s as int);
        lemma_mod_bound(e as int, s as int);
        let (q, r) = (e / s, e % s);
        assert(q < d) by (nonlinear_arith)
            requires
                e == s * q + r,
                0 <= r,
                e < d * s,
                s > 0,
        ;
        assert(q * s == s * q) by (nonlinear_arith);
        law_number_of_coords(dims.skip(1), r);
        let rest = coords_of(dims.skip(1), r);
        let c = coords_of(dims, e);
        lemma_coords_len(dims, e);
        assert(c.skip(1) =~= rest);
        assert forall|i: int| 0 <= i < dims.len() implies #[trigger] c[i] < dims[i] by {
            if i > 0 {
                assert(c[i] == rest[i - 1]);
                assert(dims.skip(1)[i - 1] == dims[i]);
            }
        }
    }
}

/// Elements are numbered row by row: of two elements, the one that comes first in the
/// first dimension in which they differ has the lower number.
pub proof fn law_row_major(dims: Seq<u64>, a: Seq<nat>, b: Seq<nat>, k: int)
    requires
        within(dims, a),
        within(dims, b),
        0 <= k < dims.len(),
        forall|i: int| 0 <= i < k ==> #[trigger] a[i] == b[i],
        a[k] < b[k],
    ensures
        number_of(dims, a) < number_of(dims, b),
    decreases dims.len(),
{
    lemma_within_skip(dims, a);
    lemma_within_skip(dims, b);
    let rest = dims.skip(1);
    let s = count(rest);
    if k == 0 {
        lemma_number_bound(rest, a.skip(1));
        let (x, y, r) = (a[0], b[0], number_of(rest, a.skip(1)));
        assert(x * s + r < y * s) by (nonlinear_arith)
            requires
                x + 1 <= y,
                r < s,
        ;
    } else {
        assert(a[0] == b[0]);
        assert forall|i: int| 0 <= i < k - 1 implies #[trigger] a.skip(1)[i] == b.skip(1)[i] by {
            assert(a[i + 1] == b[i + 1]);
        }
        law_row_major(rest, a.skip(1), b.skip(1), k - 1);
    }
}

/// Neighbours in the last dimension have neighbouring numbers.
pub proof fn law_neighbours(dims: Seq<u64>, a: Seq<nat>)
    requires
        dims.len() > 0,
        within(dims, a),
        a.last() + 1 < dims.last(),
    ensures
        number_of(dims, a.update(a.len() - 1, a.last() + 1)) == number_of(dims, a) + 1,
    decreases dims.len(),
{
    let b = a.update(a.len() - 1, a.last() + 1);
    if dims.len() == 1 {
        let none = dims.skip(1);
        assert(none.len() == 0);
        assert(count(none) == 1);
        assert(number_of(none, a.skip(1)) == 0 && number_of(none, b.skip(1)) == 0);
        let (x, s) = (a[0], count(none));
        assert((x + 1) * s == x * s + 1) by (nonlinear_arith)
            requires
                s == 1,
        ;
    } else {
        assert(b[0] == a[0]);
        lemma_within_skip(dims, a);
        assert(a.skip(1).last() == a.last());
        assert(dims.skip(1).last() == dims.last());
        assert(b.skip(1) =~= a.skip(1).update(a.len() - 2, a.last() + 1));
        law_neighbours(dims.skip(1), a.skip(1));
    }
}

/// The number of elements, where it is in range.
pub fn checked_count(dims: &[u64]) -> (r: Option<u64>)
    ensures
        r matches Some(n) ==> n == count(dims@),
        r is None <==> count(dims@) > u64::MAX,
{
    let n: usize = dims.len();
    let mut i: usize = n;
    let mut total: u64 = 1;
    let mut zero: bool = false;
    let mut big: bool = false;
    assert(dims@.skip(n as int) =~= Seq::empty());
    while i > 0
        invariant
            i <= n == dims@.len(),
            zero ==> count(dims@.skip(i as int)) == 0,
            !zero && big ==> count(dims@.skip(i as int)) > u64::MAX,
            !zero && !big ==> count(dims@.skip(i as int)) == total,
        decreases i,
    {
        i -= 1;
        let d: u64 = dims[i];
        let ghost inner = count(dims@.skip(i + 1));
        proof {
            assert(dims@.skip(i as int).skip(1) =~= dims@.skip(i + 1));
            assert(dims@.skip(i as int)[0] == d);
            assert(d == 0 ==> d as nat * inner == 0) by (nonlinear_arith);
            assert(inner == 0 ==> d as nat * inner == 0) by (nonlinear_arith);
            assert(d >= 1 ==> d as nat * inner >= inner) by (nonlinear_arith);
        }
        if d == 0 {
            zero = true;
        } else if !zero && !big {
            assert(d as int * total as int <= 0xffff_ffff_ffff_ffff * 0xffff_ffff_ffff_ffff)
                by (nonlinear_arith)
                requires
                    0 <= d as int <= 0xffff_ffff_ffff_ffff,
                    0 <= total as int <= 0xffff_ffff_ffff_ffff,
            ;
            let p: u128 = d as u128 * total as u128;
            if p > u64::MAX as u128 {
                big = true;
            } else {
                total = p as u64;
            }
        }
    }
    assert(dims@.skip(0) =~= dims@);
    if zero {
        Some(0)
    } else if big {
        None
    } else {
        Some(total)
    }
}

/// Coordinates as numbers.
pub open spec fn as_nats(c: Seq<u64>) -> Seq<nat> {
    c.map_values(|x: u64| x as nat)
}

/// The number of elements behind each dimension.
pub open spec fn steps(dims: Seq<u64>) -> Seq<nat> {
    Seq::new(dims.len(), |i: int| count(dims.skip(i + 1)))
}

/// The number of elements behind each dimension, where the array is countable and
/// not empty.
pub fn step_sizes(dims: &[u64]) -> (r: Vec<u64>)
    requires
        0 < count(dims@) <= u64::MAX,
    ensures
        as_nats(r@) == steps(dims@),
{
    let n: usize = dims.len();
    let mut out: Vec<u64> = vec![1; n];
    let mut i: usize = n;
    let mut total: u64 = 1;
    assert(dims@.skip(n as int) =~= Seq::empty());
    while i > 0
        invariant
            i <= n == dims@.len() == out@.len(),
            0 < count(dims@) <= u64::MAX,
            total == count(dims@.skip(i as int)),
            forall|k: int| i <= k < n ==> #[trigger] out@[k] == count(dims@.skip(k + 1)),
        decreases i,
    {
        i -= 1;
        out.set(i, total);
        let d: u64 = dims[i];
        proof {
            assert(dims@.skip(i as int).skip(1) =~= dims@.skip(i + 1));
            assert(dims@.skip(i as int)[0] == d);
            lemma_count_suffix(dims@, i as int);
        }
        total = d * total;
    }
    assert(as_nats(out@) =~= steps(dims@));
    out
}

/// A suffix of a countable, non-empty array is so too.
proof fn lemma_count_suffix(dims: Seq<u64>, k: int)
    requires
        0 <= k <= dims.len(),
        0 < count(dims),
    ensures
        0 < count(dims.skip(k)) <= count(dims),
    decreases k,
{
    if k == 0 {
        assert(dims.skip(0) =~= dims);
    } else {
        lemma_count_suffix(dims, k - 1);
        let outer = dims.skip(k - 1);
        assert(outer.skip(1) =~= dims.skip(k));
        let (d, s) = (outer[0] as nat, count(dims.skip(k)));
        assert(0 < s <= d * s) by (nonlinear_arith)
            requires
                0 < d * s,
        ;
    }
}

/// The coordinates of an element.
pub fn coordinates(step: &Vec<u64>, e: u64, Ghost(dims): Ghost<Seq<u64>>) -> (r: Vec<u64>)
    requires
        as_nats(step@) == steps(dims),
        e < count(dims),
    ensures
        as_nats(r@) == coords_of(dims, e as nat),
        within(dims, as_nats(r@)),
        r@.len() == dims.len(),
{
    let n: usize = step.len();
    let mut out: Vec<u64> = Vec::new();
    let mut left: u64 = e;
    let mut i: usize = 0;
    let ghost all = coords_of(dims, e as nat);
    assert(as_nats(step@).len() == step@.len() && steps(dims).len() == dims.len());
    assert(dims.skip(0) =~= dims);
    assert(as_nats(out@) + coords_of(dims.skip(0), left as nat) =~= all);
    while i < n
        invariant
            i <= n == step@.len() == dims.len(),
            as_nats(step@) == steps(dims),
            left < count(dims.skip(i as int)),
            all == coords_of(dims, e as nat),
            out@.len() == i,
            all == as_nats(out@) + coords_of(dims.skip(i as int), left as nat),
        decreases n - i,
    {
        let s: u64 = step[i];
        let ghost rest = dims.skip(i as int);
        proof {
            assert(rest.skip(1) =~= dims.skip(i + 1));
            assert(as_nats(step@)[i as int] == steps(dims)[i as int]);
            assert(s == count(dims.skip(i + 1)));
            let d = rest[0] as nat;
            assert(s > 0) by (nonlinear_arith)
                requires
                    left < d * s,
                    left >= 0,
            ;
            lemma_mod_bound(left as int, s as int);
        }
        let ghost before = out@;
        out.push(left / s);
        proof {
            assert(as_nats(out@) =~= as_nats(before).push((left / s) as nat));
            let tail = coords_of(dims.skip(i + 1), (left % s) as nat);
            assert(all =~= as_nats(out@) + tail);
        }
        left = left % s;
        i += 1;
    }
    proof {
        assert(all =~= as_nats(out@));
        law_number_of_coords(dims, e as nat);
    }
    out
}

/// The number of the element at some coordinates.
pub fn element_number(step: &Vec<u64>, c: &Vec<u64>, Ghost(dims): Ghost<Seq<u64>>) -> (r: u64)
    requires
        as_nats(step@) == steps(dims),
        within(dims, as_nats(c@)),
        count(dims) <= u64::MAX,
    ensures
        r == number_of(dims, as_nats(c@)),
        r < count(dims),
{
    let n: usize = step.len();
    let ghost cs = as_nats(c@);
    let mut i: usize = n;
    let mut sum: u64 = 0;
    assert(as_nats(step@).len() == step@.len() && steps(dims).len() == dims.len());
    assert(as_nats(c@).len() == c@.len());
    assert(dims.skip(n as int) =~= Seq::empty());
    proof {
        lemma_number_bound(dims, cs);
    }
    while i > 0
        invariant
            i <= n == step@.len() == dims.len() == c@.len(),
            as_nats(step@) == steps(dims),
            cs == as_nats(c@),
            within(dims, cs),
            0 < count(dims) <= u64::MAX,
            sum == number_of(dims.skip(i as int), cs.skip(i as int)),
        decreases i,
    {
        i -= 1;
        proof {
            let (d, x) = (dims.skip(i as int), cs.skip(i as int));
            assert(d.skip(1) =~= dims.skip(i + 1));
            assert(x.skip(1) =~= cs.skip(i + 1));
            assert(as_nats(step@)[i as int] == steps(dims)[i as int]);
            assert(step@[i as int] == count(dims.skip(i + 1)));
            assert(x[0] == c@[i as int]);
            lemma_within_suffix(dims, cs, i as int);
            lemma_number_bound(d, x);
            lemma_count_suffix(dims, i as int);
            assert(c@[i as int] as nat * step@[i as int] as nat >= 0) by (nonlinear_arith);
        }
        sum = c[i] * step[i] + sum;
    }
    assert(dims.skip(0) =~= dims);
    assert(cs.skip(0) =~= cs);
    sum
}

proof fn lemma_within_suffix(dims: Seq<u64>, c: Seq<nat>, k: int)
    requires
        within(dims, c),
        0 <= k <= dims.len(),
    ensures
        within(dims.skip(k), c.skip(k)),
{
    assert forall|i: int| 0 <= i < dims.skip(k).len() implies #[trigger] c.skip(k)[i] < dims.skip(
        k,
    )[i] by {
        assert(c[i + k] < dims[i + k]);
    }
}

/// Whether the products of the first dimensions, up to all of them, are in range.
pub open spec fn countable(dims: Seq<u64>) -> bool {
    forall|i: int| 0 <= i <= dims.len() ==> #[trigger] count(dims.take(i)) <= u64::MAX
}

proof fn lemma_count_push(dims: Seq<u64>, d: u64)
    ensures
        count(dims.push(d)) == count(dims) * d,
    decreases dims.len(),
{
    if dims.len() == 0 {
        assert(dims.push(d).skip(1) =~= Seq::empty());
        assert(count(dims.push(d)) == d as nat * count(Seq::<u64>::empty()));
        assert(count(dims) == 1);
        assert(count(Seq::<u64>::empty()) == 1);
        assert(d as nat * 1 == d) by (nonlinear_arith);
        assert(1 * d as nat == d) by (nonlinear_arith);
    } else {
        lemma_count_push(dims.skip(1), d);
        assert(dims.push(d).skip(1) =~= dims.skip(1).push(d));
        let (a, b, c) = (dims[0] as int, count(dims.skip(1)) as int, d as int);
        assert(a * (b * c) == (a * b) * c) by (nonlinear_arith);
    }
}

/// The number of elements, where all products on the way to it are in range.
pub fn counted(dims: &[u64]) -> (r: Option<u64>)
    ensures
        match r {
            Some(n) => countable(dims@) && n == count(dims@),
            None => !countable(dims@),
        },
{
    let n: usize = dims.len();
    let mut total: u64 = 1;
    let mut i: usize = 0;
    assert(dims@.take(0) =~= Seq::empty());
    while i < n
        invariant
            i <= n == dims@.len(),
            total == count(dims@.take(i as int)),
            forall|j: int| 0 <= j <= i ==> #[trigger] count(dims@.take(j)) <= u64::MAX,
        decreases n - i,
    {
        proof {
            assert(dims@.take(i + 1) =~= dims@.take(i as int).push(dims@[i as int]));
            lemma_count_push(dims@.take(i as int), dims@[i as int]);
        }
        match total.checked_mul(dims[i]) {
            None => {
                assert(count(dims@.take(i + 1)) > u64::MAX);
                return None;
            },
            Some(t) => {
                total = t;
            },
        }
        i += 1;
    }
    assert(dims@.take(n as int) =~= dims@);
    Some(total)
}

} // verus!
