//! Byte and bit transposition of element arrays.

use vstd::arithmetic::div_mod::{
    lemma_fundamental_div_mod, lemma_fundamental_div_mod_converse, lemma_mod_bound,
};
use vstd::prelude::*;

verus! {

/// Where the byte at position `k` of a shuffled array comes from: `n` elements of
/// `es` bytes each, all first bytes first.
pub open spec fn shuffle_source(es: int, n: int, k: int) -> int {
    if k < n * es {
        (k % n) * es + k / n
    } else {
        k
    }
}

/// `d` with the bytes of its whole elements of `es` bytes transposed: all first
/// bytes, then all second bytes, and so on. Trailing bytes stay.
pub open spec fn shuffled(es: int, d: Seq<u8>) -> Seq<u8> {
    Seq::new(d.len(), |k: int| d[shuffle_source(es, d.len() as int / es, k)])
}

/// The transposition back: element by element.
pub open spec fn unshuffled(es: int, d: Seq<u8>) -> Seq<u8> {
    Seq::new(d.len(), |k: int| d[shuffle_source(d.len() as int / es, es, k)])
}

/// The source position lies inside the elements.
pub proof fn lemma_source_bound(es: int, n: int, k: int)
    requires
        es > 0,
        n >= 0,
        0 <= k < n * es,
    ensures
        n > 0,
        0 <= k % n < n,
        0 <= k / n < es,
        0 <= (k % n) * es + k / n < n * es,
        0 <= (k % n) * es <= n * es,
{
    assert(n > 0) by (nonlinear_arith)
        requires
            0 <= k < n * es,
            es > 0,
            n >= 0,
    ;
    lemma_fundamental_div_mod(k, n);
    lemma_mod_bound(k, n);
    let q = k / n;
    let r = k % n;
    assert(0 <= q < es) by (nonlinear_arith)
        requires
            k == n * q + r,
            0 <= r < n,
            0 <= k < n * es,
            n > 0,
    ;
    assert(0 <= r * es && r * es + q < n * es && r * es <= n * es) by (nonlinear_arith)
        requires
            0 <= r < n,
            0 <= q < es,
    ;
}

/// Going to the source of a source returns to the start.
pub proof fn lemma_source_inverse(es: int, n: int, k: int)
    requires
        es > 0,
        n >= 0,
        0 <= k < n * es,
    ensures
        shuffle_source(es, n, shuffle_source(n, es, k)) == k,
        0 <= shuffle_source(n, es, k) < n * es,
{
    assert(n * es == es * n) by (nonlinear_arith);
    assert(n > 0) by (nonlinear_arith)
        requires
            0 <= k < n * es,
            es > 0,
            n >= 0,
    ;
    lemma_source_bound(n, es, k);
    let q = k / es;
    let r = k % es;
    lemma_fundamental_div_mod(k, es);
    let m = r * n + q;
    lemma_fundamental_div_mod_converse(m, n, r, q);
    assert(q * es + r == k) by (nonlinear_arith)
        requires
            k == es * q + r,
    ;
}

/// Unshuffling undoes shuffling.
pub proof fn law_unshuffle_shuffle(es: int, d: Seq<u8>)
    requires
        es > 0,
    ensures
        unshuffled(es, shuffled(es, d)) == d,
        shuffled(es, d).len() == d.len(),
{
    let n = d.len() as int / es;
    lemma_fundamental_div_mod(d.len() as int, es);
    assert(n * es <= d.len()) by {
        lemma_mod_bound(d.len() as int, es);
        assert(n * es == es * n) by (nonlinear_arith);
    }
    assert(n >= 0) by {
        vstd::arithmetic::div_mod::lemma_div_pos_is_pos(d.len() as int, es);
    }
    let u = unshuffled(es, shuffled(es, d));
    assert forall|k: int| 0 <= k < d.len() implies u[k] == d[k] by {
        assert(n * es == es * n) by (nonlinear_arith);
        if k < n * es {
            lemma_source_inverse(es, n, k);
        }
    }
    assert(u =~= d);
}

/// Shuffling undoes unshuffling.
pub proof fn law_shuffle_unshuffle(es: int, d: Seq<u8>)
    requires
        es > 0,
    ensures
        shuffled(es, unshuffled(es, d)) == d,
        unshuffled(es, d).len() == d.len(),
{
    let n = d.len() as int / es;
    lemma_fundamental_div_mod(d.len() as int, es);
    assert(n * es <= d.len()) by {
        lemma_mod_bound(d.len() as int, es);
        assert(n * es == es * n) by (nonlinear_arith);
    }
    assert(n >= 0) by {
        vstd::arithmetic::div_mod::lemma_div_pos_is_pos(d.len() as int, es);
    }
    let u = shuffled(es, unshuffled(es, d));
    assert forall|k: int| 0 <= k < d.len() implies u[k] == d[k] by {
        assert(n * es == es * n) by (nonlinear_arith);
        if k < n * es {
            if n > 0 {
                lemma_source_inverse(n, es, k);
            } else {
                assert(n * es == 0) by (nonlinear_arith)
                    requires
                        n == 0,
                ;
            }
        }
    }
    assert(u =~= d);
}

fn transpose(es: usize, n: usize, data: &[u8]) -> (r: Vec<u8>)
    requires
        es > 0,
        n * es <= data@.len(),
    ensures
        r@.len() == data@.len(),
        forall|k: int|
            0 <= k < data@.len() ==> #[trigger] r@[k] == data@[shuffle_source(
                es as int,
                n as int,
                k,
            )],
{
    let total: usize = data.len();
    assert(n * es <= total);
    let whole: usize = n * es;
    let mut out: Vec<u8> = Vec::new();
    let mut k: usize = 0;
    while k < whole
        invariant
            k <= whole <= total,
            es > 0,
            total == data@.len(),
            whole == n * es,
            out@.len() == k,
            forall|i: int|
                0 <= i < k ==> #[trigger] out@[i] == data@[shuffle_source(
                    es as int,
                    n as int,
                    i,
                )],
        decreases whole - k,
    {
        proof {
            lemma_source_bound(es as int, n as int, k as int);
        }
        out.push(data[(k % n) * es + k / n]);
        k += 1;
    }
    while k < total
        invariant
            whole <= k <= total,
            total == data@.len(),
            whole == n * es,
            out@.len() == k,
            forall|i: int|
                0 <= i < k ==> #[trigger] out@[i] == data@[shuffle_source(
                    es as int,
                    n as int,
                    i,
                )],
        decreases total - k,
    {
        out.push(data[k]);
        k += 1;
    }
    out
}

proof fn lemma_whole(len: int, es: int)
    requires
        len >= 0,
        es > 0,
    ensures
        0 <= (len / es) * es <= len,
        0 <= es * (len / es) <= len,
        len / es >= 0,
{
    lemma_fundamental_div_mod(len, es);
    lemma_mod_bound(len, es);
    vstd::arithmetic::div_mod::lemma_div_pos_is_pos(len, es);
    assert((len / es) * es == es * (len / es)) by (nonlinear_arith);
    assert(0 <= es * (len / es)) by (nonlinear_arith)
        requires
            es > 0,
            len / es >= 0,
    ;
}

/// Gathers the i-th byte of every element of `es` bytes together.
pub fn shuffle(es: usize, data: &[u8]) -> (r: Vec<u8>)
    requires
        es > 0,
    ensures
        r@ == shuffled(es as int, data@),
{
    proof {
        lemma_whole(data@.len() as int, es as int);
    }
    let n: usize = data.len() / es;
    let r = transpose(es, n, data);
    assert(r@ =~= shuffled(es as int, data@));
    r
}

/// The inverse of [`shuffle`].
pub fn unshuffle(es: usize, data: &[u8]) -> (r: Vec<u8>)
    requires
        es > 0,
    ensures
        r@ == unshuffled(es as int, data@),
{
    proof {
        lemma_whole(data@.len() as int, es as int);
    }
    let n: usize = data.len() / es;
    if n == 0 {
        let r = vstd::slice::slice_to_vec(data);
        proof {
            assert(es * (data@.len() as int / es as int) == 0) by (nonlinear_arith)
                requires
                    data@.len() as int / es as int == 0,
            ;
            assert((data@.len() as int / es as int) * es == 0) by (nonlinear_arith)
                requires
                    data@.len() as int / es as int == 0,
            ;
            assert(r@ =~= unshuffled(es as int, data@));
        }
        return r;
    }
    let r = transpose(n, es, data);
    assert(r@ =~= unshuffled(es as int, data@));
    r
}

} // verus!
