//! Bit streams, most significant bit first.

use vstd::prelude::*;

verus! {

/// The bits of a byte.
pub open spec fn byte_bits(b: u8) -> Seq<bool> {
    seq![
        b / 128 % 2 == 1,
        b / 64 % 2 == 1,
        b / 32 % 2 == 1,
        b / 16 % 2 == 1,
        b / 8 % 2 == 1,
        b / 4 % 2 == 1,
        b / 2 % 2 == 1,
        b % 2 == 1,
    ]
}

/// The bits of a byte string.
pub open spec fn bits(s: Seq<u8>) -> Seq<bool> {
    Seq::new(8 * s.len(), |i: int| byte_bits(s[i / 8])[i % 8])
}

/// The number that bits denote.
pub open spec fn number(bs: Seq<bool>) -> nat
    decreases bs.len(),
{
    if bs.len() == 0 {
        0
    } else {
        2 * number(bs.drop_last()) + (if bs.last() {
            1nat
        } else {
            0
        })
    }
}

/// The `n` low bits of `v`.
pub open spec fn number_bits(v: nat, n: nat) -> Seq<bool>
    decreases n,
{
    if n == 0 {
        Seq::empty()
    } else {
        number_bits(v / 2, (n - 1) as nat).push(v % 2 == 1)
    }
}

/// Two to the power `n`.
pub open spec fn pow2(n: nat) -> nat
    decreases n,
{
    if n == 0 {
        1
    } else {
        2 * pow2((n - 1) as nat)
    }
}

/// `n` zero bits.
pub open spec fn zero_bits(n: nat) -> Seq<bool> {
    Seq::new(n, |i: int| false)
}

pub proof fn lemma_number_bits_len(v: nat, n: nat)
    ensures
        number_bits(v, n).len() == n,
    decreases n,
{
    if n > 0 {
        lemma_number_bits_len(v / 2, (n - 1) as nat);
    }
}

/// The `n` low bits of a number below `2^n` denote the number.
pub proof fn law_number_bits(v: nat, n: nat)
    requires
        v < pow2(n),
    ensures
        number(number_bits(v, n)) == v,
        number_bits(v, n).len() == n,
    decreases n,
{
    lemma_number_bits_len(v, n);
    if n > 0 {
        law_number_bits(v / 2, (n - 1) as nat);
        assert(number_bits(v, n).drop_last() =~= number_bits(v / 2, (n - 1) as nat));
    }
}

/// The bits of the number that `bs` denotes are `bs`.
pub proof fn law_bits_of_number(bs: Seq<bool>)
    ensures
        number_bits(number(bs), bs.len()) == bs,
        number(bs) < pow2(bs.len()),
    decreases bs.len(),
{
    if bs.len() > 0 {
        law_bits_of_number(bs.drop_last());
        let v = number(bs);
        assert(v / 2 == number(bs.drop_last()));
        assert((v % 2 == 1) == bs.last());
        assert(bs.drop_last().push(bs.last()) =~= bs);
    }
}

pub proof fn lemma_pow2_values()
    ensures
        pow2(0) == 1,
        pow2(1) == 2,
        pow2(8) == 0x100,
        pow2(16) == 0x1_0000,
        pow2(32) == 0x1_0000_0000,
        pow2(64) == 0x1_0000_0000_0000_0000,
{
    reveal_with_fuel(pow2, 9);
    lemma_pow2_sum(8, 8);
    lemma_pow2_sum(16, 16);
    lemma_pow2_sum(32, 32);
    assert(0x1_0000 * 0x1_0000 == 0x1_0000_0000) by (nonlinear_arith);
    assert(0x1_0000_0000 * 0x1_0000_0000 == 0x1_0000_0000_0000_0000) by (nonlinear_arith);
}

pub proof fn lemma_pow2_sum(a: nat, b: nat)
    ensures
        pow2(a + b) == pow2(a) * pow2(b),
    decreases a,
{
    if a > 0 {
        lemma_pow2_sum((a - 1) as nat, b);
        let x = pow2((a - 1) as nat);
        let y = pow2(b);
        assert(2 * (x * y) == (2 * x) * y) by (nonlinear_arith);
    } else {
        assert(1 * pow2(b) == pow2(b));
    }
}

pub proof fn lemma_pow2_monotone(a: nat, b: nat)
    requires
        a <= b,
    ensures
        0 < pow2(a) <= pow2(b),
    decreases b - a,
{
    lemma_pow2_positive(a);
    if a < b {
        lemma_pow2_monotone(a, (b - 1) as nat);
    }
}

pub proof fn lemma_pow2_positive(a: nat)
    ensures
        pow2(a) > 0,
    decreases a,
{
    if a > 0 {
        lemma_pow2_positive((a - 1) as nat);
    }
}

/// The eight low bits of a byte are the bits of the byte.
pub proof fn lemma_byte_bits(b: u8)
    ensures
        number_bits(b as nat, 8) == byte_bits(b),
{
    reveal_with_fuel(number_bits, 9);
    let v = b as nat;
    assert(v / 2 / 2 == v / 4);
    assert(v / 2 / 2 / 2 == v / 8);
    assert(v / 2 / 2 / 2 / 2 == v / 16);
    assert(v / 2 / 2 / 2 / 2 / 2 == v / 32);
    assert(v / 2 / 2 / 2 / 2 / 2 / 2 == v / 64);
    assert(v / 2 / 2 / 2 / 2 / 2 / 2 / 2 == v / 128);
    assert(number_bits(v, 8) =~= byte_bits(b));
}

pub proof fn lemma_bits_push(s: Seq<u8>, b: u8)
    ensures
        bits(s.push(b)) == bits(s) + byte_bits(b),
{
    assert(bits(s.push(b)) =~= bits(s) + byte_bits(b));
}

/// Different byte strings have different bits.
pub proof fn lemma_bits_injective(a: Seq<u8>, b: Seq<u8>)
    requires
        bits(a) == bits(b),
    ensures
        a == b,
{
    assert(bits(a).len() == 8 * a.len());
    assert(bits(b).len() == 8 * b.len());
    assert(a.len() == b.len());
    assert forall|i: int| 0 <= i < a.len() implies a[i] == b[i] by {
        assert forall|k: int| 0 <= k < 8 implies byte_bits(a[i])[k] == byte_bits(b[i])[k] by {
            assert((8 * i + k) / 8 == i);
            assert((8 * i + k) % 8 == k);
            let q = 8 * i + k;
            assert(0 <= q < 8 * a.len());
            assert(bits(a)[q] == byte_bits(a[q / 8])[q % 8]);
            assert(bits(b)[q] == byte_bits(b[q / 8])[q % 8]);
        }
        assert(byte_bits(a[i]) =~= byte_bits(b[i]));
        lemma_byte_bits(a[i]);
        lemma_byte_bits(b[i]);
        reveal_with_fuel(pow2, 9);
        law_number_bits(a[i] as nat, 8);
        law_number_bits(b[i] as nat, 8);
    }
    assert(a =~= b);
}

pub proof fn lemma_number_push(bs: Seq<bool>, b: bool)
    ensures
        number(bs.push(b)) == 2 * number(bs) + (if b {
            1nat
        } else {
            0
        }),
{
    assert(bs.push(b).drop_last() =~= bs);
}

/// Appending zero bits shifts the number up.
pub proof fn lemma_number_zeros(n: nat)
    ensures
        number(zero_bits(n)) == 0,
    decreases n,
{
    if n > 0 {
        assert(zero_bits(n).drop_last() =~= zero_bits((n - 1) as nat));
        lemma_number_zeros((n - 1) as nat);
    }
}

/// The bytes that whole groups of eight bits make.
pub open spec fn packed_bytes(bs: Seq<bool>) -> Seq<u8> {
    Seq::new(bs.len() / 8, |i: int| number(bs.subrange(8 * i, 8 * i + 8)) as u8)
}

/// Packing whole bytes loses nothing.
pub proof fn law_packed_bits(bs: Seq<bool>)
    requires
        bs.len() % 8 == 0,
    ensures
        bits(packed_bytes(bs)) == bs,
{
    let p = packed_bytes(bs);
    assert(bits(p).len() == bs.len());
    assert forall|i: int| 0 <= i < bs.len() implies bits(p)[i] == bs[i] by {
        let k = i / 8;
        let sub = bs.subrange(8 * k, 8 * k + 8);
        law_bits_of_number(sub);
        lemma_pow2_values();
        lemma_byte_bits(p[k]);
        assert(bits(p)[i] == byte_bits(p[k])[i % 8]);
        assert(sub[i % 8] == bs[i]);
    }
    assert(bits(p) =~= bs);
}

/// Bytes are what their bits make.
pub proof fn law_packed_bytes_of_bits(s: Seq<u8>)
    ensures
        packed_bytes(bits(s)) == s,
{
    law_packed_bits(bits(s));
    lemma_bits_injective(packed_bytes(bits(s)), s);
}

/// A position in a bit stream.
pub struct BitReader<'a> {
    data: &'a [u8],
    byte: usize,
    bit: usize,
}

impl<'a> BitReader<'a> {
    /// Whether the position lies in the stream or at its end.
    pub closed spec fn wf(self) -> bool {
        &&& self.byte <= self.data@.len()
        &&& self.bit < 8
        &&& self.byte == self.data@.len() ==> self.bit == 0
    }

    /// The bits from the position on.
    pub closed spec fn rest(self) -> Seq<bool> {
        bits(self.data@).skip(8 * self.byte + self.bit)
    }

    pub fn new(data: &'a [u8]) -> (r: Self)
        ensures
            r.wf(),
            r.rest() == bits(data@),
    {
        let r = BitReader { data, byte: 0, bit: 0 };
        assert(r.rest() =~= bits(data@));
        r
    }

    /// The next bit, if there is one.
    pub fn next_bit(&mut self) -> (r: Option<bool>)
        requires
            old(self).wf(),
        ensures
            final(self).wf(),
            r is None <==> old(self).rest().len() == 0,
            r matches Some(b) ==> b == old(self).rest()[0] && final(self).rest() == old(
                self,
            ).rest().skip(1),
            r is None ==> final(self).rest() == old(self).rest(),
    {
        if self.byte >= self.data.len() {
            return None;
        }
        let b: u8 = self.data[self.byte];
        let ghost at = 8 * self.byte + self.bit;
        let value: bool = match self.bit {
            0 => b / 128 % 2 == 1,
            1 => b / 64 % 2 == 1,
            2 => b / 32 % 2 == 1,
            3 => b / 16 % 2 == 1,
            4 => b / 8 % 2 == 1,
            5 => b / 4 % 2 == 1,
            6 => b / 2 % 2 == 1,
            _ => b % 2 == 1,
        };
        proof {
            assert(at / 8 == self.byte);
            assert(at % 8 == self.bit);
            assert(self.rest()[0] == bits(self.data@)[at]);
        }
        if self.bit == 7 {
            self.bit = 0;
            self.byte += 1;
        } else {
            self.bit += 1;
        }
        assert(self.rest() =~= old(self).rest().skip(1));
        Some(value)
    }

    /// The number in the next `n` bits, if there are as many.
    pub fn take(&mut self, n: u32) -> (r: Option<u64>)
        requires
            old(self).wf(),
            n <= 64,
        ensures
            final(self).wf(),
            r is None <==> old(self).rest().len() < n,
            r matches Some(v) ==> v == number(old(self).rest().take(n as int)) && final(self).rest()
                == old(self).rest().skip(n as int),
    {
        let mut v: u64 = 0;
        let mut i: u32 = 0;
        let ghost start = self.rest();
        assert(start.take(0) =~= Seq::<bool>::empty());
        assert(start.skip(0) =~= start);
        while i < n
            invariant
                self.wf(),
                i <= n <= 64,
                i <= start.len(),
                v == number(start.take(i as int)),
                v < pow2(i as nat),
                self.rest() == start.skip(i as int),
                start == old(self).rest(),
            decreases n - i,
        {
            match self.next_bit() {
                None => {
                    return None;
                },
                Some(b) => {
                    proof {
                        assert(start.take(i + 1) =~= start.take(i as int).push(b));
                        lemma_number_push(start.take(i as int), b);
                        assert(start.skip(i as int).skip(1) =~= start.skip(i + 1));
                        lemma_pow2_values();
                        lemma_pow2_monotone((i + 1) as nat, 64);
                    }
                    v = 2 * v + (if b {
                        1u64
                    } else {
                        0u64
                    });
                    i += 1;
                },
            }
        }
        Some(v)
    }
}

/// A bit stream under construction.
pub struct BitWriter {
    out: Vec<u8>,
    cur: u8,
    nbits: u8,
}

impl View for BitWriter {
    type V = Seq<bool>;

    /// The bits written so far.
    closed spec fn view(&self) -> Seq<bool> {
        bits(self.out@) + number_bits(self.cur as nat, self.nbits as nat)
    }
}

impl BitWriter {
    pub closed spec fn wf(self) -> bool {
        self.nbits < 8 && self.cur < pow2(self.nbits as nat)
    }

    pub fn new() -> (r: Self)
        ensures
            r.wf(),
            r@ == Seq::<bool>::empty(),
    {
        let r = BitWriter { out: Vec::new(), cur: 0, nbits: 0 };
        assert(r@ =~= Seq::<bool>::empty());
        r
    }

    pub fn put_bit(&mut self, b: bool)
        requires
            old(self).wf(),
        ensures
            final(self).wf(),
            final(self)@ == old(self)@.push(b),
    {
        proof {
            reveal_with_fuel(pow2, 9);
            lemma_number_bits_len(self.cur as nat, self.nbits as nat);
        }
        let next: u8 = 2 * self.cur + (if b {
            1u8
        } else {
            0u8
        });
        let ghost old_bits = number_bits(self.cur as nat, self.nbits as nat);
        proof {
            assert(number_bits(next as nat, (self.nbits + 1) as nat) =~= old_bits.push(b));
        }
        if self.nbits == 7 {
            proof {
                lemma_bits_push(self.out@, next);
                lemma_byte_bits(next);
            }
            self.out.push(next);
            self.cur = 0;
            self.nbits = 0;
        } else {
            self.cur = next;
            self.nbits += 1;
        }
        assert(self@ =~= old(self)@.push(b));
    }

    /// Appends the `n` low bits of `v`.
    pub fn put(&mut self, v: u64, n: u32)
        requires
            old(self).wf(),
        ensures
            final(self).wf(),
            final(self)@ == old(self)@ + number_bits(v as nat, n as nat),
        decreases n,
    {
        if n > 0 {
            self.put(v / 2, n - 1);
            let ghost mid = self@;
            self.put_bit(v % 2 == 1);
            assert(self@ =~= old(self)@ + number_bits(v as nat, n as nat));
        } else {
            assert(self@ =~= old(self)@ + number_bits(v as nat, n as nat));
        }
    }

    /// Appends `n` zero bits.
    pub fn put_zeros(&mut self, n: u32)
        requires
            old(self).wf(),
        ensures
            final(self).wf(),
            final(self)@ == old(self)@ + zero_bits(n as nat),
    {
        let mut i: u32 = 0;
        assert(self@ =~= old(self)@ + zero_bits(0));
        while i < n
            invariant
                self.wf(),
                i <= n,
                self@ == old(self)@ + zero_bits(i as nat),
            decreases n - i,
        {
            self.put_bit(false);
            i += 1;
            assert(self@ =~= old(self)@ + zero_bits(i as nat));
        }
    }

    /// The stream as bytes, the last byte filled up with zero bits.
    pub fn finish(self) -> (r: Vec<u8>)
        requires
            self.wf(),
        ensures
            bits(r@) == self@ + zero_bits(((8 - self@.len() % 8) % 8) as nat),
    {
        let mut w = self;
        let ghost start = w@;
        proof {
            lemma_number_bits_len(w.cur as nat, w.nbits as nat);
        }
        let n: u8 = if w.nbits == 0 {
            0
        } else {
            8 - w.nbits
        };
        assert(start.len() % 8 == w.nbits);
        w.put_zeros(n as u32);
        proof {
            lemma_number_bits_len(w.cur as nat, w.nbits as nat);
            assert(w@.len() == start.len() + n);
            assert(w@.len() % 8 == 0);
            assert(w.nbits == 0);
            assert(w@ =~= bits(w.out@));
        }
        w.out
    }
}

} // verus!
