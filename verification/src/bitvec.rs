//! Bit-vector values.

use vstd::prelude::*;
use crate::ops;
use crate::bits;
use vstd::arithmetic::power2::*;
use vstd::arithmetic::div_mod::*;
use crate::ops::{BinOp, CmpOp, UnOp};

verus! {

/// The most bits a value has.
pub const MAX_WIDTH: u16 = 512;

/// A width: 1 to [`MAX_WIDTH`] bits.
#[derive(Clone, Copy, Debug, PartialEq, Eq, Hash, Structural)]
pub struct Width {
    pub(crate) bits: u16,
}

impl Width {
    /// 1 to 512 bits.
    pub open(crate) spec fn ok(self) -> bool {
        1 <= self.bits <= MAX_WIDTH
    }

    /// The number of bits.
    pub open(crate) spec fn n(self) -> nat {
        self.bits as nat
    }

    /// A width of `bits` bits, if that is 1 to 512.
    pub fn new(bits: u16) -> (r: Option<Width>)
        ensures
            r is Some <==> 1 <= bits <= MAX_WIDTH,
            r matches Some(w) ==> w.ok() && w.n() == bits,
    {
        if bits >= 1 && bits <= MAX_WIDTH {
            Some(Width { bits })
        } else {
            None
        }
    }

    /// The number of bits.
    pub fn bits(self) -> (r: u16)
        ensures
            r == self.n(),
    {
        self.bits
    }
}

/// A value of some width, the least significant bit first.
#[derive(Debug)]
pub struct BitVec {
    pub(crate) v: Vec<bool>,
}

impl View for BitVec {
    type V = Seq<bool>;

    closed spec fn view(&self) -> Seq<bool> {
        self.v@
    }
}

impl BitVec {
    /// A copy.
    pub fn dup(&self) -> (r: BitVec)
        ensures
            r@ == self@,
    {
        let mut v: Vec<bool> = Vec::with_capacity(self.v.len());
        let mut i: usize = 0;
        while i < self.v.len()
            invariant
                i <= self.v.len(),
                v@ == self.v@.take(i as int),
            decreases self.v.len() - i,
        {
            v.push(self.v[i]);
            assert(v@ =~= self.v@.take(i + 1));
            i = i + 1;
        }
        assert(self.v@.take(i as int) =~= self.v@);
        BitVec { v }
    }

    /// The value with the given bits.
    pub fn from_bools(v: Vec<bool>) -> (r: BitVec)
        ensures
            r@ == v@,
    {
        BitVec { v }
    }

    /// The number of bits.
    pub fn len(&self) -> (r: usize)
        ensures
            r == self@.len(),
    {
        self.v.len()
    }

    /// Bit `i`, or none past the width.
    pub fn bit(&self, i: usize) -> (r: Option<bool>)
        ensures
            r == (if i < self@.len() { Some(self@[i as int]) } else { None }),
    {
        if i < self.v.len() {
            Some(self.v[i])
        } else {
            None
        }
    }

    /// Bit `i`.
    pub(crate) fn at(&self, i: usize) -> (r: bool)
        requires
            i < self@.len(),
        ensures
            r == self@[i as int],
    {
        self.v[i]
    }

    /// `n` copies of one bit.
    pub(crate) fn fill(n: usize, b: bool) -> (r: BitVec)
        ensures
            r@ == Seq::new(n as nat, |i: int| b),
    {
        let mut v: Vec<bool> = Vec::with_capacity(n);
        let mut i: usize = 0;
        while i < n
            invariant
                i <= n,
                v@.len() == i,
                forall|j: int| 0 <= j < i ==> v@[j] == b,
            decreases n - i,
        {
            v.push(b);
            i = i + 1;
        }
        let r = BitVec { v };
        assert(r@ =~= Seq::new(n as nat, |i: int| b));
        r
    }

    /// Zero.
    pub fn zero(w: Width) -> (r: BitVec)
        ensures
            r@ == bits::zeros(w.n()),
    {
        let r = BitVec::fill(w.bits as usize, false);
        assert(r@ =~= bits::zeros(w.n()));
        r
    }

    /// All bits set.
    pub fn ones(w: Width) -> (r: BitVec)
        ensures
            r@ == bits::ones(w.n()),
    {
        let r = BitVec::fill(w.bits as usize, true);
        assert(r@ =~= bits::ones(w.n()));
        r
    }

    /// One.
    pub fn one(w: Width) -> (r: BitVec)
        requires
            w.ok(),
        ensures
            r@ == bits::bits_of(1, w.n()),
    {
        BitVec::wrapping_from_u64(w, 1)
    }

    /// The least signed value: the sign bit alone.
    pub fn smin(w: Width) -> (r: BitVec)
        requires
            w.ok(),
        ensures
            r@ == bits::zeros(w.n()).update(w.n() - 1, true),
    {
        let mut r = BitVec::fill(w.bits as usize, false);
        r.v.set(w.bits as usize - 1, true);
        assert(r@ =~= bits::zeros(w.n()).update(w.n() - 1, true));
        r
    }

    /// One bit.
    pub fn from_bool(b: bool) -> (r: BitVec)
        ensures
            r@ == seq![b],
    {
        let mut v: Vec<bool> = Vec::new();
        v.push(b);
        let r = BitVec { v };
        assert(r@ =~= seq![b]);
        r
    }

    /// The low `n` bits of `x`.
    pub(crate) fn from_u64(n: usize, x: u64) -> (r: BitVec)
        ensures
            r@ == bits::bits_of(x as int, n as nat),
    {
        let mut v: Vec<bool> = Vec::with_capacity(n);
        let mut rest: u64 = x;
        let mut i: usize = 0;
        proof {
            bits::lemma_pow2_zero();
        }
        while i < n
            invariant
                i <= n,
                v@.len() == i,
                rest as int == (x as int) / (pow2(i as nat) as int),
                forall|j: int| 0 <= j < i ==> v@[j] == bits::int_bit(x as int, j as nat),
            decreases n - i,
        {
            v.push(rest % 2 == 1);
            proof {
                bits::lemma_pow2_step(i as nat);
                lemma_div_denominator(x as int, pow2(i as nat) as int, 2);
                assert(pow2(i as nat) * 2 == pow2((i + 1) as nat));
            }
            rest = rest / 2;
            i = i + 1;
        }
        let r = BitVec { v };
        assert(r@ =~= bits::bits_of(x as int, n as nat));
        r
    }

    /// The low bits of `x`.
    pub fn wrapping_from_u64(w: Width, x: u64) -> (r: BitVec)
        ensures
            r@ == bits::bits_of(x as int, w.n()),
    {
        BitVec::from_u64(w.bits as usize, x)
    }

    /// The value, if it fits in 64 bits.
    pub fn to_u64(&self) -> (r: Option<u64>)
        ensures
            r == (if bits::nat_of(self@) <= u64::MAX { Some(bits::nat_of(self@) as u64) } else { None }),
    {
        let n = self.v.len();
        let mut acc: u64 = 0;
        let mut i: usize = n;
        proof {
            assert(self.v@.skip(n as int) =~= Seq::<bool>::empty());
        }
        while i > 0
            invariant
                i <= n,
                n == self.v.len(),
                acc == bits::nat_of(self.v@.skip(i as int)),
            decreases i,
        {
            i = i - 1;
            proof {
                lemma_skip_step(self.v@, i as int);
                lemma_skip_le(self.v@, i as int);
            }
            if acc > 0x7fff_ffff_ffff_ffff {
                return None;
            }
            acc = acc * 2 + (if self.v[i] { 1 } else { 0 });
        }
        proof {
            assert(self.v@.skip(0) =~= self.v@);
        }
        Some(acc)
    }

    /// Whether the two have the same width and bits.
    pub fn same(&self, o: &BitVec) -> (r: bool)
        ensures
            r == (self@ == o@),
    {
        if self.v.len() != o.v.len() {
            return false;
        }
        let mut i: usize = 0;
        while i < self.v.len()
            invariant
                i <= self.v.len(),
                self.v.len() == o.v.len(),
                forall|j: int| 0 <= j < i ==> self.v@[j] == o.v@[j],
            decreases self.v.len() - i,
        {
            if self.v[i] != o.v[i] {
                assert(self@[i as int] != o@[i as int]);
                return false;
            }
            i = i + 1;
        }
        assert(self@ =~= o@);
        true
    }

    /// Whether every bit is clear.
    pub fn is_zero(&self) -> (r: bool)
        ensures
            r == (self@ == bits::zeros(self@.len())),
            r == (bits::nat_of(self@) == 0),
    {
        let mut i: usize = 0;
        while i < self.v.len()
            invariant
                i <= self.v.len(),
                forall|j: int| 0 <= j < i ==> !self.v@[j],
            decreases self.v.len() - i,
        {
            if self.v[i] {
                proof {
                    assert(self@[i as int]);
                    bits::lemma_zeros_nat(self@.len());
                    if bits::nat_of(self@) == 0 {
                        bits::lemma_nat_injective(self@, bits::zeros(self@.len()));
                    }
                }
                return false;
            }
            i = i + 1;
        }
        proof {
            assert(self@ =~= bits::zeros(self@.len()));
            bits::lemma_zeros_nat(self@.len());
        }
        true
    }

    /// Whether every bit is set.
    pub fn is_ones(&self) -> (r: bool)
        ensures
            r == (self@ == bits::ones(self@.len())),
    {
        let mut i: usize = 0;
        while i < self.v.len()
            invariant
                i <= self.v.len(),
                forall|j: int| 0 <= j < i ==> self.v@[j],
            decreases self.v.len() - i,
        {
            if !self.v[i] {
                assert(!self@[i as int]);
                return false;
            }
            i = i + 1;
        }
        assert(self@ =~= bits::ones(self@.len()));
        true
    }

    /// The complement.
    pub(crate) fn not(&self) -> (r: BitVec)
        ensures
            r@ == ops::not_bits(self@),
    {
        let mut v: Vec<bool> = Vec::with_capacity(self.v.len());
        let mut i: usize = 0;
        while i < self.v.len()
            invariant
                i <= self.v.len(),
                v@.len() == i,
                forall|j: int| 0 <= j < i ==> v@[j] == !self.v@[j],
            decreases self.v.len() - i,
        {
            v.push(!self.v[i]);
            i = i + 1;
        }
        let r = BitVec { v };
        assert(r@ =~= ops::not_bits(self@));
        r
    }

    /// Bitwise and.
    pub(crate) fn and(&self, o: &BitVec) -> (r: BitVec)
        requires
            self@.len() == o@.len(),
        ensures
            r@ == ops::and_bits(self@, o@),
    {
        let mut v: Vec<bool> = Vec::with_capacity(self.v.len());
        let mut i: usize = 0;
        while i < self.v.len()
            invariant
                i <= self.v.len(),
                self.v.len() == o.v.len(),
                v@.len() == i,
                forall|j: int| 0 <= j < i ==> v@[j] == (self.v@[j] && o.v@[j]),
            decreases self.v.len() - i,
        {
            v.push(self.v[i] && o.v[i]);
            i = i + 1;
        }
        let r = BitVec { v };
        assert(r@ =~= ops::and_bits(self@, o@));
        r
    }

    /// Bitwise or.
    pub(crate) fn or(&self, o: &BitVec) -> (r: BitVec)
        requires
            self@.len() == o@.len(),
        ensures
            r@ == ops::or_bits(self@, o@),
    {
        let mut v: Vec<bool> = Vec::with_capacity(self.v.len());
        let mut i: usize = 0;
        while i < self.v.len()
            invariant
                i <= self.v.len(),
                self.v.len() == o.v.len(),
                v@.len() == i,
                forall|j: int| 0 <= j < i ==> v@[j] == (self.v@[j] || o.v@[j]),
            decreases self.v.len() - i,
        {
            v.push(self.v[i] || o.v[i]);
            i = i + 1;
        }
        let r = BitVec { v };
        assert(r@ =~= ops::or_bits(self@, o@));
        r
    }

    /// Bitwise exclusive or.
    pub(crate) fn xor(&self, o: &BitVec) -> (r: BitVec)
        requires
            self@.len() == o@.len(),
        ensures
            r@ == ops::xor_bits(self@, o@),
    {
        let mut v: Vec<bool> = Vec::with_capacity(self.v.len());
        let mut i: usize = 0;
        while i < self.v.len()
            invariant
                i <= self.v.len(),
                self.v.len() == o.v.len(),
                v@.len() == i,
                forall|j: int| 0 <= j < i ==> v@[j] == (self.v@[j] != o.v@[j]),
            decreases self.v.len() - i,
        {
            v.push(self.v[i] != o.v[i]);
            i = i + 1;
        }
        let r = BitVec { v };
        assert(r@ =~= ops::xor_bits(self@, o@));
        r
    }

    /// `self + o + c`, and the carry out.
    pub(crate) fn add_carry(&self, o: &BitVec, c: bool) -> (r: (BitVec, bool))
        requires
            self@.len() == o@.len(),
        ensures
            r.0@ == bits::bits_of((bits::nat_of(self@) + bits::nat_of(o@) + bits::b2n(c)) as int, self@.len()),
            bits::nat_of(r.0@) + bits::b2n(r.1) * pow2(self@.len()) == bits::nat_of(self@) + bits::nat_of(o@) + bits::b2n(c),
    {
        let n = self.v.len();
        let mut v: Vec<bool> = Vec::with_capacity(n);
        let mut i: usize = 0;
        let mut k: bool = c;
        proof {
            bits::lemma_pow2_zero();
            assert(self.v@.take(0) =~= Seq::<bool>::empty());
            assert(o.v@.take(0) =~= Seq::<bool>::empty());
            assert(v@ =~= Seq::<bool>::empty());
        }
        while i < n
            invariant
                i <= n,
                n == self.v.len(),
                n == o.v.len(),
                v@.len() == i,
                bits::nat_of(v@) + bits::b2n(k) * pow2(i as nat) == bits::nat_of(self.v@.take(i as int)) + bits::nat_of(
                    o.v@.take(i as int),
                ) + bits::b2n(c),
            decreases n - i,
        {
            let x = self.v[i];
            let y = o.v[i];
            let ghost old_v = v@;
            let ghost p = pow2(i as nat);
            let s = x != y;
            let bit = s != k;
            let next = (x && y) || (s && k);
            proof {
                bits::lemma_nat_take_step(self.v@, i as int);
                bits::lemma_nat_take_step(o.v@, i as int);
                bits::lemma_nat_push(old_v, bit);
                bits::lemma_pow2_step(i as nat);
                assert(bits::b2n(bit) * p + bits::b2n(next) * (2 * p) == bits::b2n(x) * p + bits::b2n(y) * p + bits::b2n(k) * p)
                    by (nonlinear_arith)
                    requires
                        bits::b2n(bit) + 2 * bits::b2n(next) == bits::b2n(x) + bits::b2n(y) + bits::b2n(k),
                ;
            }
            v.push(bit);
            k = next;
            i = i + 1;
        }
        proof {
            assert(self.v@.take(n as int) =~= self.v@);
            assert(o.v@.take(n as int) =~= o.v@);
            let t = bits::nat_of(self@) + bits::nat_of(o@) + bits::b2n(c);
            bits::lemma_nat_bound(v@);
            let q = bits::b2n(k) as int;
            let m = pow2(n as nat) as int;
            lemma_pow2_pos(n as nat);
            assert(q * m == bits::b2n(k) * pow2(n as nat));
            lemma_fundamental_div_mod_converse(t as int, m, q, bits::nat_of(v@) as int);
            bits::lemma_bits_of_unique(v@, t as int);
        }
        (BitVec { v }, k)
    }

    /// The sum.
    pub(crate) fn plus(&self, o: &BitVec) -> (r: BitVec)
        requires
            self@.len() == o@.len(),
        ensures
            r@ == ops::bin_value(BinOp::Add, self@, o@),
    {
        self.add_carry(o, false).0
    }

    /// The difference.
    pub(crate) fn minus(&self, o: &BitVec) -> (r: BitVec)
        requires
            self@.len() == o@.len(),
        ensures
            r@ == ops::bin_value(BinOp::Sub, self@, o@),
    {
        let (r, _c) = self.add_carry(&o.not(), true);
        proof {
            ops::lemma_not_nat(o@);
            let m = pow2(self@.len()) as int;
            lemma_pow2_pos(self@.len());
            let d = bits::nat_of(self@) - bits::nat_of(o@);
            lemma_mod_add_multiples_vanish(d, m);
            bits::lemma_bits_of_congruent(d + m, d, self@.len());
        }
        r
    }

    /// The negation.
    pub(crate) fn neg(&self) -> (r: BitVec)
        ensures
            r@ == ops::neg_bits(self@),
    {
        let z = BitVec::fill(self.v.len(), false);
        proof {
            assert(z@ =~= bits::zeros(self@.len()));
            bits::lemma_zeros_nat(self@.len());
        }
        z.minus(self)
    }

    /// Whether the unsigned value is below `o`'s.
    pub(crate) fn ult(&self, o: &BitVec) -> (r: bool)
        requires
            self@.len() == o@.len(),
        ensures
            r == (bits::nat_of(self@) < bits::nat_of(o@)),
    {
        let n = self.v.len();
        let mut i: usize = n;
        proof {
            assert(self.v@.take(n as int) =~= self.v@);
            assert(o.v@.take(n as int) =~= o.v@);
        }
        while i > 0
            invariant
                i <= n,
                n == self.v.len(),
                n == o.v.len(),
                (bits::nat_of(self@) < bits::nat_of(o@)) == (bits::nat_of(self.v@.take(i as int)) < bits::nat_of(
                    o.v@.take(i as int),
                )),
            decreases i,
        {
            i = i - 1;
            proof {
                bits::lemma_nat_take_step(self.v@, i as int);
                bits::lemma_nat_take_step(o.v@, i as int);
                bits::lemma_nat_bound(self.v@.take(i as int));
                bits::lemma_nat_bound(o.v@.take(i as int));
                let p = pow2(i as nat);
                assert(1 * p == p && 0 * p == 0);
            }
            if self.v[i] != o.v[i] {
                return o.v[i];
            }
        }
        false
    }

    /// Whether the unsigned value is at most `o`'s.
    pub(crate) fn ule(&self, o: &BitVec) -> (r: bool)
        requires
            self@.len() == o@.len(),
        ensures
            r == (bits::nat_of(self@) <= bits::nat_of(o@)),
    {
        !o.ult(self)
    }

    /// The sign bit.
    pub(crate) fn sign(&self) -> (r: bool)
        requires
            self@.len() > 0,
        ensures
            r == self@.last(),
    {
        self.v[self.v.len() - 1]
    }

    /// Whether the signed value is below `o`'s.
    pub(crate) fn slt(&self, o: &BitVec) -> (r: bool)
        requires
            self@.len() == o@.len(),
            self@.len() > 0,
        ensures
            r == (bits::int_of(self@) < bits::int_of(o@)),
    {
        proof {
            ops::lemma_sign(self@);
            ops::lemma_sign(o@);
            bits::lemma_nat_bound(self@);
            bits::lemma_nat_bound(o@);
        }
        let a = self.sign();
        let b = o.sign();
        if a != b {
            a
        } else {
            self.ult(o)
        }
    }

    /// Left shift by `k`.
    pub(crate) fn shl(&self, k: usize) -> (r: BitVec)
        ensures
            r@ == ops::shl_bits(self@, k as nat),
    {
        let n = self.v.len();
        let mut v: Vec<bool> = Vec::with_capacity(n);
        let mut i: usize = 0;
        while i < n
            invariant
                i <= n,
                n == self.v.len(),
                v@.len() == i,
                forall|j: int| 0 <= j < i ==> v@[j] == (j >= k && self.v@[j - k]),
            decreases n - i,
        {
            v.push(i >= k && self.v[i - k]);
            i = i + 1;
        }
        let r = BitVec { v };
        assert(r@ =~= ops::shl_bits(self@, k as nat));
        r
    }

    /// Right shift by `k`, filling with `fill`.
    pub(crate) fn shr(&self, k: usize, fill: bool) -> (r: BitVec)
        ensures
            r@ == ops::shr_bits(self@, k as nat, fill),
    {
        let n = self.v.len();
        let mut v: Vec<bool> = Vec::with_capacity(n);
        let mut i: usize = 0;
        while i < n
            invariant
                i <= n,
                n == self.v.len(),
                v@.len() == i,
                forall|j: int|
                    0 <= j < i ==> v@[j] == (if j + k < n { self.v@[j + k] } else { fill }),
            decreases n - i,
        {
            v.push(if k < n - i { self.v[i + k] } else { fill });
            i = i + 1;
        }
        let r = BitVec { v };
        assert(r@ =~= ops::shr_bits(self@, k as nat, fill));
        r
    }

    /// Left rotation by `k`, below the width.
    pub(crate) fn rotl(&self, k: usize) -> (r: BitVec)
        requires
            k <= self@.len(),
        ensures
            r@ == ops::rotl_bits(self@, k as nat),
    {
        let n = self.v.len();
        let mut v: Vec<bool> = Vec::with_capacity(n);
        let mut i: usize = 0;
        while i < n
            invariant
                i <= n,
                n == self.v.len(),
                k <= n,
                v@.len() == i,
                forall|j: int| 0 <= j < i ==> v@[j] == self.v@[(j - k) % (n as int)],
            decreases n - i,
        {
            proof {
                if i < k {
                    lemma_mod_add_multiples_vanish(i - k, n as int);
                    lemma_small_mod((i - k + n) as nat, n as nat);
                } else {
                    lemma_small_mod((i - k) as nat, n as nat);
                }
            }
            v.push(if i < k { self.v[n - k + i] } else { self.v[i - k] });
            i = i + 1;
        }
        let r = BitVec { v };
        assert(r@ =~= ops::rotl_bits(self@, k as nat));
        r
    }

    /// The bits in reverse order.
    pub(crate) fn rev(&self) -> (r: BitVec)
        ensures
            r@ == ops::rev_bits(self@),
    {
        let n = self.v.len();
        let mut v: Vec<bool> = Vec::with_capacity(n);
        let mut i: usize = 0;
        while i < n
            invariant
                i <= n,
                n == self.v.len(),
                v@.len() == i,
                forall|j: int| 0 <= j < i ==> v@[j] == self.v@[n - 1 - j],
            decreases n - i,
        {
            v.push(self.v[n - 1 - i]);
            i = i + 1;
        }
        let r = BitVec { v };
        assert(r@ =~= ops::rev_bits(self@));
        r
    }

    /// The bytes in reverse order.
    pub(crate) fn bswap(&self) -> (r: BitVec)
        requires
            self@.len() % 8 == 0,
        ensures
            r@ == ops::bswap_bits(self@),
    {
        let n = self.v.len();
        let mut v: Vec<bool> = Vec::with_capacity(n);
        let mut i: usize = 0;
        while i < n
            invariant
                i <= n,
                n == self.v.len(),
                n % 8 == 0,
                v@.len() == i,
                forall|j: int| 0 <= j < i ==> v@[j] == self.v@[ops::bswap_from(j, n as int)],
            decreases n - i,
        {
            let j: usize = (n / 8 - 1 - i / 8) * 8 + i % 8;
            v.push(self.v[j]);
            i = i + 1;
        }
        let r = BitVec { v };
        assert(r@ =~= ops::bswap_bits(self@));
        r
    }

    /// Zero extension to `n` bits, or truncation.
    pub(crate) fn zext(&self, n: usize) -> (r: BitVec)
        ensures
            r@ == ops::zext_bits(self@, n as nat),
    {
        let mut v: Vec<bool> = Vec::with_capacity(n);
        let mut i: usize = 0;
        while i < n
            invariant
                i <= n,
                v@.len() == i,
                forall|j: int| 0 <= j < i ==> v@[j] == (j < self.v@.len() && self.v@[j]),
            decreases n - i,
        {
            v.push(i < self.v.len() && self.v[i]);
            i = i + 1;
        }
        let r = BitVec { v };
        assert(r@ =~= ops::zext_bits(self@, n as nat));
        r
    }

    /// Sign extension to `n` bits, or truncation.
    pub(crate) fn sext(&self, n: usize) -> (r: BitVec)
        requires
            self@.len() > 0,
        ensures
            r@ == ops::sext_bits(self@, n as nat),
    {
        let mut v: Vec<bool> = Vec::with_capacity(n);
        let s = self.sign();
        let mut i: usize = 0;
        while i < n
            invariant
                i <= n,
                v@.len() == i,
                s == self.v@.last(),
                forall|j: int|
                    0 <= j < i ==> v@[j] == (if j < self.v@.len() { self.v@[j] } else { s }),
            decreases n - i,
        {
            v.push(if i < self.v.len() { self.v[i] } else { s });
            i = i + 1;
        }
        let r = BitVec { v };
        assert(r@ =~= ops::sext_bits(self@, n as nat));
        r
    }

    /// Bits `[lo, lo + n)`.
    pub(crate) fn extract(&self, lo: usize, n: usize) -> (r: BitVec)
        requires
            lo + n <= self@.len(),
        ensures
            r@ == self@.subrange(lo as int, lo + n),
    {
        let mut v: Vec<bool> = Vec::with_capacity(n);
        let mut i: usize = 0;
        while i < n
            invariant
                i <= n,
                lo + n <= self.v.len(),
                v@.len() == i,
                forall|j: int| 0 <= j < i ==> v@[j] == self.v@[lo + j],
            decreases n - i,
        {
            v.push(self.v[lo + i]);
            i = i + 1;
        }
        let r = BitVec { v };
        assert(r@ =~= self@.subrange(lo as int, lo + n));
        r
    }

    /// `self` in the high bits, `lo` in the low ones.
    pub(crate) fn concat(&self, lo: &BitVec) -> (r: BitVec)
        ensures
            r@ == lo@ + self@,
    {
        let mut r = lo.dup();
        let mut i: usize = 0;
        assert(r.v@ =~= lo@ + self.v@.take(0));
        while i < self.v.len()
            invariant
                i <= self.v.len(),
                r.v@ == lo@ + self.v@.take(i as int),
            decreases self.v.len() - i,
        {
            r.v.push(self.v[i]);
            assert(r.v@ =~= lo@ + self.v@.take(i + 1));
            i = i + 1;
        }
        assert(self.v@.take(i as int) =~= self@);
        r
    }

    /// The product.
    pub(crate) fn times(&self, o: &BitVec) -> (r: BitVec)
        requires
            self@.len() == o@.len(),
        ensures
            r@ == ops::bin_value(BinOp::Mul, self@, o@),
    {
        let n = self.v.len();
        let mut acc = BitVec::fill(n, false);
        let mut shifted = self.dup();
        let mut i: usize = 0;
        let ghost a = bits::nat_of(self@) as int;
        let ghost m = pow2(n as nat) as int;
        proof {
            lemma_pow2_pos(n as nat);
            bits::lemma_pow2_zero();
            assert(o.v@.take(0) =~= Seq::<bool>::empty());
            assert(acc@ =~= bits::zeros(n as nat));
            bits::lemma_zeros_nat(n as nat);
            assert(a * 0 == 0);
            lemma_small_mod(0, m as nat);
            bits::lemma_bits_of_unique(acc@, 0);
            bits::lemma_nat_bound(self@);
            lemma_small_mod(bits::nat_of(self@), m as nat);
            bits::lemma_bits_of_unique(shifted@, a * 1);
        }
        while i < n
            invariant
                i <= n,
                n == self.v.len(),
                n == o.v.len(),
                a == bits::nat_of(self@),
                m == pow2(n as nat),
                m > 0,
                acc@ == bits::bits_of(a * bits::nat_of(o.v@.take(i as int)), n as nat),
                shifted@ == bits::bits_of(a * pow2(i as nat), n as nat),
            decreases n - i,
        {
            let ghost t = a * bits::nat_of(o.v@.take(i as int));
            let ghost s = a * pow2(i as nat);
            proof {
                bits::lemma_nat_take_step(o.v@, i as int);
                bits::lemma_nat_bits_of(t, n as nat);
                bits::lemma_nat_bits_of(s, n as nat);
                bits::lemma_pow2_step(i as nat);
            }
            if o.v[i] {
                let ghost old_acc = acc@;
                acc = acc.plus(&shifted);
                proof {
                    let p = pow2(i as nat);
                    let u = bits::nat_of(o.v@.take(i as int));
                    assert(1 * p == p);
                    assert(a * (u + p) == a * u + a * p) by (nonlinear_arith);
                    lemma_add_mod_noop(t, s, m);
                    bits::lemma_bits_of_congruent((bits::nat_of(old_acc) + bits::nat_of(shifted@)) as int, t + s, n as nat);
                }
            } else {
                assert(0 * pow2(i as nat) == 0);
            }
            let ghost old_s = shifted@;
            shifted = shifted.plus(&shifted);
            proof {
                let p = pow2(i as nat) as int;
                assert(a * (2 * p) == a * p + a * p) by (nonlinear_arith);
                lemma_add_mod_noop(s, s, m);
                bits::lemma_bits_of_congruent((bits::nat_of(old_s) + bits::nat_of(old_s)) as int, s + s, n as nat);
            }
            i = i + 1;
        }
        proof {
            assert(o.v@.take(n as int) =~= o@);
        }
        acc
    }

    /// Quotient and remainder by a value that is not zero.
    pub(crate) fn div_rem(&self, o: &BitVec) -> (r: (BitVec, BitVec))
        requires
            self@.len() == o@.len(),
            self@.len() <= MAX_WIDTH,
            bits::nat_of(o@) != 0,
        ensures
            r.0@ == bits::bits_of((bits::nat_of(self@) / bits::nat_of(o@)) as int, self@.len()),
            r.1@ == bits::bits_of((bits::nat_of(self@) % bits::nat_of(o@)) as int, self@.len()),
    {
        let n = self.v.len();
        // One bit wider, so that doubling the remainder never wraps.
        let wide = o.zext(n + 1);
        let mut rem = BitVec::fill(n + 1, false);
        let mut q = BitVec::fill(n, false);
        let mut i: usize = n;
        let ghost d = bits::nat_of(o@);
        let ghost w = (n + 1) as nat;
        proof {
            assert(wide@ =~= o@.push(false));
            bits::lemma_nat_push(o@, false);
            assert(0 * pow2(n as nat) == 0);
            assert(rem@ =~= bits::zeros(w));
            bits::lemma_zeros_nat(w);
            assert(q@ =~= bits::zeros(n as nat));
            bits::lemma_zeros_nat(n as nat);
            assert(self.v@.skip(n as int) =~= Seq::<bool>::empty());
            assert(q@.skip(n as int) =~= Seq::<bool>::empty());
            assert(0 * d == 0);
            bits::lemma_nat_bound(o@);
        }
        while i > 0
            invariant
                i <= n,
                n == self.v.len(),
                n == o@.len(),
                w == n + 1,
                wide@.len() == w,
                rem@.len() == w,
                q@.len() == n,
                d == bits::nat_of(o@),
                d == bits::nat_of(wide@),
                d > 0,
                bits::nat_of(rem@) < d,
                d < pow2(n as nat),
                forall|j: int| 0 <= j < i ==> !q@[j],
                bits::nat_of(self.v@.skip(i as int)) == bits::nat_of(q@.skip(i as int)) * d + bits::nat_of(rem@),
            decreases i,
        {
            i = i - 1;
            let ghost s0 = rem@;
            let ghost r0 = bits::nat_of(rem@);
            let ghost hi = bits::nat_of(self.v@.skip(i + 1));
            let ghost q_hi = bits::nat_of(q@.skip(i + 1));
            let b = self.v[i];
            let ghost t = 2 * r0 + bits::b2n(b);
            proof {
                lemma_skip_step(self.v@, i as int);
                bits::lemma_pow2_step(n as nat);
            }
            // rem = 2 * rem + bit
            rem = rem.shl(1);
            rem.v.set(0, b);
            proof {
                bits::lemma_bits_of_nat(s0);
                assert(rem@.skip(1) =~= s0.take(w - 1));
                lemma_shl1_nat(r0, b, rem@, w);
            }
            if wide.ule(&rem) {
                let ghost old_rem = rem@;
                rem = rem.minus(&wide);
                let ghost old_q = q@;
                q.v.set(i, true);
                proof {
                    bits::lemma_fits(t - d, w);
                    assert(q@ =~= old_q.update(i as int, true));
                    lemma_skip_step(q@, i as int);
                    assert(q@.skip(i + 1) =~= old_q.skip(i + 1));
                    assert((2 * q_hi + 1) * d == 2 * (q_hi * d) + d) by (nonlinear_arith);
                }
            } else {
                proof {
                    lemma_skip_step(q@, i as int);
                    assert((2 * q_hi + 0) * d == 2 * (q_hi * d)) by (nonlinear_arith);
                }
            }
        }
        proof {
            assert(self.v@.skip(0) =~= self@);
            assert(q@.skip(0) =~= q@);
            lemma_fundamental_div_mod_converse(
                bits::nat_of(self@) as int,
                d as int,
                bits::nat_of(q@) as int,
                bits::nat_of(rem@) as int,
            );
            bits::lemma_bits_of_nat(q@);
            bits::lemma_nat_take(rem@, n as int);
            lemma_small_mod(bits::nat_of(rem@), pow2(n as nat));
        }
        let low = rem.extract(0, n);
        proof {
            assert(low@ =~= rem@.take(n as int));
            bits::lemma_bits_of_nat(low@);
        }
        (q, low)
    }

    /// The number of set bits.
    pub(crate) fn ones_count(&self) -> (r: usize)
        ensures
            r == ops::count_ones(self@),
            r <= self@.len(),
    {
        let mut n: usize = 0;
        let mut i: usize = 0;
        assert(self.v@.take(0) =~= Seq::<bool>::empty());
        while i < self.v.len()
            invariant
                i <= self.v.len(),
                n == ops::count_ones(self.v@.take(i as int)),
                n <= i,
            decreases self.v.len() - i,
        {
            proof {
                assert(self.v@.take(i + 1).drop_last() =~= self.v@.take(i as int));
            }
            if self.v[i] {
                n = n + 1;
            }
            i = i + 1;
        }
        assert(self.v@.take(i as int) =~= self@);
        n
    }

    /// The number of leading zeros.
    pub(crate) fn clz(&self) -> (r: usize)
        ensures
            r == ops::leading_zeros(self@),
            r <= self@.len(),
            forall|j: int| self@.len() - r <= j < self@.len() ==> !self@[j],
            r < self@.len() ==> self@[self@.len() - 1 - r],
    {
        let n = self.v.len();
        let mut i: usize = n;
        assert(self.v@.take(n as int) =~= self@);
        while i > 0 && !self.v[i - 1]
            invariant
                i <= n,
                n == self.v.len(),
                ops::leading_zeros(self@) == (n - i) + ops::leading_zeros(self.v@.take(i as int)),
                forall|j: int| i <= j < n ==> !self.v@[j],
            decreases i,
        {
            proof {
                assert(self.v@.take(i as int).drop_last() =~= self.v@.take(i - 1));
            }
            i = i - 1;
        }
        n - i
    }

    /// The number of trailing zeros.
    pub(crate) fn ctz(&self) -> (r: usize)
        ensures
            r == ops::trailing_zeros(self@),
            r <= self@.len(),
            forall|j: int| 0 <= j < r ==> !self@[j],
            r < self@.len() ==> self@[r as int],
    {
        let n = self.v.len();
        let mut i: usize = 0;
        assert(self.v@.skip(0) =~= self@);
        while i < n && !self.v[i]
            invariant
                i <= n,
                n == self.v.len(),
                ops::trailing_zeros(self@) == i + ops::trailing_zeros(self.v@.skip(i as int)),
                forall|j: int| 0 <= j < i ==> !self.v@[j],
            decreases n - i,
        {
            proof {
                assert(self.v@.skip(i as int).skip(1) =~= self.v@.skip(i + 1));
            }
            i = i + 1;
        }
        i
    }

    /// The value as a shift amount: itself when below `cap`, else `cap`.
    pub(crate) fn amount(&self, cap: usize) -> (r: usize)
        ensures
            r == (if bits::nat_of(self@) < cap { bits::nat_of(self@) } else { cap as nat }),
    {
        match self.to_u64() {
            Some(x) => {
                if x < cap as u64 {
                    x as usize
                } else {
                    cap
                }
            },
            None => cap,
        }
    }

    /// The value modulo `m`.
    pub(crate) fn modulo(&self, m: usize) -> (r: usize)
        requires
            0 < m <= 0x10000,
        ensures
            r == bits::nat_of(self@) % (m as nat),
            r < m,
    {
        let n = self.v.len();
        let mut acc: usize = 0;
        let mut i: usize = n;
        proof {
            assert(self.v@.skip(n as int) =~= Seq::<bool>::empty());
            lemma_small_mod(0, m as nat);
        }
        while i > 0
            invariant
                i <= n,
                n == self.v.len(),
                0 < m <= 0x10000,
                acc < m,
                acc == bits::nat_of(self.v@.skip(i as int)) % (m as nat),
            decreases i,
        {
            i = i - 1;
            let b: usize = if self.v[i] {
                1
            } else {
                0
            };
            proof {
                lemma_skip_step(self.v@, i as int);
                let x = bits::nat_of(self.v@.skip(i + 1)) as int;
                let mm = m as int;
                lemma_mul_mod_noop_right(2, x, mm);
                lemma_add_mod_noop(2 * x, b as int, mm);
                lemma_add_mod_noop(2 * (x % mm), b as int, mm);
            }
            acc = (2 * acc + b) % m;
        }
        proof {
            assert(self.v@.skip(0) =~= self@);
        }
        acc
    }

    /// A unary operator.
    pub fn apply_un(op: UnOp, a: &BitVec) -> (r: BitVec)
        requires
            op == UnOp::Bswap ==> a@.len() % 8 == 0,
        ensures
            r@ == ops::un_value(op, a@),
    {
        match op {
            UnOp::Not => a.not(),
            UnOp::Neg => a.neg(),
            UnOp::Popcnt => BitVec::from_u64(a.v.len(), a.ones_count() as u64),
            UnOp::Clz => BitVec::from_u64(a.v.len(), a.clz() as u64),
            UnOp::Ctz => BitVec::from_u64(a.v.len(), a.ctz() as u64),
            UnOp::Bswap => a.bswap(),
            UnOp::BitRev => a.rev(),
        }
    }

    fn udiv(&self, o: &BitVec) -> (r: BitVec)
        requires
            self@.len() == o@.len(),
            self@.len() <= MAX_WIDTH,
        ensures
            r@ == ops::udiv_bits(self@, o@),
    {
        if o.is_zero() {
            let r = BitVec::fill(self.v.len(), true);
            assert(r@ =~= bits::ones(self@.len()));
            r
        } else {
            self.div_rem(o).0
        }
    }

    fn urem(&self, o: &BitVec) -> (r: BitVec)
        requires
            self@.len() == o@.len(),
            self@.len() <= MAX_WIDTH,
        ensures
            r@ == ops::urem_bits(self@, o@),
    {
        if o.is_zero() {
            self.dup()
        } else {
            self.div_rem(o).1
        }
    }

    /// A binary operator.
    pub fn apply_bin(op: BinOp, a: &BitVec, b: &BitVec) -> (r: BitVec)
        requires
            a@.len() == b@.len(),
            0 < a@.len() <= MAX_WIDTH,
        ensures
            r@ == ops::bin_value(op, a@, b@),
    {
        let n = a.v.len();
        match op {
            BinOp::Add => a.plus(b),
            BinOp::Sub => a.minus(b),
            BinOp::Mul => a.times(b),
            BinOp::UDiv => a.udiv(b),
            BinOp::URem => a.urem(b),
            BinOp::SDiv => {
                if a.sign() {
                    if b.sign() {
                        a.neg().udiv(&b.neg())
                    } else {
                        a.neg().udiv(b).neg()
                    }
                } else if b.sign() {
                    a.udiv(&b.neg()).neg()
                } else {
                    a.udiv(b)
                }
            },
            BinOp::SRem => {
                let m = if b.sign() {
                    b.neg()
                } else {
                    b.dup()
                };
                if a.sign() {
                    a.neg().urem(&m).neg()
                } else {
                    a.urem(&m)
                }
            },
            BinOp::And => a.and(b),
            BinOp::Or => a.or(b),
            BinOp::Xor => a.xor(b),
            BinOp::Shl => {
                let r = a.shl(b.amount(n));
                assert(r@ =~= ops::shl_bits(a@, bits::nat_of(b@)));
                r
            },
            BinOp::LShr => {
                let r = a.shr(b.amount(n), false);
                assert(r@ =~= ops::shr_bits(a@, bits::nat_of(b@), false));
                r
            },
            BinOp::AShr => {
                let r = a.shr(b.amount(n), a.sign());
                assert(r@ =~= ops::shr_bits(a@, bits::nat_of(b@), a@.last()));
                r
            },
            BinOp::RotL => {
                let k = b.modulo(n);
                proof {
                    lemma_rotl_mod(a@, bits::nat_of(b@));
                }
                a.rotl(k)
            },
            BinOp::RotR => {
                let k = b.modulo(n);
                a.rotl(n - k)
            },
        }
    }

    /// A comparison.
    pub fn apply_rel(op: CmpOp, a: &BitVec, b: &BitVec) -> (r: bool)
        requires
            a@.len() == b@.len(),
            0 < a@.len(),
        ensures
            r == ops::holds(op, a@, b@),
    {
        match op {
            CmpOp::Eq => a.same(b),
            CmpOp::Ne => !a.same(b),
            CmpOp::Ult => a.ult(b),
            CmpOp::Ule => a.ule(b),
            CmpOp::Slt => a.slt(b),
            CmpOp::Sle => !b.slt(a),
        }
    }
}

/// The value of a suffix one bit longer.
pub proof fn lemma_skip_step(s: Seq<bool>, i: int)
    requires
        0 <= i < s.len(),
    ensures
        bits::nat_of(s.skip(i)) == 2 * bits::nat_of(s.skip(i + 1)) + bits::b2n(s[i]),
{
    let t = s.skip(i);
    bits::lemma_nat_take(t, 1);
    bits::lemma_pow2_zero();
    assert(t.skip(1) =~= s.skip(i + 1));
    let one = t.take(1);
    assert(one.len() == 1 && one[0] == s[i]);
    assert(one.drop_last() =~= Seq::<bool>::empty());
    assert(bits::nat_of(one) == bits::nat_of(one.drop_last()) + bits::b2n(one.last()) * pow2(0));
    assert(bits::b2n(s[i]) * 1 == bits::b2n(s[i]));
    lemma_fundamental_div_mod(bits::nat_of(t) as int, 2);
}

/// A suffix is at most the whole.
pub proof fn lemma_skip_le(s: Seq<bool>, i: int)
    requires
        0 <= i <= s.len(),
    ensures
        bits::nat_of(s.skip(i)) <= bits::nat_of(s),
{
    bits::lemma_nat_take(s, i);
    lemma_pow2_pos(i as nat);
    lemma_div_nonincreasing(bits::nat_of(s) as int, pow2(i as nat) as int);
}

/// Doubling a value that leaves room for it, and setting the freed bit.
pub proof fn lemma_shl1_nat(r0: nat, b: bool, out: Seq<bool>, w: nat)
    requires
        w > 0,
        2 * r0 + bits::b2n(b) < pow2(w),
        out.len() == w,
        out[0] == b,
        out.skip(1) == bits::bits_of(r0 as int, w).take(w - 1),
    ensures
        bits::nat_of(out) == 2 * r0 + bits::b2n(b),
{
    lemma_skip_step(out, 0);
    assert(out.skip(0) =~= out);
    bits::lemma_pow2_step((w - 1) as nat);
    bits::lemma_bits_of_take(r0 as int, w, w - 1);
    bits::lemma_fits(r0 as int, (w - 1) as nat);
}

/// Rotation counts modulo the width.
pub proof fn lemma_rotl_mod(a: Seq<bool>, k: nat)
    requires
        a.len() > 0,
    ensures
        ops::rotl_bits(a, k % a.len()) == ops::rotl_bits(a, k),
{
    let n = a.len() as int;
    assert forall|i: int| 0 <= i < a.len() implies #[trigger] ops::rotl_bits(a, k % a.len())[i]
        == ops::rotl_bits(a, k)[i] by {
        lemma_sub_mod_noop(i, k as int, n);
        lemma_sub_mod_noop(i, k as int % n, n);
        lemma_mod_twice(k as int, n);
    }
    assert(ops::rotl_bits(a, k % a.len()) =~= ops::rotl_bits(a, k));
}

} // verus!
