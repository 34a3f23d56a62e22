//! Known bits: which bits of a value are certainly clear and which are certainly set.

use vstd::prelude::*;
use crate::ops;
use crate::bits;
use vstd::arithmetic::power2::*;
use vstd::arithmetic::div_mod::*;
use crate::bitvec::{BitVec, MAX_WIDTH};

verus! {

/// The bits known to be clear and the bits known to be set.
#[derive(Debug)]
pub struct KnownBits {
    /// Bits that are clear.
    pub zero: BitVec,
    /// Bits that are set.
    pub one: BitVec,
}

/// Whether a value agrees with the bits known of it.
pub open spec fn agrees(zero: Seq<bool>, one: Seq<bool>, s: Seq<bool>) -> bool {
    &&& s.len() == zero.len()
    &&& s.len() == one.len()
    &&& forall|i: int| #![trigger s[i]] 0 <= i < s.len() ==> (zero[i] ==> !s[i]) && (one[i] ==> s[i])
}

impl KnownBits {
    /// Whether a value agrees with the bits known of it.
    pub open spec fn admits(&self, s: Seq<bool>) -> bool {
        agrees(self.zero@, self.one@, s)
    }

    /// Of `w` bits.
    pub open spec fn has(&self, w: nat) -> bool {
        self.zero@.len() == w && self.one@.len() == w
    }

    /// A copy.
    pub fn dup(&self) -> (r: KnownBits)
        ensures
            r.zero@ == self.zero@,
            r.one@ == self.one@,
    {
        KnownBits { zero: self.zero.dup(), one: self.one.dup() }
    }

    /// Whether the value `v` agrees with what is known.
    pub fn contains(&self, v: &BitVec) -> (r: bool)
        requires
            self.has(v@.len()),
        ensures
            r == self.admits(v@),
    {
        let mut i: usize = 0;
        while i < v.len()
            invariant
                i <= v@.len(),
                self.has(v@.len()),
                forall|j: int|
                    #![trigger v@[j]]
                    0 <= j < i ==> (self.zero@[j] ==> !v@[j]) && (self.one@[j] ==> v@[j]),
            decreases v@.len() - i,
        {
            let b = v.at(i);
            if (b && self.zero.at(i)) || (!b && self.one.at(i)) {
                assert(v@[i as int] == b);
                return false;
            }
            i = i + 1;
        }
        true
    }

    /// The number of bits.
    pub(crate) fn len(&self) -> (r: usize)
        ensures
            r == self.zero@.len(),
    {
        self.zero.len()
    }

    /// Nothing known of `n` bits.
    pub(crate) fn unknown(n: usize) -> (r: KnownBits)
        ensures
            r.has(n as nat),
            forall|s: Seq<bool>| s.len() == n ==> #[trigger] r.admits(s),
    {
        KnownBits { zero: BitVec::fill(n, false), one: BitVec::fill(n, false) }
    }

    /// Every bit of `v`.
    pub fn constant(v: &BitVec) -> (r: KnownBits)
        ensures
            r.has(v@.len()),
            r.zero@ == ops::not_bits(v@),
            r.one@ == v@,
            forall|s: Seq<bool>| #[trigger] r.admits(s) <==> s == v@,
    {
        let r = KnownBits { zero: v.not(), one: v.dup() };
        assert forall|s: Seq<bool>| #[trigger] r.admits(s) <==> s == v@ by {
            if r.admits(s) {
                assert forall|i: int| 0 <= i < s.len() implies s[i] == v@[i] by {
                    assert(r.zero@[i] == !v@[i]);
                }
                assert(s =~= v@);
            }
        }
        r
    }

    /// The bits known to be clear.
    pub fn known_zero(&self) -> (r: &BitVec)
        ensures
            r@ == self.zero@,
    {
        &self.zero
    }

    /// The bits known to be set.
    pub fn known_one(&self) -> (r: &BitVec)
        ensures
            r@ == self.one@,
    {
        &self.one
    }

    /// The bits that may be set.
    pub fn maybe_one(&self) -> (r: BitVec)
        ensures
            r@ == ops::not_bits(self.zero@),
    {
        self.zero.not()
    }

    /// The value, when every bit is known.
    pub fn as_constant(&self) -> (r: Option<BitVec>)
        requires
            self.has(self.zero@.len()),
        ensures
            r matches Some(v) ==> v@.len() == self.zero@.len() && forall|s: Seq<bool>| #[trigger]
                self.admits(s) ==> s == v@,
            r is None <==> exists|i: int|
                0 <= i < self.zero@.len() && !self.zero@[i] && !self.one@[i],
    {
        let all = self.zero.or(&self.one);
        if all.is_ones() {
            let v = self.one.dup();
            proof {
                assert forall|s: Seq<bool>| #[trigger] self.admits(s) implies s == v@ by {
                    assert forall|i: int| 0 <= i < s.len() implies s[i] == v@[i] by {
                        assert(all@[i]);
                    }
                    assert(s =~= v@);
                }
                assert forall|i: int| 0 <= i < self.zero@.len() implies self.zero@[i]
                    || self.one@[i] by {
                    assert(all@[i]);
                }
            }
            Some(v)
        } else {
            proof {
                if forall|i: int| 0 <= i < self.zero@.len() ==> self.zero@[i] || self.one@[i] {
                    assert(all@ =~= bits::ones(all@.len()));
                }
            }
            None
        }
    }

    /// What both know, or none when they disagree.
    pub fn meet(&self, o: &KnownBits) -> (r: Option<KnownBits>)
        requires
            self.has(self.zero@.len()),
            o.has(self.zero@.len()),
        ensures
            r matches Some(k) ==> k.has(self.zero@.len()) && forall|s: Seq<bool>| #[trigger]
                k.admits(s) <==> self.admits(s) && o.admits(s),
            r matches Some(k) ==> k.zero@ == ops::or_bits(self.zero@, o.zero@) && k.one@
                == ops::or_bits(self.one@, o.one@),
            r is None ==> forall|s: Seq<bool>| !(self.admits(s) && #[trigger] o.admits(s)),
    {
        let zero = self.zero.or(&o.zero);
        let one = self.one.or(&o.one);
        let both = zero.and(&one);
        if both.is_zero() {
            let k = KnownBits { zero, one };
            proof {
                assert forall|s: Seq<bool>| #[trigger] k.admits(s) <==> self.admits(s)
                    && o.admits(s) by {
                    if k.admits(s) {
                        assert forall|i: int| #![trigger s[i]] 0 <= i < s.len() implies (
                        self.zero@[i] ==> !s[i]) && (self.one@[i] ==> s[i]) && (o.zero@[i] ==> !s[i])
                            && (o.one@[i] ==> s[i]) by {
                            assert(k.zero@[i] == (self.zero@[i] || o.zero@[i]));
                            assert(k.one@[i] == (self.one@[i] || o.one@[i]));
                        }
                    }
                }
            }
            Some(k)
        } else {
            proof {
                assert forall|s: Seq<bool>| !(self.admits(s) && #[trigger] o.admits(s)) by {
                    if self.admits(s) && o.admits(s) {
                        assert forall|i: int| 0 <= i < both@.len() implies !both@[i] by {
                            let _ = s[i];
                        }
                        assert(both@ =~= bits::zeros(both@.len()));
                    }
                }
            }
            None
        }
    }

    /// What is known of a value that is one of two.
    pub(crate) fn join(&self, o: &KnownBits) -> (r: KnownBits)
        requires
            self.has(self.zero@.len()),
            o.has(self.zero@.len()),
        ensures
            r.has(self.zero@.len()),
            forall|s: Seq<bool>| self.admits(s) || o.admits(s) ==> #[trigger] r.admits(s),
            r.zero@ == ops::and_bits(self.zero@, o.zero@),
            r.one@ == ops::and_bits(self.one@, o.one@),
    {
        KnownBits { zero: self.zero.and(&o.zero), one: self.one.and(&o.one) }
    }

    /// The complement.
    pub(crate) fn not(&self) -> (r: KnownBits)
        requires
            self.has(self.zero@.len()),
        ensures
            r.has(self.zero@.len()),
            r.zero@ == self.one@,
            r.one@ == self.zero@,
            forall|a: Seq<bool>| #[trigger] self.admits(a) ==> r.admits(ops::not_bits(a)),
    {
        KnownBits { zero: self.one.dup(), one: self.zero.dup() }
    }

    /// Bitwise and.
    pub(crate) fn and(&self, o: &KnownBits) -> (r: KnownBits)
        requires
            self.has(self.zero@.len()),
            o.has(self.zero@.len()),
        ensures
            r.has(self.zero@.len()),
            forall|a: Seq<bool>, b: Seq<bool>|
                self.admits(a) && o.admits(b) ==> #[trigger] r.admits(ops::and_bits(a, b)),
            r.zero@ == ops::or_bits(self.zero@, o.zero@),
            r.one@ == ops::and_bits(self.one@, o.one@),
    {
        KnownBits { zero: self.zero.or(&o.zero), one: self.one.and(&o.one) }
    }

    /// Bitwise or.
    pub(crate) fn or(&self, o: &KnownBits) -> (r: KnownBits)
        requires
            self.has(self.zero@.len()),
            o.has(self.zero@.len()),
        ensures
            r.has(self.zero@.len()),
            forall|a: Seq<bool>, b: Seq<bool>|
                self.admits(a) && o.admits(b) ==> #[trigger] r.admits(ops::or_bits(a, b)),
            r.zero@ == ops::and_bits(self.zero@, o.zero@),
            r.one@ == ops::or_bits(self.one@, o.one@),
    {
        KnownBits { zero: self.zero.and(&o.zero), one: self.one.or(&o.one) }
    }

    /// Bitwise exclusive or.
    pub(crate) fn xor(&self, o: &KnownBits) -> (r: KnownBits)
        requires
            self.has(self.zero@.len()),
            o.has(self.zero@.len()),
        ensures
            r.has(self.zero@.len()),
            forall|a: Seq<bool>, b: Seq<bool>|
                self.admits(a) && o.admits(b) ==> #[trigger] r.admits(ops::xor_bits(a, b)),
            r.zero@ == ops::or_bits(
                ops::and_bits(self.zero@, o.zero@),
                ops::and_bits(self.one@, o.one@),
            ),
            r.one@ == ops::or_bits(
                ops::and_bits(self.zero@, o.one@),
                ops::and_bits(self.one@, o.zero@),
            ),
    {
        KnownBits {
            zero: self.zero.and(&o.zero).or(&self.one.and(&o.one)),
            one: self.zero.and(&o.one).or(&self.one.and(&o.zero)),
        }
    }

    /// `self + o + c`.
    pub(crate) fn add_carry(&self, o: &KnownBits, c: bool) -> (r: KnownBits)
        requires
            self.has(self.zero@.len()),
            o.has(self.zero@.len()),
        ensures
            r.has(self.zero@.len()),
            forall|a: Seq<bool>, b: Seq<bool>|
                #![trigger self.admits(a), o.admits(b)]
                self.admits(a) && o.admits(b) ==> r.admits(
                    bits::bits_of((bits::nat_of(a) + bits::nat_of(b) + bits::b2n(c)) as int, a.len()),
                ),
    {
        let n = self.len();
        let mut zero: Vec<bool> = Vec::with_capacity(n);
        let mut one: Vec<bool> = Vec::with_capacity(n);
        let mut c0: bool = !c;
        let mut c1: bool = c;
        let mut i: usize = 0;
        proof {
            assert forall|a: Seq<bool>, b: Seq<bool>|
                #![trigger self.admits(a), o.admits(b)]
                self.admits(a) && o.admits(b) implies carry_ok(a, b, c, 0, c0, c1) by {
                lemma_carry_zero(a, b, c);
            }
        }
        while i < n
            invariant
                i <= n,
                n == self.zero@.len(),
                self.has(n as nat),
                o.has(n as nat),
                zero@.len() == i,
                one@.len() == i,
                forall|a: Seq<bool>, b: Seq<bool>|
                    #![trigger self.admits(a), o.admits(b)]
                    self.admits(a) && o.admits(b) ==> carry_ok(a, b, c, i as nat, c0, c1),
                forall|a: Seq<bool>, b: Seq<bool>|
                    #![trigger self.admits(a), o.admits(b)]
                    self.admits(a) && o.admits(b) ==> sum_known(zero@, one@, a, b, c),
            decreases n - i,
        {
            let (az, ao) = (self.zero.at(i), self.one.at(i));
            let (bz, bo) = (o.zero.at(i), o.one.at(i));
            let known = (az || ao) && (bz || bo) && (c0 || c1);
            let bit = (ao != bo) != c1;
            let ghost zero0 = zero@;
            let ghost one0 = one@;
            zero.push(known && !bit);
            one.push(known && bit);
            let n1 = (ao && bo) || (ao && c1) || (bo && c1);
            let n0 = (az && bz) || (az && c0) || (bz && c0);
            proof {
                assert forall|a: Seq<bool>, b: Seq<bool>|
                    #![trigger self.admits(a), o.admits(b)]
                    self.admits(a) && o.admits(b) implies carry_ok(
                    a,
                    b,
                    c,
                    (i + 1) as nat,
                    n0,
                    n1,
                ) && (known && !bit ==> !sum_bit(a, b, c, i as int)) && (known && bit ==> sum_bit(
                    a,
                    b,
                    c,
                    i as int,
                )) by {
                    assert(carry_ok(a, b, c, i as nat, c0, c1));
                    lemma_carry_step(a, b, c, i as int);
                    let _ = a[i as int];
                    let _ = b[i as int];
                }
                assert forall|a: Seq<bool>, b: Seq<bool>|
                    #![trigger self.admits(a), o.admits(b)]
                    self.admits(a) && o.admits(b) implies sum_known(zero@, one@, a, b, c) by {
                    assert(sum_known(zero0, one0, a, b, c));
                    lemma_sum_known_push(zero0, one0, a, b, c, known && !bit, known && bit);
                }
            }
            c0 = n0;
            c1 = n1;
            i = i + 1;
        }
        let r = KnownBits { zero: BitVec::from_bools(zero), one: BitVec::from_bools(one) };
        proof {
            assert forall|a: Seq<bool>, b: Seq<bool>|
                #![trigger self.admits(a), o.admits(b)]
                self.admits(a) && o.admits(b) implies r.admits(
                bits::bits_of((bits::nat_of(a) + bits::nat_of(b) + bits::b2n(c)) as int, a.len()),
            ) by {
                let s = bits::bits_of((bits::nat_of(a) + bits::nat_of(b) + bits::b2n(c)) as int, a.len());
                assert forall|j: int| #![trigger s[j]] 0 <= j < s.len() implies (r.zero@[j]
                    ==> !s[j]) && (r.one@[j] ==> s[j]) by {
                    lemma_sum_bit(a, b, c, j);
                    assert(sum_known(r.zero@, r.one@, a, b, c));
                }
            }
        }
        r
    }

    /// The number of low bits known to be clear.
    pub(crate) fn low_zeros(&self) -> (r: usize)
        ensures
            r <= self.zero@.len(),
            forall|j: int| 0 <= j < r ==> self.zero@[j],
    {
        let m = self.zero.not();
        let r = m.ctz();
        assert forall|j: int| 0 <= j < r implies self.zero@[j] by {
            assert(!m@[j]);
        }
        r
    }

    /// The number of high bits known to be clear.
    pub(crate) fn high_zeros(&self) -> (r: usize)
        ensures
            r <= self.zero@.len(),
            forall|j: int| self.zero@.len() - r <= j < self.zero@.len() ==> self.zero@[j],
    {
        let m = self.zero.not();
        let r = m.clz();
        assert forall|j: int| self.zero@.len() - r <= j < self.zero@.len() implies self.zero@[j] by {
            assert(!m@[j]);
        }
        r
    }

    /// The low `k` of `n` bits are clear.
    pub(crate) fn zeros_below(n: usize, k: usize) -> (r: KnownBits)
        ensures
            r.has(n as nat),
            forall|s: Seq<bool>|
                s.len() == n && (forall|j: int| 0 <= j < k && j < n ==> !s[j])
                    ==> #[trigger] r.admits(s),
    {
        let mut zero: Vec<bool> = Vec::with_capacity(n);
        let mut i: usize = 0;
        while i < n
            invariant
                i <= n,
                zero@.len() == i,
                forall|j: int| 0 <= j < i ==> zero@[j] == (j < k),
            decreases n - i,
        {
            zero.push(i < k);
            i = i + 1;
        }
        KnownBits { zero: BitVec::from_bools(zero), one: BitVec::fill(n, false) }
    }

    /// The bits from `k` up are clear.
    pub(crate) fn zeros_from(n: usize, k: usize) -> (r: KnownBits)
        ensures
            r.has(n as nat),
            forall|s: Seq<bool>|
                s.len() == n && (forall|j: int| k <= j < n ==> !s[j]) ==> #[trigger] r.admits(s),
            forall|j: int| 0 <= j < n ==> #[trigger] r.zero@[j] == (j >= k),
    {
        let mut zero: Vec<bool> = Vec::with_capacity(n);
        let mut i: usize = 0;
        while i < n
            invariant
                i <= n,
                zero@.len() == i,
                forall|j: int| 0 <= j < i ==> zero@[j] == (j >= k),
            decreases n - i,
        {
            zero.push(i >= k);
            i = i + 1;
        }
        KnownBits { zero: BitVec::from_bools(zero), one: BitVec::fill(n, false) }
    }

    /// A number at most `max`: the bits above its highest are clear.
    pub(crate) fn at_most(n: usize, max: u64) -> (r: KnownBits)
        requires
            n <= MAX_WIDTH,
        ensures
            r.has(n as nat),
            forall|s: Seq<bool>|
                s.len() == n && bits::nat_of(s) <= max ==> #[trigger] r.admits(s),
    {
        let mut k: usize = 0;
        let mut rest: u64 = max;
        proof {
            bits::lemma_pow2_zero();
        }
        // The number of bits of `max`.
        while rest > 0 && k < 64
            invariant
                k <= 64,
                rest as int == (max as int) / (pow2(k as nat) as int),
            decreases 64 - k,
        {
            proof {
                bits::lemma_pow2_step(k as nat);
                lemma_div_denominator(max as int, pow2(k as nat) as int, 2);
            }
            rest = rest / 2;
            k = k + 1;
        }
        proof {
            lemma2_to64();
            lemma_pow2_pos(k as nat);
            if k < 64 {
                lemma_fundamental_div_mod(max as int, pow2(k as nat) as int);
                lemma_mod_bound(max as int, pow2(k as nat) as int);
            }
            assert(max < pow2(k as nat)) by {
                if k == 64 {
                    lemma2_to64_rest();
                }
            }
        }
        let r = KnownBits::zeros_from(n, k);
        proof {
            assert forall|s: Seq<bool>| s.len() == n && bits::nat_of(s) <= max implies #[trigger]
                r.admits(s) by {
                lemma_small_bits(s, k as nat);
            }
        }
        r
    }

    /// The least value.
    pub(crate) fn umin(&self) -> (r: BitVec)
        requires
            self.has(self.zero@.len()),
        ensures
            r@.len() == self.zero@.len(),
            forall|s: Seq<bool>| #[trigger] self.admits(s) ==> bits::nat_of(r@) <= bits::nat_of(s),
    {
        let r = self.one.dup();
        proof {
            assert forall|s: Seq<bool>| #[trigger] self.admits(s) implies bits::nat_of(r@) <= bits::nat_of(
                s,
            ) by {
                assert(ops::and_bits(r@, s) =~= r@) by {
                    assert forall|i: int| 0 <= i < s.len() implies (r@[i] && s[i]) == r@[i] by {}
                }
                ops::lemma_and_or_xor_nat(r@, s);
            }
        }
        r
    }

    /// The largest value.
    pub(crate) fn umax(&self) -> (r: BitVec)
        requires
            self.has(self.zero@.len()),
        ensures
            r@.len() == self.zero@.len(),
            forall|s: Seq<bool>| #[trigger] self.admits(s) ==> bits::nat_of(s) <= bits::nat_of(r@),
    {
        let r = self.zero.not();
        proof {
            assert forall|s: Seq<bool>| #[trigger] self.admits(s) implies bits::nat_of(s) <= bits::nat_of(
                r@,
            ) by {
                assert(ops::and_bits(s, r@) =~= s) by {
                    assert forall|i: int| 0 <= i < s.len() implies (s[i] && r@[i]) == s[i] by {}
                }
                ops::lemma_and_or_xor_nat(s, r@);
            }
        }
        r
    }

    /// The least value, signed.
    pub(crate) fn smin(&self) -> (r: BitVec)
        requires
            self.has(self.zero@.len()),
            self.zero@.len() > 0,
        ensures
            r@.len() == self.zero@.len(),
            forall|s: Seq<bool>| #[trigger] self.admits(s) ==> bits::int_of(r@) <= bits::int_of(s),
    {
        let top: usize = self.zero.len() - 1;
        let low = self.one.extract(0, top);
        let sign = BitVec::from_bool(!self.zero.at(top));
        let r = sign.concat(&low);
        proof {
            assert forall|s: Seq<bool>| #[trigger] self.admits(s) implies bits::int_of(r@)
                <= bits::int_of(s) by {
                if r@.last() == s.last() {
                    assert forall|i: int| 0 <= i < s.len() && r@[i] implies s[i] by {
                        if i < top {
                            assert(r@[i] == self.one@[i]);
                        }
                    }
                }
                lemma_subset_int(r@, s);
            }
        }
        r
    }

    /// The largest value, signed.
    pub(crate) fn smax(&self) -> (r: BitVec)
        requires
            self.has(self.zero@.len()),
            self.zero@.len() > 0,
        ensures
            r@.len() == self.zero@.len(),
            forall|s: Seq<bool>| #[trigger] self.admits(s) ==> bits::int_of(s) <= bits::int_of(r@),
    {
        let top: usize = self.zero.len() - 1;
        let low = self.zero.not().extract(0, top);
        let sign = BitVec::from_bool(self.one.at(top));
        let r = sign.concat(&low);
        proof {
            assert forall|s: Seq<bool>| #[trigger] self.admits(s) implies bits::int_of(s)
                <= bits::int_of(r@) by {
                if r@.last() == s.last() {
                    assert forall|i: int| 0 <= i < s.len() && s[i] implies r@[i] by {
                        if i < top {
                            assert(r@[i] == !self.zero@[i]);
                        }
                    }
                }
                lemma_subset_int(s, r@);
            }
        }
        r
    }
}

/// A negative value is below one that is not; of one sign, a value with fewer bits set is at
/// most one with more.
pub proof fn lemma_subset_int(a: Seq<bool>, b: Seq<bool>)
    requires
        a.len() == b.len(),
        a.len() > 0,
        b.last() ==> a.last(),
        a.last() == b.last() ==> forall|i: int| 0 <= i < a.len() && a[i] ==> b[i],
    ensures
        bits::int_of(a) <= bits::int_of(b),
{
    ops::lemma_sign(a);
    ops::lemma_sign(b);
    bits::lemma_nat_bound(a);
    bits::lemma_nat_bound(b);
    if a.last() == b.last() {
        assert(ops::and_bits(a, b) =~= a);
        ops::lemma_and_or_xor_nat(a, b);
    }
}

/// The carry into bit `k` of `a + b + c`.
pub open spec fn carry(a: Seq<bool>, b: Seq<bool>, c: bool, k: nat) -> bool {
    bits::nat_of(a.take(k as int)) + bits::nat_of(b.take(k as int)) + bits::b2n(c) >= pow2(k)
}

/// Bit `i` of `a + b + c`.
pub open spec fn sum_bit(a: Seq<bool>, b: Seq<bool>, c: bool, i: int) -> bool {
    (a[i] != b[i]) != carry(a, b, c, i as nat)
}

/// What is known of the bits of `a + b + c`.
pub open spec fn sum_known(
    zero: Seq<bool>,
    one: Seq<bool>,
    a: Seq<bool>,
    b: Seq<bool>,
    c: bool,
) -> bool {
    forall|j: int|
        #![trigger sum_bit(a, b, c, j)]
        0 <= j < zero.len() ==> (zero[j] ==> !sum_bit(a, b, c, j)) && (one[j] ==> sum_bit(
            a,
            b,
            c,
            j,
        ))
}

pub proof fn lemma_sum_known_push(
    zero: Seq<bool>,
    one: Seq<bool>,
    a: Seq<bool>,
    b: Seq<bool>,
    c: bool,
    z: bool,
    y: bool,
)
    requires
        sum_known(zero, one, a, b, c),
        zero.len() == one.len(),
        z ==> !sum_bit(a, b, c, zero.len() as int),
        y ==> sum_bit(a, b, c, zero.len() as int),
    ensures
        sum_known(zero.push(z), one.push(y), a, b, c),
{
    let s = zero.push(z);
    let t = one.push(y);
    assert forall|j: int|
        #![trigger sum_bit(a, b, c, j)]
        0 <= j < s.len() implies (s[j] ==> !sum_bit(a, b, c, j)) && (t[j] ==> sum_bit(
        a,
        b,
        c,
        j,
    )) by {
        if j < zero.len() {
            assert(s[j] == zero[j]);
        }
    }
}

/// The carry into bit `k` agrees with what is known of it.
pub open spec fn carry_ok(
    a: Seq<bool>,
    b: Seq<bool>,
    c: bool,
    k: nat,
    c0: bool,
    c1: bool,
) -> bool {
    (c0 ==> !carry(a, b, c, k)) && (c1 ==> carry(a, b, c, k))
}

pub proof fn lemma_carry_zero(a: Seq<bool>, b: Seq<bool>, c: bool)
    ensures
        carry(a, b, c, 0) == c,
{
    bits::lemma_pow2_zero();
    assert(a.take(0) =~= Seq::<bool>::empty());
    assert(b.take(0) =~= Seq::<bool>::empty());
}

/// The carry out of a bit is the majority of the two bits and the carry in.
pub proof fn lemma_carry_step(a: Seq<bool>, b: Seq<bool>, c: bool, i: int)
    requires
        0 <= i < a.len(),
        a.len() == b.len(),
    ensures
        carry(a, b, c, (i + 1) as nat) == ((a[i] && b[i]) || (a[i] && carry(a, b, c, i as nat)) || (
        b[i] && carry(a, b, c, i as nat))),
        bits::nat_of(a.take(i)) + bits::nat_of(b.take(i)) + bits::b2n(c) < 2 * pow2(i as nat),
{
    bits::lemma_nat_take_step(a, i);
    bits::lemma_nat_take_step(b, i);
    bits::lemma_pow2_step(i as nat);
    bits::lemma_nat_bound(a.take(i));
    bits::lemma_nat_bound(b.take(i));
    let p = pow2(i as nat);
    assert(bits::b2n(a[i]) * p == (if a[i] { p } else { 0 })) by (nonlinear_arith)
        requires
            bits::b2n(a[i]) == (if a[i] { 1nat } else { 0nat }),
    ;
    assert(bits::b2n(b[i]) * p == (if b[i] { p } else { 0 })) by (nonlinear_arith)
        requires
            bits::b2n(b[i]) == (if b[i] { 1nat } else { 0nat }),
    ;
}

/// The bits of a sum, by the carries.
pub proof fn lemma_sum_bit(a: Seq<bool>, b: Seq<bool>, c: bool, i: int)
    requires
        0 <= i < a.len(),
        a.len() == b.len(),
    ensures
        bits::bits_of((bits::nat_of(a) + bits::nat_of(b) + bits::b2n(c)) as int, a.len())[i] == sum_bit(a, b, c, i),
{
    let t = (bits::nat_of(a) + bits::nat_of(b) + bits::b2n(c)) as int;
    let p = pow2(i as nat) as int;
    lemma_pow2_pos(i as nat);
    bits::lemma_pow2_step(i as nat);
    bits::lemma_nat_take(a, i);
    bits::lemma_nat_take(b, i);
    lemma_carry_step(a, b, c, i);
    // t = 2^i * (hi a + hi b + carry) + low
    let ha = bits::nat_of(a.skip(i)) as int;
    let hb = bits::nat_of(b.skip(i)) as int;
    let la = bits::nat_of(a.take(i)) as int;
    let lb = bits::nat_of(b.take(i)) as int;
    lemma_fundamental_div_mod(bits::nat_of(a) as int, p);
    lemma_fundamental_div_mod(bits::nat_of(b) as int, p);
    let k = carry(a, b, c, i as nat);
    let q = ha + hb + bits::b2n(k);
    let r = la + lb + bits::b2n(c) - bits::b2n(k) * p;
    assert(t == q * p + r) by (nonlinear_arith)
        requires
            t == bits::nat_of(a) + bits::nat_of(b) + bits::b2n(c),
            bits::nat_of(a) == p * ha + la,
            bits::nat_of(b) == p * hb + lb,
            q == ha + hb + bits::b2n(k),
            r == la + lb + bits::b2n(c) - bits::b2n(k) * p,
    ;
    assert(bits::b2n(k) * p == (if k { p } else { 0 })) by (nonlinear_arith)
        requires
            bits::b2n(k) == (if k { 1nat } else { 0nat }),
    ;
    lemma_fundamental_div_mod_converse(t, p, q, r);
    crate::bitvec::lemma_skip_step(a, i);
    crate::bitvec::lemma_skip_step(b, i);
}

/// A number below `2^k` has no bits from `k` up.
pub proof fn lemma_small_bits(s: Seq<bool>, k: nat)
    requires
        bits::nat_of(s) < pow2(k),
    ensures
        forall|j: int| k <= j < s.len() ==> !s[j],
{
    assert forall|j: int| k <= j < s.len() implies !s[j] by {
        bits::lemma_bit_of_nat(s, j);
        bits::lemma_pow2_le(k, j as nat);
        lemma_basic_div(bits::nat_of(s) as int, pow2(j as nat) as int);
    }
}

} // verus!
