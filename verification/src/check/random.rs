//! Reproducible random values.

use vstd::prelude::*;
use crate::bits;
use crate::eval;
use crate::ops;
use crate::bitvec::{BitVec, Width};

verus! {

/// The `k`-th number drawn from state `s`.
pub open spec fn drawn(s: u64, k: nat) -> u64 {
    eval::mixed(eval::advanced(s, k))
}

/// `b` is `a`, at most `most` steps on.
pub open spec fn stepped(a: u64, b: u64, most: nat) -> bool {
    exists|j: nat| j <= most && b == #[trigger] eval::advanced(a, j)
}

/// The `n`-bit value of the next numbers, 64 bits of each.
pub open spec fn random_value(s: u64, n: nat) -> Seq<bool> {
    Seq::new(n, |i: int| eval::bit_of(drawn(s, (i / 64 + 1) as nat), i % 64))
}

/// The `n`-bit value drawn from state `s`: the next number chooses a boundary value, a small number,
/// one bit, a value of few bits, or any value.
pub open spec fn biased_value(s: u64, n: nat) -> Seq<bool> {
    let kind = drawn(s, 1) % 12;
    let next = drawn(s, 2) as int;
    if kind == 0 {
        bits::zeros(n)
    } else if kind == 1 {
        bits::bits_of(1, n)
    } else if kind == 2 {
        bits::ones(n)
    } else if kind == 3 {
        bits::zeros(n).update(n - 1, true)
    } else if kind == 4 {
        ops::not_bits(bits::zeros(n).update(n - 1, true))
    } else if kind == 5 {
        bits::bits_of(next % (n as int + 2), n)
    } else if kind == 6 {
        ops::shl_bits(bits::bits_of(1, n), (next % (n as int)) as nat)
    } else if kind == 7 {
        Seq::new(
            n,
            |i: int| i < 1 + next % (n as int) && random_value(eval::advanced(s, 2), n)[i],
        )
    } else {
        random_value(eval::advanced(s, 1), n)
    }
}

/// How many numbers a value takes.
pub open spec fn biased_steps(s: u64) -> nat {
    let kind = drawn(s, 1) % 12;
    if kind < 5 {
        1
    } else if kind < 7 {
        2
    } else if kind == 7 {
        10
    } else {
        9
    }
}

/// The state after values of these widths were drawn.
pub open spec fn state_after(s: u64, pw: Seq<usize>) -> u64
    decreases pw.len(),
{
    if pw.len() == 0 {
        s
    } else {
        let t = state_after(s, pw.drop_last());
        eval::advanced(t, biased_steps(t))
    }
}

/// Values of these widths, drawn one after the other.
pub open spec fn values_from(s: u64, pw: Seq<usize>) -> Seq<Seq<bool>>
    decreases pw.len(),
{
    if pw.len() == 0 {
        Seq::empty()
    } else {
        values_from(s, pw.drop_last()).push(
            biased_value(state_after(s, pw.drop_last()), pw.last() as nat),
        )
    }
}

/// The state from which the `k`-th tuple in a row is drawn.
pub open spec fn nth_state(s: u64, pw: Seq<usize>, k: nat) -> u64
    decreases k,
{
    if k == 0 {
        s
    } else {
        state_after(nth_state(s, pw, (k - 1) as nat), pw)
    }
}

pub(crate) proof fn lemma_stepped(a: u64, b: u64, c: u64, m: nat, n: nat)
    requires
        stepped(a, b, m),
        stepped(b, c, n),
    ensures
        stepped(a, c, m + n),
{
    let j = choose|j: nat| j <= m && b == #[trigger] eval::advanced(a, j);
    let k = choose|k: nat| k <= n && c == #[trigger] eval::advanced(b, k);
    eval::lemma_advanced_twice(a, j, k);
    assert(c == eval::advanced(a, j + k));
}

/// The boundary values are drawn: zero, one, all ones, and the least and greatest signed values of
/// every width each come from some state.
pub proof fn law_boundary_values_are_drawn(n: nat)
    ensures
        exists|s: u64| #[trigger] biased_value(s, n) == bits::zeros(n),
        exists|s: u64| #[trigger] biased_value(s, n) == bits::bits_of(1, n),
        exists|s: u64| #[trigger] biased_value(s, n) == bits::ones(n),
        exists|s: u64| #[trigger] biased_value(s, n) == bits::zeros(n).update(n - 1, true),
        exists|s: u64| #[trigger] biased_value(s, n) == ops::not_bits(
            bits::zeros(n).update(n - 1, true),
        ),
{
    eval::lemma_drawn(0, 1);
    eval::lemma_drawn(1, 1);
    eval::lemma_drawn(2, 1);
    eval::lemma_drawn(3, 1);
    eval::lemma_drawn(4, 1);
    let a = choose|s: u64| eval::mixed(#[trigger] eval::advanced(s, 1)) == 0;
    let b = choose|s: u64| eval::mixed(#[trigger] eval::advanced(s, 1)) == 1;
    let c = choose|s: u64| eval::mixed(#[trigger] eval::advanced(s, 1)) == 2;
    let d = choose|s: u64| eval::mixed(#[trigger] eval::advanced(s, 1)) == 3;
    let e = choose|s: u64| eval::mixed(#[trigger] eval::advanced(s, 1)) == 4;
    assert(biased_value(a, n) == bits::zeros(n));
    assert(biased_value(b, n) == bits::bits_of(1, n));
    assert(biased_value(c, n) == bits::ones(n));
    assert(biased_value(d, n) == bits::zeros(n).update(n - 1, true));
    assert(biased_value(e, n) == ops::not_bits(bits::zeros(n).update(n - 1, true)));
}

/// Word `q` of a value begins with these bits.
pub open spec fn has_word(v: Seq<bool>, q: nat, t: Seq<bool>) -> bool {
    forall|i: int| 0 <= i < t.len() ==> #[trigger] v[64 * q + i] == t[i]
}

/// The whole width is drawn: whatever 64 bits are asked for in a word of a random value, of any
/// width, some state gives them.
pub proof fn law_every_word_is_drawn(n: nat, q: nat, t: Seq<bool>)
    requires
        t.len() <= 64,
        64 * q + t.len() <= n,
    ensures
        exists|s: u64| #[trigger] has_word(random_value(s, n), q, t),
{
    let z = eval::word_of(t);
    eval::lemma_drawn(z, q + 1);
    let s = choose|s: u64| eval::mixed(#[trigger] eval::advanced(s, q + 1)) == z;
    assert forall|i: int| 0 <= i < t.len() implies #[trigger] random_value(s, n)[64 * q + i]
        == t[i] by {
        let p = 64 * q + i;
        assert(p / 64 == q && p % 64 == i);
        eval::lemma_word_of(t, i);
    }
    assert(has_word(random_value(s, n), q, t));
}

/// Different states draw different words: no number is drawn twice before the states repeat.
pub proof fn law_states_draw_apart(s: u64, t: u64, k: nat)
    requires
        s != t,
    ensures
        drawn(s, k) != drawn(t, k),
{
    eval::lemma_advanced_apart(s, t, k);
    eval::lemma_mixed(eval::advanced(s, k));
    eval::lemma_mixed(eval::advanced(t, k));
}

/// SplitMix64.
pub(crate) struct Rng {
    /// The state.
    pub state: u64,
}

impl Rng {
    /// The next number.
    pub(crate) fn next(&mut self) -> (r: u64)
        ensures
            r == drawn(old(self).state, 1),
            final(self).state == eval::advanced(old(self).state, 1),
    {
        proof {
            reveal_with_fuel(eval::advanced, 2);
        }
        self.state = self.state.wrapping_add(eval::STRIDE);
        eval::mix(self.state)
    }

    /// A number below `n`.
    pub(crate) fn below(&mut self, n: u64) -> (r: u64)
        requires
            n > 0,
        ensures
            r < n,
            r == drawn(old(self).state, 1) % n,
            final(self).state == eval::advanced(old(self).state, 1),
    {
        self.next() % n
    }

    /// A value whose low `len` bits are random, the others clear.
    fn bits(&mut self, w: usize, len: usize) -> (r: BitVec)
        requires
            w <= 512,
        ensures
            r@ == Seq::new(
                w as nat,
                |i: int| i < len && random_value(old(self).state, w as nat)[i],
            ),
            final(self).state == eval::advanced(old(self).state, 8),
    {
        let ghost s = self.state;
        let mut words: Vec<u64> = Vec::with_capacity(8);
        let mut k: usize = 0;
        while k < 8
            invariant
                k <= 8,
                words@.len() == k,
                self.state == eval::advanced(s, k as nat),
                forall|j: int| 0 <= j < k ==> #[trigger] words@[j] == drawn(s, (j + 1) as nat),
            decreases 8 - k,
        {
            proof {
                eval::lemma_advanced_twice(s, k as nat, 1);
            }
            words.push(self.next());
            k = k + 1;
        }
        let mut v: Vec<bool> = Vec::with_capacity(w);
        let mut i: usize = 0;
        while i < w
            invariant
                i <= w <= 512,
                v@.len() == i,
                words@.len() == 8,
                forall|j: int| 0 <= j < 8 ==> #[trigger] words@[j] == drawn(s, (j + 1) as nat),
                forall|j: int|
                    0 <= j < i ==> #[trigger] v@[j] == (j < len && random_value(s, w as nat)[j]),
            decreases w - i,
        {
            let b: u64 = (i % 64) as u64;
            let x: u64 = words[i / 64];
            v.push(i < len && (x >> b) & 1 == 1);
            i = i + 1;
        }
        let r = BitVec::from_bools(v);
        assert(r@ =~= Seq::new(
            w as nat,
            |i: int| i < len && random_value(old(self).state, w as nat)[i],
        ));
        r
    }
}

/// A boundary-biased value.
pub(crate) fn biased(rng: &mut Rng, w: Width) -> (r: BitVec)
    requires
        w.ok(),
    ensures
        r@.len() == w.n(),
        r@ == biased_value(old(rng).state, w.n()),
        final(rng).state == eval::advanced(old(rng).state, biased_steps(old(rng).state)),
{
    let n: usize = w.bits() as usize;
    let ghost s = rng.state;
    proof {
        eval::lemma_advanced_twice(s, 1, 1);
        eval::lemma_advanced_twice(s, 1, 8);
        eval::lemma_advanced_twice(s, 2, 8);
    }
    let r = match rng.below(12) {
        0 => BitVec::zero(w),
        1 => BitVec::one(w),
        2 => BitVec::ones(w),
        3 => BitVec::smin(w),
        4 => BitVec::smin(w).not(),
        5 => BitVec::wrapping_from_u64(w, rng.below(n as u64 + 2)),
        6 => BitVec::from_u64(n, 1).shl(rng.below(n as u64) as usize),
        7 => {
            // Random significant length.
            let len: usize = 1 + rng.below(n as u64) as usize;
            rng.bits(n, len)
        },
        _ => rng.bits(n, n),
    };
    assert(r@ =~= biased_value(s, w.n()));
    r
}

} // verus!
