//! The constructors of expressions. Each returns a node with the value the operator has on its
//! operands' values, whatever canonical form it gives it.

use vstd::prelude::*;
use crate::engine::results;
use crate::ops;
use crate::algebra;
use crate::bits;
use crate::bitvec::{BitVec, Width, MAX_WIDTH};
use crate::expr::{Context, Fail, Node};
use crate::ops::{BinOp, CmpOp, UnOp};
use crate::term::{Env, Term};

verus! {

broadcast use crate::term::lemma_value_len;

impl Context {
    /// The constant `v`.
    pub(crate) fn mk_const(&mut self, v: &BitVec) -> (r: Result<u32, Fail>)
        requires
            old(self).wf(),
            1 <= v@.len() <= MAX_WIDTH,
        ensures
            final(self).wf(),
            final(self).built(old(self)),
            r matches Ok(x) ==> x < final(self).n() && final(self).w(x as int) == v@.len() && (
            forall|env: Env| #[trigger] final(self).val(x as int, env) == v@),
            old(self).room(1) ==> r is Ok,
            final(self).n() <= old(self).n() + 1,
            final(self).n() <= old(self).n() + 1,
            r matches Ok(x) ==> final(self).terms@[x as int] == Term::Const(v@) && final(self).nodes@[x as int] is Const,
    {
        let width: u16 = v.len() as u16;
        let h = self.const_hash(v);
        let b: usize = (h % crate::expr::BUCKETS as u64) as usize;
        let mut j: usize = 0;
        while j < self.table[b].len()
            invariant
                b < self.table@.len(),
                self.wf(),
                *self == *old(self),
            decreases self.table@[b as int]@.len() - j,
        {
            let i: u32 = self.table[b][j];
            if (i as usize) < self.nodes.len() {
                assert(self.ok_at(i as int));
                if let Node::Const(k) = self.nodes[i as usize] {
                    if self.consts[k as usize].same(v) {
                        return Ok(i);
                    }
                }
            }
            j = j + 1;
        }
        if self.nodes.len() >= self.max_nodes as usize {
            return Err(Fail::Full);
        }
        if self.quota == 0 {
            return Err(Fail::Quota);
        }
        let k: u32 = self.consts.len() as u32;
        let ghost before = *self;
        let id: u32 = self.nodes.len() as u32;
        self.quota = self.quota - 1;
        self.consts.push(v.dup());
        self.nodes.push(Node::Const(k));
        self.meta.push(
            crate::expr::Meta { width, height: 0, tree: 1, lead: u64::MAX, shash: h },
        );
        self.terms = Ghost(self.terms@.push(Term::Const(v@)));
        self.table[b].push(id);
        proof {
            assert forall|i: int| 0 <= i < self.n() implies #[trigger] self.ok_at(i) by {
                if i < before.n() {
                    assert(before.ok_at(i));
                }
            }
            results::lemma_memo_fits_grow(self.memo, before.terms@, self.terms@);
        }
        Ok(id)
    }

    /// A unary operator.
    pub(crate) fn c_un(&mut self, op: UnOp, a: u32) -> (r: Result<u32, Fail>)
        requires
            old(self).wf(),
            a < old(self).n(),
            op == UnOp::Bswap ==> old(self).w(a as int) % 8 == 0,
        ensures
            final(self).wf(),
            final(self).built(old(self)),
            r matches Ok(x) ==> x < final(self).n() && final(self).w(x as int) == old(self).w(a as int) && (
            forall|env: Env| #[trigger] final(self).val(x as int, env) == ops::un_value(op, old(self).val(a as int, env))),
            old(self).room(1) ==> r is Ok,
            final(self).n() <= old(self).n() + 1,
    {
        proof {
            assert(self.ok_at(a as int));
        }
        let width = self.wid(a);
        if let Some(v) = self.const_val(a) {
            let c = BitVec::apply_un(op, &v);
            return self.mk_const(&c);
        }
        if let Node::Un(inner, x) = self.node(a) {
            if inner == op && matches!(op, UnOp::Not | UnOp::Neg | UnOp::Bswap | UnOp::BitRev) {
                proof {
                    assert(self.ok_at(x as int));
                    assert forall|env: Env| #[trigger] self.val(x as int, env) == ops::un_value(
                        op,
                        self.val(a as int, env),
                    ) by {
                        algebra::lemma_involution(op, self.val(x as int, env));
                    }
                }
                return Ok(x);
            }
        }
        self.intern(Node::Un(op, a), width)
    }

    /// A binary operator.
    pub(crate) fn c_bin(&mut self, op: BinOp, a0: u32, b0: u32) -> (r: Result<u32, Fail>)
        requires
            old(self).wf(),
            a0 < old(self).n(),
            b0 < old(self).n(),
            old(self).w(a0 as int) == old(self).w(b0 as int),
        ensures
            final(self).wf(),
            final(self).built(old(self)),
            r matches Ok(x) ==> x < final(self).n() && final(self).w(x as int) == old(self).w(a0 as int) && (
            forall|env: Env| #[trigger] final(self).val(x as int, env) == ops::bin_value(op, old(self).val(a0 as int, env), old(self).val(b0 as int, env))),
            old(self).room(2) ==> r is Ok,
            final(self).n() <= old(self).n() + 2,
    {
        let ghost before = *self;
        proof {
            assert(self.ok_at(a0 as int));
            assert(self.ok_at(b0 as int));
        }
        let width = self.wid(a0);
        let wd = Width { bits: width };
        // Constants on the right, other operands in the canonical order.
        let swap = op.is_commutative() && (if self.is_const(a0) {
            !self.is_const(b0)
        } else {
            !self.is_const(b0) && self.before(b0, a0)
        });
        let (a, b) = if swap {
            (b0, a0)
        } else {
            (a0, b0)
        };
        proof {
            assert forall|env: Env| #[trigger] before.val(a as int, env).len() == width && ops::bin_value(
                op,
                before.val(a as int, env),
                before.val(b as int, env),
            ) == ops::bin_value(op, before.val(a0 as int, env), before.val(b0 as int, env)) by {
                if swap {
                    ops::lemma_commutes(op, before.val(a as int, env), before.val(b as int, env));
                }
            }
        }
        if let (Some(x), Some(y)) = (self.const_val(a), self.const_val(b)) {
            let c = BitVec::apply_bin(op, &x, &y);
            proof {
                assert forall|env: Env| c@ == ops::bin_value(
                    op,
                    #[trigger] before.val(a0 as int, env),
                    before.val(b0 as int, env),
                ) by {
                    assert(before.val(a as int, env) == x@);
                }
            }
            return self.mk_const(&c);
        }
        if let Some(y) = self.const_val(b) {
            let zero = y.is_zero();
            let full = y.is_ones();
            let unit = match op {
                BinOp::Add | BinOp::Sub | BinOp::Or | BinOp::Xor => zero,
                BinOp::Shl | BinOp::LShr | BinOp::AShr | BinOp::RotL | BinOp::RotR => zero,
                BinOp::And => full,
                BinOp::Mul | BinOp::UDiv => y.same(&BitVec::one(wd)),
                _ => false,
            };
            if unit {
                proof {
                    assert forall|env: Env| #[trigger] before.val(a as int, env) == ops::bin_value(
                        op,
                        before.val(a0 as int, env),
                        before.val(b0 as int, env),
                    ) by {
                        algebra::lemma_right_unit(op, before.val(a as int, env), y@);
                    }
                }
                return Ok(a);
            }
            let absorbs = match op {
                BinOp::And | BinOp::Mul => zero,
                BinOp::Or => full,
                _ => false,
            };
            if absorbs {
                proof {
                    assert forall|env: Env| #[trigger] before.val(b as int, env) == ops::bin_value(
                        op,
                        before.val(a0 as int, env),
                        before.val(b0 as int, env),
                    ) by {
                        assert(before.val(a as int, env).len() == width);
                        algebra::lemma_right_zero(op, before.val(a as int, env), y@);
                    }
                }
                return Ok(b);
            }
            if op == BinOp::Xor && full {
                let r = self.c_un(UnOp::Not, a);
                proof {
                    if r is Ok {
                        let x = r->Ok_0 as int;
                        assert forall|env: Env| #[trigger] self.val(x, env) == ops::bin_value(
                            op,
                            before.val(a0 as int, env),
                            before.val(b0 as int, env),
                        ) by {
                            algebra::lemma_xor_ones(before.val(a as int, env));
                        }
                    }
                }
                return r;
            }
            if op == BinOp::Sub {
                let ny = y.neg();
                let c = self.mk_const(&ny)?;
                let ghost mid = *self;
                proof {
                    assert(self.ok_at(c as int));
                }
                let r = self.c_add(a, c);
                proof {
                    if r is Ok {
                        let x = r->Ok_0 as int;
                        assert forall|env: Env| #[trigger] self.val(x, env) == ops::bin_value(
                            op,
                            before.val(a0 as int, env),
                            before.val(b0 as int, env),
                        ) by {
                            assert(mid.val(a as int, env) == before.val(a as int, env));
                            assert(mid.val(c as int, env) == ny@);
                            algebra::lemma_sub_is_add_neg(before.val(a as int, env), y@);
                        }
                    }
                }
                return r;
            }
        }
        if a == b {
            match op {
                BinOp::Sub | BinOp::Xor => {
                    let z = BitVec::zero(wd);
                    proof {
                        assert forall|env: Env| z@ == ops::bin_value(
                            op,
                            #[trigger] before.val(a0 as int, env),
                            before.val(b0 as int, env),
                        ) by {
                            algebra::lemma_self(before.val(a as int, env));
                        }
                    }
                    return self.mk_const(&z);
                },
                BinOp::And | BinOp::Or => {
                    proof {
                        assert forall|env: Env| #[trigger] before.val(a as int, env) == ops::bin_value(
                            op,
                            before.val(a0 as int, env),
                            before.val(b0 as int, env),
                        ) by {
                            algebra::lemma_self(before.val(a as int, env));
                        }
                    }
                    return Ok(a);
                },
                _ => {},
            }
        }
        if op == BinOp::Sub {
            if let Some(x) = self.const_val(a) {
                if x.is_zero() {
                    let r = self.c_un(UnOp::Neg, b);
                    proof {
                        if r is Ok {
                            let y = r->Ok_0 as int;
                            assert forall|env: Env| #[trigger] self.val(y, env) == ops::bin_value(
                                op,
                                before.val(a0 as int, env),
                                before.val(b0 as int, env),
                            ) by {
                                assert(before.val(a as int, env) == x@);
                                algebra::lemma_zero_sub(before.val(b as int, env));
                            }
                        }
                    }
                    return r;
                }
            }
        }
        proof {
            assert(self.ok_at(a as int));
            assert(self.ok_at(b as int));
        }
        let r = self.intern(Node::Bin(op, a, b), width);
        proof {
            if r is Ok {
                let x = r->Ok_0 as int;
                assert forall|env: Env| #[trigger] self.val(x, env) == ops::bin_value(
                    op,
                    before.val(a0 as int, env),
                    before.val(b0 as int, env),
                ) by {
                    assert(before.val(a as int, env).len() == width);
                }
            }
        }
        r
    }

    /// `a + c` where `c` is a constant.
    fn c_add(&mut self, a: u32, c: u32) -> (r: Result<u32, Fail>)
        requires
            old(self).wf(),
            a < old(self).n(),
            c < old(self).n(),
            old(self).w(a as int) == old(self).w(c as int),
        ensures
            final(self).wf(),
            final(self).built(old(self)),
            r matches Ok(x) ==> x < final(self).n() && final(self).w(x as int) == old(self).w(a as int) && (
            forall|env: Env| #[trigger] final(self).val(x as int, env) == ops::bin_value(BinOp::Add, old(self).val(a as int, env), old(self).val(c as int, env))),
            old(self).room(1) ==> r is Ok,
            final(self).n() <= old(self).n() + 1,
    {
        proof {
            assert(self.ok_at(a as int));
            assert(self.ok_at(c as int));
        }
        let width = self.wid(a);
        self.intern(Node::Bin(BinOp::Add, a, c), width)
    }

    /// A comparison.
    pub(crate) fn c_rel(&mut self, op: CmpOp, a0: u32, b0: u32) -> (r: Result<u32, Fail>)
        requires
            old(self).wf(),
            a0 < old(self).n(),
            b0 < old(self).n(),
            old(self).w(a0 as int) == old(self).w(b0 as int),
        ensures
            final(self).wf(),
            final(self).built(old(self)),
            r matches Ok(x) ==> x < final(self).n() && final(self).w(x as int) == 1 && (
            forall|env: Env| #[trigger] final(self).val(x as int, env) == ops::bool_bits(ops::holds(op, old(self).val(a0 as int, env), old(self).val(b0 as int, env)))),
            r matches Ok(x) ==> final(self).tm()[x as int] is Cmp || final(self).tm()[x as int] is Const,
            old(self).room(1) ==> r is Ok,
            final(self).n() <= old(self).n() + 1,
    {
        let ghost before = *self;
        proof {
            assert(self.ok_at(a0 as int));
            assert(self.ok_at(b0 as int));
        }
        let swap = matches!(op, CmpOp::Eq | CmpOp::Ne) && (if self.is_const(a0) {
            !self.is_const(b0)
        } else {
            !self.is_const(b0) && self.before(b0, a0)
        });
        let (a, b) = if swap {
            (b0, a0)
        } else {
            (a0, b0)
        };
        if let (Some(x), Some(y)) = (self.const_val(a), self.const_val(b)) {
            let h = BitVec::apply_rel(op, &x, &y);
            let c = BitVec::from_bool(h);
            proof {
                assert forall|env: Env| c@ == ops::bool_bits(
                    ops::holds(op, #[trigger] before.val(a0 as int, env), before.val(b0 as int, env)),
                ) by {
                    assert(before.val(a as int, env) == x@);
                    assert(before.val(b as int, env) == y@);
                }
            }
            return self.mk_const(&c);
        }
        if a == b {
            let h = matches!(op, CmpOp::Eq | CmpOp::Ule | CmpOp::Sle);
            let c = BitVec::from_bool(h);
            return self.mk_const(&c);
        }
        proof {
            assert(self.ok_at(a as int));
            assert(self.ok_at(b as int));
        }
        self.intern(Node::Cmp(op, a, b), 1)
    }

    /// Zero extension to `w` bits.
    pub(crate) fn c_zext(&mut self, a: u32, w: u16) -> (r: Result<u32, Fail>)
        requires
            old(self).wf(),
            a < old(self).n(),
            old(self).w(a as int) <= w <= MAX_WIDTH,
        ensures
            final(self).wf(),
            final(self).built(old(self)),
            r matches Ok(x) ==> x < final(self).n() && final(self).w(x as int) == w && (
            forall|env: Env| #[trigger] final(self).val(x as int, env) == ops::zext_bits(old(self).val(a as int, env), w as nat)),
            old(self).room(1) ==> r is Ok,
            final(self).n() <= old(self).n() + 1,
    {
        proof {
            assert(self.ok_at(a as int));
        }
        if self.wid(a) == w {
            proof {
                assert forall|env: Env| #[trigger] self.val(a as int, env) == ops::zext_bits(
                    self.val(a as int, env),
                    w as nat,
                ) by {
                    assert(ops::zext_bits(self.val(a as int, env), w as nat) =~= self.val(
                        a as int,
                        env,
                    ));
                }
            }
            return Ok(a);
        }
        if let Some(v) = self.const_val(a) {
            let c = v.zext(w as usize);
            return self.mk_const(&c);
        }
        self.intern(Node::Zext(a), w)
    }

    /// Sign extension to `w` bits.
    pub(crate) fn c_sext(&mut self, a: u32, w: u16) -> (r: Result<u32, Fail>)
        requires
            old(self).wf(),
            a < old(self).n(),
            old(self).w(a as int) <= w <= MAX_WIDTH,
        ensures
            final(self).wf(),
            final(self).built(old(self)),
            r matches Ok(x) ==> x < final(self).n() && final(self).w(x as int) == w && (
            forall|env: Env| #[trigger] final(self).val(x as int, env) == ops::sext_bits(old(self).val(a as int, env), w as nat)),
            old(self).room(1) ==> r is Ok,
            final(self).n() <= old(self).n() + 1,
    {
        proof {
            assert(self.ok_at(a as int));
        }
        if self.wid(a) == w {
            proof {
                assert forall|env: Env| #[trigger] self.val(a as int, env) == ops::sext_bits(
                    self.val(a as int, env),
                    w as nat,
                ) by {
                    assert(ops::sext_bits(self.val(a as int, env), w as nat) =~= self.val(
                        a as int,
                        env,
                    ));
                }
            }
            return Ok(a);
        }
        if let Some(v) = self.const_val(a) {
            let c = v.sext(w as usize);
            return self.mk_const(&c);
        }
        self.intern(Node::Sext(a), w)
    }

    /// Bits `[lo, lo + n)`.
    pub(crate) fn c_extract(&mut self, a: u32, lo: u16, n: u16) -> (r: Result<u32, Fail>)
        requires
            old(self).wf(),
            a < old(self).n(),
            n >= 1,
            lo + n <= old(self).w(a as int),
        ensures
            final(self).wf(),
            final(self).built(old(self)),
            r matches Ok(x) ==> x < final(self).n() && final(self).w(x as int) == n && (
            forall|env: Env| #[trigger] final(self).val(x as int, env) == old(self).val(a as int, env).subrange(lo as int, lo + n)),
            old(self).room(1) ==> r is Ok,
            final(self).n() <= old(self).n() + 1,
    {
        proof {
            assert(self.ok_at(a as int));
        }
        if lo == 0 && self.wid(a) == n {
            proof {
                assert forall|env: Env| #[trigger] self.val(a as int, env) == self.val(
                    a as int,
                    env,
                ).subrange(lo as int, lo + n) by {
                    assert(self.val(a as int, env).subrange(0, n as int) =~= self.val(
                        a as int,
                        env,
                    ));
                }
            }
            return Ok(a);
        }
        if let Some(v) = self.const_val(a) {
            let c = v.extract(lo as usize, n as usize);
            return self.mk_const(&c);
        }
        self.intern(Node::Extract(a, lo), n)
    }

    /// `h` in the high bits, `l` in the low ones.
    pub(crate) fn c_concat(&mut self, h: u32, l: u32) -> (r: Result<u32, Fail>)
        requires
            old(self).wf(),
            h < old(self).n(),
            l < old(self).n(),
            old(self).w(h as int) + old(self).w(l as int) <= MAX_WIDTH,
        ensures
            final(self).wf(),
            final(self).built(old(self)),
            r matches Ok(x) ==> x < final(self).n() && final(self).w(x as int) == old(self).w(h as int) + old(self).w(l as int) && (
            forall|env: Env| #[trigger] final(self).val(x as int, env) == old(self).val(l as int, env) + old(self).val(h as int, env)),
            old(self).room(1) ==> r is Ok,
            final(self).n() <= old(self).n() + 1,
    {
        proof {
            assert(self.ok_at(h as int));
            assert(self.ok_at(l as int));
        }
        if let (Some(x), Some(y)) = (self.const_val(h), self.const_val(l)) {
            let c = x.concat(&y);
            return self.mk_const(&c);
        }
        let w: u16 = self.wid(h) + self.wid(l);
        if let Some(x) = self.const_val(h) {
            if x.is_zero() {
                proof {
                    assert forall|env: Env|
                        ops::zext_bits(#[trigger] self.val(l as int, env), w as nat) == self.val(
                            l as int,
                            env,
                        ) + self.val(h as int, env) by {
                        assert(self.val(h as int, env) == x@);
                        assert(ops::zext_bits(self.val(l as int, env), w as nat) =~= self.val(
                            l as int,
                            env,
                        ) + bits::zeros(x@.len()));
                    }
                }
                return self.c_zext(l, w);
            }
        }
        self.intern(Node::Concat(h, l), w)
    }

    /// `t` where the condition `c` is set, else `f`.
    pub(crate) fn c_select(&mut self, c: u32, t: u32, f: u32) -> (r: Result<u32, Fail>)
        requires
            old(self).wf(),
            c < old(self).n(),
            t < old(self).n(),
            f < old(self).n(),
            old(self).w(c as int) == 1,
            old(self).w(t as int) == old(self).w(f as int),
        ensures
            final(self).wf(),
            final(self).built(old(self)),
            r matches Ok(x) ==> x < final(self).n() && final(self).w(x as int) == old(self).w(t as int) && (
            forall|env: Env| #[trigger] final(self).val(x as int, env) == (if old(self).val(c as int, env)[0] { old(self).val(t as int, env) } else { old(self).val(f as int, env) })),
            old(self).room(1) ==> r is Ok,
            final(self).n() <= old(self).n() + 1,
    {
        proof {
            assert(self.ok_at(c as int));
            assert(self.ok_at(t as int));
            assert(self.ok_at(f as int));
        }
        if let Some(v) = self.const_val(c) {
            return Ok(
                if v.at(0) {
                    t
                } else {
                    f
                },
            );
        }
        if t == f {
            return Ok(t);
        }
        let w = self.wid(t);
        self.intern(Node::Select(c, t, f), w)
    }
}

} // verus!
