//! Case splits on a condition mask (called by the linear pass): an operation that reads a
//! value which is all ones or zero by a 1-bit condition `c` (`sext(c)`, `-zext(c)`, the sign
//! mask `x >>s (W - 1)` of `x <s 0`) is `select(c, E1, E0)`, with `E1` and `E0` the operation
//! with the mask replaced by all ones and by zero, each in linear normal form. Branchless code
//! spells choices this way: `(x ^ m) - m` negates `x` exactly when `m` is all ones, so it is
//! `select(c, -x, x)`. The select replaces the node only when it is smaller.

use vstd::prelude::*;
use crate::term;
use crate::ops;
use crate::modular;
use crate::expr;
use crate::engine::runner;
use crate::engine::pass::xor;
use crate::engine::pass::linear;
use crate::engine::fin;
use crate::bits;
use crate::bitvec::{BitVec, MAX_WIDTH};
use crate::engine::fin::{Fin, Stop};
use crate::engine::runner::Runner;
use crate::expr::{Context, Node};
use crate::ops::{BinOp, CmpOp, UnOp};
use crate::term::Env;

verus! {

broadcast use crate::term::lemma_value_len;

/// A mask and its condition: the condition's node, or none when it is the sign of the mask's
/// operand.
#[derive(Clone, Copy)]
pub struct MaskOf {
    /// The mask.
    pub mask: u32,
    /// The condition.
    pub cond: Option<u32>,
}

/// The mask is all ones where its condition holds, and zero elsewhere.
pub open(crate) spec fn mask_ok(cx: &Context, m: MaskOf) -> bool {
    &&& m.mask < cx.n()
    &&& match m.cond {
        Some(c) => c < cx.n() && cx.w(c as int) == 1 && forall|env: Env|
            #![trigger cx.val(m.mask as int, env)]
            cx.val(m.mask as int, env) == (if cx.val(c as int, env)[0] {
                bits::ones(cx.w(m.mask as int))
            } else {
                bits::zeros(cx.w(m.mask as int))
            }),
        None => cx.nodes@[m.mask as int] matches Node::Bin(BinOp::AShr, x, _) && x < cx.n() && cx.w(
            x as int,
        ) == cx.w(m.mask as int) && forall|env: Env|
            #![trigger cx.val(m.mask as int, env)]
            cx.val(m.mask as int, env) == (if cx.val(x as int, env).last() {
                bits::ones(cx.w(m.mask as int))
            } else {
                bits::zeros(cx.w(m.mask as int))
            }),
    }
}

/// Whether node `m` is the mask of a condition.
fn is_mask(cx: &Context, m: u32) -> (r: Option<MaskOf>)
    requires
        cx.wf(),
        m < cx.n(),
    ensures
        r matches Some(k) ==> mask_ok(cx, k) && k.mask == m,
{
    let w = cx.wid(m);
    if w < 2 {
        return None;
    }
    proof {
        assert(cx.ok_at(m as int));
    }
    match cx.node(m) {
        Node::Sext(c) => {
            if cx.wid(c) != 1 {
                return None;
            }
            proof {
                assert(cx.ok_at(c as int));
                assert forall|env: Env|
                    #![trigger cx.val(m as int, env)]
                    cx.val(m as int, env) == (if cx.val(c as int, env)[0] {
                        bits::ones(w as nat)
                    } else {
                        bits::zeros(w as nat)
                    }) by {
                    let v = cx.val(c as int, env);
                    assert(v.last() == v[0]);
                    assert(cx.val(m as int, env) =~= (if v[0] {
                        bits::ones(w as nat)
                    } else {
                        bits::zeros(w as nat)
                    }));
                }
            }
            Some(MaskOf { mask: m, cond: Some(c) })
        },
        Node::Un(UnOp::Neg, z) => {
            let c = match cx.node(z) {
                Node::Zext(c) => c,
                _ => {
                    return None;
                },
            };
            if cx.wid(c) != 1 {
                return None;
            }
            proof {
                assert(cx.ok_at(z as int));
                assert(cx.ok_at(c as int));
                assert forall|env: Env|
                    #![trigger cx.val(m as int, env)]
                    cx.val(m as int, env) == (if cx.val(c as int, env)[0] {
                        bits::ones(w as nat)
                    } else {
                        bits::zeros(w as nat)
                    }) by {
                    let v = cx.val(c as int, env);
                    linear::lemma_zext_num(v, w as nat);
                    lemma_one_bit_num(v);
                    let zv = cx.val(z as int, env);
                    modular::lemma_eqm_un(zv);
                    bits::lemma_zeros_nat(w as nat);
                    if v[0] {
                        linear::lemma_minus_one(bits::ones(w as nat), 0);
                        modular::lemma_eqm_same(cx.val(m as int, env), bits::ones(w as nat));
                    } else {
                        modular::lemma_eqm_same(cx.val(m as int, env), bits::zeros(w as nat));
                    }
                }
            }
            Some(MaskOf { mask: m, cond: Some(c) })
        },
        Node::Bin(BinOp::AShr, x, b) => {
            let k = match cx.const_val(b) {
                Some(k) => k,
                None => {
                    return None;
                },
            };
            if k.to_u64() != Some((w - 1) as u64) {
                return None;
            }
            proof {
                assert(cx.ok_at(x as int));
                assert(cx.ok_at(b as int));
                assert forall|env: Env|
                    #![trigger cx.val(m as int, env)]
                    cx.val(m as int, env) == (if cx.val(x as int, env).last() {
                        bits::ones(w as nat)
                    } else {
                        bits::zeros(w as nat)
                    }) by {
                    let v = cx.val(x as int, env);
                    assert(cx.val(b as int, env) == k@);
                    assert(cx.val(m as int, env) == ops::shr_bits(v, (w - 1) as nat, v.last()));
                    assert(cx.val(m as int, env) =~= (if v.last() {
                        bits::ones(w as nat)
                    } else {
                        bits::zeros(w as nat)
                    }));
                }
            }
            Some(MaskOf { mask: m, cond: None })
        },
        _ => None,
    }
}

/// A one-bit value as a number.
pub proof fn lemma_one_bit_num(v: Seq<bool>)
    requires
        v.len() == 1,
    ensures
        modular::num(v) == (if v[0] {
            1int
        } else {
            0int
        }),
{
    assert(v.drop_last() =~= Seq::<bool>::empty());
    bits::lemma_pow2_zero();
    assert(v =~= Seq::<bool>::empty().push(v[0]));
    bits::lemma_nat_push(Seq::empty(), v[0]);
    assert(bits::nat_of(Seq::<bool>::empty()) == 0);
}

/// A mask of a condition among the operands of `n` (and theirs).
fn mask_in(cx: &Context, n: u32) -> (r: Option<MaskOf>)
    requires
        cx.wf(),
        n < cx.n(),
    ensures
        r matches Some(k) ==> mask_ok(cx, k),
{
    let ch = cx.node(n).children();
    let mut i: usize = 0;
    while i < ch.len()
        invariant
            cx.wf(),
            n < cx.n(),
            cx.ok_at(n as int),
            ch@ == expr::kids(cx.nodes@[n as int]),
        decreases ch.len() - i,
    {
        let c = ch[i];
        assert(expr::kids(cx.nodes@[n as int])[i as int] < n);
        if let Some(m) = is_mask(cx, c) {
            return Some(m);
        }
        let gs = cx.node(c).children();
        let mut j: usize = 0;
        while j < gs.len()
            invariant
                cx.wf(),
                c < cx.n(),
                cx.ok_at(c as int),
                gs@ == expr::kids(cx.nodes@[c as int]),
            decreases gs.len() - j,
        {
            let g = gs[j];
            assert(expr::kids(cx.nodes@[c as int])[j as int] < c);
            if let Some(m) = is_mask(cx, g) {
                return Some(m);
            }
            j = j + 1;
        }
        i = i + 1;
    }
    None
}

impl<'a> Runner<'a> {
    /// `n` with the mask `m` replaced by the constant `v`, in linear normal form.
    fn arm(&mut self, cx: &mut Context, n: u32, m: u32, v: &BitVec) -> (out: Result<
        (u32, Fin),
        Stop,
    >)
        requires
            old(self).wf(old(cx)),
            n < old(cx).n(),
            m < old(cx).n(),
            old(cx).w(m as int) == v@.len(),
            1 <= v@.len() <= MAX_WIDTH,
        ensures
            runner::went(final(self), final(cx), old(self), old(cx)),
            out matches Err(e) ==> final(self).refuses(final(cx), e),
            out matches Ok((x, fin)) ==> x < final(cx).n() && final(cx).w(x as int) == old(cx).w(
                n as int,
            ) && forall|env: Env|
                fin.rel.admits(final(self).hyp@, env) && old(cx).val(m as int, env) == v@
                    ==> #[trigger] final(cx).val(x as int, env) == old(cx).val(n as int, env),
    {
        let ghost cx0 = *cx;
        let k = self.mk_const(cx, v)?;
        let ghost cx1 = *cx;
        proof {
            assert(cx1.tm()[m as int] == cx0.tm()[m as int]);
        }
        let e = self.replace(cx, n, m, k)?;
        let ghost cx2 = *cx;
        let ghost h = self.hyp@;
        proof {
            assert forall|env: Env| cx0.val(m as int, env) == v@ implies #[trigger] cx2.val(
                e as int,
                env,
            ) == cx0.val(n as int, env) by {
                assert(cx1.val(k as int, env) == v@);
                assert(cx1.val(m as int, env) == cx0.val(m as int, env));
                assert(cx1.val(n as int, env) == cx0.val(n as int, env));
            }
        }
        let sums = match cx.node(e) {
            Node::Bin(op, _, _) => op == BinOp::Add || op == BinOp::Sub || op == BinOp::Xor || op
                == BinOp::Or,
            Node::Un(op, _) => op == UnOp::Neg || op == UnOp::Not,
            _ => false,
        };
        if !sums {
            return Ok((e, Fin::full()));
        }
        let form = self.lin_form_of(cx, e)?;
        if form.terms.len() == 1 && form.terms[0].0 == e {
            return Ok((e, form.fin));
        }
        let ghost tm = cx.tm();
        assert(cx.ok_at(e as int));
        let x = self.lin_emit(cx, &form)?;
        proof {
            assert forall|env: Env| form.fin.rel.admits(h, env) && cx0.val(m as int, env)
                == v@ implies #[trigger] cx.val(x as int, env) == cx0.val(n as int, env) by {
                assert(term::value(tm[e as int], env) == linear::lin_value(form@, xor::env_vals(tm, env)));
                assert(cx2.val(e as int, env) == cx0.val(n as int, env));
            }
        }
        Ok((x, form.fin))
    }

    /// `n` split on a condition mask it reads, in linear normal form per case, if that is a
    /// select.
    pub(crate) fn split(&mut self, cx: &mut Context, n: u32) -> (out: Result<
        Option<(u32, Fin)>,
        Stop,
    >)
        requires
            old(self).wf(old(cx)),
            n < old(cx).n(),
        ensures
            runner::went(final(self), final(cx), old(self), old(cx)),
            out matches Err(e) ==> final(self).refuses(final(cx), e),
            out matches Ok(Some((x, fin))) ==> x < final(cx).n() && fin::equal_under(
                final(cx).tm(),
                final(self).hyp@,
                fin.rel,
                n as int,
                x as int,
            ),
    {
        let ghost cx0 = *cx;
        let w = cx.wid(n);
        if w < 2 {
            return Ok(None);
        }
        let fits = match cx.node(n) {
            Node::Bin(op, _, _) => op == BinOp::Add || op == BinOp::Sub || op == BinOp::Xor || op
                == BinOp::Or || op == BinOp::And,
            _ => false,
        };
        if !fits {
            return Ok(None);
        }
        let m = match mask_in(cx, n) {
            Some(m) => m,
            None => {
                return Ok(None);
            },
        };
        // The mask's own width (it may be an operand of an operand of another width).
        let mw = cx.wid(m.mask) as usize;
        let all = BitVec::fill(mw, true);
        let none = BitVec::fill(mw, false);
        assert(all@ =~= bits::ones(mw as nat));
        assert(none@ =~= bits::zeros(mw as nat));
        let (e1, f1) = self.arm(cx, n, m.mask, &all)?;
        let ghost cx1 = *cx;
        let (e0, f0) = self.arm(cx, n, m.mask, &none)?;
        let ghost cx2 = *cx;
        let fin = f1.and(f0);
        let c = match m.cond {
            Some(c) => {
                proof {
                    assert(cx.tm()[c as int] == cx0.tm()[c as int]);
                }
                c
            },
            None => {
                let x = match cx.node(m.mask) {
                    Node::Bin(_, x, _) => x,
                    _ => {
                        return Ok(None);
                    },
                };
                proof {
                    assert(cx.tm()[x as int] == cx0.tm()[x as int]);
                }
                let z = self.mk_const(cx, &none)?;
                let ghost cx3 = *cx;
                let c = self.c_rel(cx, CmpOp::Slt, x, z)?;
                proof {
                    assert(cx0.ok_at(x as int));
                    assert forall|env: Env| #[trigger] cx.val(c as int, env)[0] == cx0.val(
                        x as int,
                        env,
                    ).last() by {
                        let v = cx0.val(x as int, env);
                        assert(cx3.val(x as int, env) == v);
                        assert(cx3.val(z as int, env) == none@);
                        lemma_negative(v);
                    }
                }
                c
            },
        };
        let ghost cx4 = *cx;
        let s = self.c_select(cx, c, e1, e0)?;
        let ghost h = self.hyp@;
        proof {
            assert forall|env: Env|
                #![trigger term::value(cx.tm()[n as int], env)]
                #![trigger term::value(cx.tm()[s as int], env)]
                fin.rel.admits(h, env) implies term::value(cx.tm()[n as int], env) == term::value(
                cx.tm()[s as int],
                env,
            ) by {
                let v = cx0.val(m.mask as int, env);
                let on = cx4.val(c as int, env)[0];
                assert(v == (if on {
                    bits::ones(mw as nat)
                } else {
                    bits::zeros(mw as nat)
                })) by {
                    if let Some(cc) = m.cond {
                        assert(cx4.val(c as int, env) == cx0.val(c as int, env));
                    }
                }
                assert(cx1.val(m.mask as int, env) == v);
                assert(cx1.val(n as int, env) == cx0.val(n as int, env));
                assert(cx.val(n as int, env) == cx0.val(n as int, env));
                assert(cx4.val(e1 as int, env) == cx1.val(e1 as int, env));
                assert(cx4.val(e0 as int, env) == cx2.val(e0 as int, env));
                assert(cx.val(s as int, env) == (if on {
                    cx4.val(e1 as int, env)
                } else {
                    cx4.val(e0 as int, env)
                }));
            }
            assert(cx.tm()[n as int] == cx0.tm()[n as int]);
        }
        Ok(Some((s, fin)))
    }
}

/// A value is negative when its top bit is set.
pub proof fn lemma_negative(v: Seq<bool>)
    requires
        v.len() >= 1,
    ensures
        (bits::int_of(v) < bits::int_of(bits::zeros(v.len()))) == v.last(),
{
    ops::lemma_sign(v);
    bits::lemma_zeros_nat(v.len());
    bits::lemma_nat_bound(v);
    assert(!bits::zeros(v.len()).last());
}

} // verus!
