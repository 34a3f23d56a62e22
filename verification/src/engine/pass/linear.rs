//! The linear pass: a constant plus multiples of atoms, modulo a power of two.
//!
//! A node's *form* is computed from its operands' forms: `+`, `-`, negation, `~a` (`-a - 1`),
//! multiplication by a constant, shifts left by a constant (scaling), and `|`/`^` of operands
//! the facts prove disjoint (both are `+` then). Anything else is an *atom* with coefficient 1.
//! A form with more than [`MAX_TERMS`] terms is atomized. The form is re-emitted canonically
//! (terms in the context's canonical order, positive coefficients first, power-of-two
//! coefficients as shifts, the constant last), and the emission replaces the node only when
//! the region above the atoms gets strictly smaller.

use vstd::prelude::*;
use crate::engine::fin;
use crate::ops;
use crate::expr;
use crate::engine::runner;
use crate::dfs;
use crate::term;
use crate::modular;
use crate::engine::pass::xor;
use crate::engine::pass::sums;
use crate::bits;
use crate::algebra;
use vstd::arithmetic::power2::*;
use crate::bitvec::{BitVec, MAX_WIDTH};
use crate::dfs::expand;
use crate::engine::budget::Counter;
use crate::engine::fin::{Fin, Step, Stop};
use crate::engine::pass::forms::{Form, FormCache, FormV};
use crate::engine::pass::sums::{atoms_of, sorted_terms, Terms};
use crate::engine::pass::xor::Vals;
use crate::engine::runner::Runner;
use crate::engine::stats::{bump, PassKind};
use crate::expr::{Context, Node};
use crate::facts::reliance::Hyp;
use crate::ops::{BinOp, UnOp};
use crate::term::{Env, Term};

verus! {

broadcast use crate::term::lemma_value_len;

/// The most terms a form keeps before its node is treated as an atom.
pub const MAX_TERMS: usize = 64;

/// What a term adds.
pub open spec fn lin_at(vals: Vals) -> spec_fn(u32, Seq<bool>) -> int {
    |a: u32, k: Seq<bool>| modular::num(vals(a)) * modular::num(k)
}

/// The sum of a form, as a number.
pub open spec fn lin_num(f: FormV, vals: Vals) -> int {
    modular::num(f.konst) + sums::tsum(f.terms, lin_at(vals))
}

/// The value of a form.
pub open spec fn lin_value(f: FormV, vals: Vals) -> Seq<bool> {
    bits::bits_of(lin_num(f, vals), f.konst.len())
}

/// A form is the form of node `i`.
pub open spec fn lin_form_ok(f: FormV, terms: Seq<Term>, h: Hyp, i: int) -> bool {
    &&& f.has(term::twidth(terms[i]))
    &&& xor::atoms_fit(f.terms, terms, term::twidth(terms[i]))
    &&& forall|env: Env|
        f.fin.rel.admits(h, env) ==> #[trigger] term::value(terms[i], env) == lin_value(
            f,
            xor::env_vals(terms, env),
        )
}

/// Every form kept is right.
#[verifier::opaque]
pub open spec fn lins_ok(c: FormCache, terms: Seq<Term>, h: Hyp) -> bool {
    &&& c.wf()
    &&& forall|i: u32|
        #![trigger c.at(i)]
        c.at(i) is Some ==> i < terms.len() && lin_form_ok(c.at(i)->0, terms, h, i as int)
            && c.at(i)->0.terms.len() <= MAX_TERMS
}

/// A form's value depends on its atoms' values alone.
pub proof fn lemma_lin_same(f: FormV, u: Vals, v: Vals)
    requires
        forall|k: int| 0 <= k < f.terms.len() ==> u((#[trigger] f.terms[k]).0) == v(f.terms[k].0),
    ensures
        lin_num(f, u) == lin_num(f, v),
{
    sums::lemma_tsum_same(f.terms, lin_at(u), lin_at(v));
}

/// Forms stay right as the arena grows.
pub proof fn lemma_lins_grow(c: FormCache, terms: Seq<Term>, more: Seq<Term>, h: Hyp)
    requires
        lins_ok(c, terms, h),
        terms.len() <= more.len(),
        forall|i: int| 0 <= i < terms.len() ==> #[trigger] more[i] == terms[i],
    ensures
        lins_ok(c, more, h),
{
    reveal(lins_ok);
    assert forall|i: u32| #![trigger c.at(i)] c.at(i) is Some implies i < more.len()
        && lin_form_ok(c.at(i)->0, more, h, i as int) && c.at(i)->0.terms.len() <= MAX_TERMS by {
        let f = c.at(i)->0;
        assert(more[i as int] == terms[i as int]);
        assert forall|k: int| #![trigger f.terms[k]] 0 <= k < f.terms.len() implies f.terms[k].0
            < more.len() && term::twidth(more[f.terms[k].0 as int]) == term::twidth(more[i as int]) && term::tok(
            more[f.terms[k].0 as int],
        ) by {
            assert(more[f.terms[k].0 as int] == terms[f.terms[k].0 as int]);
        }
        assert forall|env: Env| f.fin.rel.admits(h, env) implies #[trigger] term::value(
            more[i as int],
            env,
        ) == lin_value(f, xor::env_vals(more, env)) by {
            assert(term::value(terms[i as int], env) == lin_value(f, xor::env_vals(terms, env)));
            lemma_lin_same(f, xor::env_vals(terms, env), xor::env_vals(more, env));
        }
    }
}

/// A constant form.
pub(crate) fn of_const(v: BitVec) -> (r: Form)
    ensures
        r@.konst == v@,
        r@.terms.len() == 0,
        r@.has(v@.len()),
        r.fin.free(),
        forall|vals: Vals| #[trigger] lin_num(r@, vals) == modular::num(v@),
{
    Form { konst: v, terms: Vec::new(), fin: Fin::full() }
}

/// A multiple of an atom.
pub(crate) fn of_term(n: u32, k: BitVec, fin: Fin) -> (r: Form)
    ensures
        r@.has(k@.len()),
        r@.konst.len() == k@.len(),
        r@.terms.len() == 1,
        r@.terms[0].0 == n,
        r.fin == fin,
        forall|vals: Vals| #[trigger] lin_num(r@, vals) == modular::num(vals(n)) * modular::num(k@),
{
    let w = k.len();
    let r = Form { konst: BitVec::fill(w, false), terms: vec![(n, k)], fin };
    proof {
        bits::lemma_zeros_nat(w as nat);
        assert(r@.konst =~= bits::zeros(w as nat));
        assert(r@.terms =~= seq![(n, k@)]);
        assert forall|vals: Vals| #[trigger] lin_num(r@, vals) == modular::num(vals(n)) * modular::num(k@) by {
            assert(seq![(n, k@)] =~= Seq::<(u32, Seq<bool>)>::empty().push((n, k@)));
            sums::lemma_tsum_push(Seq::empty(), (n, k@), lin_at(vals));
            assert(sums::tsum(Seq::<(u32, Seq<bool>)>::empty(), lin_at(vals)) == 0);
        }
    }
    r
}

/// The value 1 of `w` bits.
fn one_of(w: usize) -> (r: BitVec)
    requires
        1 <= w <= MAX_WIDTH,
    ensures
        r@.len() == w,
        modular::num(r@) == 1,
{
    let r = BitVec::from_u64(w, 1);
    proof {
        algebra::lemma_one_nat(w as nat);
    }
    r
}

/// The form of an atom.
fn of_atom(n: u32, w: usize, fin: Fin) -> (r: Form)
    requires
        1 <= w <= MAX_WIDTH,
    ensures
        r@.has(w as nat),
        r@.konst.len() == w,
        r@.terms.len() == 1,
        r@.terms[0].0 == n,
        r.fin == fin,
        forall|vals: Vals| #[trigger] lin_num(r@, vals) == modular::num(vals(n)),
{
    let r = of_term(n, one_of(w), fin);
    proof {
        assert forall|vals: Vals| #[trigger] lin_num(r@, vals) == modular::num(vals(n)) by {
            assert(modular::num(vals(n)) * 1 == modular::num(vals(n))) by (nonlinear_arith);
        }
    }
    r
}

/// Whether a form is the form of an atom.
fn is_atom_of(f: &Form, n: u32) -> (r: bool)
{
    if !(f.konst.is_zero() && f.terms.len() == 1 && f.terms[0].0 == n) {
        return false;
    }
    f.terms[0].1.to_u64() == Some(1)
}

/// Every prefix of the terms has its sum scaled.
pub open spec fn scaled_sums(out: Terms, t: Terms, k: int, w: nat) -> bool {
    forall|vals: Vals|
        #![trigger sums::tsum(out, lin_at(vals))]
        modular::eqm(sums::tsum(out, lin_at(vals)), sums::tsum(t, lin_at(vals)) * k, w)
}

proof fn lemma_scale_step(
    out: Terms,
    t: Terms,
    i: int,
    k: Seq<bool>,
    c: Seq<bool>,
    next: Terms,
    w: nat,
)
    requires
        0 <= i < t.len(),
        scaled_sums(out, t.take(i), modular::num(k), w),
        modular::eqm(modular::num(c), modular::num(t[i].1) * modular::num(k), w),
        next == out.push((t[i].0, c)) || (next == out && modular::num(c) == 0),
    ensures
        scaled_sums(next, t.take(i + 1), modular::num(k), w),
{
    assert forall|vals: Vals|
        #![trigger sums::tsum(next, lin_at(vals))]
        modular::eqm(sums::tsum(next, lin_at(vals)), sums::tsum(t.take(i + 1), lin_at(vals)) * modular::num(k), w) by {
        let g = lin_at(vals);
        let a = modular::num(vals(t[i].0));
        sums::lemma_tsum_take(t, i, g);
        sums::lemma_tsum_push(out, (t[i].0, c), g);
        assert(modular::eqm(sums::tsum(out, g), sums::tsum(t.take(i), g) * modular::num(k), w));
        modular::lemma_eqm_mul(a, a, modular::num(c), modular::num(t[i].1) * modular::num(k), w);
        modular::lemma_eqm_add(
            sums::tsum(out, g),
            sums::tsum(t.take(i), g) * modular::num(k),
            a * modular::num(c),
            a * (modular::num(t[i].1) * modular::num(k)),
            w,
        );
        assert(sums::tsum(t.take(i), g) * modular::num(k) + a * (modular::num(t[i].1) * modular::num(k)) == (sums::tsum(t.take(i), g) + a
            * modular::num(t[i].1)) * modular::num(k)) by (nonlinear_arith);
        if next == out && modular::num(c) == 0 {
            assert(a * 0 == 0);
        }
    }
}

/// A form times a constant.
pub(crate) fn scale(f: &Form, k: &BitVec, Ghost(terms): Ghost<Seq<Term>>) -> (r: Form)
    requires
        f@.has(k@.len()),
        xor::atoms_fit(f@.terms, terms, k@.len()),
    ensures
        r@.has(k@.len()),
        r@.konst.len() == k@.len(),
        r.fin == f.fin,
        xor::atoms_fit(r@.terms, terms, k@.len()),
        forall|vals: Vals|
            #![trigger lin_num(r@, vals)]
            modular::eqm(lin_num(r@, vals), lin_num(f@, vals) * modular::num(k@), k@.len()),
{
    let mut out: Vec<(u32, BitVec)> = Vec::with_capacity(f.terms.len());
    let ghost w = k@.len();
    proof {
        assert forall|vals: Vals|
            #![trigger sums::tsum(sums::tview(out@), lin_at(vals))]
            modular::eqm(
                sums::tsum(sums::tview(out@), lin_at(vals)),
                sums::tsum(f@.terms.take(0), lin_at(vals)) * modular::num(k@),
                w,
            ) by {
            assert(0 * modular::num(k@) == 0);
        }
    }
    let mut i: usize = 0;
    while i < f.terms.len()
        invariant
            i <= f.terms.len(),
            w == k@.len(),
            f@.has(w),
            xor::atoms_fit(f@.terms, terms, w),
            forall|q: int| 0 <= q < out@.len() ==> (#[trigger] sums::tview(out@)[q]).1.len() == w,
            xor::atoms_fit(sums::tview(out@), terms, w),
            scaled_sums(sums::tview(out@), f@.terms.take(i as int), modular::num(k@), w),
        decreases f.terms.len() - i,
    {
        let ghost before = sums::tview(out@);
        let a = f.terms[i].0;
        assert(f@.terms[i as int] == (a, f.terms@[i as int].1@));
        let c = f.terms[i].1.times(k);
        let ghost cv = c@;
        proof {
            modular::lemma_eqm_ops(f.terms@[i as int].1@, k@);
        }
        let zero = c.is_zero();
        if !zero {
            out.push((a, c));
            assert(sums::tview(out@) =~= before.push((a, cv)));
        }
        proof {
            if zero {
                bits::lemma_zeros_nat(w);
            }
            lemma_scale_step(before, f@.terms, i as int, k@, cv, sums::tview(out@), w);
            assert forall|q: int| 0 <= q < out@.len() implies (#[trigger] sums::tview(out@)[q]).1.len()
                == w by {
                if q < before.len() {
                    assert(sums::tview(out@)[q] == before[q]);
                }
            }
            assert forall|q: int| #![trigger sums::tview(out@)[q]] 0 <= q < sums::tview(out@).len() implies sums::tview(
                out@,
            )[q].0 < terms.len() && term::twidth(terms[sums::tview(out@)[q].0 as int]) == w && term::tok(
                terms[sums::tview(out@)[q].0 as int],
            ) by {
                if q < before.len() {
                    assert(sums::tview(out@)[q] == before[q]);
                }
            }
        }
        i = i + 1;
    }
    let r = Form { konst: f.konst.times(k), terms: out, fin: f.fin };
    proof {
        assert(r@.terms =~= sums::tview(out@));
        assert(f@.terms.take(i as int) =~= f@.terms);
        modular::lemma_eqm_ops(f@.konst, k@);
        assert forall|vals: Vals|
            #![trigger lin_num(r@, vals)]
            modular::eqm(lin_num(r@, vals), lin_num(f@, vals) * modular::num(k@), w) by {
            let g = lin_at(vals);
            assert(modular::eqm(sums::tsum(r@.terms, g), sums::tsum(f@.terms, g) * modular::num(k@), w));
            modular::lemma_eqm_add(
                modular::num(r@.konst),
                modular::num(f@.konst) * modular::num(k@),
                sums::tsum(r@.terms, g),
                sums::tsum(f@.terms, g) * modular::num(k@),
                w,
            );
            assert(modular::num(f@.konst) * modular::num(k@) + sums::tsum(f@.terms, g) * modular::num(k@) == (modular::num(f@.konst) + sums::tsum(
                f@.terms,
                g,
            )) * modular::num(k@)) by (nonlinear_arith);
        }
    }
    r
}

/// The sums of two prefixes, added.
pub open spec fn added_sums(out: Terms, t: Terms, u: Terms, w: nat) -> bool {
    forall|vals: Vals|
        #![trigger sums::tsum(out, lin_at(vals))]
        modular::eqm(sums::tsum(out, lin_at(vals)), sums::tsum(t, lin_at(vals)) + sums::tsum(u, lin_at(vals)), w)
}

proof fn lemma_add_step(
    out: Terms,
    t: Terms,
    i: int,
    left: bool,
    u: Terms,
    j: int,
    right: bool,
    a: u32,
    c: Seq<bool>,
    next: Terms,
    w: nat,
)
    requires
        added_sums(out, t.take(i), u.take(j), w),
        left ==> 0 <= i < t.len() && t[i].0 == a,
        right ==> 0 <= j < u.len() && u[j].0 == a,
        modular::eqm(
            modular::num(c),
            (if left {
                modular::num(t[i].1)
            } else {
                0
            }) + (if right {
                modular::num(u[j].1)
            } else {
                0
            }),
            w,
        ),
        next == out.push((a, c)) || (next == out && modular::num(c) == 0),
    ensures
        added_sums(
            next,
            t.take(if left {
                i + 1
            } else {
                i
            }),
            u.take(if right {
                j + 1
            } else {
                j
            }),
            w,
        ),
{
    let t1 = t.take(if left {
        i + 1
    } else {
        i
    });
    let u1 = u.take(if right {
        j + 1
    } else {
        j
    });
    assert forall|vals: Vals|
        #![trigger sums::tsum(next, lin_at(vals))]
        modular::eqm(sums::tsum(next, lin_at(vals)), sums::tsum(t1, lin_at(vals)) + sums::tsum(u1, lin_at(vals)), w) by {
        let g = lin_at(vals);
        let x = modular::num(vals(a));
        if left {
            sums::lemma_tsum_take(t, i, g);
        }
        if right {
            sums::lemma_tsum_take(u, j, g);
        }
        sums::lemma_tsum_push(out, (a, c), g);
        let p = if left {
            modular::num(t[i].1)
        } else {
            0
        };
        let q = if right {
            modular::num(u[j].1)
        } else {
            0
        };
        assert(modular::eqm(sums::tsum(out, g), sums::tsum(t.take(i), g) + sums::tsum(u.take(j), g), w));
        modular::lemma_eqm_mul(x, x, modular::num(c), p + q, w);
        modular::lemma_eqm_add(
            sums::tsum(out, g),
            sums::tsum(t.take(i), g) + sums::tsum(u.take(j), g),
            x * modular::num(c),
            x * (p + q),
            w,
        );
        assert(x * (p + q) == x * p + x * q) by (nonlinear_arith);
        assert(x * 0 == 0);
    }
}

/// The sum of two forms.
pub(crate) fn plus(f: &Form, o: &Form, Ghost(terms): Ghost<Seq<Term>>) -> (r: Form)
    requires
        f@.has(f@.konst.len()),
        o@.has(f@.konst.len()),
        xor::atoms_fit(f@.terms, terms, f@.konst.len()),
        xor::atoms_fit(o@.terms, terms, f@.konst.len()),
    ensures
        r@.has(f@.konst.len()),
        r@.konst.len() == f@.konst.len(),
        xor::atoms_fit(r@.terms, terms, f@.konst.len()),
        forall|h: Hyp, env: Env| #[trigger]
            r.fin.rel.admits(h, env) <==> f.fin.rel.admits(h, env) && o.fin.rel.admits(h, env),
        forall|vals: Vals|
            #![trigger lin_num(r@, vals)]
            modular::eqm(lin_num(r@, vals), lin_num(f@, vals) + lin_num(o@, vals), f@.konst.len()),
{
    let mut out: Vec<(u32, BitVec)> = Vec::new();
    let ghost w = f@.konst.len();
    let mut i: usize = 0;
    let mut j: usize = 0;
    while i < f.terms.len() || j < o.terms.len()
        invariant
            i <= f.terms.len(),
            j <= o.terms.len(),
            w == f@.konst.len(),
            f@.has(w),
            o@.has(w),
            xor::atoms_fit(f@.terms, terms, w),
            xor::atoms_fit(o@.terms, terms, w),
            forall|q: int| 0 <= q < out@.len() ==> (#[trigger] sums::tview(out@)[q]).1.len() == w,
            xor::atoms_fit(sums::tview(out@), terms, w),
            added_sums(sums::tview(out@), f@.terms.take(i as int), o@.terms.take(j as int), w),
        decreases f.terms.len() - i + o.terms.len() - j,
    {
        let ghost before = sums::tview(out@);
        let ghost i0 = i as int;
        let ghost j0 = j as int;
        let mut left = i < f.terms.len();
        let mut right = j < o.terms.len();
        if left && right {
            if f.terms[i].0 < o.terms[j].0 {
                right = false;
            } else if f.terms[i].0 > o.terms[j].0 {
                left = false;
            }
        }
        proof {
            if left {
                assert(f@.terms[i as int] == (f.terms@[i as int].0, f.terms@[i as int].1@));
            }
            if right {
                assert(o@.terms[j as int] == (o.terms@[j as int].0, o.terms@[j as int].1@));
            }
        }
        let (a, k) = if left && right {
            proof {
                modular::lemma_eqm_ops(f.terms@[i as int].1@, o.terms@[j as int].1@);
            }
            (f.terms[i].0, f.terms[i].1.plus(&o.terms[j].1))
        } else if left {
            (f.terms[i].0, f.terms[i].1.dup())
        } else {
            (o.terms[j].0, o.terms[j].1.dup())
        };
        if left {
            i = i + 1;
        }
        if right {
            j = j + 1;
        }
        let ghost kv = k@;
        let zero = k.is_zero();
        if !zero {
            out.push((a, k));
            assert(sums::tview(out@) =~= before.push((a, kv)));
        }
        proof {
            if zero {
                bits::lemma_zeros_nat(w);
            }
            lemma_add_step(
                before,
                f@.terms,
                i0,
                left,
                o@.terms,
                j0,
                right,
                a,
                kv,
                sums::tview(out@),
                w,
            );
            assert forall|q: int| 0 <= q < out@.len() implies (#[trigger] sums::tview(out@)[q]).1.len()
                == w by {
                if q < before.len() {
                    assert(sums::tview(out@)[q] == before[q]);
                }
            }
            assert forall|q: int| #![trigger sums::tview(out@)[q]] 0 <= q < sums::tview(out@).len() implies sums::tview(
                out@,
            )[q].0 < terms.len() && term::twidth(terms[sums::tview(out@)[q].0 as int]) == w && term::tok(
                terms[sums::tview(out@)[q].0 as int],
            ) by {
                if q < before.len() {
                    assert(sums::tview(out@)[q] == before[q]);
                }
            }
        }
    }
    let r = Form { konst: f.konst.plus(&o.konst), terms: out, fin: f.fin.and(o.fin) };
    proof {
        assert(r@.terms =~= sums::tview(out@));
        assert(f@.terms.take(i as int) =~= f@.terms);
        assert(o@.terms.take(j as int) =~= o@.terms);
        modular::lemma_eqm_ops(f@.konst, o@.konst);
        assert forall|vals: Vals|
            #![trigger lin_num(r@, vals)]
            modular::eqm(lin_num(r@, vals), lin_num(f@, vals) + lin_num(o@, vals), w) by {
            let g = lin_at(vals);
            assert(modular::eqm(sums::tsum(r@.terms, g), sums::tsum(f@.terms, g) + sums::tsum(o@.terms, g), w));
            modular::lemma_eqm_add(
                modular::num(r@.konst),
                modular::num(f@.konst) + modular::num(o@.konst),
                sums::tsum(r@.terms, g),
                sums::tsum(f@.terms, g) + sums::tsum(o@.terms, g),
                w,
            );
        }
    }
    r
}

/// A form, negated.
pub(crate) fn negated(f: &Form, Ghost(terms): Ghost<Seq<Term>>) -> (r: Form)
    requires
        f@.has(f@.konst.len()),
        xor::atoms_fit(f@.terms, terms, f@.konst.len()),
    ensures
        r@.has(f@.konst.len()),
        r@.konst.len() == f@.konst.len(),
        r.fin == f.fin,
        xor::atoms_fit(r@.terms, terms, f@.konst.len()),
        forall|vals: Vals|
            #![trigger lin_num(r@, vals)]
            modular::eqm(lin_num(r@, vals), -lin_num(f@, vals), f@.konst.len()),
{
    let w = f.konst.len();
    let all = BitVec::fill(w, true);
    let r = scale(f, &all, Ghost(terms));
    proof {
        bits::lemma_ones_nat(w as nat);
        assert(all@ =~= bits::ones(w as nat));
        assert forall|vals: Vals|
            #![trigger lin_num(r@, vals)]
            modular::eqm(lin_num(r@, vals), -lin_num(f@, vals), w as nat) by {
            lemma_minus_one(all@, lin_num(f@, vals));
        }
    }
    r
}

/// Multiplying by all ones negates.
pub proof fn lemma_minus_one(k: Seq<bool>, x: int)
    requires
        k == bits::ones(k.len()),
    ensures
        modular::eqm(x * modular::num(k), -x, k.len()),
        modular::eqm(modular::num(k), -1, k.len()),
{
    let w = k.len();
    bits::lemma_ones_nat(w);
    let p = pow2(w) as int;
    assert(modular::num(k) == p - 1);
    modular::lemma_eqm_modulus(w, 1);
    assert(1 * p == p);
    modular::lemma_eqm_add(1 * p, 0, -1, -1, w);
    modular::lemma_eqm_mul(x, x, modular::num(k), -1, w);
    assert(x * -1 == -x) by (nonlinear_arith);
}

/// Whether the node's operator can be part of a linear region.
pub open spec fn is_linear_op(node: Node) -> bool {
    match node {
        Node::Const(_) => true,
        Node::Un(op, _) => op == UnOp::Not || op == UnOp::Neg,
        Node::Bin(op, _, _) => op == BinOp::Add || op == BinOp::Sub || op == BinOp::Mul || op
            == BinOp::Shl || op == BinOp::Or || op == BinOp::Xor,
        Node::Concat(_, _) => true,
        _ => false,
    }
}

/// Whether the node's operator can be part of a linear region.
fn linear_op(node: &Node) -> (r: bool)
    ensures
        r == is_linear_op(*node),
{
    match node {
        Node::Const(_) => true,
        Node::Un(UnOp::Not, _) => true,
        Node::Un(UnOp::Neg, _) => true,
        Node::Bin(BinOp::Add, _, _) => true,
        Node::Bin(BinOp::Sub, _, _) => true,
        Node::Bin(BinOp::Mul, _, _) => true,
        Node::Bin(BinOp::Shl, _, _) => true,
        Node::Bin(BinOp::Or, _, _) => true,
        Node::Bin(BinOp::Xor, _, _) => true,
        Node::Concat(_, _) => true,
        _ => false,
    }
}

/// A value is a form's when its number is congruent to the form's.
pub proof fn lemma_is_form(s: Seq<bool>, f: FormV, vals: Vals)
    requires
        f.konst.len() == s.len(),
        modular::eqm(modular::num(s), lin_num(f, vals), s.len()),
    ensures
        s == lin_value(f, vals),
{
    modular::lemma_eqm_value(s, lin_num(f, vals));
}

/// The number of a form's value is congruent to the form's.
pub proof fn lemma_form_is(s: Seq<bool>, f: FormV, vals: Vals)
    requires
        f.konst.len() == s.len(),
        s == lin_value(f, vals),
    ensures
        modular::eqm(modular::num(s), lin_num(f, vals), s.len()),
{
    modular::lemma_eqm_nat(lin_num(f, vals), s.len());
}

/// Bits never set in both: or and xor are sums.
pub proof fn lemma_disjoint_sum(a: Seq<bool>, b: Seq<bool>)
    requires
        a.len() == b.len(),
        forall|i: int| #![trigger a[i]] 0 <= i < a.len() ==> !(a[i] && b[i]),
    ensures
        modular::num(ops::or_bits(a, b)) == modular::num(a) + modular::num(b),
        modular::num(ops::xor_bits(a, b)) == modular::num(a) + modular::num(b),
{
    ops::lemma_and_or_xor_nat(a, b);
    assert(ops::and_bits(a, b) =~= bits::zeros(a.len()));
    bits::lemma_zeros_nat(a.len());
}

/// `concat(trunc(x), c)` is `x` shifted by the width of `c`, plus `c`: the bits of `x` the
/// truncation drops shift out.
pub proof fn lemma_concat_trunc(x: Seq<bool>, c: Seq<bool>)
    requires
        c.len() <= x.len(),
    ensures
        modular::eqm(
            modular::num(c + x.subrange(0, x.len() - c.len())),
            modular::num(x) * pow2(c.len()) + modular::num(c),
            x.len(),
        ),
{
    let w = x.len();
    let j = c.len();
    let k = (w - j) as nat;
    let lo = x.subrange(0, k as int);
    let hi = x.subrange(k as int, w as int);
    assert(x =~= lo + hi);
    bits::lemma_nat_concat(lo, hi);
    bits::lemma_nat_concat(c, lo);
    bits::lemma_pow2_sum(k, j);
    let p = pow2(j) as int;
    let q = pow2(k) as int;
    // x * p == lo * p + q * hi * p, and q * p is the modulus.
    assert(modular::num(x) * p == p * modular::num(lo) + modular::num(hi) * (q * p)) by (nonlinear_arith)
        requires
            modular::num(x) == modular::num(lo) + q * modular::num(hi),
    ;
    modular::lemma_eqm_modulus(w, modular::num(hi));
    assert(pow2(w) == q * p) by (nonlinear_arith)
        requires
            pow2(w) == pow2(k) * pow2(j),
            p == pow2(j),
            q == pow2(k),
    ;
    modular::lemma_eqm_add(modular::num(hi) * pow2(w), 0, p * modular::num(lo) + modular::num(c), p * modular::num(lo) + modular::num(c), w);
}

impl<'a> Runner<'a> {
    /// The kept form of node `j`.
    fn lin_form(&self, cx: &Context, j: u32) -> (r: Form)
        requires
            self.wf(cx),
            self.lins.at(j) is Some,
        ensures
            j < cx.n(),
            lin_form_ok(r@, cx.tm(), self.hyp@, j as int),
            r@.has(r@.konst.len()),
            r@.terms.len() <= MAX_TERMS,
    {
        proof {
            reveal(lins_ok);
        }
        match self.lins.get(j) {
            Some(f) => f,
            None => of_atom(j, 1, Fin::full()),
        }
    }

    /// The form of `i` as an atom.
    fn lin_atom(&self, cx: &Context, i: u32, fin: Fin) -> (r: Form)
        requires
            self.wf(cx),
            i < cx.n(),
        ensures
            lin_form_ok(r@, cx.tm(), self.hyp@, i as int),
            r@.has(r@.konst.len()),
            r@.terms.len() <= MAX_TERMS,
    {
        let w = cx.wid(i);
        let r = of_atom(i, w as usize, fin);
        proof {
            assert(cx.ok_at(i as int));
            assert forall|env: Env| r.fin.rel.admits(self.hyp@, env) implies #[trigger] term::value(
                cx.tm()[i as int],
                env,
            ) == lin_value(r@, xor::env_vals(cx.tm(), env)) by {
                let vals = xor::env_vals(cx.tm(), env);
                assert(lin_num(r@, vals) == modular::num(vals(i)));
                bits::lemma_bits_of_nat(vals(i));
            }
        }
        r
    }

    /// The form of `i`, whose operands' forms are kept.
    #[verifier::rlimit(30)]
    fn lin_compute(&mut self, cx: &Context, i: u32) -> (out: Result<Form, Stop>)
        requires
            old(self).wf(cx),
            i < cx.n(),
            forall|j: int|
                0 <= j < expr::kids(cx.nodes@[i as int]).len() ==> old(self).lins.at(
                    #[trigger] expr::kids(cx.nodes@[i as int])[j],
                ) is Some,
        ensures
            runner::went(final(self), cx, old(self), cx),
            out matches Err(e) ==> final(self).refuses(cx, e),
            final(self).lins == old(self).lins,
            out matches Ok(r) ==> lin_form_ok(r@, cx.tm(), final(self).hyp@, i as int) && r@.has(
                r@.konst.len(),
            ),
    {
        let node = cx.node(i);
        let w = cx.wid(i) as usize;
        let ghost h = self.hyp@;
        let ghost tm = cx.tm();
        proof {
            assert(cx.ok_at(i as int));
        }
        match node {
            Node::Const(_) => {
                if let Some(v) = cx.const_val(i) {
                    let r = of_const(v);
                    proof {
                        assert forall|env: Env| r.fin.rel.admits(h, env) implies #[trigger] term::value(
                            tm[i as int],
                            env,
                        ) == lin_value(r@, xor::env_vals(tm, env)) by {
                            assert(lin_num(r@, xor::env_vals(tm, env)) == modular::num(r@.konst));
                            bits::lemma_bits_of_nat(r@.konst);
                        }
                    }
                    return Ok(r);
                }
                Ok(self.lin_atom(cx, i, Fin::full()))
            },
            Node::Un(UnOp::Neg, a) => {
                assert(expr::kids(node)[0] == a);
                let f = self.lin_form(cx, a);
                let r = negated(&f, Ghost(tm));
                proof {
                    assert forall|env: Env| r.fin.rel.admits(h, env) implies #[trigger] term::value(
                        tm[i as int],
                        env,
                    ) == lin_value(r@, xor::env_vals(tm, env)) by {
                        let vals = xor::env_vals(tm, env);
                        let x = term::value(tm[a as int], env);
                        lemma_form_is(x, f@, vals);
                        modular::lemma_eqm_un(x);
                        modular::lemma_eqm_sub(0, 0, modular::num(x), lin_num(f@, vals), w as nat);
                        assert(modular::eqm(lin_num(r@, vals), -lin_num(f@, vals), w as nat));
                        lemma_is_form(term::value(tm[i as int], env), r@, vals);
                    }
                }
                Ok(r)
            },
            Node::Un(UnOp::Not, a) => {
                assert(expr::kids(node)[0] == a);
                let f = self.lin_form(cx, a);
                let m = negated(&f, Ghost(tm));
                let konst = m.konst.minus(&one_of(w));
                let r = Form { konst, terms: m.terms, fin: m.fin };
                proof {
                    assert(r@.terms == m@.terms);
                    assert(r@.has(w as nat));
                    assert forall|env: Env| r.fin.rel.admits(h, env) implies #[trigger] term::value(
                        tm[i as int],
                        env,
                    ) == lin_value(r@, xor::env_vals(tm, env)) by {
                        let vals = xor::env_vals(tm, env);
                        let x = term::value(tm[a as int], env);
                        lemma_form_is(x, f@, vals);
                        modular::lemma_eqm_un(x);
                        modular::lemma_eqm_sub(-1, -1, modular::num(x), lin_num(f@, vals), w as nat);
                        assert(modular::eqm(lin_num(m@, vals), -lin_num(f@, vals), w as nat));
                        lemma_less_one(m@.konst, r@.konst);
                        modular::lemma_eqm_add(
                            modular::num(r@.konst),
                            modular::num(m@.konst) - 1,
                            sums::tsum(m@.terms, lin_at(vals)),
                            sums::tsum(m@.terms, lin_at(vals)),
                            w as nat,
                        );
                        modular::lemma_eqm_sub(
                            lin_num(m@, vals),
                            -lin_num(f@, vals),
                            1,
                            1,
                            w as nat,
                        );
                        lemma_is_form(term::value(tm[i as int], env), r@, vals);
                    }
                }
                Ok(r)
            },
            Node::Bin(BinOp::Add, a, b) => {
                assert(expr::kids(node)[0] == a && expr::kids(node)[1] == b);
                let f = self.lin_form(cx, a);
                let g = self.lin_form(cx, b);
                let r = plus(&f, &g, Ghost(tm));
                proof {
                    assert forall|env: Env| r.fin.rel.admits(h, env) implies #[trigger] term::value(
                        tm[i as int],
                        env,
                    ) == lin_value(r@, xor::env_vals(tm, env)) by {
                        lemma_sum_form(
                            term::value(tm[a as int], env),
                            f@,
                            term::value(tm[b as int], env),
                            g@,
                            term::value(tm[i as int], env),
                            r@,
                            xor::env_vals(tm, env),
                        );
                    }
                }
                Ok(r)
            },
            Node::Bin(BinOp::Sub, a, b) => {
                assert(expr::kids(node)[0] == a && expr::kids(node)[1] == b);
                let f = self.lin_form(cx, a);
                let g = self.lin_form(cx, b);
                let m = negated(&g, Ghost(tm));
                let r = plus(&f, &m, Ghost(tm));
                proof {
                    assert forall|env: Env| r.fin.rel.admits(h, env) implies #[trigger] term::value(
                        tm[i as int],
                        env,
                    ) == lin_value(r@, xor::env_vals(tm, env)) by {
                        let vals = xor::env_vals(tm, env);
                        let x = term::value(tm[a as int], env);
                        let y = term::value(tm[b as int], env);
                        lemma_form_is(x, f@, vals);
                        lemma_form_is(y, g@, vals);
                        modular::lemma_eqm_ops(x, y);
                        modular::lemma_eqm_sub(
                            modular::num(x),
                            lin_num(f@, vals),
                            modular::num(y),
                            lin_num(g@, vals),
                            w as nat,
                        );
                        assert(modular::eqm(lin_num(m@, vals), -lin_num(g@, vals), w as nat));
                        modular::lemma_eqm_add(
                            lin_num(f@, vals),
                            lin_num(f@, vals),
                            lin_num(m@, vals),
                            -lin_num(g@, vals),
                            w as nat,
                        );
                        assert(modular::eqm(
                            lin_num(r@, vals),
                            lin_num(f@, vals) + lin_num(m@, vals),
                            w as nat,
                        ));
                        lemma_is_form(term::value(tm[i as int], env), r@, vals);
                    }
                }
                Ok(r)
            },
            Node::Bin(BinOp::Mul, a, b) => {
                assert(expr::kids(node)[0] == a && expr::kids(node)[1] == b);
                let (x, c) = match cx.const_val(a) {
                    Some(c) => (b, c),
                    None => match cx.const_val(b) {
                        Some(c) => (a, c),
                        None => {
                            return Ok(self.lin_atom(cx, i, Fin::full()));
                        },
                    },
                };
                let f = self.lin_form(cx, x);
                let r = scale(&f, &c, Ghost(tm));
                proof {
                    assert(cx.ok_at(a as int));
                    assert(cx.ok_at(b as int));
                    assert forall|env: Env| r.fin.rel.admits(h, env) implies #[trigger] term::value(
                        tm[i as int],
                        env,
                    ) == lin_value(r@, xor::env_vals(tm, env)) by {
                        let vals = xor::env_vals(tm, env);
                        let p = term::value(tm[a as int], env);
                        let q = term::value(tm[b as int], env);
                        let y = term::value(tm[x as int], env);
                        lemma_form_is(y, f@, vals);
                        modular::lemma_eqm_ops(p, q);
                        assert(modular::num(p) * modular::num(q) == modular::num(y) * modular::num(c@)) by (nonlinear_arith)
                            requires
                                (modular::num(p) == modular::num(y) && modular::num(q) == modular::num(c@)) || (modular::num(q) == modular::num(y)
                                    && modular::num(p) == modular::num(c@)),
                        ;
                        modular::lemma_eqm_mul(modular::num(y), lin_num(f@, vals), modular::num(c@), modular::num(c@), w as nat);
                        assert(modular::eqm(lin_num(r@, vals), lin_num(f@, vals) * modular::num(c@), w as nat));
                        lemma_is_form(term::value(tm[i as int], env), r@, vals);
                    }
                }
                Ok(r)
            },
            Node::Bin(BinOp::Shl, a, b) => {
                assert(expr::kids(node)[0] == a && expr::kids(node)[1] == b);
                let c = match cx.const_val(b) {
                    Some(c) => c,
                    None => {
                        return Ok(self.lin_atom(cx, i, Fin::full()));
                    },
                };
                let one = one_of(w);
                // A count of the width or more gives 0, and so does the scaling.
                let factor = BitVec::apply_bin(BinOp::Shl, &one, &c);
                let f = self.lin_form(cx, a);
                let r = scale(&f, &factor, Ghost(tm));
                proof {
                    assert(cx.ok_at(a as int));
                    assert forall|env: Env| r.fin.rel.admits(h, env) implies #[trigger] term::value(
                        tm[i as int],
                        env,
                    ) == lin_value(r@, xor::env_vals(tm, env)) by {
                        let vals = xor::env_vals(tm, env);
                        let x = term::value(tm[a as int], env);
                        let k = bits::nat_of(c@);
                        lemma_form_is(x, f@, vals);
                        modular::lemma_eqm_shl(x, k);
                        modular::lemma_eqm_shl(one@, k);
                        assert(modular::num(one@) * pow2(k) == pow2(k)) by (nonlinear_arith)
                            requires
                                modular::num(one@) == 1,
                        ;
                        assert(term::value(tm[b as int], env) == c@);
                        modular::lemma_eqm_mul(modular::num(x), lin_num(f@, vals), pow2(k) as int, modular::num(factor@), w as nat);
                        assert(modular::eqm(lin_num(r@, vals), lin_num(f@, vals) * modular::num(factor@), w as nat));
                        lemma_is_form(term::value(tm[i as int], env), r@, vals);
                    }
                }
                Ok(r)
            },
            Node::Concat(hi, lo) => {
                assert(expr::kids(node)[0] == hi && expr::kids(node)[1] == lo);
                let c = match cx.const_val(lo) {
                    Some(c) => c,
                    None => {
                        return Ok(self.lin_atom(cx, i, Fin::full()));
                    },
                };
                let x = match cx.node(hi) {
                    Node::Extract(x, 0) => x,
                    _ => {
                        return Ok(self.lin_atom(cx, i, Fin::full()));
                    },
                };
                if cx.wid(x) as usize != w {
                    return Ok(self.lin_atom(cx, i, Fin::full()));
                }
                let j = c.len();
                let one = one_of(w);
                let factor = one.shl(j);
                let t = of_term(x, factor, Fin::full());
                let r = Form { konst: t.konst.plus(&c.zext(w)), terms: t.terms, fin: t.fin };
                proof {
                    assert(cx.ok_at(hi as int));
                    assert(cx.ok_at(x as int));
                    assert(cx.ok_at(lo as int));
                    assert(r@.terms == t@.terms);
                    assert(r@.terms[0].0 == x);
                    assert(r@.has(w as nat));
                    assert forall|env: Env| r.fin.rel.admits(h, env) implies #[trigger] term::value(
                        tm[i as int],
                        env,
                    ) == lin_value(r@, xor::env_vals(tm, env)) by {
                        let vals = xor::env_vals(tm, env);
                        let v = term::value(tm[x as int], env);
                        lemma_concat_trunc(v, c@);
                        assert(term::value(tm[hi as int], env) == v.subrange(0, w - j));
                        assert(term::value(tm[lo as int], env) == c@);
                        assert(term::value(tm[i as int], env) == c@ + v.subrange(0, w - j));
                        modular::lemma_eqm_shl(one@, j as nat);
                        assert(modular::num(one@) * pow2(j as nat) == pow2(j as nat)) by (nonlinear_arith)
                            requires
                                modular::num(one@) == 1,
                        ;
                        assert(lin_num(t@, vals) == modular::num(v) * modular::num(factor@));
                        modular::lemma_eqm_mul(modular::num(v), modular::num(v), modular::num(factor@), pow2(j as nat) as int, w as nat);
                        lemma_zext_num(c@, w as nat);
                        modular::lemma_eqm_ops(t@.konst, ops::zext_bits(c@, w as nat));
                        modular::lemma_eqm_add(
                            modular::num(r@.konst),
                            modular::num(t@.konst) + modular::num(c@),
                            sums::tsum(t@.terms, lin_at(vals)),
                            sums::tsum(t@.terms, lin_at(vals)),
                            w as nat,
                        );
                        modular::lemma_eqm_add(
                            modular::num(v) * modular::num(factor@),
                            modular::num(v) * pow2(j as nat),
                            modular::num(c@),
                            modular::num(c@),
                            w as nat,
                        );
                        lemma_is_form(term::value(tm[i as int], env), r@, vals);
                    }
                }
                Ok(r)
            },
            Node::Bin(BinOp::Or, a, b) => self.lin_disjoint(cx, i, a, b),
            Node::Bin(BinOp::Xor, a, b) => self.lin_disjoint(cx, i, a, b),
            _ => Ok(self.lin_atom(cx, i, Fin::full())),
        }
    }

    /// The form of `i`, the or or the xor of `a` and `b`.
    fn lin_disjoint(&mut self, cx: &Context, i: u32, a: u32, b: u32) -> (out: Result<Form, Stop>)
        requires
            old(self).wf(cx),
            i < cx.n(),
            cx.nodes@[i as int] == Node::Bin(BinOp::Or, a, b) || cx.nodes@[i as int] == Node::Bin(
                BinOp::Xor,
                a,
                b,
            ),
            old(self).lins.at(a) is Some,
            old(self).lins.at(b) is Some,
        ensures
            runner::went(final(self), cx, old(self), cx),
            out matches Err(e) ==> final(self).refuses(cx, e),
            final(self).lins == old(self).lins,
            out matches Ok(r) ==> lin_form_ok(r@, cx.tm(), final(self).hyp@, i as int) && r@.has(
                r@.konst.len(),
            ),
    {
        let ghost h = self.hyp@;
        let ghost tm = cx.tm();
        proof {
            assert(cx.ok_at(i as int));
            assert(cx.ok_at(a as int));
            assert(cx.ok_at(b as int));
        }
        let (apart, fina, finb) = self.disjoint(cx, a, b)?;
        if !apart {
            return Ok(self.lin_atom(cx, i, fina.and(finb).unchanged()));
        }
        // The sum relies on what proved the operands disjoint.
        let f = self.lin_form(cx, a);
        let g = self.lin_form(cx, b);
        let s = plus(&f, &g, Ghost(tm));
        let fin = s.fin.and(fina).and(finb);
        let r = Form { konst: s.konst, terms: s.terms, fin };
        proof {
            assert(r@.terms == s@.terms && r@.konst == s@.konst);
            assert forall|env: Env| r.fin.rel.admits(h, env) implies #[trigger] term::value(
                tm[i as int],
                env,
            ) == lin_value(r@, xor::env_vals(tm, env)) by {
                let vals = xor::env_vals(tm, env);
                let x = term::value(tm[a as int], env);
                let y = term::value(tm[b as int], env);
                assert(x == cx.val(a as int, env) && y == cx.val(b as int, env));
                lemma_disjoint_sum(x, y);
                lemma_form_is(x, f@, vals);
                lemma_form_is(y, g@, vals);
                modular::lemma_eqm_add(modular::num(x), lin_num(f@, vals), modular::num(y), lin_num(g@, vals), x.len());
                assert(modular::eqm(lin_num(s@, vals), lin_num(f@, vals) + lin_num(g@, vals), x.len()));
                assert(lin_num(r@, vals) == lin_num(s@, vals));
                lemma_is_form(term::value(tm[i as int], env), r@, vals);
            }
        }
        Ok(r)
    }

    /// The form of `root`, computing (iteratively) and keeping the forms below it.
    pub(crate) fn lin_form_of(&mut self, cx: &Context, root: u32) -> (out: Result<Form, Stop>)
        requires
            old(self).wf(cx),
            root < cx.n(),
        ensures
            runner::went(final(self), cx, old(self), cx),
            out matches Err(e) ==> final(self).refuses(cx, e),
            out matches Ok(r) ==> lin_form_ok(r@, cx.tm(), final(self).hyp@, root as int)
                && r@.terms.len() <= MAX_TERMS,
    {
        let mut stack: Vec<(u32, bool)> = vec![(root, false)];
        while stack.len() > 0
            invariant
                runner::went(self, cx, old(self), cx),
                root < cx.n(),
                dfs::staying(stack@, cx.n()),
                dfs::waiting(stack@, xor::formed(self.lins), cx.nodes@),
                self.lins.at(root) is Some || (stack@.len() > 0 && stack@[0].0 == root),
            decreases dfs::freight(stack@),
        {
            let ghost stack0 = stack@;
            let ghost done0 = xor::formed(self.lins);
            let top = match stack.pop() {
                Some(t) => t,
                None => {
                    return Ok(self.lin_atom(cx, root, Fin::full()));
                },
            };
            let (i, expanded) = top;
            assert(stack0.last() == top);
            assert(stack@ =~= stack0.drop_last());
            proof {
                dfs::lemma_freight_push(stack@, top);
                assert(stack0 =~= stack@.push(top));
                dfs::lemma_heft_pos(i as nat);
            }
            if self.lins.contains(i) {
                proof {
                    dfs::lemma_wait_done(stack0, done0, done0, cx.nodes@);
                }
                continue;
            }
            let node = cx.node(i);
            let f = if !linear_op(&node) {
                self.lin_atom(cx, i, Fin::full())
            } else if !expanded {
                let kept = &self.lins;
                let is_done = |c: u32| -> (b: bool)
                    ensures
                        b == (kept.at(c) is Some),
                {
                    kept.contains(c)
                };
                expand(cx, &mut stack, i, is_done, Ghost(stack0), Ghost(done0));
                continue;
            } else {
                self.charge(Counter::PassWork, 1)?;
                proof {
                    dfs::lemma_wait_top(stack0, done0, cx.nodes@);
                    assert forall|j: int| 0 <= j < expr::kids(cx.nodes@[i as int]).len() implies self.lins.at(
                        #[trigger] expr::kids(cx.nodes@[i as int])[j],
                    ) is Some by {
                        assert(done0(expr::kids(cx.nodes@[i as int])[j]));
                    }
                }
                let f = self.lin_compute(cx, i)?;
                if f.terms.len() > MAX_TERMS {
                    let c = self.stats.passes.entry(PassKind::Linear);
                    c.atomized = bump(c.atomized);
                    self.lin_atom(cx, i, f.fin)
                } else {
                    f
                }
            };
            proof {
                reveal(lins_ok);
            }
            self.lins.insert(i, f);
            proof {
                dfs::lemma_wait_done(stack0, done0, xor::formed(self.lins), cx.nodes@);
            }
        }
        proof {
            reveal(lins_ok);
        }
        Ok(self.lin_form(cx, root))
    }
}

/// A sum of two values is the sum of their forms.
proof fn lemma_sum_form(
    x: Seq<bool>,
    f: FormV,
    y: Seq<bool>,
    g: FormV,
    s: Seq<bool>,
    r: FormV,
    vals: Vals,
)
    requires
        x.len() == y.len(),
        f.konst.len() == x.len(),
        g.konst.len() == x.len(),
        r.konst.len() == x.len(),
        x == lin_value(f, vals),
        y == lin_value(g, vals),
        s == ops::bin_value(BinOp::Add, x, y),
        modular::eqm(lin_num(r, vals), lin_num(f, vals) + lin_num(g, vals), x.len()),
    ensures
        s == lin_value(r, vals),
{
    lemma_form_is(x, f, vals);
    lemma_form_is(y, g, vals);
    modular::lemma_eqm_ops(x, y);
    modular::lemma_eqm_add(modular::num(x), lin_num(f, vals), modular::num(y), lin_num(g, vals), x.len());
    lemma_is_form(s, r, vals);
}

/// Subtracting 1.
proof fn lemma_less_one(k: Seq<bool>, r: Seq<bool>)
    requires
        k.len() >= 1,
        r == bits::bits_of(modular::num(k) - 1, k.len()),
    ensures
        modular::eqm(modular::num(r), modular::num(k) - 1, k.len()),
{
    modular::lemma_eqm_nat(modular::num(k) - 1, k.len());
}

/// Zero extension keeps the number.
pub proof fn lemma_zext_num(c: Seq<bool>, w: nat)
    requires
        c.len() <= w,
    ensures
        modular::num(ops::zext_bits(c, w)) == modular::num(c),
        ops::zext_bits(c, w).len() == w,
{
    let z = bits::zeros((w - c.len()) as nat);
    assert(ops::zext_bits(c, w) =~= c + z);
    bits::lemma_nat_concat(c, z);
    bits::lemma_zeros_nat((w - c.len()) as nat);
    assert(pow2(c.len()) * 0 == 0);
}

/// What the emission writes for a form: the constant and the terms `(atom, coefficient, under
/// ~)`, the whole complemented when `not`.
struct Plan {
    konst: BitVec,
    terms: Vec<(u32, BitVec, bool)>,
    not: bool,
}

/// The terms of a plan, as plain values.
spec fn pview(v: Seq<(u32, BitVec, bool)>) -> Seq<(u32, Seq<bool>, bool)> {
    v.map_values(|t: (u32, BitVec, bool)| (t.0, t.1@, t.2))
}

/// What a term of a plan adds.
spec fn part(t: (u32, Seq<bool>, bool), vals: Vals) -> int {
    modular::num(if t.2 {
        ops::not_bits(vals(t.0))
    } else {
        vals(t.0)
    }) * modular::num(t.1)
}

/// The sum of the terms of a plan.
spec fn psum(t: Seq<(u32, Seq<bool>, bool)>, vals: Vals) -> int
    decreases t.len(),
{
    if t.len() == 0 {
        0
    } else {
        psum(t.drop_last(), vals) + part(t.last(), vals)
    }
}

proof fn lemma_psum_push(t: Seq<(u32, Seq<bool>, bool)>, x: (u32, Seq<bool>, bool), vals: Vals)
    ensures
        psum(t.push(x), vals) == psum(t, vals) + part(x, vals),
{
    assert(t.push(x).drop_last() =~= t);
}

proof fn lemma_psum_update(
    t: Seq<(u32, Seq<bool>, bool)>,
    i: int,
    x: (u32, Seq<bool>, bool),
    vals: Vals,
)
    requires
        0 <= i < t.len(),
    ensures
        psum(t.update(i, x), vals) == psum(t, vals) - part(t[i], vals) + part(x, vals),
    decreases t.len(),
{
    let u = t.update(i, x);
    if i == t.len() - 1 {
        assert(u.drop_last() =~= t.drop_last());
    } else {
        assert(u.drop_last() =~= t.drop_last().update(i, x));
        lemma_psum_update(t.drop_last(), i, x, vals);
        assert(u.last() == t.last());
    }
}

/// The number of a plan.
spec fn plan_num(p: Plan, vals: Vals) -> int {
    let s = modular::num(p.konst@) + psum(pview(p.terms@), vals);
    if p.not {
        -s - 1
    } else {
        s
    }
}

/// The atoms have values of `w` bits.
spec fn fitting(t: Terms, vals: Vals, w: nat) -> bool {
    forall|k: int| 0 <= k < t.len() ==> vals((#[trigger] t[k]).0).len() == w
}

/// A plan writes the constant `konst` and the terms `t`.
spec fn plan_ok(p: Plan, konst: Seq<bool>, t: Terms) -> bool {
    let w = konst.len();
    &&& p.konst@.len() == w
    &&& p.terms@.len() <= t.len() + 1
    &&& forall|k: int|
        #![trigger p.terms@[k]]
        0 <= k < p.terms@.len() ==> p.terms@[k].1@.len() == w && exists|q: int|
            0 <= q < t.len() && (#[trigger] t[q]).0 == p.terms@[k].0
    &&& forall|vals: Vals|
        #![trigger plan_num(p, vals)]
        fitting(t, vals, w) ==> modular::eqm(plan_num(p, vals), modular::num(konst) + sums::tsum(t, lin_at(vals)), w)
}

/// `k·a + k` is `(-k)·~a`.
proof fn lemma_take_in(v: Seq<bool>, k: Seq<bool>)
    requires
        v.len() == k.len(),
    ensures
        modular::eqm(modular::num(ops::not_bits(v)) * modular::num(ops::un_value(UnOp::Neg, k)), modular::num(v) * modular::num(k) + modular::num(k), k.len()),
{
    let w = k.len();
    modular::lemma_eqm_un(v);
    modular::lemma_eqm_un(k);
    modular::lemma_eqm_mul(
        modular::num(ops::not_bits(v)),
        -modular::num(v) - 1,
        modular::num(ops::un_value(UnOp::Neg, k)),
        -modular::num(k),
        w,
    );
    assert((-modular::num(v) - 1) * -modular::num(k) == modular::num(v) * modular::num(k) + modular::num(k)) by (nonlinear_arith);
}

/// The terms as they are.
fn plain(order: &Vec<(u32, BitVec)>) -> (r: Vec<(u32, BitVec, bool)>)
    ensures
        r@.len() == order@.len(),
        forall|k: int|
            0 <= k < r@.len() ==> (#[trigger] r@[k]).0 == order@[k].0 && r@[k].1@ == order@[k].1@
                && !r@[k].2,
        forall|vals: Vals| #[trigger]
            psum(pview(r@), vals) == sums::tsum(sums::tview(order@), lin_at(vals)),
{
    let mut r: Vec<(u32, BitVec, bool)> = Vec::with_capacity(order.len());
    let mut i: usize = 0;
    while i < order.len()
        invariant
            i <= order.len(),
            r@.len() == i,
            forall|k: int|
                0 <= k < i ==> (#[trigger] r@[k]).0 == order@[k].0 && r@[k].1@ == order@[k].1@
                    && !r@[k].2,
            forall|vals: Vals| #[trigger]
                psum(pview(r@), vals) == sums::tsum(sums::tview(order@).take(i as int), lin_at(vals)),
        decreases order.len() - i,
    {
        let ghost before = r@;
        let x = (order[i].0, order[i].1.dup(), false);
        r.push(x);
        proof {
            let y = (x.0, x.1@, x.2);
            assert(pview(r@) =~= pview(before).push(y));
            assert(sums::tview(order@)[i as int] == (x.0, x.1@));
            assert forall|vals: Vals| #[trigger] psum(pview(r@), vals) == sums::tsum(
                sums::tview(order@).take(i + 1),
                lin_at(vals),
            ) by {
                lemma_psum_push(pview(before), y, vals);
                sums::lemma_tsum_take(sums::tview(order@), i as int, lin_at(vals));
                assert(psum(pview(before), vals) == sums::tsum(
                    sums::tview(order@).take(i as int),
                    lin_at(vals),
                ));
            }
            assert forall|k: int| 0 <= k < i + 1 implies (#[trigger] r@[k]).0 == order@[k].0
                && r@[k].1@ == order@[k].1@ && !r@[k].2 by {
                if k < i {
                    assert(r@[k] == before[k]);
                }
            }
        }
        i = i + 1;
    }
    assert(sums::tview(order@).take(i as int) =~= sums::tview(order@));
    r
}

/// Where a coefficient is first among terms.
fn find(terms: &Vec<(u32, BitVec, bool)>, k: &BitVec) -> (r: Option<usize>)
    ensures
        r matches Some(i) ==> i < terms@.len() && terms@[i as int].1@ == k@,
{
    let mut i: usize = 0;
    while i < terms.len()
        invariant
            i <= terms.len(),
        decreases terms.len() - i,
    {
        if terms[i].1.same(k) {
            return Some(i);
        }
        i = i + 1;
    }
    None
}

/// The nodes the emission makes for a plan: a constant and an operator per scaled term, an
/// operator per extra term, a `~` per complemented term and for the whole, and the constant
/// with its operator (or a negation when no term is positive and there is no constant).
fn count(plan: &Plan) -> (r: u32)
    requires
        plan.konst@.len() >= 1,
        plan.konst@.len() <= MAX_WIDTH,
        plan.terms@.len() <= MAX_TERMS + 1,
        forall|k: int|
            0 <= k < plan.terms@.len() ==> (#[trigger] plan.terms@[k]).1@.len()
                == plan.konst@.len(),
    ensures
        r <= 1000,
{
    let w = plan.konst.len();
    let one = one_of(w);
    let two = BitVec::from_u64(w, 2);
    let minus_one = BitVec::fill(w, true);
    let t: u32 = plan.terms.len() as u32;
    let mut scaled: u32 = 0;
    let mut doubles: u32 = 0;
    let mut nots: u32 = 0;
    let mut negation = t > 0;
    let mut i: usize = 0;
    while i < plan.terms.len()
        invariant
            i <= plan.terms.len(),
            plan.terms@.len() <= MAX_TERMS + 1,
            scaled <= i,
            doubles <= i,
            nots <= i,
            1 <= w <= MAX_WIDTH,
            w == plan.konst@.len(),
            forall|k: int|
                0 <= k < plan.terms@.len() ==> (#[trigger] plan.terms@[k]).1@.len()
                    == plan.konst@.len(),
        decreases plan.terms.len() - i,
    {
        let k = &plan.terms[i].1;
        let nk = k.neg();
        // `a + a` is one node.
        if k.same(&two) || nk.same(&two) {
            doubles = doubles + 1;
        } else if !k.same(&one) && !nk.same(&one) {
            scaled = scaled + 1;
        }
        if plan.terms[i].2 {
            nots = nots + 1;
        }
        // With no positive term and no constant, a negation only when every coefficient is -1.
        if !k.same(&minus_one) {
            negation = false;
        }
        i = i + 1;
    }
    let konst: u32 = if t == 0 {
        1
    } else if plan.konst.is_zero() {
        if negation {
            1
        } else {
            0
        }
    } else {
        2
    };
    2 * scaled + doubles + t.saturating_sub(1) + nots + konst + (if plan.not {
        1
    } else {
        0
    })
}

/// The cheaper of two plans (the first when they are equal).
fn cheaper(best: Plan, p: Plan, Ghost(konst): Ghost<Seq<bool>>, Ghost(t): Ghost<Terms>) -> (r: Plan)
    requires
        plan_ok(best, konst, t),
        plan_ok(p, konst, t),
        1 <= konst.len() <= MAX_WIDTH,
        t.len() <= MAX_TERMS,
    ensures
        plan_ok(r, konst, t),
{
    if count(&p) < count(&best) {
        p
    } else {
        best
    }
}

/// The term at `i`, whose coefficient is the constant, takes the constant in.
fn take_in(
    terms: Vec<(u32, BitVec, bool)>,
    i: usize,
    Ghost(konst): Ghost<Seq<bool>>,
    Ghost(t): Ghost<Terms>,
) -> (r: Plan)
    requires
        konst.len() >= 1,
        terms@.len() == t.len(),
        i < terms@.len(),
        terms@[i as int].1@ == konst,
        forall|k: int|
            0 <= k < t.len() ==> (#[trigger] terms@[k]).0 == t[k].0 && terms@[k].1@ == t[k].1
                && !terms@[k].2,
        forall|k: int| 0 <= k < t.len() ==> (#[trigger] t[k]).1.len() == konst.len(),
        forall|vals: Vals| #[trigger] psum(pview(terms@), vals) == sums::tsum(t, lin_at(vals)),
    ensures
        plan_ok(r, konst, t),
{
    let mut terms = terms;
    let ghost before = terms@;
    let ghost w = konst.len();
    let a = terms[i].0;
    let n = terms[i].1.neg();
    let zero = BitVec::fill(n.len(), false);
    let x = (a, n, true);
    terms.set(i, x);
    let r = Plan { konst: zero, terms, not: false };
    proof {
        let y = (a, n@, true);
        assert(pview(terms@) =~= pview(before).update(i as int, y));
        bits::lemma_zeros_nat(w);
        assert(zero@ =~= bits::zeros(w));
        assert forall|k: int| #![trigger r.terms@[k]] 0 <= k < r.terms@.len() implies r.terms@[k].1@.len()
            == w && exists|q: int| 0 <= q < t.len() && (#[trigger] t[q]).0 == r.terms@[k].0 by {
            let _ = before[k];
            assert(t[k].0 == r.terms@[k].0);
        }
        assert forall|vals: Vals| #![trigger plan_num(r, vals)] fitting(t, vals, w) implies modular::eqm(
            plan_num(r, vals),
            modular::num(konst) + sums::tsum(t, lin_at(vals)),
            w,
        ) by {
            let _ = before[i as int];
            let v = vals(t[i as int].0);
            assert(v.len() == w);
            lemma_psum_update(pview(before), i as int, y, vals);
            assert(psum(pview(before), vals) == sums::tsum(t, lin_at(vals)));
            lemma_take_in(v, konst);
            assert(pview(before)[i as int] == (a, konst, false));
            assert(part(pview(before)[i as int], vals) == modular::num(v) * modular::num(konst));
            assert(part(y, vals) == modular::num(ops::not_bits(v)) * modular::num(n@));
            let s = sums::tsum(t, lin_at(vals)) - modular::num(v) * modular::num(konst);
            modular::lemma_eqm_add(
                part(y, vals),
                modular::num(v) * modular::num(konst) + modular::num(konst),
                s,
                s,
                w,
            );
        }
    }
    r
}

/// What the emission writes for a form, terms in the given order: the cheapest of trading the
/// constant for complements (ties to the plain sum). The first term whose coefficient equals
/// the constant takes it in, `k·a + k = (-k)·~a`, when the constant is negative (`-x - 1` is
/// `~x`) or a power of two from 2 (`2·y + 2` is `~y·-2`, where the shift's amount would be a
/// second constant); a constant 1 goes into a term of coefficient 1 beside another term
/// (`a + t + 1` is `a - ~t`) or splits one of coefficient 2 (`2·t + 1` is `t - ~t`); and a
/// constant -1 complements the negated rest (`-1 - 2·x` is `~(x + x)`).
fn plan(konst: &BitVec, order: &Vec<(u32, BitVec)>) -> (r: Plan)
    requires
        1 <= konst@.len() <= MAX_WIDTH,
        order@.len() <= MAX_TERMS,
        forall|k: int| 0 <= k < order@.len() ==> (#[trigger] order@[k]).1@.len() == konst@.len(),
    ensures
        plan_ok(r, konst@, sums::tview(order@)),
{
    let w = konst.len();
    let ghost t = sums::tview(order@);
    let one = one_of(w);
    let base = plain(order);
    proof {
        assert forall|k: int| 0 <= k < t.len() implies (#[trigger] t[k]).1.len() == w by {
            let _ = order@[k];
        }
        assert forall|k: int| 0 <= k < t.len() implies (#[trigger] base@[k]).0 == t[k].0
            && base@[k].1@ == t[k].1 && !base@[k].2 by {
            let _ = order@[k];
        }
    }
    let pow = !konst.sign() && konst.ones_count() == 1 && !konst.same(&one);
    let at = if konst.sign() || pow {
        find(&base, konst)
    } else {
        None
    };
    let mut best = match at {
        Some(i) => take_in(base, i, Ghost(konst@), Ghost(t)),
        None => {
            let p = Plan { konst: konst.dup(), terms: base, not: false };
            proof {
                assert forall|k: int| #![trigger p.terms@[k]] 0 <= k < p.terms@.len() implies p.terms@[k].1@.len()
                    == w && exists|q: int|
                    0 <= q < t.len() && (#[trigger] t[q]).0 == p.terms@[k].0 by {
                    assert(t[k].0 == p.terms@[k].0);
                }
            }
            p
        },
    };
    if konst.same(&one) {
        let side = plain(order);
        proof {
            assert forall|k: int| 0 <= k < t.len() implies (#[trigger] side@[k]).0 == t[k].0
                && side@[k].1@ == t[k].1 && !side@[k].2 by {
                let _ = order@[k];
            }
        }
        if order.len() >= 2 {
            if let Some(i) = find(&side, &one) {
                let p = take_in(side, i, Ghost(konst@), Ghost(t));
                best = cheaper(best, p, Ghost(konst@), Ghost(t));
            }
        }
        let two = BitVec::from_u64(w, 2);
        let mut split = plain(order);
        if let Some(i) = find(&split, &two) {
            let ghost before = split@;
            let a = split[i].0;
            let x = (a, one.dup(), false);
            let y = (a, one.neg(), true);
            split.set(i, x);
            let ghost mid = split@;
            split.push(y);
            let zero = BitVec::fill(w, false);
            let p = Plan { konst: zero, terms: split, not: false };
            proof {
                let xv = (a, one@, false);
                let yv = (a, y.1@, true);
                assert(pview(mid) =~= pview(before).update(i as int, xv));
                assert(pview(split@) =~= pview(mid).push(yv));
                bits::lemma_zeros_nat(w as nat);
                assert(zero@ =~= bits::zeros(w as nat));
                assert(before[i as int].0 == t[i as int].0 && before[i as int].1@ == t[i as int].1) by {
                    let _ = order@[i as int];
                }
                assert forall|k: int| #![trigger p.terms@[k]] 0 <= k < p.terms@.len() implies p.terms@[k].1@.len()
                    == w && exists|q: int|
                    0 <= q < t.len() && (#[trigger] t[q]).0 == p.terms@[k].0 by {
                    if k < before.len() {
                        let _ = order@[k];
                        assert(t[k].0 == p.terms@[k].0);
                    } else {
                        assert(t[i as int].0 == p.terms@[k].0);
                    }
                }
                assert forall|vals: Vals| #![trigger plan_num(p, vals)] fitting(
                    t,
                    vals,
                    w as nat,
                ) implies modular::eqm(
                    plan_num(p, vals),
                    modular::num(konst@) + sums::tsum(t, lin_at(vals)),
                    w as nat,
                ) by {
                    let v = vals(t[i as int].0);
                    assert(v.len() == w);
                    lemma_psum_update(pview(before), i as int, xv, vals);
                    lemma_psum_push(pview(mid), yv, vals);
                    assert(psum(pview(before), vals) == sums::tsum(t, lin_at(vals)));
                    assert(pview(before)[i as int] == (a, two@, false));
                    lemma_take_in(v, one@);
                    modular::lemma_eqm_nat(2, w as nat);
                    modular::lemma_eqm_mul(modular::num(v), modular::num(v), modular::num(two@), 2, w as nat);
                    // The sum without the split term.
                    let s = sums::tsum(t, lin_at(vals)) - modular::num(v) * modular::num(two@);
                    assert(modular::num(v) * 1 == modular::num(v)) by (nonlinear_arith);
                    modular::lemma_eqm_add(
                        part(yv, vals),
                        modular::num(v) * modular::num(one@) + modular::num(one@),
                        s + modular::num(v),
                        s + modular::num(v),
                        w as nat,
                    );
                    modular::lemma_eqm_add(
                        modular::num(v) * 2,
                        modular::num(v) * modular::num(two@),
                        s + 1,
                        s + 1,
                        w as nat,
                    );
                    assert(modular::num(v) * 2 == modular::num(v) + modular::num(v));
                }
            }
            best = cheaper(best, p, Ghost(konst@), Ghost(t));
        }
    }
    if konst.is_ones() && order.len() > 0 {
        let mut flipped: Vec<(u32, BitVec, bool)> = Vec::with_capacity(order.len());
        let mut i: usize = 0;
        while i < order.len()
            invariant
                i <= order.len(),
                t == sums::tview(order@),
                w == konst@.len(),
                flipped@.len() == i,
                forall|k: int|
                    0 <= k < order@.len() ==> (#[trigger] order@[k]).1@.len() == konst@.len(),
                forall|k: int|
                    0 <= k < i ==> (#[trigger] flipped@[k]).0 == t[k].0 && flipped@[k].1@.len()
                        == w,
                forall|vals: Vals|
                    #![trigger psum(pview(flipped@), vals)]
                    modular::eqm(
                        psum(pview(flipped@), vals),
                        -sums::tsum(t.take(i as int), lin_at(vals)),
                        w as nat,
                    ),
            decreases order.len() - i,
        {
            let ghost before = flipped@;
            let _ = order[i].0;
            assert(t[i as int] == (order@[i as int].0, order@[i as int].1@));
            let x = (order[i].0, order[i].1.neg(), false);
            flipped.push(x);
            proof {
                let xv = (x.0, x.1@, false);
                assert(pview(flipped@) =~= pview(before).push(xv));
                assert forall|vals: Vals|
                    #![trigger psum(pview(flipped@), vals)]
                    modular::eqm(
                        psum(pview(flipped@), vals),
                        -sums::tsum(t.take(i + 1), lin_at(vals)),
                        w as nat,
                    ) by {
                    let g = lin_at(vals);
                    lemma_psum_push(pview(before), xv, vals);
                    sums::lemma_tsum_take(t, i as int, g);
                    assert(modular::eqm(psum(pview(before), vals), -sums::tsum(t.take(i as int), g), w as nat));
                    let v = modular::num(vals(x.0));
                    let k = t[i as int].1;
                    modular::lemma_eqm_un(k);
                    modular::lemma_eqm_mul(v, v, modular::num(x.1@), -modular::num(k), w as nat);
                    assert(v * -modular::num(k) == -(v * modular::num(k))) by (nonlinear_arith);
                    modular::lemma_eqm_add(
                        psum(pview(before), vals),
                        -sums::tsum(t.take(i as int), g),
                        v * modular::num(x.1@),
                        -(v * modular::num(k)),
                        w as nat,
                    );
                }
                assert forall|k: int| 0 <= k < i + 1 implies (#[trigger] flipped@[k]).0 == t[k].0
                    && flipped@[k].1@.len() == w by {
                    if k < i {
                        assert(flipped@[k] == before[k]);
                    }
                }
            }
            i = i + 1;
        }
        let zero = BitVec::fill(w, false);
        let p = Plan { konst: zero, terms: flipped, not: true };
        proof {
            bits::lemma_zeros_nat(w as nat);
            assert(zero@ =~= bits::zeros(w as nat));
            assert(t.take(i as int) =~= t);
            assert forall|k: int| #![trigger p.terms@[k]] 0 <= k < p.terms@.len() implies p.terms@[k].1@.len()
                == w && exists|q: int| 0 <= q < t.len() && (#[trigger] t[q]).0
                == p.terms@[k].0 by {
                assert(t[k].0 == p.terms@[k].0);
            }
            assert forall|vals: Vals| #![trigger plan_num(p, vals)] fitting(
                t,
                vals,
                w as nat,
            ) implies modular::eqm(plan_num(p, vals), modular::num(konst@) + sums::tsum(t, lin_at(vals)), w as nat) by {
                let g = lin_at(vals);
                assert(modular::eqm(psum(pview(flipped@), vals), -sums::tsum(t, g), w as nat));
                modular::lemma_eqm_sub(-1, -1, psum(pview(flipped@), vals), -sums::tsum(t, g), w as nat);
                lemma_minus_one(konst@, 0);
                modular::lemma_eqm_add(modular::num(konst@), -1, sums::tsum(t, g), sums::tsum(t, g), w as nat);
            }
        }
        best = cheaper(best, p, Ghost(konst@), Ghost(t));
    }
    best
}

/// An upper bound on the nodes the emission makes for a form.
pub(crate) fn estimate(form: &Form) -> (r: u32)
    requires
        form@.has(form@.konst.len()),
        1 <= form@.konst.len() <= MAX_WIDTH,
        form@.terms.len() <= MAX_TERMS,
    ensures
        r <= 1000,
{
    proof {
        assert forall|k: int| 0 <= k < form.terms@.len() implies (#[trigger] form.terms@[k]).1@.len()
            == form.konst@.len() by {
            assert(form@.terms[k].1 == form.terms@[k].1@);
        }
    }
    // Which term takes the constant in does not change the count.
    let p = plan(&form.konst, &form.terms);
    count(&p)
}

/// Sums keep their value as the arena grows.
proof fn lemma_sum_grow(t: Terms, tm: Seq<Term>, more: Seq<Term>, env: Env)
    requires
        forall|k: int| 0 <= k < t.len() ==> (#[trigger] t[k]).0 < tm.len(),
        tm.len() <= more.len(),
        forall|i: int| 0 <= i < tm.len() ==> #[trigger] more[i] == tm[i],
    ensures
        sums::tsum(t, lin_at(xor::env_vals(more, env))) == sums::tsum(t, lin_at(xor::env_vals(tm, env))),
{
    let u = lin_at(xor::env_vals(more, env));
    let v = lin_at(xor::env_vals(tm, env));
    assert forall|i: int| 0 <= i < t.len() implies u((#[trigger] t[i]).0, t[i].1) == v(
        t[i].0,
        t[i].1,
    ) by {
        assert(more[t[i].0 as int] == tm[t[i].0 as int]);
    }
    sums::lemma_tsum_same(t, u, v);
}

/// A value with one bit set is that power of two.
pub proof fn lemma_one_bit(s: Seq<bool>, z: nat)
    requires
        ops::count_ones(s) == 1,
        z < s.len(),
        s[z as int],
    ensures
        modular::num(s) == pow2(z),
    decreases s.len(),
{
    let d = s.drop_last();
    if z == s.len() - 1 {
        lemma_no_bits(d);
        bits::lemma_zeros_nat(d.len());
        assert(1 * pow2(d.len()) == pow2(d.len()));
    } else {
        if s.last() {
            lemma_no_bits(d);
            assert(d[z as int] == bits::zeros(d.len())[z as int]);
            assert(false);
        }
        lemma_one_bit(d, z);
        assert(0 * pow2(d.len()) == 0);
    }
}

/// A value with no bit set is zero.
pub proof fn lemma_no_bits(s: Seq<bool>)
    requires
        ops::count_ones(s) == 0,
    ensures
        s == bits::zeros(s.len()),
    decreases s.len(),
{
    if s.len() > 0 {
        lemma_no_bits(s.drop_last());
        assert forall|i: int| 0 <= i < s.len() implies s[i] == bits::zeros(s.len())[i] by {
            if i < s.len() - 1 {
                assert(s.drop_last()[i] == bits::zeros((s.len() - 1) as nat)[i]);
            }
        }
    }
    assert(s =~= bits::zeros(s.len()));
}

impl<'a> Runner<'a> {
    /// One term of the emission: a multiple of `a`.
    fn lin_term(&mut self, cx: &mut Context, a: u32, k: &BitVec) -> (out: Result<u32, Stop>)
        requires
            old(self).wf(old(cx)),
            a < old(cx).n(),
            old(cx).w(a as int) == k@.len(),
            1 <= k@.len() <= MAX_WIDTH,
        ensures
            runner::went(final(self), final(cx), old(self), old(cx)),
            out matches Err(e) ==> final(self).refuses(final(cx), e),
            out matches Ok(x) ==> x < final(cx).n() && final(cx).w(x as int) == k@.len() && forall|
                env: Env,
            |
                #![trigger final(cx).val(x as int, env)]
                modular::eqm(
                    modular::num(final(cx).val(x as int, env)),
                    modular::num(old(cx).val(a as int, env)) * modular::num(k@),
                    k@.len(),
                ),
    {
        let w = k.len();
        let ghost cx0 = *cx;
        proof {
            assert(cx.ok_at(a as int));
        }
        self.charge(Counter::PassWork, 1)?;
        if k.to_u64() == Some(1) {
            proof {
                assert forall|env: Env|
                    #![trigger cx.val(a as int, env)]
                    modular::eqm(
                        modular::num(cx.val(a as int, env)),
                        modular::num(cx0.val(a as int, env)) * modular::num(k@),
                        k@.len(),
                    ) by {
                    let v = modular::num(cx.val(a as int, env));
                    assert(v * 1 == v) by (nonlinear_arith);
                }
            }
            return Ok(a);
        }
        // `a + a`: one node, where a shift needs its amount too.
        if k.same(&BitVec::from_u64(w, 2)) {
            let x = self.c_bin(cx, BinOp::Add, a, a)?;
            proof {
                assert forall|env: Env|
                    #![trigger cx.val(x as int, env)]
                    modular::eqm(
                        modular::num(cx.val(x as int, env)),
                        modular::num(cx0.val(a as int, env)) * modular::num(k@),
                        k@.len(),
                    ) by {
                    let v = cx0.val(a as int, env);
                    modular::lemma_eqm_ops(v, v);
                    modular::lemma_eqm_nat(2, w as nat);
                    modular::lemma_eqm_mul(modular::num(v), modular::num(v), modular::num(k@), 2, w as nat);
                    assert(modular::num(v) * 2 == modular::num(v) + modular::num(v));
                }
            }
            return Ok(x);
        }
        if k.ones_count() == 1 {
            let z = k.ctz();
            let sh = BitVec::from_u64(w, z as u64);
            proof {
                if z == k@.len() {
                    assert(k@ =~= bits::zeros(k@.len()));
                    lemma_count_zeros(k@.len());
                }
                lemma_one_bit(k@, z as nat);
                lemma_small_fits(z as nat, w as nat);
            }
            let s = self.mk_const(cx, &sh)?;
            let ghost cx1 = *cx;
            let x = self.c_bin(cx, BinOp::Shl, a, s)?;
            proof {
                assert forall|env: Env|
                    #![trigger cx.val(x as int, env)]
                    modular::eqm(
                        modular::num(cx.val(x as int, env)),
                        modular::num(cx0.val(a as int, env)) * modular::num(k@),
                        k@.len(),
                    ) by {
                    let v = cx0.val(a as int, env);
                    assert(cx1.val(a as int, env) == v);
                    assert(cx1.val(s as int, env) == sh@);
                    modular::lemma_eqm_shl(v, z as nat);
                }
            }
            return Ok(x);
        }
        self.lin_product(cx, a, k)
    }

    /// A multiple of `a`, as a product.
    fn lin_product(&mut self, cx: &mut Context, a: u32, k: &BitVec) -> (out: Result<u32, Stop>)
        requires
            old(self).wf(old(cx)),
            a < old(cx).n(),
            old(cx).w(a as int) == k@.len(),
            1 <= k@.len() <= MAX_WIDTH,
        ensures
            runner::went(final(self), final(cx), old(self), old(cx)),
            out matches Err(e) ==> final(self).refuses(final(cx), e),
            out matches Ok(x) ==> x < final(cx).n() && final(cx).w(x as int) == k@.len() && forall|
                env: Env,
            |
                #![trigger final(cx).val(x as int, env)]
                modular::eqm(
                    modular::num(final(cx).val(x as int, env)),
                    modular::num(old(cx).val(a as int, env)) * modular::num(k@),
                    k@.len(),
                ),
    {
        let ghost cx0 = *cx;
        proof {
            assert(cx.ok_at(a as int));
        }
        let c = self.mk_const(cx, k)?;
        let ghost cx1 = *cx;
        let x = self.c_bin(cx, BinOp::Mul, a, c)?;
        proof {
            assert forall|env: Env|
                #![trigger cx.val(x as int, env)]
                modular::eqm(
                    modular::num(cx.val(x as int, env)),
                    modular::num(cx0.val(a as int, env)) * modular::num(k@),
                    k@.len(),
                ) by {
                let v = cx0.val(a as int, env);
                assert(cx1.val(a as int, env) == v);
                assert(cx1.val(c as int, env) == k@);
                modular::lemma_eqm_ops(v, k@);
            }
        }
        Ok(x)
    }

    /// The terms of a plan, each complemented atom built.
    fn lin_complement(&mut self, cx: &mut Context, p: &Plan, Ghost(t): Ghost<Terms>) -> (out: Result<
        Vec<(u32, BitVec)>,
        Stop,
    >)
        requires
            old(self).wf(old(cx)),
            plan_ok(*p, p.konst@, t) || exists|k: Seq<bool>| plan_ok(*p, k, t) && k.len()
                == p.konst@.len(),
            xor::atoms_fit(t, old(cx).tm(), p.konst@.len()),
        ensures
            runner::went(final(self), final(cx), old(self), old(cx)),
            out matches Err(e) ==> final(self).refuses(final(cx), e),
            out matches Ok(r) ==> r@.len() == p.terms@.len() && xor::atoms_fit(
                sums::tview(r@),
                final(cx).tm(),
                p.konst@.len(),
            ) && (forall|k: int|
                0 <= k < r@.len() ==> (#[trigger] r@[k]).1@.len() == p.konst@.len()) && forall|
                env: Env,
            |
                #![trigger xor::env_vals(final(cx).tm(), env)]
                sums::tsum(sums::tview(r@), lin_at(xor::env_vals(final(cx).tm(), env))) == psum(
                    pview(p.terms@),
                    xor::env_vals(old(cx).tm(), env),
                ),
    {
        let ghost tm = cx.tm();
        let ghost w = p.konst@.len();
        let mut r: Vec<(u32, BitVec)> = Vec::with_capacity(p.terms.len());
        let mut i: usize = 0;
        while i < p.terms.len()
            invariant
                i <= p.terms.len(),
                runner::went(self, cx, old(self), old(cx)),
                old(cx).wf(),
                tm == old(cx).tm(),
                w == p.konst@.len(),
                plan_ok(*p, p.konst@, t) || exists|k: Seq<bool>| plan_ok(*p, k, t) && k.len()
                    == p.konst@.len(),
                xor::atoms_fit(t, tm, w),
                r@.len() == i,
                xor::atoms_fit(sums::tview(r@), cx.tm(), w),
                forall|k: int| 0 <= k < r@.len() ==> (#[trigger] r@[k]).1@.len() == w,
                forall|env: Env|
                    #![trigger xor::env_vals(cx.tm(), env)]
                    sums::tsum(sums::tview(r@), lin_at(xor::env_vals(cx.tm(), env))) == psum(
                        pview(p.terms@).take(i as int),
                        xor::env_vals(tm, env),
                    ),
            decreases p.terms.len() - i,
        {
            let a = p.terms[i].0;
            let ghost cx1 = *cx;
            let ghost before = r@;
            proof {
                let _ = p.terms@[i as int];
                let q = choose|q: int| 0 <= q < t.len() && (#[trigger] t[q]).0 == a;
                assert(t[q].0 == a);
                assert(tm[a as int] == cx1.tm()[a as int]);
            }
            let x = if p.terms[i].2 {
                self.c_un(cx, UnOp::Not, a)?
            } else {
                a
            };
            let k = p.terms[i].1.dup();
            r.push((x, k));
            proof {
                let xv = (x, k@);
                let pv = pview(p.terms@)[i as int];
                assert(pv == (a, k@, p.terms@[i as int].2));
                assert(sums::tview(r@) =~= sums::tview(before).push(xv));
                assert(cx.ok_at(x as int));
                assert forall|env: Env|
                    #![trigger xor::env_vals(cx.tm(), env)]
                    sums::tsum(sums::tview(r@), lin_at(xor::env_vals(cx.tm(), env))) == psum(
                        pview(p.terms@).take(i + 1),
                        xor::env_vals(tm, env),
                    ) by {
                    let g = lin_at(xor::env_vals(cx.tm(), env));
                    sums::lemma_tsum_push(sums::tview(before), xv, g);
                    lemma_sum_grow(sums::tview(before), cx1.tm(), cx.tm(), env);
                    assert(sums::tsum(sums::tview(before), lin_at(xor::env_vals(cx1.tm(), env))) == psum(
                        pview(p.terms@).take(i as int),
                        xor::env_vals(tm, env),
                    ));
                    assert(pview(p.terms@).take(i + 1) =~= pview(p.terms@).take(i as int).push(pv));
                    lemma_psum_push(pview(p.terms@).take(i as int), pv, xor::env_vals(tm, env));
                    let v = cx1.val(a as int, env);
                    assert(xor::env_vals(tm, env)(a) == v);
                    assert(xor::env_vals(cx.tm(), env)(x) == cx.val(x as int, env));
                }
                assert forall|q: int| #![trigger sums::tview(r@)[q]] 0 <= q < sums::tview(r@).len() implies sums::tview(
                    r@,
                )[q].0 < cx.tm().len() && term::twidth(cx.tm()[sums::tview(r@)[q].0 as int]) == w && term::tok(
                    cx.tm()[sums::tview(r@)[q].0 as int],
                ) by {
                    if q < before.len() {
                        assert(sums::tview(r@)[q] == sums::tview(before)[q]);
                        assert(cx.tm()[sums::tview(before)[q].0 as int] == cx1.tm()[sums::tview(
                            before,
                        )[q].0 as int]);
                    }
                }
                assert forall|q: int| 0 <= q < r@.len() implies (#[trigger] r@[q]).1@.len() == w by {
                    if q < before.len() {
                        assert(r@[q] == before[q]);
                    }
                }
            }
            i = i + 1;
        }
        assert(pview(p.terms@).take(i as int) =~= pview(p.terms@));
        Ok(r)
    }

    /// Adds the terms `ts` to `acc`, or subtracts terms whose coefficients are given negated.
    fn lin_accumulate(
        &mut self,
        cx: &mut Context,
        acc: Option<u32>,
        ts: &Vec<(u32, BitVec)>,
        minus: bool,
        Ghost(so_far): Ghost<spec_fn(Env) -> int>,
        Ghost(tm): Ghost<Seq<Term>>,
        Ghost(w): Ghost<nat>,
    ) -> (out: Result<Option<u32>, Stop>)
        requires
            old(self).wf(old(cx)),
            1 <= w <= MAX_WIDTH,
            tm.len() <= old(cx).n(),
            forall|i: int| 0 <= i < tm.len() ==> #[trigger] old(cx).tm()[i] == tm[i],
            xor::atoms_fit(sums::tview(ts@), tm, w),
            forall|k: int| 0 <= k < ts@.len() ==> (#[trigger] ts@[k]).1@.len() == w,
            acc is None ==> forall|env: Env| #[trigger] so_far(env) == 0,
            acc matches Some(x) ==> x < old(cx).n() && old(cx).w(x as int) == w && forall|env: Env|
                #![trigger old(cx).val(x as int, env)]
                modular::eqm(modular::num(old(cx).val(x as int, env)), so_far(env), w),
        ensures
            runner::went(final(self), final(cx), old(self), old(cx)),
            out matches Err(e) ==> final(self).refuses(final(cx), e),
            out matches Ok(r) ==> (r is None <==> acc is None && ts@.len() == 0),
            out matches Ok(Some(x)) ==> x < final(cx).n() && final(cx).w(x as int) == w && forall|
                env: Env,
            |
                #![trigger final(cx).val(x as int, env)]
                modular::eqm(
                    modular::num(final(cx).val(x as int, env)),
                    so_far(env) + sums::tsum(sums::tview(ts@), lin_at(xor::env_vals(tm, env))),
                    w,
                ),
    {
        let ghost first = acc;
        let mut acc = acc;
        let ghost t = sums::tview(ts@);
        let mut i: usize = 0;
        while i < ts.len()
            invariant
                i <= ts.len(),
                runner::went(self, cx, old(self), old(cx)),
                1 <= w <= MAX_WIDTH,
                t == sums::tview(ts@),
                tm.len() <= cx.n(),
                forall|i: int| 0 <= i < tm.len() ==> #[trigger] cx.tm()[i] == tm[i],
                xor::atoms_fit(t, tm, w),
                forall|k: int| 0 <= k < ts@.len() ==> (#[trigger] ts@[k]).1@.len() == w,
                acc is None ==> i == 0 && first is None && forall|env: Env| #[trigger] so_far(env)
                    == 0,
                acc is Some && i == 0 ==> first is Some,
                acc matches Some(x) ==> x < cx.n() && cx.w(x as int) == w && forall|env: Env|
                    #![trigger cx.val(x as int, env)]
                    modular::eqm(
                        modular::num(cx.val(x as int, env)),
                        so_far(env) + sums::tsum(t.take(i as int), lin_at(xor::env_vals(tm, env))),
                        w,
                    ),
            decreases ts.len() - i,
        {
            let ghost cx1 = *cx;
            let a = ts[i].0;
            let k = if minus {
                ts[i].1.neg()
            } else {
                ts[i].1.dup()
            };
            let ghost kv = ts@[i as int].1@;
            proof {
                assert(t[i as int] == (a, kv));
                assert(cx.tm()[a as int] == tm[a as int]);
                modular::lemma_eqm_un(kv);
            }
            let x = self.lin_term(cx, a, &k)?;
            let ghost cx2 = *cx;
            let y = match acc {
                None => if minus {
                    self.c_un(cx, UnOp::Neg, x)?
                } else {
                    x
                },
                Some(s) => if minus {
                    self.c_bin(cx, BinOp::Sub, s, x)?
                } else {
                    self.c_bin(cx, BinOp::Add, s, x)?
                },
            };
            proof {
                assert(cx2.ok_at(x as int));
                assert forall|env: Env|
                    #![trigger cx.val(y as int, env)]
                    modular::eqm(
                        modular::num(cx.val(y as int, env)),
                        so_far(env) + sums::tsum(t.take(i + 1), lin_at(xor::env_vals(tm, env))),
                        w,
                    ) by {
                    let vals = xor::env_vals(tm, env);
                    let g = lin_at(vals);
                    sums::lemma_tsum_take(t, i as int, g);
                    let v = modular::num(vals(a));
                    assert(cx1.val(a as int, env) == vals(a));
                    let xv = cx2.val(x as int, env);
                    assert(modular::eqm(modular::num(xv), v * modular::num(k@), w));
                    let sum = so_far(env) + sums::tsum(t.take(i as int), g);
                    // The term, with its sign.
                    if minus {
                        modular::lemma_eqm_mul(v, v, modular::num(k@), -modular::num(kv), w);
                        assert(v * -modular::num(kv) == -(v * modular::num(kv))) by (nonlinear_arith);
                        assert(modular::eqm(modular::num(xv), -(v * modular::num(kv)), w));
                    }
                    match acc {
                        None => {
                            assert(t.take(0) =~= Seq::empty());
                            assert(so_far(env) == 0);
                            if minus {
                                modular::lemma_eqm_un(xv);
                                modular::lemma_eqm_sub(0, 0, modular::num(xv), -(v * modular::num(kv)), w);
                            }
                        },
                        Some(s) => {
                            let sv = cx1.val(s as int, env);
                            assert(cx2.val(s as int, env) == sv);
                            assert(cx1.ok_at(s as int));
                            assert(modular::eqm(modular::num(sv), sum, w));
                            modular::lemma_eqm_ops(sv, xv);
                            if minus {
                                modular::lemma_eqm_sub(modular::num(sv), sum, modular::num(xv), -(v * modular::num(kv)), w);
                            } else {
                                modular::lemma_eqm_add(modular::num(sv), sum, modular::num(xv), v * modular::num(kv), w);
                            }
                        },
                    }
                }
            }
            acc = Some(y);
            i = i + 1;
        }
        assert(t.take(i as int) =~= t);
        proof {
            if let Some(x) = acc {
                if i == 0 {
                    assert(t =~= Seq::empty());
                }
            }
        }
        Ok(acc)
    }
}

impl<'a> Runner<'a> {
    /// Emits `form` canonically.
    #[verifier::rlimit(40)]
    pub(crate) fn lin_emit(&mut self, cx: &mut Context, form: &Form) -> (out: Result<u32, Stop>)
        requires
            old(self).wf(old(cx)),
            form@.has(form@.konst.len()),
            form@.terms.len() <= MAX_TERMS,
            1 <= form@.konst.len() <= MAX_WIDTH,
            xor::atoms_fit(form@.terms, old(cx).tm(), form@.konst.len()),
        ensures
            runner::went(final(self), final(cx), old(self), old(cx)),
            out matches Err(e) ==> final(self).refuses(final(cx), e),
            out matches Ok(x) ==> x < final(cx).n() && final(cx).w(x as int) == form@.konst.len()
                && forall|env: Env| #[trigger]
                final(cx).val(x as int, env) == lin_value(form@, xor::env_vals(old(cx).tm(), env)),
    {
        let ghost cx0 = *cx;
        let ghost tm0 = cx.tm();
        let w = form.konst.len();
        proof {
            assert forall|i: int| 0 <= i < form.terms@.len() implies (#[trigger] form.terms@[i]).0
                < cx.n() by {
                assert(form@.terms[i].0 == form.terms@[i].0);
            }
            assert(sums::tview(form.terms@) =~= form@.terms);
        }
        let order = sorted_terms(cx, &form.terms);
        let ghost t0 = sums::tview(order@);
        proof {
            assert forall|k: int| #![trigger t0[k]] 0 <= k < t0.len() implies t0[k].0 < tm0.len()
                && term::twidth(tm0[t0[k].0 as int]) == w && term::tok(tm0[t0[k].0 as int]) && t0[k].1.len()
                == w by {
                let q = choose|q: int| 0 <= q < form@.terms.len() && form@.terms[q] == t0[k];
                let _ = form@.terms[q];
            }
            assert forall|k: int| 0 <= k < order@.len() implies (#[trigger] order@[k]).1@.len()
                == w by {
                assert(t0[k].1 == order@[k].1@);
            }
        }
        let p = plan(&form.konst, &order);
        assert(plan_ok(p, form@.konst, t0) && form@.konst.len() == p.konst@.len());
        let built = self.lin_complement(cx, &p, Ghost(t0))?;
        let ghost cx1 = *cx;
        let ghost tm = cx.tm();
        proof {
            assert forall|i: int| 0 <= i < built@.len() implies (#[trigger] built@[i]).0
                < cx.n() by {
                assert(sums::tview(built@)[i].0 == built@[i].0);
            }
        }
        let terms = sorted_terms(cx, &built);
        let ghost t = sums::tview(terms@);
        proof {
            assert forall|k: int| #![trigger t[k]] 0 <= k < t.len() implies t[k].0 < tm.len()
                && term::twidth(tm[t[k].0 as int]) == w && term::tok(tm[t[k].0 as int]) && t[k].1.len() == w by {
                let q = choose|q: int| 0 <= q < sums::tview(built@).len() && sums::tview(built@)[q] == t[k];
                let _ = built@[q];
            }
        }
        // Positive (signed non-negative) coefficients first, in canonical order; then the negated.
        let mut pos: Vec<(u32, BitVec)> = Vec::new();
        let mut neg: Vec<(u32, BitVec)> = Vec::new();
        let mut i: usize = 0;
        while i < terms.len()
            invariant
                i <= terms.len(),
                t == sums::tview(terms@),
                1 <= w,
                forall|k: int|
                    #![trigger t[k]]
                    0 <= k < t.len() ==> t[k].0 < tm.len() && term::twidth(tm[t[k].0 as int]) == w && term::tok(
                        tm[t[k].0 as int],
                    ) && t[k].1.len() == w,
                xor::atoms_fit(sums::tview(pos@), tm, w as nat),
                xor::atoms_fit(sums::tview(neg@), tm, w as nat),
                forall|k: int| 0 <= k < pos@.len() ==> (#[trigger] pos@[k]).1@.len() == w,
                forall|k: int| 0 <= k < neg@.len() ==> (#[trigger] neg@[k]).1@.len() == w,
                forall|g: spec_fn(u32, Seq<bool>) -> int|
                    #![trigger sums::tsum(sums::tview(pos@), g)]
                    #![trigger sums::tsum(sums::tview(neg@), g)]
                    sums::tsum(sums::tview(pos@), g) + sums::tsum(sums::tview(neg@), g) == sums::tsum(t.take(i as int), g),
            decreases terms.len() - i,
        {
            let ghost pos0 = pos@;
            let ghost neg0 = neg@;
            let _ = terms[i].0;
            assert(t[i as int] == (terms@[i as int].0, terms@[i as int].1@));
            let x = (terms[i].0, terms[i].1.dup());
            let ghost xv = (x.0, x.1@);
            if x.1.sign() {
                neg.push(x);
                assert(sums::tview(neg@) =~= sums::tview(neg0).push(xv));
            } else {
                pos.push(x);
                assert(sums::tview(pos@) =~= sums::tview(pos0).push(xv));
            }
            proof {
                assert forall|g: spec_fn(u32, Seq<bool>) -> int|
                    #![trigger sums::tsum(sums::tview(pos@), g)]
                    #![trigger sums::tsum(sums::tview(neg@), g)]
                    sums::tsum(sums::tview(pos@), g) + sums::tsum(sums::tview(neg@), g) == sums::tsum(t.take(i + 1), g) by {
                    sums::lemma_tsum_take(t, i as int, g);
                    sums::lemma_tsum_push(sums::tview(pos0), xv, g);
                    sums::lemma_tsum_push(sums::tview(neg0), xv, g);
                    assert(sums::tsum(sums::tview(pos0), g) + sums::tsum(sums::tview(neg0), g) == sums::tsum(t.take(i as int), g));
                }
                assert forall|k: int| 0 <= k < pos@.len() implies (#[trigger] pos@[k]).1@.len() == w by {
                    if k < pos0.len() {
                        assert(pos@[k] == pos0[k]);
                    }
                }
                assert forall|k: int| 0 <= k < neg@.len() implies (#[trigger] neg@[k]).1@.len() == w by {
                    if k < neg0.len() {
                        assert(neg@[k] == neg0[k]);
                    }
                }
                assert forall|k: int| #![trigger sums::tview(pos@)[k]] 0 <= k < sums::tview(pos@).len() implies sums::tview(
                    pos@,
                )[k].0 < tm.len() && term::twidth(tm[sums::tview(pos@)[k].0 as int]) == w && term::tok(
                    tm[sums::tview(pos@)[k].0 as int],
                ) by {
                    if k < pos0.len() {
                        assert(sums::tview(pos@)[k] == sums::tview(pos0)[k]);
                    }
                }
                assert forall|k: int| #![trigger sums::tview(neg@)[k]] 0 <= k < sums::tview(neg@).len() implies sums::tview(
                    neg@,
                )[k].0 < tm.len() && term::twidth(tm[sums::tview(neg@)[k].0 as int]) == w && term::tok(
                    tm[sums::tview(neg@)[k].0 as int],
                ) by {
                    if k < neg0.len() {
                        assert(sums::tview(neg@)[k] == sums::tview(neg0)[k]);
                    }
                }
            }
            i = i + 1;
        }
        assert(t.take(i as int) =~= t);
        let ghost zero_fn = |env: Env| 0int;
        let mut acc = self.lin_accumulate(
            cx,
            None,
            &pos,
            false,
            Ghost(zero_fn),
            Ghost(tm),
            Ghost(w as nat),
        )?;
        // With no positive term, the constant starts the sum (`5 - 3·x`), or else the first
        // negative term is a product by its (negative) coefficient, one node cheaper than negating
        // it (`y·-2` for `-(y << 1)`); a coefficient of -1 stays a negation.
        let mut konst_left = p.konst.dup();
        let ghost neg_all = sums::tview(neg@);
        let ghost mut so_far: spec_fn(Env) -> int = |env: Env| sums::tsum(
            sums::tview(pos@),
            lin_at(xor::env_vals(tm, env)),
        );
        proof {
            if acc is None {
                assert forall|env: Env| #[trigger] so_far(env) == 0 by {
                    assert(sums::tview(pos@) =~= Seq::empty());
                }
            }
        }
        if acc.is_none() && neg.len() > 0 {
            if !p.konst.is_zero() {
                let c = self.mk_const(cx, &p.konst)?;
                acc = Some(c);
                konst_left = BitVec::fill(w, false);
                proof {
                    so_far = |env: Env| modular::num(p.konst@);
                }
            } else {
                let mut at: usize = 0;
                while at < neg.len() && neg[at].1.is_ones()
                    invariant
                        at <= neg.len(),
                    decreases neg.len() - at,
                {
                    at = at + 1;
                }
                if at < neg.len() {
                    let ghost neg0 = neg@;
                    let (a, k) = neg.remove(at);
                    let ghost cxa = *cx;
                    proof {
                        assert(sums::tview(neg0)[at as int] == (a, k@));
                        assert(cx.tm()[a as int] == tm[a as int]);
                        assert(sums::tview(neg0) =~= sums::tview(neg@).insert(at as int, (a, k@)));
                        assert forall|q: int| 0 <= q < neg@.len() implies (#[trigger] neg@[q]).1@.len()
                            == w by {
                            if q < at {
                                assert(neg@[q] == neg0[q]);
                            } else {
                                assert(neg@[q] == neg0[q + 1]);
                            }
                        }
                        assert forall|q: int| #![trigger sums::tview(neg@)[q]] 0 <= q < sums::tview(neg@).len() implies sums::tview(
                            neg@,
                        )[q].0 < tm.len() && term::twidth(tm[sums::tview(neg@)[q].0 as int]) == w && term::tok(
                            tm[sums::tview(neg@)[q].0 as int],
                        ) by {
                            if q < at {
                                assert(sums::tview(neg@)[q] == sums::tview(neg0)[q]);
                            } else {
                                assert(sums::tview(neg@)[q] == sums::tview(neg0)[q + 1]);
                            }
                        }
                    }
                    self.charge(Counter::PassWork, 1)?;
                    let x = self.lin_product(cx, a, &k)?;
                    acc = Some(x);
                    proof {
                        so_far = |env: Env| modular::num(xor::env_vals(tm, env)(a)) * modular::num(k@);
                        assert forall|env: Env|
                            #![trigger cx.val(x as int, env)]
                            modular::eqm(modular::num(cx.val(x as int, env)), so_far(env), w as nat) by {
                            assert(cxa.val(a as int, env) == xor::env_vals(tm, env)(a));
                        }
                        assert forall|env: Env| #[trigger]
                            so_far(env) + sums::tsum(sums::tview(neg@), lin_at(xor::env_vals(tm, env))) == sums::tsum(
                                neg_all,
                                lin_at(xor::env_vals(tm, env)),
                            ) by {
                            sums::lemma_tsum_insert(
                                sums::tview(neg@),
                                at as int,
                                (a, k@),
                                lin_at(xor::env_vals(tm, env)),
                            );
                        }
                    }
                }
            }
        }
        // What the accumulated terms and the constant still to come add up to.
        proof {
            bits::lemma_zeros_nat(w as nat);
            assert forall|env: Env| #[trigger]
                so_far(env) + sums::tsum(sums::tview(neg@), lin_at(xor::env_vals(tm, env))) + modular::num(konst_left@)
                    == modular::num(p.konst@) + sums::tsum(sums::tview(pos@), lin_at(xor::env_vals(tm, env))) + sums::tsum(
                    neg_all,
                    lin_at(xor::env_vals(tm, env)),
                ) by {
                if sums::tview(pos@).len() == 0 {
                    assert(sums::tview(pos@) =~= Seq::empty());
                }
            }
        }
        acc = self.lin_accumulate(
            cx,
            acc,
            &neg,
            true,
            Ghost(so_far),
            Ghost(tm),
            Ghost(w as nat),
        )?;
        self.checked()?;
        let ghost cx2 = *cx;
        let sum = match acc {
            None => self.mk_const(cx, &konst_left)?,
            Some(x) => if konst_left.is_zero() {
                x
            } else {
                let c = self.mk_const(cx, &konst_left)?;
                let ghost cx3 = *cx;
                let y = self.c_bin(cx, BinOp::Add, x, c)?;
                proof {
                    assert forall|env: Env|
                        #![trigger cx.val(y as int, env)]
                        modular::eqm(
                            modular::num(cx.val(y as int, env)),
                            modular::num(cx2.val(x as int, env)) + modular::num(konst_left@),
                            w as nat,
                        ) by {
                        assert(cx3.val(x as int, env) == cx2.val(x as int, env));
                        assert(cx3.val(c as int, env) == konst_left@);
                        assert(cx2.ok_at(x as int));
                        modular::lemma_eqm_ops(cx2.val(x as int, env), konst_left@);
                    }
                }
                y
            },
        };
        let ghost cx4 = *cx;
        proof {
            assert(cx.ok_at(sum as int));
            assert forall|env: Env|
                #![trigger cx4.val(sum as int, env)]
                modular::eqm(
                    modular::num(cx4.val(sum as int, env)),
                    modular::num(p.konst@) + psum(pview(p.terms@), xor::env_vals(tm0, env)),
                    w as nat,
                ) by {
                let g = lin_at(xor::env_vals(tm, env));
                assert(sums::tsum(sums::tview(pos@), g) + sums::tsum(neg_all, g) == sums::tsum(t, g));
                assert(sums::tsum(t, g) == sums::tsum(sums::tview(built@), g));
                assert(xor::env_vals(tm, env) == xor::env_vals(cx1.tm(), env));
                let total = so_far(env) + sums::tsum(sums::tview(neg@), g) + modular::num(konst_left@);
                match acc {
                    None => {
                        assert(sums::tview(neg@) =~= Seq::empty());
                        assert(so_far(env) == 0);
                    },
                    Some(x) => {
                        let v = cx2.val(x as int, env);
                        if konst_left@ == bits::zeros(w as nat) {
                            assert(cx4.val(sum as int, env) == v);
                        } else {
                            modular::lemma_eqm_add(
                                modular::num(v),
                                so_far(env) + sums::tsum(sums::tview(neg@), g),
                                modular::num(konst_left@),
                                modular::num(konst_left@),
                                w as nat,
                            );
                        }
                    },
                }
            }
        }
        let x = if p.not {
            self.c_un(cx, UnOp::Not, sum)?
        } else {
            sum
        };
        proof {
            assert(cx.ok_at(x as int));
            assert forall|env: Env| #[trigger] cx.val(x as int, env) == lin_value(
                form@,
                xor::env_vals(tm0, env),
            ) by {
                let vals = xor::env_vals(tm0, env);
                assert(fitting(t0, vals, w as nat)) by {
                    assert forall|k: int| 0 <= k < t0.len() implies vals((#[trigger] t0[k]).0).len()
                        == w by {}
                }
                let s = modular::num(p.konst@) + psum(pview(p.terms@), vals);
                let v = cx4.val(sum as int, env);
                assert(modular::eqm(modular::num(v), s, w as nat));
                if p.not {
                    modular::lemma_eqm_un(v);
                    modular::lemma_eqm_sub(-1, -1, modular::num(v), s, w as nat);
                }
                assert(modular::eqm(modular::num(cx.val(x as int, env)), plan_num(p, vals), w as nat));
                assert(sums::tsum(t0, lin_at(vals)) == sums::tsum(form@.terms, lin_at(vals)));
                lemma_is_form(cx.val(x as int, env), form@, vals);
            }
        }
        Ok(x)
    }
}

impl<'a> Runner<'a> {
    /// The linear pass at `n`.
    pub(crate) fn lin_step(&mut self, cx: &mut Context, n: u32) -> (out: Result<Step, Stop>)
        requires
            old(self).wf(old(cx)),
            n < old(cx).n(),
        ensures
            runner::went(final(self), final(cx), old(self), old(cx)),
            out matches Err(e) ==> final(self).refuses(final(cx), e),
            out matches Ok(s) ==> fin::step_keeps(s, final(cx).tm(), final(self).hyp@, n as int),
            old(self).refuses_all() ==> !(out matches Ok(Step::To(_, _))),
    {
        // A case split on a condition mask the node reads, first (see `cases`).
        let before: u32 = cx.len() as u32;
        if let Some((e, f)) = self.split(cx, n)? {
            let none: Vec<u32> = Vec::new();
            if let Step::To(x, fin) = self.finish(cx, PassKind::Linear, n, e, before, &none, f)? {
                return Ok(Step::To(x, fin));
            }
        }
        let node = cx.node(n);
        if !linear_op(&node) || cx.is_const(n) {
            return Ok(Step::Normal(Fin::full()));
        }
        let form = self.lin_form_of(cx, n)?;
        if is_atom_of(&form, n) {
            return Ok(Step::Normal(form.fin));
        }
        assert(cx.ok_at(n as int));
        let atoms = atoms_of(&form.terms);
        // A constant always commits (see `shrinks`).
        if form.terms.len() > 0 {
            let cost = estimate(&form);
            if let Some(f) = self.worth_building(cx, n, &atoms, cost)? {
                let c = self.stats.passes.entry(PassKind::Linear);
                c.rejected_cost = bump(c.rejected_cost);
                return Ok(Step::Normal(form.fin.and(f)));
            }
        }
        let before: u32 = cx.len() as u32;
        let ghost cx0 = *cx;
        let ghost h = self.hyp@;
        let e = self.lin_emit(cx, &form)?;
        proof {
            assert forall|env: Env|
                #![trigger term::value(cx.tm()[n as int], env)]
                #![trigger term::value(cx.tm()[e as int], env)]
                form.fin.rel.admits(h, env) implies term::value(cx.tm()[n as int], env) == term::value(
                cx.tm()[e as int],
                env,
            ) by {
                assert(cx.val(e as int, env) == lin_value(form@, xor::env_vals(cx0.tm(), env)));
                assert(cx.tm()[n as int] == cx0.tm()[n as int]);
            }
        }
        self.finish(cx, PassKind::Linear, n, e, before, &atoms, form.fin)
    }
}

/// A small count fits.
pub proof fn lemma_small_fits(z: nat, w: nat)
    requires
        z < w,
    ensures
        bits::nat_of(bits::bits_of(z as int, w)) == z,
{
    lemma_pow2_big(w);
    bits::lemma_fits(z as int, w);
}

/// A width is below its power of two.
pub proof fn lemma_pow2_big(w: nat)
    ensures
        w < pow2(w),
    decreases w,
{
    if w == 0 {
        bits::lemma_pow2_zero();
    } else {
        lemma_pow2_big((w - 1) as nat);
        bits::lemma_pow2_step((w - 1) as nat);
    }
}

/// Zero has no bits set.
pub proof fn lemma_count_zeros(w: nat)
    ensures
        ops::count_ones(bits::zeros(w)) == 0,
    decreases w,
{
    if w > 0 {
        lemma_count_zeros((w - 1) as nat);
        assert(bits::zeros(w).drop_last() =~= bits::zeros((w - 1) as nat));
    }
}

} // verus!
