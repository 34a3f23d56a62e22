//! The xor pass: a constant xor atoms under masks.
//!
//! A node's form is computed from its operands' forms: `^`, `~x` (xor all ones), `&` with a
//! constant (masks every term), `|` with a constant (`x | c` is `(x & ~c) ^ c`), and `|` of
//! operands the facts prove disjoint. Anything else is an atom with mask all-ones. Forms over
//! [`MAX_TERMS`] atoms are atomized. The form is re-emitted canonically (atoms in the context's
//! order, a full mask as the bare atom, the constant last, an all-ones constant as `~`) and
//! replaces the node only when the region above the atoms gets strictly smaller. Cancels
//! boolean (xor) masking.

use vstd::prelude::*;
use crate::engine::fin;
use crate::expr;
use crate::engine::runner;
use crate::dfs;
use crate::term;
use crate::ops;
use crate::engine::pass::sums;
use crate::bits;
use crate::bitvec::{BitVec, MAX_WIDTH};
use crate::dfs::expand;
use crate::engine::budget::Counter;
use crate::engine::fin::{Fin, Step, Stop};
use crate::engine::pass::forms::{Form, FormCache, FormV};
use crate::engine::pass::sums::{atoms_of, sorted_terms, Terms};
use crate::engine::runner::Runner;
use crate::engine::stats::{bump, PassKind};
use crate::expr::{Context, Node};
use crate::facts::reliance::Hyp;
use crate::ops::{BinOp, UnOp};
use crate::term::{Env, Term};

verus! {

broadcast use crate::term::lemma_value_len;

/// The most terms a form keeps before its node is treated as an atom.
pub const MAX_TERMS: usize = 64;

/// The values of nodes.
pub type Vals = spec_fn(u32) -> Seq<bool>;

/// The values of the nodes of an arena at an assignment.
pub open spec fn env_vals(terms: Seq<Term>, env: Env) -> Vals {
    |a: u32| term::value(terms[a as int], env)
}

/// What a term adds at bit `b`.
pub open spec fn xor_at(vals: Vals, b: int) -> spec_fn(u32, Seq<bool>) -> int {
    |a: u32, m: Seq<bool>|
        if vals(a)[b] && m[b] {
            1
        } else {
            0
        }
}

/// Bit `b` of a form: the parity of its terms and its constant.
pub open spec fn xor_bit(f: FormV, vals: Vals, b: int) -> bool {
    f.konst[b] != (sums::tsum(f.terms, xor_at(vals, b)) % 2 == 1)
}

/// The value of a form.
pub open spec fn xor_value(f: FormV, vals: Vals) -> Seq<bool> {
    Seq::new(f.konst.len(), |b: int| xor_bit(f, vals, b))
}

/// The atoms of a form are there, of `w` bits.
pub open spec fn atoms_fit(t: Terms, terms: Seq<Term>, w: nat) -> bool {
    forall|k: int|
        #![trigger t[k]]
        0 <= k < t.len() ==> t[k].0 < terms.len() && term::twidth(terms[t[k].0 as int]) == w && term::tok(
            terms[t[k].0 as int],
        )
}

/// A form is the form of node `i`.
pub open spec fn xor_form_ok(f: FormV, terms: Seq<Term>, h: Hyp, i: int) -> bool {
    &&& f.has(term::twidth(terms[i]))
    &&& atoms_fit(f.terms, terms, term::twidth(terms[i]))
    &&& forall|env: Env|
        f.fin.rel.admits(h, env) ==> #[trigger] term::value(terms[i], env) == xor_value(
            f,
            env_vals(terms, env),
        )
}

/// Every form kept is right.
#[verifier::opaque]
pub open spec fn xors_ok(c: FormCache, terms: Seq<Term>, h: Hyp) -> bool {
    &&& c.wf()
    &&& forall|i: u32|
        #![trigger c.at(i)]
        c.at(i) is Some ==> i < terms.len() && xor_form_ok(c.at(i)->0, terms, h, i as int)
}

/// The nodes whose forms are kept.
pub open spec fn formed(c: FormCache) -> spec_fn(u32) -> bool {
    |i: u32| c.at(i) is Some
}

/// Forms stay right as the arena grows.
pub proof fn lemma_xors_grow(c: FormCache, terms: Seq<Term>, more: Seq<Term>, h: Hyp)
    requires
        xors_ok(c, terms, h),
        terms.len() <= more.len(),
        forall|i: int| 0 <= i < terms.len() ==> #[trigger] more[i] == terms[i],
    ensures
        xors_ok(c, more, h),
{
    reveal(xors_ok);
    assert forall|i: u32| #![trigger c.at(i)] c.at(i) is Some implies i < more.len()
        && xor_form_ok(c.at(i)->0, more, h, i as int) by {
        let f = c.at(i)->0;
        assert(more[i as int] == terms[i as int]);
        assert forall|k: int| #![trigger f.terms[k]] 0 <= k < f.terms.len() implies f.terms[k].0
            < more.len() && term::twidth(more[f.terms[k].0 as int]) == term::twidth(more[i as int]) && term::tok(
            more[f.terms[k].0 as int],
        ) by {
            assert(more[f.terms[k].0 as int] == terms[f.terms[k].0 as int]);
        }
        assert forall|env: Env| f.fin.rel.admits(h, env) implies #[trigger] term::value(
            more[i as int],
            env,
        ) == xor_value(f, env_vals(more, env)) by {
            assert(term::value(terms[i as int], env) == xor_value(f, env_vals(terms, env)));
            lemma_same_vals(f, env_vals(terms, env), env_vals(more, env));
        }
    }
}

/// A form's value depends on its atoms' values alone.
pub proof fn lemma_same_vals(f: FormV, u: Vals, v: Vals)
    requires
        forall|k: int| 0 <= k < f.terms.len() ==> u((#[trigger] f.terms[k]).0) == v(f.terms[k].0),
    ensures
        xor_value(f, u) == xor_value(f, v),
{
    assert forall|b: int| 0 <= b < f.konst.len() implies xor_bit(f, u, b) == xor_bit(f, v, b) by {
        sums::lemma_tsum_same(f.terms, xor_at(u, b), xor_at(v, b));
    }
    assert(xor_value(f, u) =~= xor_value(f, v));
}

/// Sums of nothing.
pub proof fn lemma_tsum_zero(t: Terms, g: spec_fn(u32, Seq<bool>) -> int)
    requires
        forall|i: int| 0 <= i < t.len() ==> g((#[trigger] t[i]).0, t[i].1) == 0,
    ensures
        sums::tsum(t, g) == 0,
    decreases t.len(),
{
    if t.len() > 0 {
        let d = t.drop_last();
        assert forall|i: int| 0 <= i < d.len() implies g((#[trigger] d[i]).0, d[i].1) == 0 by {
            assert(d[i] == t[i]);
        }
        lemma_tsum_zero(d, g);
        assert(t[t.len() - 1] == t.last());
    }
}

/// A constant form.
fn of_const(v: BitVec) -> (r: Form)
    ensures
        r@.konst == v@,
        r@.terms.len() == 0,
        r@.has(v@.len()),
        r.fin.free(),
        forall|vals: Vals| #[trigger] xor_value(r@, vals) == v@,
{
    let r = Form { konst: v, terms: Vec::new(), fin: Fin::full() };
    proof {
        assert forall|vals: Vals| #[trigger] xor_value(r@, vals) == v@ by {
            assert(xor_value(r@, vals) =~= v@);
        }
    }
    r
}

/// The form of an atom.
fn of_atom(n: u32, w: usize, fin: Fin) -> (r: Form)
    ensures
        r@.has(w as nat),
        r@.terms.len() == 1,
        r@.terms[0].0 == n,
        r.fin == fin,
        forall|vals: Vals| vals(n).len() == w ==> #[trigger] xor_value(r@, vals) == vals(n),
{
    let ones = BitVec::fill(w, true);
    let r = Form { konst: BitVec::fill(w, false), terms: vec![(n, ones)], fin };
    proof {
        assert(r@.terms[0] == (n, ones@));
        assert forall|vals: Vals| vals(n).len() == w implies #[trigger] xor_value(r@, vals) == vals(
            n,
        ) by {
            assert forall|b: int| 0 <= b < w implies xor_bit(r@, vals, b) == vals(n)[b] by {
                assert(r@.terms.drop_last() =~= Seq::empty());
                assert(sums::tsum(r@.terms, xor_at(vals, b)) == (if vals(n)[b] {
                    1int
                } else {
                    0int
                })) by {
                    reveal_with_fuel(sums::tsum, 2);
                    assert(r@.terms.last() == r@.terms[0]);
                }
            }
            assert(xor_value(r@, vals) =~= vals(n));
        }
    }
    r
}

/// Whether a form is the form of an atom.
fn is_atom_of(f: &Form, n: u32) -> (r: bool)
{
    f.konst.is_zero() && f.terms.len() == 1 && f.terms[0].0 == n && f.terms[0].1.is_ones()
}

/// A form under a mask.
fn mask(f: &Form, m: &BitVec, Ghost(terms): Ghost<Seq<Term>>) -> (r: Form)
    requires
        f@.has(m@.len()),
        atoms_fit(f@.terms, terms, m@.len()),
    ensures
        r@.has(m@.len()),
        r.fin == f.fin,
        atoms_fit(r@.terms, terms, m@.len()),
        forall|vals: Vals| #[trigger] xor_value(r@, vals) == ops::and_bits(xor_value(f@, vals), m@),
{
    let mut out: Vec<(u32, BitVec)> = Vec::with_capacity(f.terms.len());
    let ghost w = m@.len();
    let mut i: usize = 0;
    while i < f.terms.len()
        invariant
            i <= f.terms.len(),
            w == m@.len(),
            f@.has(w),
            atoms_fit(f@.terms, terms, w),
            forall|k: int| 0 <= k < out@.len() ==> (#[trigger] sums::tview(out@)[k]).1.len() == w,
            atoms_fit(sums::tview(out@), terms, w),
            forall|vals: Vals, b: int|
                #![trigger sums::tsum(sums::tview(out@), xor_at(vals, b))]
                0 <= b < w ==> sums::tsum(sums::tview(out@), xor_at(vals, b)) == (if m@[b] {
                    sums::tsum(f@.terms.take(i as int), xor_at(vals, b))
                } else {
                    0
                }),
        decreases f.terms.len() - i,
    {
        let ghost before = sums::tview(out@);
        let a = f.terms[i].0;
        proof {
            assert(f@.terms[i as int] == (a, f.terms@[i as int].1@));
        }
        let k = f.terms[i].1.and(m);
        let ghost t = (a, k@);
        let zero = k.is_zero();
        if !zero {
            out.push((a, k));
            assert(sums::tview(out@) =~= before.push(t));
        }
        proof {
            assert forall|vals: Vals, b: int|
                #![trigger sums::tsum(sums::tview(out@), xor_at(vals, b))]
                0 <= b < w implies sums::tsum(sums::tview(out@), xor_at(vals, b)) == (if m@[b] {
                sums::tsum(f@.terms.take(i + 1), xor_at(vals, b))
            } else {
                0
            }) by {
                let g = xor_at(vals, b);
                assert(sums::tsum(before, g) == (if m@[b] {
                    sums::tsum(f@.terms.take(i as int), g)
                } else {
                    0
                }));
                sums::lemma_tsum_take(f@.terms, i as int, g);
                sums::lemma_tsum_push(before, t, g);
                if zero {
                    assert(k@[b] == bits::zeros(w)[b]);
                }
            }
            assert forall|q: int| 0 <= q < out@.len() implies (#[trigger] sums::tview(out@)[q]).1.len()
                == w by {
                if q < before.len() {
                    assert(sums::tview(out@)[q] == before[q]);
                }
            }
            assert forall|q: int| #![trigger sums::tview(out@)[q]] 0 <= q < sums::tview(out@).len() implies sums::tview(
                out@,
            )[q].0 < terms.len() && term::twidth(terms[sums::tview(out@)[q].0 as int]) == w && term::tok(
                terms[sums::tview(out@)[q].0 as int],
            ) by {
                if q < before.len() {
                    assert(sums::tview(out@)[q] == before[q]);
                }
            }
        }
        i = i + 1;
    }
    let r = Form { konst: f.konst.and(m), terms: out, fin: f.fin };
    proof {
        assert(r@.terms =~= sums::tview(out@));
        assert(f@.terms.take(i as int) =~= f@.terms);
        assert forall|vals: Vals| #[trigger] xor_value(r@, vals) == ops::and_bits(
            xor_value(f@, vals),
            m@,
        ) by {
            assert forall|b: int| 0 <= b < w implies xor_bit(r@, vals, b) == (xor_bit(f@, vals, b)
                && m@[b]) by {
                assert(sums::tsum(sums::tview(out@), xor_at(vals, b)) == (if m@[b] {
                    sums::tsum(f@.terms, xor_at(vals, b))
                } else {
                    0
                }));
            }
            assert(xor_value(r@, vals) =~= ops::and_bits(xor_value(f@, vals), m@));
        }
    }
    r
}

/// The xor of two forms.
fn xor(f: &Form, o: &Form, Ghost(terms): Ghost<Seq<Term>>) -> (r: Form)
    requires
        f@.has(f@.konst.len()),
        o@.has(f@.konst.len()),
        atoms_fit(f@.terms, terms, f@.konst.len()),
        atoms_fit(o@.terms, terms, f@.konst.len()),
    ensures
        r@.has(f@.konst.len()),
        atoms_fit(r@.terms, terms, f@.konst.len()),
        forall|h: Hyp, env: Env| #[trigger]
            r.fin.rel.admits(h, env) <==> f.fin.rel.admits(h, env) && o.fin.rel.admits(h, env),
        forall|vals: Vals| #[trigger]
            xor_value(r@, vals) == ops::xor_bits(xor_value(f@, vals), xor_value(o@, vals)),
{
    let mut out: Vec<(u32, BitVec)> = Vec::new();
    let ghost w = f@.konst.len();
    let mut i: usize = 0;
    let mut j: usize = 0;
    while i < f.terms.len() || j < o.terms.len()
        invariant
            i <= f.terms.len(),
            j <= o.terms.len(),
            w == f@.konst.len(),
            f@.has(w),
            o@.has(w),
            atoms_fit(f@.terms, terms, w),
            atoms_fit(o@.terms, terms, w),
            forall|k: int| 0 <= k < out@.len() ==> (#[trigger] sums::tview(out@)[k]).1.len() == w,
            atoms_fit(sums::tview(out@), terms, w),
            forall|vals: Vals, b: int|
                #![trigger sums::tsum(sums::tview(out@), xor_at(vals, b))]
                0 <= b < w ==> sums::tsum(sums::tview(out@), xor_at(vals, b)) % 2 == (sums::tsum(
                    f@.terms.take(i as int),
                    xor_at(vals, b),
                ) + sums::tsum(o@.terms.take(j as int), xor_at(vals, b))) % 2,
        decreases f.terms.len() - i + o.terms.len() - j,
    {
        let ghost before = sums::tview(out@);
        let ghost i0 = i as int;
        let ghost j0 = j as int;
        let mut left = i < f.terms.len();
        let mut right = j < o.terms.len();
        if left && right {
            if f.terms[i].0 < o.terms[j].0 {
                right = false;
            } else if f.terms[i].0 > o.terms[j].0 {
                left = false;
            }
        }
        proof {
            if left {
                assert(f@.terms[i as int] == (f.terms@[i as int].0, f.terms@[i as int].1@));
            }
            if right {
                assert(o@.terms[j as int] == (o.terms@[j as int].0, o.terms@[j as int].1@));
            }
        }
        let (a, k) = if left && right {
            (f.terms[i].0, f.terms[i].1.xor(&o.terms[j].1))
        } else if left {
            (f.terms[i].0, f.terms[i].1.dup())
        } else {
            (o.terms[j].0, o.terms[j].1.dup())
        };
        if left {
            i = i + 1;
        }
        if right {
            j = j + 1;
        }
        let ghost t = (a, k@);
        let zero = k.is_zero();
        if !zero {
            out.push((a, k));
            assert(sums::tview(out@) =~= before.push(t));
        }
        proof {
            assert forall|vals: Vals, b: int|
                #![trigger sums::tsum(sums::tview(out@), xor_at(vals, b))]
                0 <= b < w implies sums::tsum(sums::tview(out@), xor_at(vals, b)) % 2 == (sums::tsum(
                f@.terms.take(i as int),
                xor_at(vals, b),
            ) + sums::tsum(o@.terms.take(j as int), xor_at(vals, b))) % 2 by {
                let g = xor_at(vals, b);
                assert(sums::tsum(before, g) % 2 == (sums::tsum(f@.terms.take(i0), g) + sums::tsum(
                    o@.terms.take(j0),
                    g,
                )) % 2);
                if left {
                    sums::lemma_tsum_take(f@.terms, i0, g);
                }
                if right {
                    sums::lemma_tsum_take(o@.terms, j0, g);
                }
                sums::lemma_tsum_push(before, t, g);
                if zero {
                    assert(k@[b] == bits::zeros(w)[b]);
                }
            }
            assert forall|q: int| 0 <= q < out@.len() implies (#[trigger] sums::tview(out@)[q]).1.len()
                == w by {
                if q < before.len() {
                    assert(sums::tview(out@)[q] == before[q]);
                }
            }
            assert forall|q: int| #![trigger sums::tview(out@)[q]] 0 <= q < sums::tview(out@).len() implies sums::tview(
                out@,
            )[q].0 < terms.len() && term::twidth(terms[sums::tview(out@)[q].0 as int]) == w && term::tok(
                terms[sums::tview(out@)[q].0 as int],
            ) by {
                if q < before.len() {
                    assert(sums::tview(out@)[q] == before[q]);
                }
            }
        }
    }
    let r = Form { konst: f.konst.xor(&o.konst), terms: out, fin: f.fin.and(o.fin) };
    proof {
        assert(r@.terms =~= sums::tview(out@));
        assert(f@.terms.take(i as int) =~= f@.terms);
        assert(o@.terms.take(j as int) =~= o@.terms);
        assert forall|vals: Vals| #[trigger] xor_value(r@, vals) == ops::xor_bits(
            xor_value(f@, vals),
            xor_value(o@, vals),
        ) by {
            assert forall|b: int| 0 <= b < w implies xor_bit(r@, vals, b) == (xor_bit(f@, vals, b)
                != xor_bit(o@, vals, b)) by {
                let g = xor_at(vals, b);
                assert(sums::tsum(sums::tview(out@), g) % 2 == (sums::tsum(f@.terms, g) + sums::tsum(o@.terms, g)) % 2);
            }
            assert(xor_value(r@, vals) =~= ops::xor_bits(xor_value(f@, vals), xor_value(o@, vals)));
        }
    }
    r
}

/// A form xor a constant.
fn xor_const(f: &Form, c: &BitVec) -> (r: Form)
    requires
        f@.has(c@.len()),
    ensures
        r@.has(c@.len()),
        r@.terms == f@.terms,
        r.fin == f.fin,
        forall|vals: Vals| #[trigger] xor_value(r@, vals) == ops::xor_bits(xor_value(f@, vals), c@),
{
    let d = f.dup();
    let r = Form { konst: f.konst.xor(c), terms: d.terms, fin: f.fin };
    proof {
        assert(r@.terms =~= f@.terms);
        assert forall|vals: Vals| #[trigger] xor_value(r@, vals) == ops::xor_bits(
            xor_value(f@, vals),
            c@,
        ) by {
            assert(xor_value(r@, vals) =~= ops::xor_bits(xor_value(f@, vals), c@));
        }
    }
    r
}

/// Whether the node's operator can be part of an xor region.
fn xor_op(node: &Node) -> (r: bool)
    ensures
        r == is_xor_op(*node),
{
    match node {
        Node::Const(_) => true,
        Node::Un(UnOp::Not, _) => true,
        Node::Bin(BinOp::Xor, _, _) => true,
        Node::Bin(BinOp::And, _, _) => true,
        Node::Bin(BinOp::Or, _, _) => true,
        _ => false,
    }
}

/// Whether the node's operator can be part of an xor region.
pub open spec fn is_xor_op(node: Node) -> bool {
    match node {
        Node::Const(_) => true,
        Node::Un(op, _) => op == UnOp::Not,
        Node::Bin(op, _, _) => op == BinOp::Xor || op == BinOp::And || op == BinOp::Or,
        _ => false,
    }
}

/// Bits never set in both: xor is or.
proof fn lemma_disjoint_or(a: Seq<bool>, b: Seq<bool>)
    requires
        a.len() == b.len(),
        forall|i: int| #![trigger a[i]] 0 <= i < a.len() ==> !(a[i] && b[i]),
    ensures
        ops::or_bits(a, b) == ops::xor_bits(a, b),
{
    assert(ops::or_bits(a, b) =~= ops::xor_bits(a, b));
}

/// What `|` with a constant is.
proof fn lemma_or_const(a: Seq<bool>, c: Seq<bool>)
    requires
        a.len() == c.len(),
    ensures
        ops::or_bits(a, c) == ops::xor_bits(ops::and_bits(a, ops::not_bits(c)), c),
        ops::or_bits(c, a) == ops::xor_bits(ops::and_bits(a, ops::not_bits(c)), c),
        ops::and_bits(c, a) == ops::and_bits(a, c),
{
    assert(ops::or_bits(a, c) =~= ops::xor_bits(ops::and_bits(a, ops::not_bits(c)), c));
    assert(ops::or_bits(c, a) =~= ops::xor_bits(ops::and_bits(a, ops::not_bits(c)), c));
    assert(ops::and_bits(c, a) =~= ops::and_bits(a, c));
}

/// What complement is.
proof fn lemma_not_xor(a: Seq<bool>)
    ensures
        ops::not_bits(a) == ops::xor_bits(a, bits::ones(a.len())),
{
    assert(ops::not_bits(a) =~= ops::xor_bits(a, bits::ones(a.len())));
}

impl<'a> Runner<'a> {
    /// The kept form of node `j`.
    fn xor_form(&self, cx: &Context, j: u32) -> (r: Form)
        requires
            self.wf(cx),
            self.xors.at(j) is Some,
        ensures
            j < cx.n(),
            xor_form_ok(r@, cx.tm(), self.hyp@, j as int),
            r@.has(r@.konst.len()),
    {
        proof {
            reveal(xors_ok);
        }
        match self.xors.get(j) {
            Some(f) => f,
            None => of_atom(j, 1, Fin::full()),
        }
    }

    /// The form of `i` as an atom.
    fn xor_atom(&self, cx: &Context, i: u32, fin: Fin) -> (r: Form)
        requires
            self.wf(cx),
            i < cx.n(),
        ensures
            xor_form_ok(r@, cx.tm(), self.hyp@, i as int),
            r@.has(r@.konst.len()),
    {
        let w = cx.wid(i);
        let r = of_atom(i, w as usize, fin);
        proof {
            assert(cx.ok_at(i as int));
            assert forall|env: Env| r.fin.rel.admits(self.hyp@, env) implies #[trigger] term::value(
                cx.tm()[i as int],
                env,
            ) == xor_value(r@, env_vals(cx.tm(), env)) by {
                let vals = env_vals(cx.tm(), env);
                assert(vals(i).len() == w);
            }
        }
        r
    }

    /// The form of `i`, whose operands' forms are kept.
    fn xor_compute(&mut self, cx: &Context, i: u32) -> (out: Result<Form, Stop>)
        requires
            old(self).wf(cx),
            i < cx.n(),
            forall|j: int|
                0 <= j < expr::kids(cx.nodes@[i as int]).len() ==> old(self).xors.at(
                    #[trigger] expr::kids(cx.nodes@[i as int])[j],
                ) is Some,
        ensures
            runner::went(final(self), cx, old(self), cx),
            out matches Err(e) ==> final(self).refuses(cx, e),
            final(self).xors == old(self).xors,
            out matches Ok(r) ==> xor_form_ok(r@, cx.tm(), final(self).hyp@, i as int) && r@.has(
                r@.konst.len(),
            ),
    {
        let node = cx.node(i);
        let w = cx.wid(i) as usize;
        let ghost h = self.hyp@;
        let ghost tm = cx.tm();
        proof {
            assert(cx.ok_at(i as int));
        }
        match node {
            Node::Const(_) => {
                if let Some(v) = cx.const_val(i) {
                    return Ok(of_const(v));
                }
                Ok(self.xor_atom(cx, i, Fin::full()))
            },
            Node::Un(UnOp::Not, a) => {
                assert(expr::kids(node)[0] == a);
                let f = self.xor_form(cx, a);
                let r = xor_const(&f, &BitVec::fill(w, true));
                proof {
                    assert forall|env: Env| r.fin.rel.admits(h, env) implies #[trigger] term::value(
                        tm[i as int],
                        env,
                    ) == xor_value(r@, env_vals(tm, env)) by {
                        assert(cx.ok_at(a as int));
                        let x = term::value(tm[a as int], env);
                        lemma_not_xor(x);
                    }
                }
                Ok(r)
            },
            Node::Bin(BinOp::Xor, a, b) => {
                assert(expr::kids(node)[0] == a && expr::kids(node)[1] == b);
                let f = self.xor_form(cx, a);
                let g = self.xor_form(cx, b);
                let r = xor(&f, &g, Ghost(tm));
                proof {
                    assert forall|env: Env| r.fin.rel.admits(h, env) implies #[trigger] term::value(
                        tm[i as int],
                        env,
                    ) == xor_value(r@, env_vals(tm, env)) by {
                        let x = term::value(tm[a as int], env);
                        let y = term::value(tm[b as int], env);
                    }
                }
                Ok(r)
            },
            Node::Bin(BinOp::And, a, b) => {
                assert(expr::kids(node)[0] == a && expr::kids(node)[1] == b);
                let (x, c) = match cx.const_val(a) {
                    Some(c) => (b, c),
                    None => match cx.const_val(b) {
                        Some(c) => (a, c),
                        None => {
                            return Ok(self.xor_atom(cx, i, Fin::full()));
                        },
                    },
                };
                let f = self.xor_form(cx, x);
                let r = mask(&f, &c, Ghost(tm));
                proof {
                    assert(cx.ok_at(a as int));
                    assert(cx.ok_at(b as int));
                    assert forall|env: Env| r.fin.rel.admits(h, env) implies #[trigger] term::value(
                        tm[i as int],
                        env,
                    ) == xor_value(r@, env_vals(tm, env)) by {
                        let y = term::value(tm[x as int], env);
                        lemma_or_const(y, c@);
                        assert(term::value(tm[i as int], env) == ops::and_bits(
                            term::value(tm[a as int], env),
                            term::value(tm[b as int], env),
                        ));
                    }
                }
                Ok(r)
            },
            Node::Bin(BinOp::Or, a, b) => {
                assert(expr::kids(node)[0] == a && expr::kids(node)[1] == b);
                proof {
                    assert(cx.ok_at(a as int));
                    assert(cx.ok_at(b as int));
                }
                let masked = match cx.const_val(a) {
                    Some(c) => Some((b, c)),
                    None => match cx.const_val(b) {
                        Some(c) => Some((a, c)),
                        None => None,
                    },
                };
                if let Some((x, c)) = masked {
                    let f = self.xor_form(cx, x);
                    let m = mask(&f, &c.not(), Ghost(tm));
                    let r = xor_const(&m, &c);
                    proof {
                        assert forall|env: Env| r.fin.rel.admits(h, env) implies #[trigger] term::value(
                            tm[i as int],
                            env,
                        ) == xor_value(r@, env_vals(tm, env)) by {
                            let y = term::value(tm[x as int], env);
                            lemma_or_const(y, c@);
                            assert(term::value(tm[i as int], env) == ops::or_bits(
                                term::value(tm[a as int], env),
                                term::value(tm[b as int], env),
                            ));
                        }
                    }
                    return Ok(r);
                }
                let (apart, fina, finb) = self.disjoint(cx, a, b)?;
                if apart {
                    // The form relies on what proved the operands disjoint.
                    let f = self.xor_form(cx, a);
                    let g = self.xor_form(cx, b);
                    let s = xor(&f, &g, Ghost(tm));
                    let fin = s.fin.and(fina).and(finb);
                    let r = Form { konst: s.konst, terms: s.terms, fin };
                    proof {
                        assert(r@.terms == s@.terms && r@.konst == s@.konst);
                        assert forall|env: Env| r.fin.rel.admits(h, env) implies #[trigger] term::value(
                            tm[i as int],
                            env,
                        ) == xor_value(r@, env_vals(tm, env)) by {
                            let x = term::value(tm[a as int], env);
                            let y = term::value(tm[b as int], env);
                            assert(x == cx.val(a as int, env) && y == cx.val(b as int, env));
                            lemma_disjoint_or(x, y);
                            assert(xor_value(r@, env_vals(tm, env)) =~= xor_value(
                                s@,
                                env_vals(tm, env),
                            ));
                        }
                    }
                    Ok(r)
                } else {
                    Ok(self.xor_atom(cx, i, fina.and(finb).unchanged()))
                }
            },
            _ => Ok(self.xor_atom(cx, i, Fin::full())),
        }
    }

    /// The form of `root`, computing (iteratively) and keeping the forms below it.
    fn xor_form_of(&mut self, cx: &Context, root: u32) -> (out: Result<Form, Stop>)
        requires
            old(self).wf(cx),
            root < cx.n(),
        ensures
            runner::went(final(self), cx, old(self), cx),
            out matches Err(e) ==> final(self).refuses(cx, e),
            out matches Ok(r) ==> xor_form_ok(r@, cx.tm(), final(self).hyp@, root as int),
    {
        let mut stack: Vec<(u32, bool)> = vec![(root, false)];
        while stack.len() > 0
            invariant
                runner::went(self, cx, old(self), cx),
                root < cx.n(),
                dfs::staying(stack@, cx.n()),
                dfs::waiting(stack@, formed(self.xors), cx.nodes@),
                self.xors.at(root) is Some || (stack@.len() > 0 && stack@[0].0 == root),
            decreases dfs::freight(stack@),
        {
            let ghost stack0 = stack@;
            let ghost done0 = formed(self.xors);
            let top = match stack.pop() {
                Some(t) => t,
                None => {
                    return Ok(self.xor_atom(cx, root, Fin::full()));
                },
            };
            let (i, expanded) = top;
            assert(stack0.last() == top);
            assert(stack@ =~= stack0.drop_last());
            proof {
                dfs::lemma_freight_push(stack@, top);
                assert(stack0 =~= stack@.push(top));
                dfs::lemma_heft_pos(i as nat);
            }
            if self.xors.contains(i) {
                proof {
                    dfs::lemma_wait_done(stack0, done0, done0, cx.nodes@);
                }
                continue;
            }
            let node = cx.node(i);
            let f = if !xor_op(&node) {
                self.xor_atom(cx, i, Fin::full())
            } else if !expanded {
                let kept = &self.xors;
                let is_done = |c: u32| -> (b: bool)
                    ensures
                        b == (kept.at(c) is Some),
                {
                    kept.contains(c)
                };
                expand(cx, &mut stack, i, is_done, Ghost(stack0), Ghost(done0));
                continue;
            } else {
                self.charge(Counter::PassWork, 1)?;
                proof {
                    dfs::lemma_wait_top(stack0, done0, cx.nodes@);
                    assert forall|j: int| 0 <= j < expr::kids(cx.nodes@[i as int]).len() implies self.xors.at(
                        #[trigger] expr::kids(cx.nodes@[i as int])[j],
                    ) is Some by {
                        assert(done0(expr::kids(cx.nodes@[i as int])[j]));
                    }
                }
                let f = self.xor_compute(cx, i)?;
                if f.terms.len() > MAX_TERMS {
                    let c = self.stats.passes.entry(PassKind::Xor);
                    c.atomized = bump(c.atomized);
                    self.xor_atom(cx, i, f.fin)
                } else {
                    f
                }
            };
            proof {
                reveal(xors_ok);
            }
            self.xors.insert(i, f);
            proof {
                dfs::lemma_wait_done(stack0, done0, formed(self.xors), cx.nodes@);
            }
        }
        proof {
            reveal(xors_ok);
        }
        Ok(self.xor_form(cx, root))
    }
}

/// Whether a form is emitted as the xor of its atoms, under masks that cover its constant `k`
/// too, or `k`: `k` misses every mask (the terms are 0 where `k` is 1, so or and xor agree), and
/// some mask covers everything `k` does not, so that term needs no mask (`x | c`, read as
/// `(x & ~c) ^ c`, comes back as itself).
pub open spec fn is_or_form(f: FormV) -> bool {
    &&& f.konst != bits::zeros(f.konst.len())
    &&& forall|k: int, b: int|
        #![trigger f.terms[k].1[b]]
        0 <= k < f.terms.len() && 0 <= b < f.konst.len() ==> !(f.terms[k].1[b] && f.konst[b])
    &&& exists|k: int|
        #![trigger f.terms[k]]
        0 <= k < f.terms.len() && ops::or_bits(f.terms[k].1, f.konst) == bits::ones(f.konst.len())
}

/// Whether a form is emitted with an or.
fn or_form(f: &Form) -> (r: bool)
    requires
        f@.has(f@.konst.len()),
    ensures
        r == is_or_form(f@),
{
    if f.konst.is_zero() {
        return false;
    }
    let ghost w = f@.konst.len();
    let mut full = false;
    let mut i: usize = 0;
    while i < f.terms.len()
        invariant
            i <= f.terms.len(),
            f@.has(w),
            w == f@.konst.len(),
            f@.konst != bits::zeros(w),
            forall|k: int, b: int|
                #![trigger f@.terms[k].1[b]]
                0 <= k < i && 0 <= b < w ==> !(f@.terms[k].1[b] && f@.konst[b]),
            full <==> exists|k: int|
                #![trigger f@.terms[k]]
                0 <= k < i && ops::or_bits(f@.terms[k].1, f@.konst) == bits::ones(w),
        decreases f.terms.len() - i,
    {
        assert(f@.terms[i as int] == (f.terms@[i as int].0, f.terms@[i as int].1@));
        let both = f.terms[i].1.and(&f.konst);
        if !both.is_zero() {
            proof {
                if forall|b: int| 0 <= b < w ==> !(f@.terms[i as int].1[b] && f@.konst[b]) {
                    assert(both@ =~= bits::zeros(w));
                }
            }
            return false;
        }
        proof {
            assert forall|k: int, b: int|
                #![trigger f@.terms[k].1[b]]
                0 <= k < i + 1 && 0 <= b < w implies !(f@.terms[k].1[b] && f@.konst[b]) by {
                if k == i {
                    assert(both@[b] == bits::zeros(w)[b]);
                }
            }
        }
        if f.terms[i].1.or(&f.konst).is_ones() {
            full = true;
        }
        i = i + 1;
    }
    full
}

/// What a term adds at bit `b` of the emission, where the masks cover a constant that is `on`.
pub open spec fn xor_on(vals: Vals, b: int, on: bool) -> spec_fn(u32, Seq<bool>) -> int {
    |a: u32, m: Seq<bool>|
        if vals(a)[b] && (m[b] || on) {
            1
        } else {
            0
        }
}

/// What a term under a mask is.
pub open spec fn masked(v: Seq<bool>, m: Seq<bool>) -> Seq<bool> {
    ops::and_bits(v, m)
}

/// The emitted terms `t` have the parity of the first terms.
pub open spec fn xor_parity(
    x: Seq<bool>,
    t: Terms,
    vals: Vals,
    konst: Seq<bool>,
    or: bool,
) -> bool {
    &&& x.len() == konst.len()
    &&& forall|b: int|
        0 <= b < konst.len() ==> #[trigger] x[b] == (sums::tsum(t, xor_on(vals, b, or && konst[b])) % 2
            == 1)
}

proof fn lemma_or_finish(f: FormV, vals: Vals, x: Seq<bool>)
    requires
        f.has(f.konst.len()),
        is_or_form(f),
        xor_parity(x, f.terms, vals, f.konst, true),
    ensures
        ops::or_bits(x, f.konst) == xor_value(f, vals),
{
    assert forall|b: int| 0 <= b < f.konst.len() implies ops::or_bits(x, f.konst)[b] == xor_bit(
        f,
        vals,
        b,
    ) by {
        if f.konst[b] {
            assert forall|k: int| 0 <= k < f.terms.len() implies xor_at(vals, b)(
                (#[trigger] f.terms[k]).0,
                f.terms[k].1,
            ) == 0 by {
                let _ = f.terms[k].1[b];
            }
            lemma_tsum_zero(f.terms, xor_at(vals, b));
        } else {
            assert(x[b] == (sums::tsum(f.terms, xor_on(vals, b, false)) % 2 == 1));
            sums::lemma_tsum_same(f.terms, xor_on(vals, b, false), xor_at(vals, b));
        }
    }
    assert(ops::or_bits(x, f.konst) =~= xor_value(f, vals));
}

proof fn lemma_xor_finish(f: FormV, vals: Vals, x: Seq<bool>)
    requires
        f.has(f.konst.len()),
        xor_parity(x, f.terms, vals, f.konst, false),
    ensures
        ops::xor_bits(x, f.konst) == xor_value(f, vals),
        f.konst == bits::zeros(f.konst.len()) ==> x == xor_value(f, vals),
        f.konst == bits::ones(f.konst.len()) ==> ops::not_bits(x) == xor_value(f, vals),
{
    assert forall|b: int| 0 <= b < f.konst.len() implies ops::xor_bits(x, f.konst)[b] == xor_bit(
        f,
        vals,
        b,
    ) by {
        assert(x[b] == (sums::tsum(f.terms, xor_on(vals, b, false)) % 2 == 1));
        sums::lemma_tsum_same(f.terms, xor_on(vals, b, false), xor_at(vals, b));
    }
    assert(ops::xor_bits(x, f.konst) =~= xor_value(f, vals));
    if f.konst == bits::zeros(f.konst.len()) {
        assert(x =~= ops::xor_bits(x, f.konst));
    }
    if f.konst == bits::ones(f.konst.len()) {
        assert(ops::not_bits(x) =~= ops::xor_bits(x, f.konst));
    }
}

proof fn lemma_parity_first(v: Seq<bool>, m: Seq<bool>, t: (u32, Seq<bool>), vals: Vals, konst: Seq<bool>, or: bool)
    requires
        vals(t.0) == v,
        v.len() == konst.len(),
        t.1.len() == konst.len(),
        m == (if or { ops::or_bits(t.1, konst) } else { t.1 }),
    ensures
        xor_parity(ops::and_bits(v, m), seq![t], vals, konst, or),
{
    assert forall|b: int| 0 <= b < konst.len() implies #[trigger] ops::and_bits(v, m)[b] == (sums::tsum(
        seq![t],
        xor_on(vals, b, or && konst[b]),
    ) % 2 == 1) by {
        let g = xor_on(vals, b, or && konst[b]);
        assert(seq![t] =~= Seq::<(u32, Seq<bool>)>::empty().push(t));
        sums::lemma_tsum_push(Seq::empty(), t, g);
        assert(sums::tsum(Seq::<(u32, Seq<bool>)>::empty(), g) == 0);
    }
}

proof fn lemma_parity_next(
    x: Seq<bool>,
    ts: Terms,
    v: Seq<bool>,
    m: Seq<bool>,
    t: (u32, Seq<bool>),
    vals: Vals,
    konst: Seq<bool>,
    or: bool,
)
    requires
        xor_parity(x, ts, vals, konst, or),
        vals(t.0) == v,
        v.len() == konst.len(),
        t.1.len() == konst.len(),
        m == (if or { ops::or_bits(t.1, konst) } else { t.1 }),
    ensures
        xor_parity(ops::xor_bits(x, ops::and_bits(v, m)), ts.push(t), vals, konst, or),
{
    let y = ops::xor_bits(x, ops::and_bits(v, m));
    assert forall|b: int| 0 <= b < konst.len() implies #[trigger] y[b] == (sums::tsum(
        ts.push(t),
        xor_on(vals, b, or && konst[b]),
    ) % 2 == 1) by {
        let g = xor_on(vals, b, or && konst[b]);
        sums::lemma_tsum_push(ts, t, g);
        let _ = x[b];
    }
}

impl<'a> Runner<'a> {
    /// One term of the emission.
    fn xor_term(&mut self, cx: &mut Context, a: u32, m: &BitVec) -> (out: Result<u32, Stop>)
        requires
            old(self).wf(old(cx)),
            a < old(cx).n(),
            old(cx).w(a as int) == m@.len(),
            1 <= m@.len() <= MAX_WIDTH,
        ensures
            runner::went(final(self), final(cx), old(self), old(cx)),
            out matches Err(e) ==> final(self).refuses(final(cx), e),
            out matches Ok(x) ==> x < final(cx).n() && final(cx).w(x as int) == m@.len() && forall|
                env: Env,
            | #[trigger]
                final(cx).val(x as int, env) == ops::and_bits(old(cx).val(a as int, env), m@),
    {
        self.charge(Counter::PassWork, 1)?;
        if m.is_ones() {
            proof {
                assert(cx.ok_at(a as int));
                assert forall|env: Env| #[trigger] cx.val(a as int, env) == ops::and_bits(
                    cx.val(a as int, env),
                    m@,
                ) by {
                    assert(ops::and_bits(cx.val(a as int, env), m@) =~= cx.val(a as int, env));
                }
            }
            return Ok(a);
        }
        let ghost cx0 = *cx;
        let c = self.mk_const(cx, m)?;
        let ghost cx1 = *cx;
        let x = self.c_bin(cx, BinOp::And, a, c)?;
        proof {
            assert forall|env: Env| #[trigger] cx.val(x as int, env) == ops::and_bits(
                cx0.val(a as int, env),
                m@,
            ) by {
                assert(cx1.val(a as int, env) == cx0.val(a as int, env));
                assert(cx1.val(c as int, env) == m@);
            }
        }
        Ok(x)
    }

    /// Emits `form` canonically.
    fn xor_emit(&mut self, cx: &mut Context, form: &Form) -> (out: Result<u32, Stop>)
        requires
            old(self).wf(old(cx)),
            form@.has(form@.konst.len()),
            1 <= form@.konst.len() <= MAX_WIDTH,
            atoms_fit(form@.terms, old(cx).tm(), form@.konst.len()),
        ensures
            runner::went(final(self), final(cx), old(self), old(cx)),
            out matches Err(e) ==> final(self).refuses(final(cx), e),
            out matches Ok(x) ==> x < final(cx).n() && final(cx).w(x as int) == form@.konst.len()
                && forall|env: Env| #[trigger]
                final(cx).val(x as int, env) == xor_value(form@, env_vals(old(cx).tm(), env)),
    {
        let ghost cx0 = *cx;
        let ghost tm = cx.tm();
        let ghost w = form@.konst.len();
        let or = or_form(form);
        proof {
            assert forall|i: int| 0 <= i < form.terms@.len() implies (#[trigger] form.terms@[i]).0
                < cx.n() by {
                assert(form@.terms[i].0 == form.terms@[i].0);
            }
        }
        let terms = sorted_terms(cx, &form.terms);
        let ghost ts = sums::tview(terms@);
        proof {
            assert(sums::tview(form.terms@) =~= form@.terms);
            assert forall|k: int| 0 <= k < ts.len() implies (#[trigger] ts[k]).0 < tm.len()
                && term::twidth(tm[ts[k].0 as int]) == w && ts[k].1.len() == w by {
                let q = choose|q: int| 0 <= q < form@.terms.len() && form@.terms[q] == ts[k];
                let _ = form@.terms[q];
            }
        }
        let mut acc: Option<u32> = None;
        let mut i: usize = 0;
        while i < terms.len()
            invariant
                i <= terms.len(),
                runner::went(self, cx, old(self), &cx0),
                cx0 == *old(cx),
                cx0.wf(),
                tm == cx0.tm(),
                w == form@.konst.len(),
                1 <= w <= MAX_WIDTH,
                ts == sums::tview(terms@),
                acc is None <==> i == 0,
                forall|k: int|
                    0 <= k < ts.len() ==> (#[trigger] ts[k]).0 < tm.len() && term::twidth(
                        tm[ts[k].0 as int],
                    ) == w && ts[k].1.len() == w,
                acc matches Some(x) ==> x < cx.n() && cx.w(x as int) == w && forall|env: Env|
                    xor_parity(
                        #[trigger] cx.val(x as int, env),
                        ts.take(i as int),
                        env_vals(tm, env),
                        form@.konst,
                        or,
                    ),
            decreases terms.len() - i,
        {
            let a = terms[i].0;
            assert(ts[i as int] == (a, terms@[i as int].1@));
            let m = if or {
                terms[i].1.or(&form.konst)
            } else {
                terms[i].1.dup()
            };
            let ghost cx1 = *cx;
            let t = self.xor_term(cx, a, &m)?;
            let ghost cx2 = *cx;
            acc = match acc {
                None => {
                    proof {
                        assert(ts.take(1) =~= seq![ts[0]]);
                        assert forall|env: Env| xor_parity(
                            #[trigger] cx.val(t as int, env),
                            ts.take(1),
                            env_vals(tm, env),
                            form@.konst,
                            or,
                        ) by {
                            let v = cx1.val(a as int, env);
                            assert(cx0.ok_at(a as int));
                            lemma_parity_first(v, m@, ts[0], env_vals(tm, env), form@.konst, or);
                        }
                    }
                    Some(t)
                },
                Some(x) => {
                    let y = self.c_bin(cx, BinOp::Xor, x, t)?;
                    proof {
                        assert(ts.take(i + 1) =~= ts.take(i as int).push(ts[i as int]));
                        assert forall|env: Env| xor_parity(
                            #[trigger] cx.val(y as int, env),
                            ts.take(i + 1),
                            env_vals(tm, env),
                            form@.konst,
                            or,
                        ) by {
                            let v = cx1.val(a as int, env);
                            assert(cx0.ok_at(a as int));
                            assert(cx2.val(x as int, env) == cx1.val(x as int, env));
                            lemma_parity_next(
                                cx1.val(x as int, env),
                                ts.take(i as int),
                                v,
                                m@,
                                ts[i as int],
                                env_vals(tm, env),
                                form@.konst,
                                or,
                            );
                        }
                    }
                    Some(y)
                },
            };
            i = i + 1;
        }
        assert(ts.take(i as int) =~= ts);
        self.checked()?;
        let ghost cx3 = *cx;
        let x = match acc {
            None => {
                let c = self.mk_const(cx, &form.konst)?;
                proof {
                    assert forall|env: Env| #[trigger] cx.val(c as int, env) == xor_value(
                        form@,
                        env_vals(tm, env),
                    ) by {
                        assert(xor_value(form@, env_vals(tm, env)) =~= form@.konst);
                    }
                }
                return Ok(c);
            },
            Some(x) => x,
        };
        proof {
            assert forall|env: Env| xor_parity(
                #[trigger] cx3.val(x as int, env),
                form@.terms,
                env_vals(tm, env),
                form@.konst,
                or,
            ) by {
                let v = cx3.val(x as int, env);
                assert forall|b: int| 0 <= b < w implies #[trigger] v[b] == (sums::tsum(
                    form@.terms,
                    xor_on(env_vals(tm, env), b, or && form@.konst[b]),
                ) % 2 == 1) by {
                    let g = xor_on(env_vals(tm, env), b, or && form@.konst[b]);
                    assert(sums::tsum(ts, g) == sums::tsum(form@.terms, g));
                }
            }
        }
        if form.konst.is_zero() {
            proof {
                assert forall|env: Env| #[trigger] cx.val(x as int, env) == xor_value(
                    form@,
                    env_vals(tm, env),
                ) by {
                    lemma_xor_finish(form@, env_vals(tm, env), cx3.val(x as int, env));
                }
            }
            return Ok(x);
        }
        if !or && form.konst.is_ones() {
            let y = self.c_un(cx, UnOp::Not, x)?;
            proof {
                assert forall|env: Env| #[trigger] cx.val(y as int, env) == xor_value(
                    form@,
                    env_vals(tm, env),
                ) by {
                    lemma_xor_finish(form@, env_vals(tm, env), cx3.val(x as int, env));
                }
            }
            return Ok(y);
        }
        let c = self.mk_const(cx, &form.konst)?;
        let ghost cx4 = *cx;
        let op = if or {
            BinOp::Or
        } else {
            BinOp::Xor
        };
        let y = self.c_bin(cx, op, x, c)?;
        proof {
            assert forall|env: Env| #[trigger] cx.val(y as int, env) == xor_value(
                form@,
                env_vals(tm, env),
            ) by {
                assert(cx4.val(x as int, env) == cx3.val(x as int, env));
                assert(cx4.val(c as int, env) == form@.konst);
                if or {
                    lemma_or_finish(form@, env_vals(tm, env), cx3.val(x as int, env));
                } else {
                    lemma_xor_finish(form@, env_vals(tm, env), cx3.val(x as int, env));
                }
            }
        }
        Ok(y)
    }

    /// How many nodes [`xor_emit`](Self::xor_emit) makes at most: a constant and an and per
    /// partial mask (masks covering the constant in the or form), an xor per extra term, and the
    /// constant (a `~` for all-ones, a constant and an xor or an or otherwise).
    fn xor_estimate(&self, form: &Form) -> (r: u32)
        requires
            form@.has(form@.konst.len()),
            form@.terms.len() <= MAX_TERMS,
    {
        let t: u32 = form.terms.len() as u32;
        let or = or_form(form);
        let mut masked: u32 = 0;
        let mut i: usize = 0;
        while i < form.terms.len()
            invariant
                i <= form.terms.len(),
                form.terms.len() <= MAX_TERMS,
                form@.has(form@.konst.len()),
                masked <= i,
            decreases form.terms.len() - i,
        {
            assert(form@.terms[i as int] == (form.terms@[i as int].0, form.terms@[i as int].1@));
            let full = if or {
                form.terms[i].1.or(&form.konst).is_ones()
            } else {
                form.terms[i].1.is_ones()
            };
            if !full {
                masked = masked + 1;
            }
            i = i + 1;
        }
        let konst: u32 = if t == 0 {
            1
        } else if form.konst.is_zero() {
            0
        } else if form.konst.is_ones() {
            1
        } else {
            2
        };
        2 * masked + t.saturating_sub(1) + konst
    }

    /// The xor pass at `n`.
    pub(crate) fn xor_step(&mut self, cx: &mut Context, n: u32) -> (out: Result<Step, Stop>)
        requires
            old(self).wf(old(cx)),
            n < old(cx).n(),
        ensures
            runner::went(final(self), final(cx), old(self), old(cx)),
            out matches Err(e) ==> final(self).refuses(final(cx), e),
            out matches Ok(s) ==> fin::step_keeps(s, final(cx).tm(), final(self).hyp@, n as int),
            old(self).refuses_all() ==> !(out matches Ok(Step::To(_, _))),
    {
        if let Some(s) = self.gf2_step(cx, n)? {
            return Ok(s);
        }
        let node = cx.node(n);
        if !xor_op(&node) || cx.is_const(n) {
            return Ok(Step::Normal(Fin::full()));
        }
        let form = self.xor_form_of(cx, n)?;
        if is_atom_of(&form, n) || form.terms.len() > MAX_TERMS {
            return Ok(Step::Normal(form.fin));
        }
        let atoms = atoms_of(&form.terms);
        // A constant always commits (see `shrinks`).
        if form.terms.len() > 0 {
            let estimate = self.xor_estimate(&form);
            if let Some(f) = self.worth_building(cx, n, &atoms, estimate)? {
                let c = self.stats.passes.entry(PassKind::Xor);
                c.rejected_cost = bump(c.rejected_cost);
                return Ok(Step::Normal(form.fin.and(f)));
            }
        }
        let before: u32 = cx.len() as u32;
        let ghost cx0 = *cx;
        let ghost h = self.hyp@;
        assert(cx.ok_at(n as int));
        let e = self.xor_emit(cx, &form)?;
        proof {
            assert forall|env: Env|
                #![trigger term::value(cx.tm()[n as int], env)]
                #![trigger term::value(cx.tm()[e as int], env)]
                form.fin.rel.admits(h, env) implies term::value(cx.tm()[n as int], env) == term::value(
                cx.tm()[e as int],
                env,
            ) by {
                assert(cx.val(e as int, env) == xor_value(form@, env_vals(cx0.tm(), env)));
                assert(cx.tm()[n as int] == cx0.tm()[n as int]);
            }
        }
        self.finish(cx, PassKind::Xor, n, e, before, &atoms, form.fin)
    }
}

} // verus!
