//! The facts of expressions, under assumptions.

use vstd::prelude::*;
use crate::facts::floor;
use crate::dfs;
use crate::term;
use crate::ops;
use crate::facts::transfer;
use crate::expr;
use crate::bits;
use crate::algebra;
use crate::bitvec::BitVec;
use crate::expr::{Context, Error, Expr, Node};
use crate::facts::known::KnownBits;
use crate::facts::reliance::{Hyp, Reliance};
use crate::facts::transfer::{bin_known, rel_known, un_known};
use crate::ops::{BinOp, CmpOp, UnOp};
use crate::term::{Env, Term};

verus! {

broadcast use {crate::term::lemma_value_len, crate::dfs::lemma_freight_push};

/// A constraint: bits known of a node.
#[derive(Debug)]
pub struct Constraint {
    /// The node.
    pub expr: u32,
    /// What is known of it.
    pub known: KnownBits,
}

/// Constraints a host knows to hold.
#[derive(Debug)]
pub struct Assumptions {
    /// The constraints, in the order they were made.
    pub items: Vec<Constraint>,
}

/// Whether constraint `k` holds at `env`.
pub open spec fn constraint_holds(
    items: Seq<Constraint>,
    terms: Seq<Term>,
    k: int,
    env: Env,
) -> bool {
    0 <= k < items.len() ==> items[k].known.admits(term::value(terms[items[k].expr as int], env))
}

/// What the constraints say about the nodes of an arena.
pub open spec fn hyp_of(items: Seq<Constraint>, terms: Seq<Term>) -> Hyp {
    |k: int, env: Env| constraint_holds(items, terms, k, env)
}

/// The constraints speak of nodes that are there, at their widths.
pub open spec fn items_fit(items: Seq<Constraint>, terms: Seq<Term>) -> bool {
    forall|k: int|
        #![trigger items[k]]
        0 <= k < items.len() ==> items[k].expr < terms.len() && items[k].known.has(
            term::twidth(terms[items[k].expr as int]),
        )
}

/// The hypotheses are at least the constraints.
pub open spec fn items_mean(items: Seq<Constraint>, terms: Seq<Term>, h: Hyp) -> bool {
    forall|k: int, env: Env|
        #![trigger h(k, env)]
        0 <= k < items.len() && h(k, env) ==> items[k].known.admits(
            term::value(terms[items[k].expr as int], env),
        )
}

/// Constraint `i` says that a bit of a node is clear that constraint `j` says is set.
pub open spec fn clash(items: Seq<Constraint>, i: int, j: int) -> bool {
    &&& 0 <= i < items.len()
    &&& 0 <= j < items.len()
    &&& items[i].expr == items[j].expr
    &&& exists|k: int|
        0 <= k < items[i].known.zero@.len() && k < items[j].known.one@.len()
            && #[trigger] items[i].known.zero@[k] && items[j].known.one@[k]
}

impl Assumptions {
    /// No constraints.
    pub fn new() -> (r: Assumptions)
        ensures
            r.items@.len() == 0,
    {
        Assumptions { items: Vec::new() }
    }

    /// Adds the constraint that `e`'s bits are as `known` says: its number.
    pub fn assume_known(&mut self, cx: &Context, e: Expr, known: KnownBits) -> (r: Result<
        u64,
        Error,
    >)
        requires
            cx.wf(),
        ensures
            r is Ok <==> e.id < cx.n() && known.has(cx.w(e.id as int)),
            r matches Ok(id) ==> id == old(self).items@.len() && final(self).items@
                == old(self).items@.push(Constraint { expr: e.id, known }),
            r is Err ==> final(self).items@ == old(self).items@,
    {
        if e.id as usize >= cx.len() {
            return Err(Error::BadHandle);
        }
        let w = cx.wid(e.id);
        if known.zero.len() != w as usize || known.one.len() != w as usize {
            return Err(Error::WidthMismatch);
        }
        let id: u64 = self.items.len() as u64;
        self.items.push(Constraint { expr: e.id, known });
        Ok(id)
    }

    /// Adds the constraint that the one-bit `e` is true, and what that says of a masked operand
    /// compared with a constant: the number of the last constraint added.
    pub fn assume_true(&mut self, cx: &Context, e: Expr) -> (r: Result<u64, Error>)
        requires
            cx.wf(),
        ensures
            r is Ok <==> e.id < cx.n() && cx.w(e.id as int) == 1,
            r is Err ==> final(self).items@ == old(self).items@,
            final(self).items@.len() >= old(self).items@.len(),
            final(self).items@.take(old(self).items@.len() as int) == old(self).items@,
            r matches Ok(id) ==> id + 1 == final(self).items@.len() && implied(
                final(self).items@.skip(old(self).items@.len() as int),
                cx.tm(),
                e.id as int,
            ),
    {
        let ghost items0 = self.items@;
        let id = self.assume_known(cx, e, KnownBits::constant(&BitVec::from_bool(true)))?;
        proof {
            let one = seq![true];
            assert(self.items@.take(items0.len() as int) =~= items0);
            let added = self.items@.skip(items0.len() as int);
            assert(added.len() == 1);
            assert forall|k: int, env: Env|
                #![trigger added[k], term::value(cx.terms@[e.id as int], env)]
                0 <= k < added.len() && term::value(cx.terms@[e.id as int], env) == seq![true] implies (
            added[k].expr < cx.terms@.len() && added[k].known.admits(
                term::value(cx.terms@[added[k].expr as int], env),
            )) by {}
        }
        // (x & c) == d says the bits of x under c.
        if let Node::Cmp(CmpOp::Eq, l, d) = cx.node(e.id) {
            assert(cx.ok_at(l as int));
            if let Some(dv) = cx.const_val(d) {
                if let Node::Bin(BinOp::And, x, c) = cx.node(l) {
                    assert(cx.ok_at(x as int));
                    if let Some(cv) = cx.const_val(c) {
                        let known = KnownBits { zero: cv.and(&dv.not()), one: cv.and(&dv) };
                        let ghost items1 = self.items@;
                        let ghost kn = known;
                        let id2 = self.assume_known(cx, Expr { id: x }, known)?;
                        proof {
                            assert(self.items@.take(items0.len() as int) =~= items0);
                            let added = self.items@.skip(items0.len() as int);
                            assert(added.len() == 2);
                            assert forall|k: int, env: Env|
                                #![trigger added[k], term::value(cx.terms@[e.id as int], env)]
                                0 <= k < added.len() && term::value(cx.terms@[e.id as int], env)
                                    == seq![true] implies (added[k].expr < cx.terms@.len()
                                && added[k].known.admits(
                                term::value(cx.terms@[added[k].expr as int], env),
                            )) by {
                                let xv = term::value(cx.terms@[x as int], env);
                                let ev = term::value(cx.terms@[e.id as int], env);
                                assert(ev[0]);
                                let lv = term::value(cx.terms@[l as int], env);
                                assert(term::value(cx.terms@[d as int], env) == dv@);
                                assert(term::value(cx.terms@[c as int], env) == cv@);
                                assert(lv == ops::and_bits(xv, cv@));
                                assert(ev == ops::bool_bits(lv == dv@));
                                assert(ops::and_bits(xv, cv@) == dv@);
                                assert forall|i: int| #![trigger xv[i]] 0 <= i < xv.len() implies (
                                kn.zero@[i] ==> !xv[i]) && (kn.one@[i] ==> xv[i]) by {
                                    assert(ops::and_bits(xv, cv@)[i] == dv@[i]);
                                }
                            }
                        }
                        return Ok(id2);
                    }
                }
            }
        }
        Ok(id)
    }

    /// Whether every constraint speaks of a node of the context, at its width.
    pub(crate) fn fits(&self, cx: &Context) -> (r: bool)
        requires
            cx.wf(),
        ensures
            r == items_fit(self.items@, cx.tm()),
    {
        let mut i: usize = 0;
        while i < self.items.len()
            invariant
                cx.wf(),
                i <= self.items@.len(),
                items_fit(self.items@.take(i as int), cx.tm()),
            decreases self.items@.len() - i,
        {
            let c = &self.items[i];
            assert(*c == self.items@[i as int]);
            if c.expr as usize >= cx.len() {
                return false;
            }
            let w: usize = cx.wid(c.expr) as usize;
            if c.known.zero.len() != w || c.known.one.len() != w {
                return false;
            }
            i = i + 1;
            proof {
                let t = self.items@.take(i as int);
                let t0 = self.items@.take(i - 1);
                assert forall|k: int| #![trigger t[k]] 0 <= k < t.len() implies t[k].expr
                    < cx.tm().len() && t[k].known.has(term::twidth(cx.tm()[t[k].expr as int])) by {
                    if k < i - 1 {
                        assert(t[k] == t0[k]);
                    }
                }
            }
        }
        assert(self.items@.take(i as int) =~= self.items@);
        true
    }

    /// Two constraints on one node (or one alone) say that a bit is both set and clear.
    pub open spec fn infeasible(self) -> bool {
        exists|i: int, j: int| #[trigger] clash(self.items@, i, j)
    }

    /// Whether two constraints on one node (or one alone) say that a bit is both set and clear.
    pub fn is_infeasible(&self) -> (r: bool)
        ensures
            r == self.infeasible(),
    {
        let mut i: usize = 0;
        while i < self.items.len()
            invariant
                i <= self.items@.len(),
                forall|a: int, b: int| 0 <= a < i ==> !#[trigger] clash(self.items@, a, b),
            decreases self.items@.len() - i,
        {
            let mut j: usize = 0;
            while j < self.items.len()
                invariant
                    i < self.items@.len(),
                    j <= self.items@.len(),
                    forall|b: int| 0 <= b < j ==> !#[trigger] clash(self.items@, i as int, b),
                decreases self.items@.len() - j,
            {
                let a = &self.items[i];
                let b = &self.items[j];
                assert(*a == self.items@[i as int]);
                assert(*b == self.items@[j as int]);
                if a.expr == b.expr {
                    let n = if a.known.zero.len() < b.known.one.len() {
                        a.known.zero.len()
                    } else {
                        b.known.one.len()
                    };
                    let mut k: usize = 0;
                    while k < n
                        invariant
                            k <= n,
                            n <= a.known.zero@.len(),
                            n <= b.known.one@.len(),
                            n == a.known.zero@.len() || n == b.known.one@.len(),
                            i < self.items@.len(),
                            j < self.items@.len(),
                            *a == self.items@[i as int],
                            *b == self.items@[j as int],
                            a.expr == b.expr,
                            forall|q: int|
                                0 <= q < k ==> !(#[trigger] a.known.zero@[q] && b.known.one@[q]),
                        decreases n - k,
                    {
                        if a.known.zero.at(k) && b.known.one.at(k) {
                            assert(clash(self.items@, i as int, j as int));
                            return true;
                        }
                        k = k + 1;
                    }
                }
                j = j + 1;
            }
            i = i + 1;
        }
        false
    }

    /// Whether the two lists say the same.
    pub(crate) fn same(&self, o: &Assumptions) -> (r: bool)
        ensures
            r == same_items(self.items@, o.items@),
    {
        if self.items.len() != o.items.len() {
            return false;
        }
        let mut i: usize = 0;
        while i < self.items.len()
            invariant
                i <= self.items.len(),
                self.items.len() == o.items.len(),
                same_items(self.items@.take(i as int), o.items@.take(i as int)),
            decreases self.items.len() - i,
        {
            let a = &self.items[i];
            let b = &o.items[i];
            if a.expr != b.expr || !a.known.zero.same(&b.known.zero) || !a.known.one.same(
                &b.known.one,
            ) {
                assert(!same_item(self.items@[i as int], o.items@[i as int]));
                return false;
            }
            i = i + 1;
            proof {
                let s = self.items@.take(i as int);
                let t = o.items@.take(i as int);
                assert forall|k: int| 0 <= k < s.len() implies #[trigger] same_item(s[k], t[k]) by {
                    if k < i - 1 {
                        let s0 = self.items@.take(i - 1);
                        let t0 = o.items@.take(i - 1);
                        assert(same_item(s0[k], t0[k]));
                        assert(s0[k] == s[k] && t0[k] == t[k]);
                    }
                }
            }
        }
        proof {
            assert(self.items@.take(i as int) =~= self.items@);
            assert(o.items@.take(i as int) =~= o.items@);
        }
        true
    }

    /// A copy.
    pub(crate) fn dup(&self) -> (r: Assumptions)
        ensures
            same_items(r.items@, self.items@),
    {
        let mut items: Vec<Constraint> = Vec::new();
        let mut i: usize = 0;
        while i < self.items.len()
            invariant
                i <= self.items.len(),
                items@.len() == i,
                forall|k: int| 0 <= k < i ==> #[trigger] same_item(items@[k], self.items@[k]),
            decreases self.items.len() - i,
        {
            let c = &self.items[i];
            let ghost before = items@;
            items.push(Constraint { expr: c.expr, known: c.known.dup() });
            proof {
                assert forall|k: int| 0 <= k < i + 1 implies #[trigger] same_item(
                    items@[k],
                    self.items@[k],
                ) by {
                    if k < i {
                        assert(items@[k] == before[k]);
                    }
                }
            }
            i = i + 1;
        }
        Assumptions { items }
    }
}

/// The constraints hold wherever node `e` is true.
pub open spec fn implied(added: Seq<Constraint>, terms: Seq<Term>, e: int) -> bool {
    forall|k: int, env: Env|
        #![trigger added[k], term::value(terms[e], env)]
        0 <= k < added.len() && term::value(terms[e], env) == seq![true] ==> (added[k].expr < terms.len()
            && added[k].known.admits(term::value(terms[added[k].expr as int], env)))
}

/// The two constraints say the same.
pub open spec fn same_item(a: Constraint, b: Constraint) -> bool {
    a.expr == b.expr && a.known.zero@ == b.known.zero@ && a.known.one@ == b.known.one@
}

/// The two lists of constraints say the same.
pub open spec fn same_items(a: Seq<Constraint>, b: Seq<Constraint>) -> bool {
    a.len() == b.len() && forall|k: int| 0 <= k < a.len() ==> #[trigger] same_item(a[k], b[k])
}

/// Lists that say the same give the same hypotheses.
pub proof fn lemma_same_hyp(a: Seq<Constraint>, b: Seq<Constraint>, terms: Seq<Term>)
    requires
        same_items(a, b),
    ensures
        forall|k: int, env: Env|
            constraint_holds(a, terms, k, env) == #[trigger] constraint_holds(b, terms, k, env),
{
    assert forall|k: int, env: Env|
        constraint_holds(a, terms, k, env) == #[trigger] constraint_holds(b, terms, k, env) by {
        if 0 <= k < a.len() {
            assert(same_item(a[k], b[k]));
        }
    }
}

/// What is known of a node, and what that relies on.
#[derive(Debug)]
pub struct Entry {
    /// The known bits.
    pub k: KnownBits,
    /// The constraints they rely on.
    pub rel: Reliance,
}

/// What is known of a term holds wherever the constraints it relies on do.
pub open spec fn entry_ok(e: Entry, t: Term, h: Hyp) -> bool {
    &&& e.k.has(term::twidth(t))
    &&& floor::floored(e.k, t)
    &&& forall|env: Env| e.rel.admits(h, env) ==> e.k.admits(#[trigger] term::value(t, env))
}

/// The facts of nodes, computed on demand and kept.
#[derive(Debug)]
pub struct FactStore {
    /// Per node.
    pub known: Vec<Option<Entry>>,
    /// Transfer functions run so far.
    pub work: u64,
    /// Queries a cap declined so far.
    pub capped: u64,
}

/// Every fact kept is right.
#[verifier::opaque]
pub open spec fn facts_ok(known: Seq<Option<Entry>>, terms: Seq<Term>, h: Hyp) -> bool {
    &&& known.len() <= terms.len()
    &&& forall|i: int|
        0 <= i < known.len() ==> (#[trigger] known[i] matches Some(e) ==> entry_ok(e, terms[i], h))
}

/// Facts stay right as the arena grows.
pub proof fn lemma_facts_grow(
    known: Seq<Option<Entry>>,
    terms: Seq<Term>,
    more: Seq<Term>,
    h: Hyp,
)
    requires
        facts_ok(known, terms, h),
        terms.len() <= more.len(),
        forall|i: int| 0 <= i < terms.len() ==> #[trigger] more[i] == terms[i],
    ensures
        facts_ok(known, more, h),
{
    reveal(facts_ok);
    assert forall|i: int| 0 <= i < known.len() implies (#[trigger] known[i] matches Some(e)
        ==> entry_ok(e, more[i], h)) by {
        assert(more[i] == terms[i]);
    }
}

/// The known bits of node `i` from those of its operands.
fn transfer(cx: &Context, i: u32, ks: &Vec<KnownBits>) -> (r: KnownBits)
    requires
        cx.wf(),
        i < cx.n(),
        ks@.len() == expr::kids(cx.nodes@[i as int]).len(),
        forall|j: int|
            #![trigger ks@[j]]
            0 <= j < ks@.len() ==> ks@[j].has(cx.w(expr::kids(cx.nodes@[i as int])[j] as int)),
    ensures
        r.has(cx.w(i as int)),
        forall|env: Env|
            (forall|j: int|
                #![trigger ks@[j]]
                0 <= j < ks@.len() ==> ks@[j].admits(
                    cx.val(expr::kids(cx.nodes@[i as int])[j] as int, env),
                )) ==> r.admits(#[trigger] cx.val(i as int, env)),
        (forall|j: int|
            #![trigger ks@[j]]
            0 <= j < ks@.len() ==> floor::floored(
                ks@[j],
                cx.tm()[expr::kids(cx.nodes@[i as int])[j] as int],
            )) ==> floor::floored(r, cx.tm()[i as int]),
{
    let r = transferred(cx, i, ks);
    proof {
        lemma_floored(cx, i, ks@, r);
    }
    r
}

/// What the operands' known bits fix of a node's: for bitwise operators and casts exactly.
pub(crate) open spec fn carried(cx: &Context, i: u32, ks: Seq<KnownBits>, r: KnownBits) -> bool {
    match cx.nodes@[i as int] {
        Node::Const(_) => cx.tm()[i as int] matches Term::Const(v) && r.zero@ == ops::not_bits(v)
            && r.one@ == v,
        Node::Un(UnOp::Not, _) => r.zero@ == ks[0].one@ && r.one@ == ks[0].zero@,
        Node::Bin(BinOp::And, _, _) => r.zero@ == ops::or_bits(ks[0].zero@, ks[1].zero@) && r.one@
            == ops::and_bits(ks[0].one@, ks[1].one@),
        Node::Bin(BinOp::Or, _, _) => r.zero@ == ops::and_bits(ks[0].zero@, ks[1].zero@) && r.one@
            == ops::or_bits(ks[0].one@, ks[1].one@),
        Node::Bin(BinOp::Xor, _, _) => r.zero@ == ops::or_bits(
            ops::and_bits(ks[0].zero@, ks[1].zero@),
            ops::and_bits(ks[0].one@, ks[1].one@),
        ) && r.one@ == ops::or_bits(
            ops::and_bits(ks[0].zero@, ks[1].one@),
            ops::and_bits(ks[0].one@, ks[1].zero@),
        ),
        Node::Zext(a) => forall|b: int|
            #![trigger r.zero@[b]]
            #![trigger r.one@[b]]
            0 <= b < r.zero@.len() ==> (if b < cx.w(a as int) {
                r.zero@[b] == ks[0].zero@[b] && r.one@[b] == ks[0].one@[b]
            } else {
                r.zero@[b]
            }),
        Node::Sext(_) => r.zero@ == ops::sext_bits(ks[0].zero@, cx.w(i as int)) && r.one@
            == ops::sext_bits(ks[0].one@, cx.w(i as int)),
        Node::Extract(_, lo) => r.zero@ == ks[0].zero@.subrange(lo as int, lo + cx.w(i as int))
            && r.one@ == ks[0].one@.subrange(lo as int, lo + cx.w(i as int)),
        Node::Concat(_, _) => r.zero@ == ks[1].zero@ + ks[0].zero@ && r.one@ == ks[1].one@
            + ks[0].one@,
        Node::Select(_, _, _) => if ks[0].one@[0] {
            r.zero@ == ks[1].zero@ && r.one@ == ks[1].one@
        } else if ks[0].zero@[0] {
            r.zero@ == ks[2].zero@ && r.one@ == ks[2].one@
        } else {
            r.zero@ == ops::and_bits(ks[1].zero@, ks[2].zero@) && r.one@ == ops::and_bits(
                ks[1].one@,
                ks[2].one@,
            )
        },
        _ => true,
    }
}

proof fn lemma_floored(cx: &Context, i: u32, ks: Seq<KnownBits>, r: KnownBits)
    requires
        cx.wf(),
        i < cx.n(),
        ks.len() == expr::kids(cx.nodes@[i as int]).len(),
        forall|j: int|
            #![trigger ks[j]]
            0 <= j < ks.len() ==> ks[j].has(cx.w(expr::kids(cx.nodes@[i as int])[j] as int)),
        r.has(cx.w(i as int)),
        carried(cx, i, ks, r),
    ensures
        (forall|j: int|
            #![trigger ks[j]]
            0 <= j < ks.len() ==> floor::floored(
                ks[j],
                cx.tm()[expr::kids(cx.nodes@[i as int])[j] as int],
            )) ==> floor::floored(r, cx.tm()[i as int]),
{
    assert(cx.ok_at(i as int));
    let t = cx.tm()[i as int];
    if forall|j: int|
        #![trigger ks[j]]
        0 <= j < ks.len() ==> floor::floored(
            ks[j],
            cx.tm()[expr::kids(cx.nodes@[i as int])[j] as int],
        ) {
        let node = cx.nodes@[i as int];
        if ks.len() > 0 {
            let _ = ks[0];
            assert(cx.ok_at(expr::kids(node)[0] as int));
        }
        if ks.len() > 1 {
            let _ = ks[1];
            assert(cx.ok_at(expr::kids(node)[1] as int));
        }
        if ks.len() > 2 {
            let _ = ks[2];
            assert(cx.ok_at(expr::kids(node)[2] as int));
        }
        assert forall|b: int|
            #![trigger r.zero@[b]]
            #![trigger r.one@[b]]
            0 <= b < term::twidth(t) implies (floor::surely(t, b, false) ==> r.zero@[b]) && (
        floor::surely(t, b, true) ==> r.one@[b]) by {
            match node {
                Node::Un(_, _) => {
                    let _ = (ks[0].zero@[b], ks[0].one@[b]);
                },
                Node::Bin(_, _, _) => {
                    let _ = (ks[0].zero@[b], ks[0].one@[b], ks[1].zero@[b], ks[1].one@[b]);
                },
                Node::Zext(a) => {
                    if b < cx.w(a as int) {
                        let _ = (ks[0].zero@[b], ks[0].one@[b]);
                    }
                },
                Node::Sext(a) => {
                    let p = if b < cx.w(a as int) {
                        b
                    } else {
                        cx.w(a as int) - 1
                    };
                    let _ = (ks[0].zero@[p], ks[0].one@[p]);
                },
                Node::Extract(_, lo) => {
                    let _ = (ks[0].zero@[lo + b], ks[0].one@[lo + b]);
                },
                Node::Concat(_, l) => {
                    if b < cx.w(l as int) {
                        let _ = (ks[1].zero@[b], ks[1].one@[b]);
                    } else {
                        let p = b - cx.w(l as int);
                        let _ = (ks[0].zero@[p], ks[0].one@[p]);
                    }
                },
                Node::Select(_, _, _) => {
                    let _ = (ks[1].zero@[b], ks[1].one@[b], ks[2].zero@[b], ks[2].one@[b]);
                },
                _ => {},
            }
        }
    }
}

/// The known bits of node `i`, from those of its operands.
fn transferred(cx: &Context, i: u32, ks: &Vec<KnownBits>) -> (r: KnownBits)
    requires
        cx.wf(),
        i < cx.n(),
        ks@.len() == expr::kids(cx.nodes@[i as int]).len(),
        forall|j: int|
            #![trigger ks@[j]]
            0 <= j < ks@.len() ==> ks@[j].has(cx.w(expr::kids(cx.nodes@[i as int])[j] as int)),
    ensures
        r.has(cx.w(i as int)),
        forall|env: Env|
            (forall|j: int|
                #![trigger ks@[j]]
                0 <= j < ks@.len() ==> ks@[j].admits(
                    cx.val(expr::kids(cx.nodes@[i as int])[j] as int, env),
                )) ==> r.admits(#[trigger] cx.val(i as int, env)),
        carried(cx, i, ks@, r),
{
    let node = cx.node(i);
    let w = cx.wid(i);
    let ghost ksq = ks@;
    match node {
        Node::Const(_) => {
            match cx.const_val(i) {
                Some(v) => KnownBits::constant(&v),
                None => KnownBits::unknown(w as usize),
            }
        },
        Node::Sym(_) => KnownBits::unknown(w as usize),
        Node::Un(op, a) => {
            assert(cx.ok_at(a as int));
            let x = &ks[0];
            assert(ksq[0].has(cx.w(a as int)));
            un_known(op, x)
        },
        Node::Bin(op, a, b) => {
            assert(cx.ok_at(a as int));
            assert(cx.ok_at(b as int));
            assert(ksq[0].has(cx.w(a as int)));
            assert(ksq[1].has(cx.w(b as int)));
            if op == BinOp::Add && a == b {
                // A sum of a value with itself is a shift.
                let one = KnownBits::constant(&BitVec::from_u64(w as usize, 1));
                let r = bin_known(BinOp::Shl, &ks[0], &one);
                proof {
                    assert forall|env: Env|
                        (forall|j: int|
                            #![trigger ksq[j]]
                            0 <= j < ksq.len() ==> ksq[j].admits(
                                cx.val(expr::kids(node)[j] as int, env),
                            )) implies r.admits(#[trigger] cx.val(i as int, env)) by {
                        let s = cx.val(a as int, env);
                        let t = bits::bits_of(1, w as nat);
                        assert(ksq[0].admits(s));
                        assert(one.admits(t));
                        algebra::lemma_one_nat(w as nat);
                        transfer::lemma_double(s);
                    }
                }
                return r;
            }
            let r = bin_known(op, &ks[0], &ks[1]);
            proof {
                assert forall|env: Env|
                    (forall|j: int|
                        #![trigger ksq[j]]
                        0 <= j < ksq.len() ==> ksq[j].admits(
                            cx.val(expr::kids(node)[j] as int, env),
                        )) implies r.admits(#[trigger] cx.val(i as int, env)) by {
                    assert(ksq[0].admits(cx.val(a as int, env)));
                    assert(ksq[1].admits(cx.val(b as int, env)));
                }
            }
            r
        },
        Node::Cmp(op, a, b) => {
            assert(cx.ok_at(a as int));
            assert(cx.ok_at(b as int));
            assert(ksq[0].has(cx.w(a as int)));
            assert(ksq[1].has(cx.w(b as int)));
            match rel_known(op, &ks[0], &ks[1]) {
                Some(v) => {
                    let r = KnownBits::constant(&BitVec::from_bool(v));
                    proof {
                        assert forall|env: Env|
                            (forall|j: int|
                                #![trigger ksq[j]]
                                0 <= j < ksq.len() ==> ksq[j].admits(
                                    cx.val(expr::kids(node)[j] as int, env),
                                )) implies r.admits(#[trigger] cx.val(i as int, env)) by {
                            assert(ksq[0].admits(cx.val(a as int, env)));
                            assert(ksq[1].admits(cx.val(b as int, env)));
                        }
                    }
                    r
                },
                None => KnownBits::unknown(1),
            }
        },
        Node::Zext(a) => {
            assert(cx.ok_at(a as int));
            assert(ksq[0].has(cx.w(a as int)));
            let wa = cx.wid(a) as usize;
            let n = w as usize;
            let high = KnownBits::zeros_from(n, wa);
            let r = KnownBits { zero: ks[0].zero.zext(n).or(&high.zero), one: ks[0].one.zext(n) };
            proof {
                assert forall|env: Env|
                    (forall|j: int|
                        #![trigger ksq[j]]
                        0 <= j < ksq.len() ==> ksq[j].admits(
                            cx.val(expr::kids(node)[j] as int, env),
                        )) implies r.admits(#[trigger] cx.val(i as int, env)) by {
                    let s = cx.val(a as int, env);
                    assert(ksq[0].admits(s));
                    let t = cx.val(i as int, env);
                    let l = Seq::new(n as nat, |k: int| k < wa);
                    assert(high.admits(l));
                    assert forall|k: int| #![trigger t[k]] 0 <= k < t.len() implies (r.zero@[k]
                        ==> !t[k]) && (r.one@[k] ==> t[k]) by {
                        if k < wa {
                            let _ = s[k];
                            assert(l[k]);
                        }
                    }
                }
            }
            r
        },
        Node::Sext(a) => {
            assert(cx.ok_at(a as int));
            assert(ksq[0].has(cx.w(a as int)));
            let n = w as usize;
            let r = KnownBits { zero: ks[0].zero.sext(n), one: ks[0].one.sext(n) };
            proof {
                assert forall|env: Env|
                    (forall|j: int|
                        #![trigger ksq[j]]
                        0 <= j < ksq.len() ==> ksq[j].admits(
                            cx.val(expr::kids(node)[j] as int, env),
                        )) implies r.admits(#[trigger] cx.val(i as int, env)) by {
                    let s = cx.val(a as int, env);
                    assert(ksq[0].admits(s));
                    let t = cx.val(i as int, env);
                    let _ = s[s.len() - 1];
                    assert forall|k: int| #![trigger t[k]] 0 <= k < t.len() implies (r.zero@[k]
                        ==> !t[k]) && (r.one@[k] ==> t[k]) by {
                        if k < s.len() {
                            let _ = s[k];
                        }
                    }
                }
            }
            r
        },
        Node::Extract(a, lo) => {
            assert(cx.ok_at(a as int));
            assert(ksq[0].has(cx.w(a as int)));
            let n = w as usize;
            let r = KnownBits {
                zero: ks[0].zero.extract(lo as usize, n),
                one: ks[0].one.extract(lo as usize, n),
            };
            proof {
                assert forall|env: Env|
                    (forall|j: int|
                        #![trigger ksq[j]]
                        0 <= j < ksq.len() ==> ksq[j].admits(
                            cx.val(expr::kids(node)[j] as int, env),
                        )) implies r.admits(#[trigger] cx.val(i as int, env)) by {
                    let s = cx.val(a as int, env);
                    assert(ksq[0].admits(s));
                    let t = cx.val(i as int, env);
                    assert forall|k: int| #![trigger t[k]] 0 <= k < t.len() implies (r.zero@[k]
                        ==> !t[k]) && (r.one@[k] ==> t[k]) by {
                        let _ = s[lo + k];
                    }
                }
            }
            r
        },
        Node::Concat(h, l) => {
            assert(cx.ok_at(h as int));
            assert(cx.ok_at(l as int));
            assert(ksq[0].has(cx.w(h as int)));
            assert(ksq[1].has(cx.w(l as int)));
            let r = KnownBits {
                zero: ks[0].zero.concat(&ks[1].zero),
                one: ks[0].one.concat(&ks[1].one),
            };
            proof {
                assert forall|env: Env|
                    (forall|j: int|
                        #![trigger ksq[j]]
                        0 <= j < ksq.len() ==> ksq[j].admits(
                            cx.val(expr::kids(node)[j] as int, env),
                        )) implies r.admits(#[trigger] cx.val(i as int, env)) by {
                    let s = cx.val(h as int, env);
                    let u = cx.val(l as int, env);
                    assert(ksq[0].admits(s));
                    assert(ksq[1].admits(u));
                    let t = cx.val(i as int, env);
                    assert forall|k: int| #![trigger t[k]] 0 <= k < t.len() implies (r.zero@[k]
                        ==> !t[k]) && (r.one@[k] ==> t[k]) by {
                        if k < u.len() {
                            let _ = u[k];
                        } else {
                            let _ = s[k - u.len()];
                        }
                    }
                }
            }
            r
        },
        Node::Select(c, a, b) => {
            assert(cx.ok_at(c as int));
            assert(cx.ok_at(a as int));
            assert(cx.ok_at(b as int));
            assert(ksq[0].has(1));
            assert(ksq[1].has(cx.w(a as int)));
            assert(ksq[2].has(cx.w(b as int)));
            let r = if ks[0].one.at(0) {
                ks[1].dup()
            } else if ks[0].zero.at(0) {
                ks[2].dup()
            } else {
                ks[1].join(&ks[2])
            };
            proof {
                assert forall|env: Env|
                    (forall|j: int|
                        #![trigger ksq[j]]
                        0 <= j < ksq.len() ==> ksq[j].admits(
                            cx.val(expr::kids(node)[j] as int, env),
                        )) implies r.admits(#[trigger] cx.val(i as int, env)) by {
                    let s = cx.val(c as int, env);
                    assert(ksq[0].admits(s));
                    assert(ksq[1].admits(cx.val(a as int, env)));
                    assert(ksq[2].admits(cx.val(b as int, env)));
                    let _ = s[0];
                }
            }
            r
        },
    }
}

impl FactStore {
    /// Nothing kept.
    pub(crate) fn new() -> (r: FactStore)
        ensures
            forall|terms: Seq<Term>, h: Hyp| #[trigger] facts_ok(r.known@, terms, h),
            r.work == 0,
    {
        proof {
            reveal(facts_ok);
        }
        FactStore { known: Vec::new(), work: 0, capped: 0 }
    }

    /// Whether node `i`'s facts are kept.
    fn has(&self, i: u32) -> (r: bool)
        ensures
            r == ((i as int) < self.known@.len() && self.known@[i as int] is Some),
    {
        (i as usize) < self.known.len() && self.known[i as usize].is_some()
    }

    /// Computes and keeps the facts of node `i`, whose operands' facts are kept.
    fn compute(&mut self, cx: &Context, items: &Vec<Constraint>, i: u32, Ghost(h): Ghost<Hyp>)
        requires
            cx.wf(),
            i < old(self).known@.len(),
            old(self).known@.len() == cx.n(),
            facts_ok(old(self).known@, cx.terms@, h),
            items_fit(items@, cx.terms@),
            items_mean(items@, cx.terms@, h),
            forall|j: int|
                #![trigger expr::kids(cx.nodes@[i as int])[j]]
                0 <= j < expr::kids(cx.nodes@[i as int]).len() ==> old(self).known@[expr::kids(
                    cx.nodes@[i as int],
                )[j] as int] is Some,
        ensures
            facts_ok(final(self).known@, cx.terms@, h),
            final(self).known@.len() == old(self).known@.len(),
            final(self).known@[i as int] is Some,
            forall|j: int|
                0 <= j < final(self).known@.len() && old(self).known@[j] is Some
                    ==> #[trigger] final(self).known@[j] is Some,
            final(self).capped == old(self).capped,
            final(self).work == old(self).work,
    {
        let node = cx.node(i);
        let ch = node.children();
        let mut ks: Vec<KnownBits> = Vec::new();
        let mut rel = Reliance::none();
        let mut j: usize = 0;
        while j < ch.len()
            invariant
                cx.wf(),
                *self == *old(self),
                i < cx.n(),
                self.known@.len() == cx.n(),
                facts_ok(self.known@, cx.terms@, h),
                node == cx.nodes@[i as int],
                cx.ok_at(i as int),
                ch@ == expr::kids(node),
                j <= ch.len(),
                ks@.len() == j,
                forall|k: int|
                    #![trigger expr::kids(node)[k]]
                    0 <= k < expr::kids(node).len() ==> self.known@[expr::kids(node)[k] as int] is Some,
                forall|k: int|
                    #![trigger ks@[k]]
                    0 <= k < j ==> ks@[k].has(cx.w(expr::kids(node)[k] as int)) && floor::floored(
                        ks@[k],
                        cx.tm()[expr::kids(node)[k] as int],
                    ),
                forall|k: int, env: Env|
                    #![trigger ks@[k], rel.admits(h, env)]
                    0 <= k < j && rel.admits(h, env) ==> ks@[k].admits(
                        cx.val(expr::kids(node)[k] as int, env),
                    ),
            decreases ch.len() - j,
        {
            let c = ch[j];
            assert(expr::kids(node)[j as int] == c);
            proof {
                assert(c < i);
                reveal(facts_ok);
                assert(self.known@[c as int] is Some);
            }
            let ghost ks0 = ks@;
            let ghost rel0 = rel;
            match &self.known[c as usize] {
                Some(e) => {
                    assert(entry_ok(*e, cx.terms@[c as int], h));
                    ks.push(e.k.dup());
                    rel = rel.or(e.rel);
                    proof {
                        assert forall|k: int, env: Env|
                            #![trigger ks@[k], rel.admits(h, env)]
                            0 <= k < j + 1 && rel.admits(h, env) implies ks@[k].admits(
                            cx.val(expr::kids(node)[k] as int, env),
                        ) by {
                            assert(rel0.admits(h, env));
                            if k < j {
                                assert(ks@[k] == ks0[k]);
                            } else {
                                assert(e.k.admits(term::value(cx.terms@[c as int], env)));
                            }
                        }
                        assert forall|k: int| #![trigger ks@[k]] 0 <= k < j + 1 implies ks@[k].has(
                            cx.w(expr::kids(node)[k] as int),
                        ) && floor::floored(ks@[k], cx.tm()[expr::kids(node)[k] as int]) by {
                            if k < j {
                                assert(ks@[k] == ks0[k]);
                            } else {
                                assert forall|b: int|
                                    #![trigger ks@[k].zero@[b]]
                                    #![trigger ks@[k].one@[b]]
                                    0 <= b < term::twidth(cx.terms@[c as int]) implies (
                                floor::surely(cx.terms@[c as int], b, false) ==> ks@[k].zero@[b])
                                    && (floor::surely(cx.terms@[c as int], b, true)
                                    ==> ks@[k].one@[b]) by {
                                    let _ = (e.k.zero@[b], e.k.one@[b]);
                                }
                            }
                        }
                    }
                },
                None => {},
            }
            j = j + 1;
        }
        let mut k = transfer(cx, i, &ks);
        proof {
            let ksq = ks@;
            assert forall|env: Env| rel.admits(h, env) implies k.admits(
                #[trigger] term::value(cx.terms@[i as int], env),
            ) by {
                assert forall|q: int|
                    #![trigger ksq[q]]
                    0 <= q < ksq.len() implies ksq[q].admits(
                    cx.val(expr::kids(cx.nodes@[i as int])[q] as int, env),
                ) by {
                    assert(rel.admits(h, env));
                }
                assert(k.admits(cx.val(i as int, env)));
            }
        }
        let mut c: usize = 0;
        while c < items.len()
            invariant
                cx.wf(),
                *self == *old(self),
                i < cx.n(),
                items_fit(items@, cx.terms@),
                items_mean(items@, cx.terms@, h),
                c <= items.len(),
                k.has(cx.w(i as int)),
                floor::floored(k, cx.tm()[i as int]),
                forall|env: Env|
                    rel.admits(h, env) ==> k.admits(#[trigger] term::value(cx.terms@[i as int], env)),
            decreases items.len() - c,
        {
            if items[c].expr == i {
                // Only a constraint that says more is relied on.
                let ghost it = items@[c as int];
                if let Some(m) = k.meet(&items[c].known) {
                    if !(m.zero.same(&k.zero) && m.one.same(&k.one)) {
                        let old_rel = rel;
                        let one = Reliance::of(c as u64);
                        rel = rel.or(one);
                        proof {
                            assert forall|env: Env| rel.admits(h, env) implies m.admits(
                                #[trigger] term::value(cx.terms@[i as int], env),
                            ) by {
                                assert(old_rel.admits(h, env));
                                assert(one.admits(h, env));
                                assert(one.uses(c as int));
                                assert(h(c as int, env));
                            }
                        }
                        proof {
                            let t = cx.tm()[i as int];
                            assert forall|b: int|
                                #![trigger m.zero@[b]]
                                #![trigger m.one@[b]]
                                0 <= b < term::twidth(t) implies (floor::surely(t, b, false)
                                ==> m.zero@[b]) && (floor::surely(t, b, true) ==> m.one@[b]) by {
                                let _ = (k.zero@[b], k.one@[b]);
                            }
                        }
                        k = m;
                    }
                }
            }
            c = c + 1;
        }
        let e = Entry { k, rel };
        proof {
            reveal(facts_ok);
        }
        let ghost before = self.known@;
        self.known.set(i as usize, Some(e));
        proof {
            assert(entry_ok(e, cx.terms@[i as int], h));
            assert forall|q: int| 0 <= q < self.known@.len() implies (
            #[trigger] self.known@[q] matches Some(e) ==> entry_ok(e, cx.terms@[q], h)) by {
                if q != i {
                    assert(self.known@[q] == before[q]);
                }
            }
        }
    }

    /// The facts kept of node `n` are `k`, relying on `rel`.
    pub open spec fn holds(&self, n: u32, k: KnownBits, rel: Reliance) -> bool {
        &&& n < self.known@.len()
        &&& self.known@[n as int] matches Some(e) && e.k.zero@ == k.zero@ && e.k.one@ == k.one@
            && e.rel == rel
    }

    /// The facts of node `n`, running at most `cap` transfer functions: none when that does not
    /// do.
    pub(crate) fn query(
        &mut self,
        cx: &Context,
        items: &Vec<Constraint>,
        n: u32,
        cap: u64,
        Ghost(h): Ghost<Hyp>,
    ) -> (r: Option<(KnownBits, Reliance)>)
        requires
            cx.wf(),
            n < cx.n(),
            facts_ok(old(self).known@, cx.terms@, h),
            items_fit(items@, cx.terms@),
            items_mean(items@, cx.terms@, h),
        ensures
            facts_ok(final(self).known@, cx.terms@, h),
            old(self).work <= u64::MAX - cap ==> final(self).work <= old(self).work + cap,
            final(self).work >= old(self).work,
            r matches Some((k, rel)) ==> {
                &&& k.has(cx.w(n as int))
                &&& forall|env: Env| rel.admits(h, env) ==> k.admits(#[trigger] cx.val(n as int, env))
                &&& final(self).capped == old(self).capped
                &&& final(self).holds(n, k, rel)
                &&& floor::floored(k, cx.tm()[n as int])
            },
            r is None ==> final(self).capped == old(self).capped || final(self).capped
                == old(self).capped + 1,
    {
        proof {
            reveal(facts_ok);
        }
        while self.known.len() < cx.len()
            invariant
                cx.wf(),
                facts_ok(self.known@, cx.terms@, h),
                self.known@.len() <= cx.n(),
                self.work == old(self).work,
                self.capped == old(self).capped,
            decreases cx.n() - self.known@.len(),
        {
            proof {
                reveal(facts_ok);
            }
            let ghost before = self.known@;
            self.known.push(None);
            proof {
                assert forall|q: int| 0 <= q < self.known@.len() implies (
                #[trigger] self.known@[q] matches Some(e) ==> entry_ok(e, cx.terms@[q], h)) by {
                    if q < before.len() {
                        assert(self.known@[q] == before[q]);
                    }
                }
            }
        }
        proof {
            reveal(facts_ok);
        }
        let mut stack: Vec<(u32, bool)> = Vec::new();
        stack.push((n, false));
        let mut spent: u64 = 0;
        while !self.has(n)
            invariant
                cx.wf(),
                n < cx.n(),
                facts_ok(self.known@, cx.terms@, h),
                self.known@.len() == cx.n(),
                items_fit(items@, cx.terms@),
                items_mean(items@, cx.terms@, h),
                forall|k: int| #![trigger stack@[k]] 0 <= k < stack@.len() ==> stack@[k].0 < cx.n(),
                spent <= cap,
                self.work >= old(self).work,
                old(self).work <= u64::MAX - cap ==> self.work == old(self).work + spent,
                self.capped == old(self).capped,
            decreases dfs::freight(stack@),
        {
            let ghost stack0 = stack@;
            let top = match stack.pop() {
                Some(t) => t,
                None => {
                    return None;
                },
            };
            let (i, expanded) = top;
            assert(dfs::freight(stack0) == dfs::freight(stack@) + dfs::mass(top));
            proof {
                dfs::lemma_heft_pos(i as nat);
            }
            if self.has(i) {
                continue;
            }
            let node = cx.node(i);
            let ch = node.children();
            let mut ready = true;
            let mut j: usize = 0;
            if !expanded {
                stack.push((i, true));
            }
            let ghost under = dfs::freight(stack@);
            while j < ch.len()
                invariant
                    cx.wf(),
                    i < cx.n(),
                    cx.ok_at(i as int),
                    node == cx.nodes@[i as int],
                    ch@ == expr::kids(node),
                    j <= ch.len(),
                    ch.len() <= 3,
                    self.known@.len() == cx.n(),
                    forall|k: int|
                        #![trigger stack@[k]]
                        0 <= k < stack@.len() ==> stack@[k].0 < cx.n(),
                    4 * (dfs::freight(stack@) - under) <= j * dfs::heft(i as nat),
                    expanded ==> dfs::freight(stack@) == under,
                    ready ==> forall|k: int|
                        #![trigger expr::kids(node)[k]]
                        0 <= k < j ==> self.known@[expr::kids(node)[k] as int] is Some,
                decreases ch.len() - j,
            {
                let c = ch[j];
                assert(expr::kids(node)[j as int] == c);
                assert(c < i);
                if !self.has(c) {
                    ready = false;
                    if !expanded {
                        proof {
                            dfs::lemma_heft_mono(c as nat, i as nat);
                        }
                        stack.push((c, false));
                    }
                }
                assert((j + 1) * dfs::heft(i as nat) == j * dfs::heft(i as nat) + dfs::heft(i as nat)) by (nonlinear_arith);
                j = j + 1;
            }
            assert(j * dfs::heft(i as nat) <= 3 * dfs::heft(i as nat)) by (nonlinear_arith)
                requires
                    j <= 3,
            ;
            if ready {
                if spent >= cap {
                    if self.capped < u64::MAX {
                        self.capped = self.capped + 1;
                    }
                    return None;
                }
                self.compute(cx, items, i, Ghost(h));
                spent = spent + 1;
                if self.work < u64::MAX {
                    self.work = self.work + 1;
                }
            }
        }
        proof {
            reveal(facts_ok);
        }
        if self.has(n) {
            match &self.known[n as usize] {
                Some(e) => {
                    assert(entry_ok(*e, cx.terms@[n as int], h));
                    let k = e.k.dup();
                    proof {
                        let t = cx.tm()[n as int];
                        assert forall|b: int|
                            #![trigger k.zero@[b]]
                            #![trigger k.one@[b]]
                            0 <= b < term::twidth(t) implies (floor::surely(t, b, false)
                            ==> k.zero@[b]) && (floor::surely(t, b, true) ==> k.one@[b]) by {
                            let _ = (e.k.zero@[b], e.k.one@[b]);
                        }
                    }
                    Some((k, e.rel))
                },
                None => None,
            }
        } else {
            None
        }
    }
}

impl Context {
    /// The known bits of `e`, with no assumptions.
    pub fn known(&self, e: Expr) -> (r: Result<KnownBits, Error>)
        requires
            self.wf(),
        ensures
            r is Err ==> e.id >= self.n() || r->Err_0 == Error::ArenaFull,
            r matches Ok(k) ==> e.id < self.n() && k.has(self.w(e.id as int)) && forall|env: Env|
                k.admits(#[trigger] self.val(e.id as int, env)),
            r matches Ok(k) ==> floor::floored(k, self.tm()[e.id as int]),
    {
        if e.id as usize >= self.len() {
            return Err(Error::BadHandle);
        }
        let mut s = FactStore::new();
        let items: Vec<Constraint> = Vec::new();
        let ghost h: Hyp = |k: int, env: Env| true;
        match s.query(self, &items, e.id, u64::MAX, Ghost(h)) {
            Some((k, rel)) => {
                proof {
                    assert forall|env: Env| k.admits(#[trigger] self.val(e.id as int, env)) by {
                        assert(rel.admits(h, env));
                    }
                }
                Ok(k)
            },
            None => Err(Error::ArenaFull),
        }
    }
}

} // verus!
