//! The checks on one application: result width, termination order, sampled values, facts, and
//! the host's veto; and the commit of a pass's candidate.

use vstd::prelude::*;
use crate::term;
use crate::facts::store;
use crate::expr;
use crate::eval;
use crate::engine::runner;
use crate::engine::fin;
use crate::engine::budget;
use crate::engine::commit;
use crate::dfs;
use crate::bitvec::BitVec;
use crate::engine::budget::{Counter, Exhausted};
use crate::engine::fin::{Fin, Step, Stop};
use crate::engine::runner::{Runner, QUERY_WORK};
use crate::engine::stats;
use crate::engine::stats::{bump, By, Event, PassKind, Reject};
use crate::dfs::expand;
use crate::eval::point_value;
use crate::expr::{Context, Expr, Node};
use crate::ops::{BinOp, CmpOp, UnOp};
use crate::facts::reliance::{Hyp, Reliance};
use crate::facts::store::Constraint;
use crate::term::{Env, Term};

verus! {

broadcast use {
    crate::term::lemma_value_len,
    crate::dfs::lemma_freight_push,
    vstd::std_specs::hash::group_hash_axioms,
};

/// The outcome of the checks on one application.
#[derive(Clone, Copy, Debug, PartialEq, Eq, Structural)]
pub enum Accept {
    /// Made.
    Yes,
    /// Refused by the host.
    Vetoed,
    /// Refused by a check.
    Rejected(Reject),
}

/// The nodes sampled.
pub open spec fn sampled(samples: Map<u32, Vec<BitVec>>) -> spec_fn(u32) -> bool {
    |i: u32| samples.contains_key(i)
}

/// The two nodes differ at some assignment where the constraints relied on hold.
pub open spec fn differ(terms: Seq<Term>, h: Hyp, rel: Reliance, a: int, b: int) -> bool {
    exists|env: Env|
        rel.admits(h, env) && #[trigger] term::value(terms[a], env) != term::value(terms[b], env)
}

/// The two nodes agree at the first `k` points where the constraints relied on hold.
pub open spec fn agree_at(
    terms: Seq<Term>,
    h: Hyp,
    rel: Reliance,
    a: int,
    b: int,
    k: int,
) -> bool {
    forall|j: int|
        #![trigger eval::point_env(j as u64)]
        0 <= j < k && rel.admits(h, eval::point_env(j as u64)) ==> term::value(terms[a], eval::point_env(j as u64))
            == term::value(terms[b], eval::point_env(j as u64))
}

/// How many points an application is checked at.
pub open spec fn points_for(v: crate::engine::strategy::Verify, proven: bool) -> u32 {
    if proven || v.sampled_points >= v.unproven_points {
        v.sampled_points
    } else {
        v.unproven_points
    }
}

/// The precedence of an operator in the ground order.
pub open spec fn bin_rank(op: BinOp) -> int {
    match op {
        BinOp::And => 5,
        BinOp::Or => 6,
        BinOp::Xor => 7,
        BinOp::Add => 8,
        BinOp::Sub => 9,
        BinOp::Shl | BinOp::LShr | BinOp::AShr => 10,
        BinOp::RotL | BinOp::RotR => 11,
        BinOp::Mul => 12,
        BinOp::UDiv | BinOp::URem => 13,
        BinOp::SDiv | BinOp::SRem => 14,
    }
}

/// The precedence of a comparison in the ground order.
pub open spec fn rel_rank(op: CmpOp) -> int {
    match op {
        CmpOp::Eq => 5,
        CmpOp::Ne => 6,
        CmpOp::Ult => 7,
        CmpOp::Ule => 8,
        CmpOp::Slt => 9,
        CmpOp::Sle => 10,
    }
}

/// The precedence of the outermost operator of a term in the ground order.
pub open spec fn term_rank(t: Term) -> int {
    match t {
        Term::Const(_) | Term::Sym(_, _) => 0,
        Term::Zext(_, _) | Term::Sext(_, _) | Term::Extract(_, _, _) | Term::Concat(_, _) => 1,
        Term::Un(UnOp::Not, _) => 2,
        Term::Un(UnOp::Neg, _) => 3,
        Term::Un(_, _) => 4,
        Term::Bin(op, _, _) => bin_rank(op),
        Term::Cmp(op, _, _) => rel_rank(op),
        Term::Select(_, _, _) => 8,
    }
}

/// What the ground order says of rewriting `a` to `b`: the size of the tree decreases, or
/// increases, or it is the same and the precedence of the outermost operator does; or neither is
/// known (both are equal, or a size is too large to be kept).
pub open spec fn ground_order(a: Term, b: Term) -> Option<bool> {
    if term::tsize(a) >= u32::MAX || term::tsize(b) >= u32::MAX {
        None
    } else if term::tsize(a) != term::tsize(b) {
        Some(term::tsize(a) > term::tsize(b))
    } else if term_rank(a) != term_rank(b) {
        Some(term_rank(a) > term_rank(b))
    } else {
        None
    }
}

/// The ground order is one: what it takes from `a` to `b` and on to `c`, it takes from `a` to
/// `c`, and it takes nothing back to where it was; so no sequence of smaller results comes back.
pub proof fn law_ground_order_is_strict(a: Term, b: Term, c: Term)
    ensures
        ground_order(a, b) == Some(true) && ground_order(b, c) == Some(true) ==> ground_order(a, c)
            == Some(true),
        ground_order(a, a) != Some(true),
        ground_order(a, b) == Some(true) <==> ground_order(b, a) == Some(false),
{
}

/// The precedence of a node's operator in the ground order.
fn node_rank(node: &Node) -> (r: u8)
    ensures
        r == match *node {
            Node::Const(_) | Node::Sym(_) => 0,
            Node::Zext(_) | Node::Sext(_) | Node::Extract(_, _) | Node::Concat(_, _) => 1,
            Node::Un(UnOp::Not, _) => 2,
            Node::Un(UnOp::Neg, _) => 3,
            Node::Un(_, _) => 4,
            Node::Bin(op, _, _) => bin_rank(op),
            Node::Cmp(op, _, _) => rel_rank(op),
            Node::Select(_, _, _) => 8,
        },
{
    match *node {
        Node::Const(_) | Node::Sym(_) => 0,
        Node::Zext(_) | Node::Sext(_) | Node::Extract(_, _) | Node::Concat(_, _) => 1,
        Node::Un(UnOp::Not, _) => 2,
        Node::Un(UnOp::Neg, _) => 3,
        Node::Un(_, _) => 4,
        Node::Bin(op, _, _) => match op {
            BinOp::And => 5,
            BinOp::Or => 6,
            BinOp::Xor => 7,
            BinOp::Add => 8,
            BinOp::Sub => 9,
            BinOp::Shl | BinOp::LShr | BinOp::AShr => 10,
            BinOp::RotL | BinOp::RotR => 11,
            BinOp::Mul => 12,
            BinOp::UDiv | BinOp::URem => 13,
            BinOp::SDiv | BinOp::SRem => 14,
        },
        Node::Cmp(op, _, _) => match op {
            CmpOp::Eq => 5,
            CmpOp::Ne => 6,
            CmpOp::Ult => 7,
            CmpOp::Ule => 8,
            CmpOp::Slt => 9,
            CmpOp::Sle => 10,
        },
        Node::Select(_, _, _) => 8,
    }
}

impl Context {
    /// Whether node `a` is greater than node `b` in the ground order, if that is decided.
    pub(crate) fn ground_greater(&self, a: u32, b: u32) -> (r: Option<bool>)
        requires
            self.wf(),
            a < self.n(),
            b < self.n(),
        ensures
            r == ground_order(self.tm()[a as int], self.tm()[b as int]),
    {
        assert(self.ok_at(a as int));
        assert(self.ok_at(b as int));
        let x = self.meta[a as usize].tree;
        let y = self.meta[b as usize].tree;
        if x == u32::MAX || y == u32::MAX {
            return None;
        }
        if x != y {
            return Some(x > y);
        }
        let p = node_rank(&self.nodes[a as usize]);
        let q = node_rank(&self.nodes[b as usize]);
        if p != q {
            Some(p > q)
        } else {
            None
        }
    }
}

/// What the host's answer to a rewrite decides.
pub fn after_admit(answer: bool) -> (r: Accept)
    ensures
        r == (if answer {
            Accept::Yes
        } else {
            Accept::Vetoed
        }),
{
    if answer {
        Accept::Yes
    } else {
        Accept::Vetoed
    }
}

impl<'a> Runner<'a> {
    /// What the commit rule weighs is the same.
    pub open spec fn weighing(&self, o: &Runner<'a>) -> bool {
        self.scratch == o.scratch && self.live == o.live && self.sharing == o.sharing
    }

    /// No rewrite was made, refused or vetoed in between.
    pub open spec fn undecided(&self, o: &Runner<'a>) -> bool {
        &&& self.meter.spent.rewrites == o.meter.spent.rewrites
        &&& self.stats.rejected == o.stats.rejected
        &&& self.stats.hook_vetoes == o.stats.hook_vetoes
    }

    /// Nothing held a rewrite back in this call: no host, no check of terms or facts, no
    /// quarantine, no cycle.
    pub open spec fn quiet(&self) -> bool {
        &&& self.unchecked()
        &&& !self.verify.termination
        &&& self.stats.quarantined == 0
        &&& self.stats.cycles_cut == 0
    }

    /// No host can veto a rewrite, and facts are not held against one.
    pub open spec fn unchecked(&self) -> bool {
        self.hooks is None && !self.verify.tripwire
    }
}

impl<'a> Runner<'a> {
    /// Evaluates `root` and every node below it not yet sampled at every verification point
    /// (each node once per call; charged as node visits).
    pub(crate) fn sample(&mut self, cx: &Context, root: u32) -> (r: Result<(), Stop>)
        requires
            old(self).wf(cx),
            root < cx.n(),
        ensures
            runner::went(final(self), cx, old(self), cx),
            r matches Err(e) ==> final(self).refuses(cx, e),
            final(self).weighing(old(self)),
            final(self).undecided(old(self)),
            r is Ok ==> final(self).samples@.contains_key(root),
            forall|i: u32|
                old(self).samples@.contains_key(i) ==> #[trigger] final(self).samples@.contains_key(
                    i,
                ),
    {
        let v = self.verify;
        let m: u32 = if v.sampled_points >= v.unproven_points {
            v.sampled_points
        } else {
            v.unproven_points
        };
        // At least 16: results may be compared with what they replace through these.
        let points: usize = if m >= 16 {
            m as usize
        } else {
            16
        };
        let mut stack: Vec<(u32, bool)> = vec![(root, false)];
        while stack.len() > 0
            invariant
                runner::went(self, cx, old(self), cx),
                self.weighing(old(self)),
                self.undecided(old(self)),
                root < cx.n(),
                points == runner::points_of(self.verify),
                dfs::staying(stack@, cx.n()),
                dfs::waiting(stack@, sampled(self.samples@), cx.nodes@),
                self.samples@.contains_key(root) || (stack@.len() > 0 && stack@[0].0 == root),
                forall|i: u32|
                    old(self).samples@.contains_key(i) ==> #[trigger] self.samples@.contains_key(i),
            decreases dfs::freight(stack@),
        {
            let ghost stack0 = stack@;
            let ghost done0 = sampled(self.samples@);
            let top = match stack.pop() {
                Some(t) => t,
                None => {
                    return Ok(());
                },
            };
            let (i, expanded) = top;
            assert(stack0.last() == top);
            assert(stack@ =~= stack0.drop_last());
            assert(dfs::freight(stack0) == dfs::freight(stack@) + dfs::mass(top));
            proof {
                dfs::lemma_heft_pos(i as nat);
            }
            if self.samples.contains_key(&i) {
                proof {
                    dfs::lemma_wait_done(stack0, done0, done0, cx.nodes@);
                }
                continue;
            }
            if !expanded {
                let kept = &self.samples;
                let is_done = |c: u32| -> (b: bool)
                    ensures
                        b == kept@.contains_key(c),
                {
                    kept.contains_key(&c)
                };
                expand(cx, &mut stack, i, is_done, Ghost(stack0), Ghost(done0));
                continue;
            }
            self.charge(Counter::NodeVisits, 1)?;
            proof {
                dfs::lemma_wait_top(stack0, done0, cx.nodes@);
                assert forall|q: int| 0 <= q < expr::kids(cx.nodes@[i as int]).len() implies self.samples@.contains_key(
                    #[trigger] expr::kids(cx.nodes@[i as int])[q],
                ) by {
                    assert(done0(expr::kids(cx.nodes@[i as int])[q]));
                }
            }
            let vals = self.point_values(cx, i, points);
            self.samples.insert(i, vals);
            proof {
                reveal(runner::samples_ok);
                dfs::lemma_wait_done(stack0, done0, sampled(self.samples@), cx.nodes@);
            }
        }
        Ok(())
    }

    /// The values of node `i`, whose operands are sampled, at every point.
    fn point_values(&self, cx: &Context, i: u32, points: usize) -> (r: Vec<BitVec>)
        requires
            self.wf(cx),
            i < cx.n(),
            points == runner::points_of(self.verify),
            forall|q: int|
                0 <= q < expr::kids(cx.nodes@[i as int]).len() ==> self.samples@.contains_key(
                    #[trigger] expr::kids(cx.nodes@[i as int])[q],
                ),
        ensures
            r@.len() == points,
            forall|k: int|
                0 <= k < points ==> (#[trigger] r@[k])@ == cx.val(i as int, eval::point_env(k as u64)),
    {
        let node = cx.node(i);
        let w = cx.wid(i);
        let ch = node.children();
        assert forall|q: int| 0 <= q < ch@.len() implies self.samples@.contains_key(
            #[trigger] ch@[q],
        ) by {
            assert(self.samples@.contains_key(expr::kids(cx.nodes@[i as int])[q]));
        }
        let mut vals: Vec<BitVec> = Vec::with_capacity(points);
        let mut k: usize = 0;
        while k < points
            invariant
                k <= points,
                points == runner::points_of(self.verify),
                self.wf(cx),
                i < cx.n(),
                node == cx.nodes@[i as int],
                cx.ok_at(i as int),
                w == cx.w(i as int),
                ch@ == expr::kids(node),
                vals@.len() == k,
                forall|q: int| 0 <= q < ch@.len() ==> self.samples@.contains_key(#[trigger] ch@[q]),
                forall|q: int|
                    0 <= q < k ==> (#[trigger] vals@[q])@ == cx.val(i as int, eval::point_env(q as u64)),
            decreases points - k,
        {
            let ghost env = eval::point_env(k as u64);
            let x = if let Node::Sym(key) = node {
                let x = point_value(key, w as usize, k as u64);
                assert(x@ =~= cx.val(i as int, env));
                x
            } else {
                let mut ks: Vec<BitVec> = Vec::new();
                let mut q: usize = 0;
                while q < ch.len()
                    invariant
                        q <= ch.len(),
                        k < points,
                        points == runner::points_of(self.verify),
                        self.wf(cx),
                        i < cx.n(),
                        cx.ok_at(i as int),
                        node == cx.nodes@[i as int],
                        ch@ == expr::kids(node),
                        env == eval::point_env(k as u64),
                        ks@.len() == q,
                        forall|q: int|
                            0 <= q < ch@.len() ==> self.samples@.contains_key(#[trigger] ch@[q]),
                        forall|p: int|
                            #![trigger ks@[p]]
                            0 <= p < q ==> ks@[p]@ == cx.val(expr::kids(node)[p] as int, env),
                    decreases ch.len() - q,
                {
                    proof {
                        reveal(runner::samples_ok);
                        assert(self.samples@.contains_key(ch@[q as int]));
                    }
                    match self.samples.get(&ch[q]) {
                        Some(v) => {
                            assert(v@[k as int]@ == cx.val(ch@[q as int] as int, env));
                            ks.push(v[k].dup());
                        },
                        None => {},
                    }
                    q = q + 1;
                }
                cx.node_value(i, &ks, Ghost(env))
            };
            vals.push(x);
            k = k + 1;
        }
        vals
    }

    /// Whether the constraints in `rel` hold at each of the first `k` verification points.
    fn constraints_hold(&mut self, cx: &Context, rel: Reliance, k: usize) -> (r: Result<
        Vec<bool>,
        Stop,
    >)
        requires
            old(self).wf(cx),
            k <= runner::points_of(old(self).verify),
        ensures
            runner::went(final(self), cx, old(self), cx),
            r matches Err(e) ==> final(self).refuses(cx, e),
            final(self).weighing(old(self)),
            final(self).undecided(old(self)),
            forall|i: u32|
                old(self).samples@.contains_key(i) ==> #[trigger] final(self).samples@.contains_key(
                    i,
                ),
            r matches Ok(held) ==> held@.len() == k && forall|j: int|
                0 <= j < k ==> #[trigger] held@[j] == rel.admits(
                    final(self).hyp@,
                    eval::point_env(j as u64),
                ),
    {
        let mut held: Vec<bool> = Vec::new();
        let mut j: usize = 0;
        while j < k
            invariant
                j <= k,
                held@.len() == j,
                forall|q: int| 0 <= q < j ==> #[trigger] held@[q],
            decreases k - j,
        {
            held.push(true);
            j = j + 1;
        }
        let ghost h = self.hyp@;
        let mut id: usize = 0;
        while id < self.items.len()
            invariant
                id <= self.items.len(),
                k <= runner::points_of(self.verify),
                runner::went(self, cx, old(self), cx),
                self.weighing(old(self)),
                self.undecided(old(self)),
                h == self.hyp@,
                held@.len() == k,
                forall|i: u32|
                    old(self).samples@.contains_key(i) ==> #[trigger] self.samples@.contains_key(i),
                forall|q: int|
                    0 <= q < k ==> (#[trigger] held@[q] <==> upto(rel, h, id as int, eval::point_env(q as u64))),
            decreases self.items.len() - id,
        {
            if rel.may_use(id as u64) {
                proof {
                    reveal(runner::items_ok);
                    let _ = self.items@[id as int];
                }
                let e = self.items[id].expr;
                self.sample(cx, e)?;
                let ghost before = held@;
                let mut q: usize = 0;
                while q < k
                    invariant
                        q <= k,
                        k <= runner::points_of(self.verify),
                        runner::went(self, cx, old(self), cx),
                        self.weighing(old(self)),
                        self.undecided(old(self)),
                        h == self.hyp@,
                        id < self.items.len(),
                        e == self.items@[id as int].expr,
                        e < cx.n(),
                        rel.uses(id as int),
                        self.samples@.contains_key(e),
                        held@.len() == k,
                        before.len() == k,
                        forall|p: int| q <= p < k ==> #[trigger] held@[p] == before[p],
                        forall|p: int|
                            0 <= p < q ==> (#[trigger] held@[p] <==> before[p] && h(
                                id as int,
                                eval::point_env(p as u64),
                            )),
                    decreases k - q,
                {
                    proof {
                        reveal(runner::items_ok);
                        reveal(runner::samples_ok);
                        let _ = self.items@[id as int];
                        let env = eval::point_env(q as u64);
                        assert(h(id as int, env) <==> store::constraint_holds(
                            self.items@,
                            cx.tm(),
                            id as int,
                            env,
                        ));
                    }
                    if let Some(vals) = self.samples.get(&e) {
                        assert(vals@[q as int]@ == cx.val(e as int, eval::point_env(q as u64)));
                        assert(cx.ok_at(e as int));
                        let ok = self.items[id].known.contains(&vals[q]);
                        let b = held[q];
                        held.set(q, b && ok);
                    }
                    q = q + 1;
                }
                proof {
                    assert forall|q: int| 0 <= q < k implies (#[trigger] held@[q] <==> upto(
                        rel,
                        h,
                        id + 1,
                        eval::point_env(q as u64),
                    )) by {
                        let _ = before[q];
                    }
                }
            }
            id = id + 1;
        }
        proof {
            reveal(runner::items_ok);
            assert forall|q: int| 0 <= q < k implies #[trigger] held@[q] == rel.admits(
                h,
                eval::point_env(q as u64),
            ) by {
                let env = eval::point_env(q as u64);
                assert(held@[q] <==> upto(rel, h, id as int, env));
                if upto(rel, h, id as int, env) {
                    assert forall|x: int| #[trigger] rel.uses(x) implies h(x, env) by {
                        if x >= id {
                            assert(store::constraint_holds(self.items@, cx.tm(), x, env));
                        }
                    }
                }
            }
        }
        Ok(held)
    }

    /// Checks an application; the reason to reject it, if any. Rules are checked against the
    /// ground termination order; passes decrease DAG size instead, which they check themselves.
    /// A rewrite relying on constraints is compared only at the points where they hold.
    pub(crate) fn postcondition(
        &mut self,
        cx: &Context,
        by: By<'_>,
        proven: bool,
        n: u32,
        r: u32,
        rel: Reliance,
    ) -> (out: Result<Option<Reject>, Stop>)
        requires
            old(self).wf(cx),
            n < cx.n(),
            r < cx.n(),
        ensures
            runner::went(final(self), cx, old(self), cx),
            out matches Err(e) ==> final(self).refuses(cx, e),
            final(self).weighing(old(self)),
            final(self).undecided(old(self)),
            cx.w(r as int) != cx.w(n as int) ==> out == Ok::<Option<Reject>, Stop>(
                Some(Reject::Width),
            ),
            out matches Ok(Some(Reject::Width)) ==> cx.w(r as int) != cx.w(n as int),
            out matches Ok(Some(Reject::Termination)) ==> old(self).verify.termination && by is Rule
                && ground_order(cx.tm()[n as int], cx.tm()[r as int]) == Some(false),
            out matches Ok(Some(Reject::Verify)) ==> differ(
                cx.tm(),
                final(self).hyp@,
                rel,
                n as int,
                r as int,
            ),
            out matches Ok(Some(Reject::Tripwire)) ==> old(self).verify.tripwire && forall|env: Env|
                #[trigger] cx.val(n as int, env) != cx.val(r as int, env),
            out matches Ok(None) ==> cx.w(r as int) == cx.w(n as int) && agree_at(
                cx.tm(),
                final(self).hyp@,
                rel,
                n as int,
                r as int,
                points_for(old(self).verify, proven) as int,
            ) && (old(self).verify.termination && by is Rule ==> ground_order(
                cx.tm()[n as int],
                cx.tm()[r as int],
            ) != Some(false)),
    {
        let v = self.verify;
        if cx.wid(r) != cx.wid(n) {
            return Ok(Some(Reject::Width));
        }
        // An undecided comparison (saturated tree sizes) is no evidence against the compiler's
        // static proof, so only a definite "not smaller" rejects.
        let rule = match by {
            By::Rule(_) => true,
            _ => false,
        };
        if v.termination && rule && cx.ground_greater(n, r) == Some(false) {
            return Ok(Some(Reject::Termination));
        }
        let points: u32 = if proven || v.sampled_points >= v.unproven_points {
            v.sampled_points
        } else {
            v.unproven_points
        };
        if points > 0 {
            self.sample(cx, n)?;
            self.sample(cx, r)?;
            let k: usize = points as usize;
            let held = self.constraints_hold(cx, rel, k)?;
            let ghost h = self.hyp@;
            let mut j: usize = 0;
            while j < k
                invariant
                    j <= k,
                    k == points,
                    k <= runner::points_of(self.verify),
                    runner::went(self, cx, old(self), cx),
                    self.weighing(old(self)),
                    self.undecided(old(self)),
                    h == self.hyp@,
                    n < cx.n(),
                    r < cx.n(),
                    cx.w(r as int) == cx.w(n as int),
                    held@.len() == k,
                    self.samples@.contains_key(n),
                    self.samples@.contains_key(r),
                    forall|q: int|
                        0 <= q < k ==> #[trigger] held@[q] == rel.admits(h, eval::point_env(q as u64)),
                    agree_at(cx.tm(), h, rel, n as int, r as int, j as int),
                decreases k - j,
            {
                proof {
                    reveal(runner::samples_ok);
                }
                if held[j] {
                    if let (Some(a), Some(b)) = (self.samples.get(&n), self.samples.get(&r)) {
                        let ghost env = eval::point_env(j as u64);
                        assert(a@[j as int]@ == cx.val(n as int, env));
                        assert(b@[j as int]@ == cx.val(r as int, env));
                        if !a[j].same(&b[j]) {
                            assert(rel.admits(h, env) && term::value(cx.tm()[n as int], env) != term::value(
                                cx.tm()[r as int],
                                env,
                            ));
                            return Ok(Some(Reject::Verify));
                        }
                    }
                }
                j = j + 1;
            }
        }
        if v.tripwire {
            if self.clash(cx, n, r)? {
                return Ok(Some(Reject::Tripwire));
            }
        }
        Ok(None)
    }

    /// Whether the facts of `n` and `r`, under no constraints, cannot both hold of one value.
    /// Capped by what remains of the fact budget, both queries together.
    fn clash(&mut self, cx: &Context, n: u32, r: u32) -> (out: Result<bool, Stop>)
        requires
            old(self).wf(cx),
            n < cx.n(),
            r < cx.n(),
            cx.w(n as int) == cx.w(r as int),
        ensures
            runner::went(final(self), cx, old(self), cx),
            out matches Err(e) ==> final(self).refuses(cx, e),
            final(self).weighing(old(self)),
            final(self).undecided(old(self)),
            out matches Ok(true) ==> forall|env: Env| #[trigger]
                cx.val(n as int, env) != cx.val(r as int, env),
    {
        let items: Vec<Constraint> = Vec::new();
        let left = self.meter.left().fact_work;
        let cap: u64 = if left < QUERY_WORK {
            left
        } else {
            QUERY_WORK
        };
        let work0 = self.plain.work;
        let fa = self.plain.query(cx, &items, n, cap, Ghost(runner::nothing()));
        let used: u64 = self.plain.work - work0;
        let rest: u64 = if left - used < QUERY_WORK {
            left - used
        } else {
            QUERY_WORK
        };
        let fb = self.plain.query(cx, &items, r, rest, Ghost(runner::nothing()));
        self.meter.spent.fact_work = self.meter.spent.fact_work + (self.plain.work - work0);
        match (fa, fb) {
            (Some((a, ra)), Some((b, rb))) => {
                if a.meet(&b).is_none() {
                    proof {
                        assert forall|env: Env| #[trigger] cx.val(n as int, env) != cx.val(
                            r as int,
                            env,
                        ) by {
                            assert(ra.admits(runner::nothing(), env));
                            assert(rb.admits(runner::nothing(), env));
                            assert(a.admits(cx.val(n as int, env)));
                            assert(b.admits(cx.val(r as int, env)));
                        }
                    }
                    return Ok(true);
                }
            },
            // Out of fact budget: the rewrite is not checked, so not made.
            _ => {
                if left < QUERY_WORK {
                    return Err(Stop::Exhausted(Exhausted::FactWork));
                }
            },
        }
        self.checked()?;
        Ok(false)
    }

    /// Runs the postconditions and the host veto on rewriting `n` to `r`, and records the
    /// outcome (events, counters, the rewrite budget).
    pub(crate) fn accept(
        &mut self,
        cx: &Context,
        by: By<'_>,
        proven: bool,
        n: u32,
        r: u32,
        rel: Reliance,
    ) -> (out: Result<Accept, Stop>)
        requires
            old(self).wf(cx),
            n < cx.n(),
            r < cx.n(),
        ensures
            runner::went(final(self), cx, old(self), cx),
            out matches Err(e) ==> final(self).refuses(cx, e),
            // The counters agree with the outcome.
            out matches Ok(a) ==> final(self).meter.spent.rewrites == (if a is Yes {
                budget::more(old(self).meter.spent.rewrites, 1)
            } else {
                old(self).meter.spent.rewrites
            }) && final(self).stats.rejected == (if a is Rejected {
                stats::bumped(old(self).stats.rejected)
            } else {
                old(self).stats.rejected
            }) && final(self).stats.hook_vetoes == (if a is Vetoed {
                stats::bumped(old(self).stats.hook_vetoes)
            } else {
                old(self).stats.hook_vetoes
            }),
            final(self).weighing(old(self)),
            out matches Ok(Accept::Yes) ==> cx.w(r as int) == cx.w(n as int) && agree_at(
                cx.tm(),
                final(self).hyp@,
                rel,
                n as int,
                r as int,
                points_for(old(self).verify, proven) as int,
            ) && final(self).meter.spent.rewrites >= budget::more(old(self).meter.spent.rewrites, 1)
                && (old(self).verify.termination && by is Rule ==> ground_order(
                cx.tm()[n as int],
                cx.tm()[r as int],
            ) != Some(false)),
            out matches Ok(Accept::Rejected(Reject::Tripwire)) ==> old(self).verify.tripwire
                && forall|env: Env| #[trigger] cx.val(n as int, env) != cx.val(r as int, env),
            out matches Ok(Accept::Rejected(Reject::Termination)) ==> old(self).verify.termination
                && by is Rule && ground_order(
                cx.tm()[n as int],
                cx.tm()[r as int],
            ) == Some(false),
            // What is made was admitted, and what is vetoed was not.
            out matches Ok(Accept::Yes) ==> (old(self).hooks matches Some(h) ==> h.allows(
                cx,
                Expr { id: n },
                Expr { id: r },
                by,
            )),
            out matches Ok(Accept::Vetoed) ==> (old(self).hooks matches Some(h) && !h.allows(
                cx,
                Expr { id: n },
                Expr { id: r },
                by,
            )),
            out matches Ok(Accept::Rejected(Reject::Verify)) ==> differ(
                cx.tm(),
                final(self).hyp@,
                rel,
                n as int,
                r as int,
            ),
            out matches Ok(Accept::Rejected(Reject::Width)) ==> cx.w(r as int) != cx.w(n as int),
    {
        proof {
            reveal(runner::refuses_every);
        }
        if let Some(reason) = self.postcondition(cx, by, proven, n, r, rel)? {
            self.stats.rejected = bump(self.stats.rejected);
            self.emit(Event::Rejected { by, reason });
            return Ok(Accept::Rejected(reason));
        }
        let before = Expr { id: n };
        let after = Expr { id: r };
        if let Some(h) = self.hooks {
            if let Accept::Vetoed = after_admit(h.admits(cx, before, after, by)) {
                self.stats.hook_vetoes = bump(self.stats.hook_vetoes);
                self.emit(Event::Vetoed { by });
                return Ok(Accept::Vetoed);
            }
        }
        self.charge(Counter::Rewrites, 1)?;
        self.emit(Event::Applied { by, before, after });
        Ok(Accept::Yes)
    }

    /// Commits `e` (built from arena index `before` on) for `n` when it makes the DAG strictly
    /// smaller (it needs fewer nodes than replacing `n` frees) and passes the postconditions and
    /// the host veto.
    pub(crate) fn finish(
        &mut self,
        cx: &Context,
        kind: PassKind,
        n: u32,
        e: u32,
        before: u32,
        atoms: &Vec<u32>,
        fin: Fin,
    ) -> (out: Result<Step, Stop>)
        requires
            old(self).wf(cx),
            n < cx.n(),
            e < cx.n(),
            fin::equal_under(cx.tm(), old(self).hyp@, fin.rel, n as int, e as int),
        ensures
            runner::went(final(self), cx, old(self), cx),
            out matches Err(e) ==> final(self).refuses(cx, e),
            out matches Ok(s) ==> fin::step_keeps(s, cx.tm(), final(self).hyp@, n as int),
            old(self).refuses_all() ==> !(out matches Ok(Step::To(_, _))),
            out matches Ok(Step::To(x, f)) ==> x == e && x != n && f == fin,
            e == n ==> out == Ok::<Step, Stop>(Step::Normal(fin)),
            // Only what makes the DAG smaller is committed.
            out matches Ok(Step::To(_, _)) ==> commit::pinned(cx.nodes@, n, e) || commit::smaller(
                cx.nodes@,
                n,
                e,
                atoms@,
                final(self).keeps(),
                final(self).weighs(),
            ),
            // What is left was weighed and found no smaller, where no one can object.
            e != n && old(self).unchecked() ==> (out matches Ok(Step::Normal(_))
                ==> final(self).stats.passes.get(kind).rejected_cost > 0),
            // What is plainly worth it is not left for good, where no one can object.
            e != n && old(self).unchecked() ==> (out matches Ok(Step::Normal(f)) ==> f.done
                ==> forall|t: Seq<u32>, u: Seq<u32>, d: Seq<u32>| !#[trigger] commit::gains(
                cx.nodes@,
                n,
                e,
                atoms@,
                t,
                u,
                d,
                old(self).max_region as int,
            )),
            // A constant is, where no one can object.
            e != n && commit::pinned(cx.nodes@, n, e) && old(self).unchecked() ==> out is Err || out
                == Ok::<Step, Stop>(Step::To(e, fin)),
            // So is a node that is there.
            e != n && atoms@.contains(e) && old(self).unchecked() ==> out is Err || out == Ok::<
                Step,
                Stop,
            >(Step::To(e, fin)),
    {
        if e == n {
            let c = self.stats.passes.entry(kind);
            c.noop = bump(c.noop);
            return Ok(Step::Normal(fin));
        }
        if let Err(more) = self.shrinks(cx, n, e, atoms)? {
            // A rejection that only sharing caused is not final (see `shrinks`).
            let c = self.stats.passes.entry(kind);
            c.rejected_cost = bump(c.rejected_cost);
            self.discard(cx, before);
            return Ok(Step::Normal(fin.and(more)));
        }
        self.settle(cx, kind, n, e, before, fin)
    }

    /// Commits `e` for `n` when it passes the postconditions and the host veto.
    pub(crate) fn settle(
        &mut self,
        cx: &Context,
        kind: PassKind,
        n: u32,
        e: u32,
        before: u32,
        fin: Fin,
    ) -> (out: Result<Step, Stop>)
        requires
            old(self).wf(cx),
            n < cx.n(),
            e < cx.n(),
            e != n,
            fin::equal_under(cx.tm(), old(self).hyp@, fin.rel, n as int, e as int),
        ensures
            runner::went(final(self), cx, old(self), cx),
            out matches Err(e) ==> final(self).refuses(cx, e),
            out matches Ok(s) ==> fin::step_keeps(s, cx.tm(), final(self).hyp@, n as int),
            old(self).refuses_all() ==> !(out matches Ok(Step::To(_, _))),
            out matches Ok(Step::To(x, f)) ==> x == e && f == fin && final(self).weighing(old(self)),
            old(self).unchecked() ==> out is Err || out == Ok::<Step, Stop>(Step::To(e, fin)),
    {
        proof {
            reveal(runner::refuses_every);
        }
        match self.accept(cx, By::Pass(kind), true, n, e, fin.rel)? {
            Accept::Yes => {
                let c = self.stats.passes.entry(kind);
                c.changed = bump(c.changed);
                Ok(Step::To(e, fin))
            },
            Accept::Vetoed => {
                let c = self.stats.passes.entry(kind);
                c.rejected = bump(c.rejected);
                self.discard(cx, before);
                Ok(Step::Normal(fin))
            },
            Accept::Rejected(reason) => {
                let c = self.stats.passes.entry(kind);
                c.rejected = bump(c.rejected);
                self.discard(cx, before);
                if reason != Reject::Termination {
                    self.quarantined_passes.push(kind);
                    self.stats.quarantined = bump(self.stats.quarantined);
                }
                Ok(Step::Normal(fin))
            },
        }
    }
}

/// The constraints relied on that are numbered below `n` hold at `env`.
pub open spec fn upto(rel: Reliance, h: Hyp, n: int, env: Env) -> bool {
    forall|k: int| 0 <= k < n && #[trigger] rel.uses(k) ==> h(k, env)
}

} // verus!
