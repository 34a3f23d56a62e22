//! Rewrites a host defines: see [`Rewrite`].

use vstd::prelude::*;
use crate::bits;
use crate::ops;
use crate::engine::accept;
use crate::engine::link;
use crate::engine::runner;
use crate::facts::floor;
use crate::facts::store;
use crate::bitvec::{BitVec, Width, MAX_WIDTH};
use crate::engine::accept::Accept;
use crate::engine::budget::{Counter, Exhausted};
use crate::engine::fin::{Fin, Step, Stop};
use crate::engine::stats::{bump, By, Event, Reject};
use crate::engine::runner::{Runner, QUERY_WORK};
use crate::expr::{Context, Expr, Fail, NodeView};
use crate::facts::known::KnownBits;
use crate::facts::reliance::{Hyp, Reliance};
use crate::facts::store::{Constraint, FactStore};
use crate::ops::{BinOp, CmpOpExt, UnOp};
use crate::term::Env;

verus! {

/// A rewrite written by the host: what rules cannot say (a target's legality, a cost model, the
/// host's own analyses). It sees a node through a [`Site`]: views of nodes, their facts,
/// construction.
///
/// A rewrite must be deterministic: its result a function of the node, its facts and its
/// [revision](Rewrite::revision). [`check::host::rewrite`](crate::check::host::rewrite) tests
/// one.
pub trait Rewrite: Send + Sync {
    /// A namespaced name for diagnostics: `acme.fold_flags`.
    fn name(&self) -> &str;

    /// The group a strategy names to run it. Several rewrites may share one.
    fn group(&self) -> &str {
        "host"
    }

    /// Bumped whenever the rewrite's results change.
    fn revision(&self) -> u32 {
        1
    }

    /// What the rewrite may reply at `e` in `cx`.
    open spec fn replies(&self, cx: &Context, e: Expr, r: Option<Expr>) -> bool {
        true
    }

    /// The replacement of `e`, whose operands are already normal; `None` to leave it. Return
    /// an expression equal to `e` for every value of its symbols, of its width.
    fn rewrite(&self, site: &mut Site, e: Expr) -> (r: Option<Expr>)
        requires
            old(site).wf(),
        ensures
            final(site).wf(),
            final(site).went_on(old(site)),
            self.replies(&old(site).at(), e, r),
    ;
}

/// What a host rewrite may do at a node: inspect nodes, ask for their facts, build nodes. The
/// engine charges what it does to the call's budget; when the budget runs out, every further
/// request answers `None` and the call stops after the rewrite returns.
pub struct Site {
    pub(crate) cx: Context,
    /// How many nodes may still be made.
    pub(crate) left: u64,
    /// The facts kept.
    pub(crate) store: FactStore,
    /// The constraints they are read under.
    pub(crate) items: Vec<Constraint>,
    /// How much work on facts may still be done.
    pub(crate) work: u64,
    /// What the facts the rewrite read contribute to the node's finality and reliance.
    pub(crate) fin: Fin,
    /// Why the engine stopped the rewrite's requests, if it did.
    pub(crate) stop: Option<Stop>,
    /// What the constraints say.
    pub(crate) hyp: Ghost<Hyp>,
}

/// What is kept of a context stays right as it grows.
proof fn lemma_grown(cx0: &Context, cx1: &Context, s: FactStore, items: Seq<Constraint>, h: Hyp)
    requires
        cx1.grew(cx0),
        store::facts_ok(s.known@, cx0.tm(), h),
        runner::items_ok(items, cx0.tm(), h),
    ensures
        store::facts_ok(s.known@, cx1.tm(), h),
        runner::items_ok(items, cx1.tm(), h),
{
    store::lemma_facts_grow(s.known@, cx0.tm(), cx1.tm(), h);
    runner::lemma_items_grow(items, cx0.tm(), cx1.tm(), h);
}

impl Site {
    /// The context.
    pub open(crate) spec fn at(&self) -> Context {
        self.cx
    }

    /// What is kept is right.
    pub open(crate) spec fn wf(&self) -> bool {
        &&& self.cx.wf()
        &&& store::facts_ok(self.store.known@, self.cx.tm(), self.hyp@)
        &&& runner::items_ok(self.items@, self.cx.tm(), self.hyp@)
        &&& self.store.work + self.work <= u64::MAX
        &&& self.stop matches Some(Stop::Exhausted(e)) ==> match e {
            Exhausted::NewNodes | Exhausted::ArenaCapacity => self.left < 3 || self.cx.n() + 3
                > self.cx.limit(),
            Exhausted::FactWork => self.work < QUERY_WORK,
            _ => false,
        }
    }

    /// The context only grew, and what was made and done was taken from what was left.
    pub open(crate) spec fn went_on(&self, o: &Site) -> bool {
        &&& self.cx.grew(&o.cx)
        &&& self.items == o.items
        &&& self.hyp == o.hyp
        &&& self.cx.n() - o.cx.n() == o.left - self.left
        &&& self.store.work + self.work == o.store.work + o.work
        &&& o.store.work <= self.store.work
    }

    /// Nodes may still be made.
    pub open(crate) spec fn can_make(&self) -> bool {
        self.stop is None && self.left > 1
    }

    /// A site of `cx` outside any engine run: nothing charged, no assumptions.
    pub(crate) fn standalone(cx: Context) -> (r: Site)
        requires
            cx.wf(),
        ensures
            r.wf(),
            r.at() == cx,
    {
        let ghost h: Hyp = |k: int, env: Env| true;
        let r = Site {
            cx,
            left: u64::MAX,
            store: FactStore::new(),
            items: Vec::new(),
            work: u64::MAX,
            fin: Fin::full(),
            stop: None,
            hyp: Ghost(h),
        };
        proof {
            reveal(runner::items_ok);
        }
        r
    }

    /// Lets the context make as many nodes as are left.
    fn begin(&mut self) -> (before: usize)
        requires
            old(self).wf(),
        ensures
            *final(self) == (Site { cx: final(self).cx, ..*old(self) }),
            final(self).cx == (Context { quota: old(self).left, ..old(self).cx }),
            final(self).wf(),
            final(self).cx.grew(&old(self).cx),
            before == old(self).cx.n(),
    {
        self.cx.quota = self.left;
        proof {
            assert forall|i: int| 0 <= i < self.cx.n() implies #[trigger] self.cx.ok_at(i) by {
                assert(old(self).cx.ok_at(i));
            }
        }
        self.cx.len()
    }

    /// Charges the nodes made since the context had `before`.
    fn end(&mut self, before: usize, x: Result<u32, Fail>) -> (r: Option<Expr>)
        requires
            old(self).wf(),
            before <= old(self).cx.n(),
            old(self).cx.n() - before <= old(self).left,
            x is Err ==> old(self).left - (old(self).cx.n() - before) < 3 || old(self).cx.n() + 3
                > old(self).cx.limit(),
        ensures
            final(self).wf(),
            *final(self) == (Site {
                left: (old(self).left - (old(self).cx.n() - before)) as u64,
                stop: final(self).stop,
                ..*old(self)
            }),
            x matches Ok(i) ==> r == Some(Expr { id: i }),
            x is Err ==> r is None,
    {
        let made: u64 = (self.cx.len() - before) as u64;
        self.left = self.left - made;
        match x {
            Ok(id) => Some(Expr { id }),
            Err(Fail::Quota) => {
                self.stop = Some(Stop::Exhausted(Exhausted::NewNodes));
                None
            },
            Err(Fail::Full) => {
                self.stop = Some(Stop::Exhausted(Exhausted::ArenaCapacity));
                None
            },
        }
    }

    /// The context, to read.
    pub fn context(&self) -> (r: &Context)
        ensures
            *r == self.at(),
    {
        &self.cx
    }

    /// The node `e`, if it is a handle of this context.
    pub fn view(&self, e: Expr) -> (r: Option<NodeView>)
        requires
            self.at().wf(),
        ensures
            r is Some <==> self.at().has(e),
            r matches Some(v) ==> self.at().sees(e, v),
    {
        match self.cx.view(e) {
            Ok(v) => Some(v),
            Err(_) => None,
        }
    }

    /// The width of `e`.
    pub fn width(&self, e: Expr) -> (r: Option<Width>)
        requires
            self.at().wf(),
        ensures
            r is Some <==> self.at().has(e),
            r matches Some(w) ==> w.n() == self.at().width_of(e) && w.ok(),
    {
        match self.cx.width(e) {
            Ok(w) => Some(w),
            Err(_) => None,
        }
    }

    /// The value of `e`, if it is a constant.
    pub fn as_const(&self, e: Expr) -> (r: Option<BitVec>)
        requires
            self.at().wf(),
        ensures
            r is Some <==> self.at().has(e) && self.at().constant_at(e),
            r matches Some(v) ==> forall|env: Env| #[trigger] self.at().value(e, env) == v@,
    {
        match self.cx.as_const(e) {
            Ok(v) => v,
            Err(_) => None,
        }
    }

    /// The value of `e`, if it is a constant that fits in 64 bits.
    pub fn as_u64(&self, e: Expr) -> (r: Option<u64>)
        requires
            self.at().wf(),
        ensures
            r is Some ==> self.at().has(e) && self.at().constant_at(e),
            r matches Some(v) ==> forall|env: Env|
                bits::nat_of(#[trigger] self.at().value(e, env)) == v,
            r is None && self.at().has(e) && self.at().constant_at(e) ==> forall|env: Env|
                bits::nat_of(#[trigger] self.at().value(e, env)) > u64::MAX,
    {
        match self.as_const(e) {
            Some(v) => v.to_u64(),
            None => None,
        }
    }

    /// The facts of `e` (under the run's assumptions): its known bits; `None` when the fact budget
    /// declined the query, which makes the node's result not final.
    pub fn facts(&mut self, e: Expr) -> (r: Option<KnownBits>)
        requires
            old(self).wf(),
        ensures
            final(self).wf(),
            final(self).went_on(old(self)),
            final(self).at() == old(self).at(),
            r matches Some(k) ==> old(self).at().has(e) && k.has(old(self).at().width_of(e))
                && forall|env: Env|
                final(self).relied_on(env) ==> k.admits(#[trigger] old(self).at().value(e, env)),
            // It is what the facts of the call say, and at least what the operators fix.
            r matches Some(k) ==> final(self).told(e, k) && floor::floored(
                k,
                old(self).at().tm()[e.id as int],
            ),
            // After a stop, and for a foreign handle, nothing is charged.
            old(self).stopped() || !old(self).at().has(e) ==> r is None && *final(self) == *old(self),
            // Else only the fact budget declines.
            r is None ==> old(self).stopped() || !old(self).at().has(e) || final(self).stopped()
                || final(self).capped(),
    {
        if self.stop.is_some() || !self.cx.contains(e) {
            return None;
        }
        let left: u64 = self.work;
        if left == 0 {
            self.stop = Some(Stop::Exhausted(Exhausted::FactWork));
            return None;
        }
        let cap: u64 = if left < QUERY_WORK {
            left
        } else {
            QUERY_WORK
        };
        let work0: u64 = self.store.work;
        proof {
            reveal(runner::items_ok);
        }
        let f = self.store.query(&self.cx, &self.items, e.id, cap, Ghost(self.hyp@));
        self.work = self.work - (self.store.work - work0);
        match f {
            Some((k, rel)) => {
                assert(self.store.holds(e.id, k, rel));
                self.fin = self.fin.and(Fin::relying(rel));
                Some(k)
            },
            None => {
                if left < QUERY_WORK {
                    self.stop = Some(Stop::Exhausted(Exhausted::FactWork));
                } else {
                    self.fin = self.fin.and(Fin::capped(Exhausted::FactWork));
                }
                None
            },
        }
    }

    /// The engine stopped the rewrite's requests.
    pub open(crate) spec fn stopped(&self) -> bool {
        self.stop is Some
    }

    /// A query of facts was declined.
    pub open(crate) spec fn capped(&self) -> bool {
        self.fin.why is Some
    }

    /// The facts of the call say `k` of `e`.
    pub open(crate) spec fn told(&self, e: Expr, k: KnownBits) -> bool {
        exists|rel: Reliance| #[trigger] self.store.holds(e.id, k, rel)
    }

    /// What was read of facts so far holds at `env`.
    pub open(crate) spec fn relied_on(&self, env: Env) -> bool {
        self.fin.rel.admits(self.hyp@, env)
    }

    /// The known bits of `e` (see [`facts`](Self::facts)).
    pub fn known(&mut self, e: Expr) -> (r: Option<KnownBits>)
        requires
            old(self).wf(),
        ensures
            final(self).wf(),
            final(self).went_on(old(self)),
            final(self).at() == old(self).at(),
            r matches Some(k) ==> old(self).at().has(e) && k.has(old(self).at().width_of(e))
                && forall|env: Env|
                final(self).relied_on(env) ==> k.admits(#[trigger] old(self).at().value(e, env)),
            // It is what the facts of the call say, and at least what the operators fix.
            r matches Some(k) ==> final(self).told(e, k) && floor::floored(
                k,
                old(self).at().tm()[e.id as int],
            ),
            // After a stop, and for a foreign handle, nothing is charged.
            old(self).stopped() || !old(self).at().has(e) ==> r is None && *final(self) == *old(self),
            // Else only the fact budget declines.
            r is None ==> old(self).stopped() || !old(self).at().has(e) || final(self).stopped()
                || final(self).capped(),
    {
        self.facts(e)
    }

    /// A constant.
    pub fn constant(&mut self, v: &BitVec) -> (r: Option<Expr>)
        requires
            old(self).wf(),
        ensures
            final(self).wf(),
            final(self).went_on(old(self)),
            r matches Some(e) ==> final(self).at().made(e, v@.len()) && forall|env: Env|
                #[trigger] final(self).at().value(e, env) == v@,
            1 <= v@.len() <= MAX_WIDTH && old(self).at().count() < old(self).at().limit() && old(self).can_make() ==> r is Some,
            old(self).stopped() ==> r is None && *final(self) == *old(self),
    {
        if v.len() < 1 || v.len() > MAX_WIDTH as usize {
            return None;
        }
        if self.stop.is_some() {
            return None;
        }
        let before = self.begin();
        let x = self.cx.mk_const(v);
        proof {
            lemma_grown(&old(self).cx, &self.cx, self.store, self.items@, self.hyp@);
        }
        self.end(before, x)
    }

    /// The constant `v` of `w` bits (it must fit).
    pub fn constant_u64(&mut self, w: Width, v: u64) -> (r: Option<Expr>)
        requires
            old(self).wf(),
            w.ok(),
        ensures
            final(self).wf(),
            final(self).went_on(old(self)),
            r matches Some(e) ==> final(self).at().made(e, w.n()) && forall|env: Env|
                bits::nat_of(#[trigger] final(self).at().value(e, env)) == v,
            v < vstd::arithmetic::power2::pow2(w.n()) && old(self).at().count() < old(self).at().limit() && old(self).can_make() ==> r is Some,
            old(self).stopped() ==> r is None && *final(self) == *old(self),
    {
        let x = BitVec::wrapping_from_u64(w, v);
        proof {
            bits::lemma_nat_bits_of(v as int, w.n());
            vstd::arithmetic::power2::lemma_pow2_pos(w.n());
            if v < vstd::arithmetic::power2::pow2(w.n()) {
                vstd::arithmetic::div_mod::lemma_small_mod(
                    v as nat,
                    vstd::arithmetic::power2::pow2(w.n()),
                );
            } else {
                bits::lemma_nat_bound(x@);
            }
        }
        match x.to_u64() {
            Some(y) => {
                if y != v {
                    return None;
                }
            },
            None => {
                return None;
            },
        }
        self.constant(&x)
    }

    /// A unary operator.
    pub fn un(&mut self, op: UnOp, a: Expr) -> (r: Option<Expr>)
        requires
            old(self).wf(),
        ensures
            final(self).wf(),
            final(self).went_on(old(self)),
            r matches Some(e) ==> final(self).at().made(e, old(self).at().width_of(a)) && forall|env: Env|
                #[trigger] final(self).at().value(e, env) == ops::un_value(op, old(self).at().value(a, env)),
            old(self).at().has(a) && (op == UnOp::Bswap ==> old(self).at().width_of(a) % 8 == 0) && old(self).at().count() + 1 <= old(self).at().limit() && old(self).can_make() ==> r is Some,
            old(self).stopped() ==> r is None && *final(self) == *old(self),
            r is Some ==> old(self).at().has(a) && (op == UnOp::Bswap ==> old(self).at().width_of(a) % 8 == 0),
    {
        if !(self.cx.contains(a)) {
            return None;
        }
        if !(op != UnOp::Bswap || self.cx.wid(a.id) % 8 == 0) {
            return None;
        }
        if self.stop.is_some() {
            return None;
        }
        let before = self.begin();
        let x = self.cx.c_un(op, a.id);
        proof {
            lemma_grown(&old(self).cx, &self.cx, self.store, self.items@, self.hyp@);
        }
        self.end(before, x)
    }

    /// A binary operator.
    pub fn bin(&mut self, op: BinOp, a: Expr, b: Expr) -> (r: Option<Expr>)
        requires
            old(self).wf(),
        ensures
            final(self).wf(),
            final(self).went_on(old(self)),
            r matches Some(e) ==> final(self).at().made(e, old(self).at().width_of(a)) && forall|env: Env|
                #[trigger] final(self).at().value(e, env) == ops::bin_value(op, old(self).at().value(a, env), old(self).at().value(b, env)),
            old(self).at().has(a) && old(self).at().has(b) && old(self).at().width_of(a) == old(self).at().width_of(b) && old(self).at().count() + 2 <= old(self).at().limit() && old(self).can_make() ==> r is Some,
            old(self).stopped() ==> r is None && *final(self) == *old(self),
            r is Some ==> old(self).at().has(a) && old(self).at().has(b) && old(self).at().width_of(a) == old(self).at().width_of(b),
    {
        if !(self.cx.contains(a)) {
            return None;
        }
        if !(self.cx.contains(b)) {
            return None;
        }
        if !(self.cx.wid(a.id) == self.cx.wid(b.id)) {
            return None;
        }
        if self.stop.is_some() {
            return None;
        }
        let before = self.begin();
        let x = self.cx.c_bin(op, a.id, b.id);
        proof {
            lemma_grown(&old(self).cx, &self.cx, self.store, self.items@, self.hyp@);
        }
        self.end(before, x)
    }

    /// A comparison (1-bit result).
    pub fn cmp(&mut self, op: CmpOpExt, a: Expr, b: Expr) -> (r: Option<Expr>)
        requires
            old(self).wf(),
        ensures
            final(self).wf(),
            final(self).went_on(old(self)),
            r matches Some(e) ==> final(self).at().made(e, 1) && forall|env: Env|
                #[trigger] final(self).at().value(e, env) == ops::bool_bits(ops::holds_ext(op, old(self).at().value(a, env), old(self).at().value(b, env))),
            old(self).at().has(a) && old(self).at().has(b) && old(self).at().width_of(a) == old(self).at().width_of(b) && old(self).at().count() + 1 <= old(self).at().limit() && old(self).can_make() ==> r is Some,
            old(self).stopped() ==> r is None && *final(self) == *old(self),
            r is Some ==> old(self).at().has(a) && old(self).at().has(b) && old(self).at().width_of(a) == old(self).at().width_of(b),
    {
        self.relation(op, a, b)
    }

    /// A comparison.
    fn relation(&mut self, op: CmpOpExt, a: Expr, b: Expr) -> (r: Option<Expr>)
        requires
            old(self).wf(),
        ensures
            final(self).wf(),
            final(self).went_on(old(self)),
            r matches Some(e) ==> final(self).at().made(e, 1) && forall|env: Env|
                #[trigger] final(self).at().value(e, env) == ops::bool_bits(ops::holds_ext(op, old(self).at().value(a, env), old(self).at().value(b, env))),
            old(self).at().has(a) && old(self).at().has(b) && old(self).at().width_of(a) == old(self).at().width_of(b) && old(self).at().count() + 1 <= old(self).at().limit() && old(self).can_make() ==> r is Some,
            old(self).stopped() ==> r is None && *final(self) == *old(self),
            r is Some ==> old(self).at().has(a) && old(self).at().has(b) && old(self).at().width_of(a) == old(self).at().width_of(b),
    {
        if !(self.cx.contains(a)) {
            return None;
        }
        if !(self.cx.contains(b)) {
            return None;
        }
        if !(self.cx.wid(a.id) == self.cx.wid(b.id)) {
            return None;
        }
        if self.stop.is_some() {
            return None;
        }
        let before = self.begin();
        let (s, swap) = op.canonical();
        let x = if swap {
            self.cx.c_rel(s, b.id, a.id)
        } else {
            self.cx.c_rel(s, a.id, b.id)
        };
        proof {
            if let Ok(i) = x {
                assert forall|env: Env| #[trigger] self.cx.val(i as int, env) == ops::bool_bits(
                    ops::holds_ext(
                        op,
                        old(self).cx.val(a.id as int, env),
                        old(self).cx.val(b.id as int, env),
                    ),
                ) by {
                    assert(ops::holds_ext(
                        op,
                        old(self).cx.val(a.id as int, env),
                        old(self).cx.val(b.id as int, env),
                    ) == ops::holds_ext(
                        op,
                        old(self).cx.val(a.id as int, env),
                        old(self).cx.val(b.id as int, env),
                    ));
                }
            }
        }
        proof {
            lemma_grown(&old(self).cx, &self.cx, self.store, self.items@, self.hyp@);
        }
        self.end(before, x)
    }

    /// Zero extension to `w` bits.
    pub fn zext(&mut self, a: Expr, w: Width) -> (r: Option<Expr>)
        requires
            old(self).wf(),
            w.ok(),
        ensures
            final(self).wf(),
            final(self).went_on(old(self)),
            r matches Some(e) ==> final(self).at().made(e, w.n()) && forall|env: Env|
                #[trigger] final(self).at().value(e, env) == ops::zext_bits(old(self).at().value(a, env), w.n()),
            old(self).at().has(a) && old(self).at().width_of(a) <= w.n() && old(self).at().count() + 1 <= old(self).at().limit() && old(self).can_make() ==> r is Some,
            old(self).stopped() ==> r is None && *final(self) == *old(self),
            r is Some ==> old(self).at().has(a) && old(self).at().width_of(a) <= w.n(),
    {
        if !(self.cx.contains(a)) {
            return None;
        }
        if !(self.cx.wid(a.id) <= w.bits) {
            return None;
        }
        if self.stop.is_some() {
            return None;
        }
        let before = self.begin();
        let x = self.cx.c_zext(a.id, w.bits);
        proof {
            lemma_grown(&old(self).cx, &self.cx, self.store, self.items@, self.hyp@);
        }
        self.end(before, x)
    }

    /// Sign extension to `w` bits.
    pub fn sext(&mut self, a: Expr, w: Width) -> (r: Option<Expr>)
        requires
            old(self).wf(),
            w.ok(),
        ensures
            final(self).wf(),
            final(self).went_on(old(self)),
            r matches Some(e) ==> final(self).at().made(e, w.n()) && forall|env: Env|
                #[trigger] final(self).at().value(e, env) == ops::sext_bits(old(self).at().value(a, env), w.n()),
            old(self).at().has(a) && old(self).at().width_of(a) <= w.n() && old(self).at().count() + 1 <= old(self).at().limit() && old(self).can_make() ==> r is Some,
            old(self).stopped() ==> r is None && *final(self) == *old(self),
            r is Some ==> old(self).at().has(a) && old(self).at().width_of(a) <= w.n(),
    {
        if !(self.cx.contains(a)) {
            return None;
        }
        if !(self.cx.wid(a.id) <= w.bits) {
            return None;
        }
        if self.stop.is_some() {
            return None;
        }
        let before = self.begin();
        let x = self.cx.c_sext(a.id, w.bits);
        proof {
            lemma_grown(&old(self).cx, &self.cx, self.store, self.items@, self.hyp@);
        }
        self.end(before, x)
    }

    /// The low `w` bits.
    pub fn trunc(&mut self, a: Expr, w: Width) -> (r: Option<Expr>)
        requires
            old(self).wf(),
            w.ok(),
        ensures
            final(self).wf(),
            final(self).went_on(old(self)),
            r matches Some(e) ==> final(self).at().made(e, w.n()) && forall|env: Env|
                #[trigger] final(self).at().value(e, env) == old(self).at().value(a, env).subrange(0, w.n() as int),
            old(self).at().has(a) && w.n() <= old(self).at().width_of(a) && old(self).at().count() + 1 <= old(self).at().limit() && old(self).can_make() ==> r is Some,
            old(self).stopped() ==> r is None && *final(self) == *old(self),
            r is Some ==> old(self).at().has(a) && w.n() <= old(self).at().width_of(a),
    {
        self.extract(a, 0, w)
    }

    /// Bits `[lo, lo + w)`.
    pub fn extract(&mut self, a: Expr, lo: u16, w: Width) -> (r: Option<Expr>)
        requires
            old(self).wf(),
            w.ok(),
        ensures
            final(self).wf(),
            final(self).went_on(old(self)),
            r matches Some(e) ==> final(self).at().made(e, w.n()) && forall|env: Env|
                #[trigger] final(self).at().value(e, env) == old(self).at().value(a, env).subrange(lo as int, lo + w.n()),
            old(self).at().has(a) && lo + w.n() <= old(self).at().width_of(a) && old(self).at().count() + 1 <= old(self).at().limit() && old(self).can_make() ==> r is Some,
            old(self).stopped() ==> r is None && *final(self) == *old(self),
            r is Some ==> old(self).at().has(a) && lo + w.n() <= old(self).at().width_of(a),
    {
        if !(self.cx.contains(a)) {
            return None;
        }
        if !(lo as u32 + w.bits as u32 <= self.cx.wid(a.id) as u32) {
            return None;
        }
        if self.stop.is_some() {
            return None;
        }
        let before = self.begin();
        let x = self.cx.c_extract(a.id, lo, w.bits);
        proof {
            lemma_grown(&old(self).cx, &self.cx, self.store, self.items@, self.hyp@);
        }
        self.end(before, x)
    }

    /// `hi` in the high bits, `lo` in the low bits.
    pub fn concat(&mut self, hi: Expr, lo: Expr) -> (r: Option<Expr>)
        requires
            old(self).wf(),
        ensures
            final(self).wf(),
            final(self).went_on(old(self)),
            r matches Some(e) ==> final(self).at().made(e, (old(self).at().width_of(hi) + old(self).at().width_of(lo)) as nat) && forall|env: Env|
                #[trigger] final(self).at().value(e, env) == old(self).at().value(lo, env) + old(self).at().value(hi, env),
            old(self).at().has(hi) && old(self).at().has(lo) && old(self).at().width_of(hi) + old(self).at().width_of(lo) <= MAX_WIDTH && old(self).at().count() + 1 <= old(self).at().limit() && old(self).can_make() ==> r is Some,
            old(self).stopped() ==> r is None && *final(self) == *old(self),
            r is Some ==> old(self).at().has(hi) && old(self).at().has(lo) && old(self).at().width_of(hi) + old(self).at().width_of(lo) <= MAX_WIDTH,
    {
        if !(self.cx.contains(hi)) {
            return None;
        }
        if !(self.cx.contains(lo)) {
            return None;
        }
        if !(self.cx.wid(hi.id) as u32 + self.cx.wid(lo.id) as u32 <= MAX_WIDTH as u32) {
            return None;
        }
        if self.stop.is_some() {
            return None;
        }
        let before = self.begin();
        let x = self.cx.c_concat(hi.id, lo.id);
        proof {
            lemma_grown(&old(self).cx, &self.cx, self.store, self.items@, self.hyp@);
        }
        self.end(before, x)
    }

    /// `cond ? yes : no`.
    pub fn select(&mut self, cond: Expr, yes: Expr, no: Expr) -> (r: Option<Expr>)
        requires
            old(self).wf(),
        ensures
            final(self).wf(),
            final(self).went_on(old(self)),
            r matches Some(e) ==> final(self).at().made(e, old(self).at().width_of(yes)) && forall|env: Env|
                #[trigger] final(self).at().value(e, env) == (if old(self).at().value(cond, env)[0] { old(self).at().value(yes, env) } else { old(self).at().value(no, env) }),
            old(self).at().has(cond) && old(self).at().has(yes) && old(self).at().has(no) && old(self).at().width_of(cond) == 1 && old(self).at().width_of(yes) == old(self).at().width_of(no) && old(self).at().count() + 1 <= old(self).at().limit() && old(self).can_make() ==> r is Some,
            old(self).stopped() ==> r is None && *final(self) == *old(self),
            r is Some ==> old(self).at().has(cond) && old(self).at().has(yes) && old(self).at().has(no) && old(self).at().width_of(cond) == 1 && old(self).at().width_of(yes) == old(self).at().width_of(no),
    {
        if !(self.cx.contains(cond)) {
            return None;
        }
        if !(self.cx.contains(yes)) {
            return None;
        }
        if !(self.cx.contains(no)) {
            return None;
        }
        if !(self.cx.wid(cond.id) == 1 && self.cx.wid(yes.id) == self.cx.wid(no.id)) {
            return None;
        }
        if self.stop.is_some() {
            return None;
        }
        let before = self.begin();
        let x = self.cx.c_select(cond.id, yes.id, no.id);
        proof {
            lemma_grown(&old(self).cx, &self.cx, self.store, self.items@, self.hyp@);
        }
        self.end(before, x)
    }
}

/// What a host rewrite's reply at a node comes to.
#[derive(Clone, Copy, Debug, PartialEq, Eq, Structural)]
pub enum Answer {
    /// It does not apply.
    Nothing,
    /// A handle that is not of the context: the rewrite's error.
    Foreign,
    /// The node itself.
    Same,
    /// A node of the same width that is not smaller.
    NotSmaller,
    /// A replacement to check and commit (or, of another width, to reject).
    Candidate(u32),
}

/// What the reply `result` of a host rewrite at node `n` comes to.
pub fn after_rewrite(cx: &Context, n: u32, result: Option<Expr>) -> (a: Answer)
    requires
        cx.wf(),
        n < cx.n(),
    ensures
        a == (match result {
            None => Answer::Nothing,
            Some(e) => if e.id >= cx.n() {
                Answer::Foreign
            } else if e.id == n {
                Answer::Same
            } else if cx.w(e.id as int) == cx.w(n as int) && accept::ground_order(
                cx.tm()[n as int],
                cx.tm()[e.id as int],
            ) != Some(true) {
                Answer::NotSmaller
            } else {
                Answer::Candidate(e.id)
            },
        }),
{
    let r: u32 = match result {
        Some(e) => e.id,
        None => {
            return Answer::Nothing;
        },
    };
    if r as usize >= cx.len() {
        return Answer::Foreign;
    }
    if r == n {
        return Answer::Same;
    }
    if cx.wid(r) == cx.wid(n) && cx.ground_greater(n, r) != Some(true) {
        return Answer::NotSmaller;
    }
    Answer::Candidate(r)
}

/// Whether a rejection shows that a host rewrite is wrong: it is then quarantined.
pub fn is_wrong(reason: Reject) -> (b: bool)
    ensures
        b == (reason == Reject::Width || reason == Reject::Verify || reason == Reject::Tripwire),
{
    reason == Reject::Width || reason == Reject::Verify || reason == Reject::Tripwire
}

/// A host rewrite linked into an engine.
pub struct HostLink {
    /// The rewrite.
    pub op: std::sync::Arc<dyn Rewrite>,
    /// Whether the host vouches for it: its applications are not sampled.
    pub trusted: bool,
}

impl<'a> Runner<'a> {
    /// Runs a host rewrite at `n` on the call's budget: its result, and what the facts that it
    /// read contribute.
    fn at_site(&mut self, cx: &mut Context, link: &HostLink, n: u32) -> (out: Result<
        (Option<Expr>, Fin),
        Stop,
    >)
        requires
            old(self).wf(old(cx)),
            n < old(cx).n(),
        ensures
            runner::went(final(self), final(cx), old(self), old(cx)),
            out matches Err(e) ==> final(self).refuses(final(cx), e),
    {
        let ghost cx0 = *cx;
        let ghost h = self.hyp@;
        let left = self.meter.left();
        let mut own = Context::with_max_nodes(0);
        core::mem::swap(cx, &mut own);
        let mut store = FactStore::new();
        core::mem::swap(&mut self.facts, &mut store);
        let mut items: Vec<Constraint> = Vec::new();
        core::mem::swap(&mut self.items, &mut items);
        let ghost work0 = store.work;
        let mut site = Site {
            cx: own,
            left: left.new_nodes,
            store,
            items,
            work: left.fact_work,
            fin: Fin::full(),
            stop: None,
            hyp: Ghost(h),
        };
        let ghost site0 = site;
        let out = link.op.rewrite(&mut site, Expr { id: n });
        let Site { cx: own, left: rest, store, items, work, fin, stop, hyp: _ } = site;
        let mut own = own;
        let mut store = store;
        let mut items = items;
        core::mem::swap(cx, &mut own);
        core::mem::swap(&mut self.facts, &mut store);
        core::mem::swap(&mut self.items, &mut items);
        self.meter.spent.new_nodes = self.meter.spent.new_nodes + (left.new_nodes - rest);
        self.meter.spent.fact_work = self.meter.spent.fact_work + (left.fact_work - work);
        proof {
            old(self).lemma_grew(&cx0, cx);
        }
        match stop {
            Some(s) => Err(s),
            None => {
                self.checked()?;
                Ok((out, fin))
            },
        }
    }
}

impl<'a> Runner<'a> {
    /// Whether a host rewrite is quarantined for the call.
    fn host_quarantined(&self, hi: u32) -> (r: bool)
        ensures
            r == self.quarantined_hosts@.contains(hi),
    {
        let mut i: usize = 0;
        while i < self.quarantined_hosts.len()
            invariant
                i <= self.quarantined_hosts@.len(),
                forall|j: int| 0 <= j < i ==> self.quarantined_hosts@[j] != hi,
            decreases self.quarantined_hosts@.len() - i,
        {
            if self.quarantined_hosts[i] == hi {
                return true;
            }
            i = i + 1;
        }
        false
    }

    /// Quarantines a host rewrite for the rest of the call.
    fn quarantine_host(&mut self, hi: u32)
        ensures
            *final(self) == (Runner {
                quarantined_hosts: final(self).quarantined_hosts,
                stats: final(self).stats,
                ..*old(self)
            }),
            runner::same_tallies(final(self).stats, old(self).stats),
            final(self).stats.quarantined >= old(self).stats.quarantined,
            final(self).stats.cycles_cut == old(self).stats.cycles_cut,
            final(self).stats.rounds == old(self).stats.rounds,
            final(self).quarantined_hosts@ == old(self).quarantined_hosts@.push(hi),
    {
        self.quarantined_hosts.push(hi);
        self.stats.quarantined = bump(self.stats.quarantined);
    }

    /// Tries the host rewrites `list` at `n` after the phase's rules left it: the first one that
    /// commits, or what the others' fact queries contribute to `n`'s finality.
    pub(crate) fn try_host(&mut self, cx: &mut Context, hosts: &Vec<HostLink>, n: u32, list: &Vec<u32>) -> (out:
        Result<Step, Stop>)
        requires
            old(self).wf(old(cx)),
            n < old(cx).n(),
            link::hosts_listed(list@, hosts@.len()),
        ensures
            runner::went(final(self), final(cx), old(self), old(cx)),
            out matches Err(e) ==> final(self).refuses(final(cx), e),
            out matches Ok(Step::To(r, _)) ==> r < final(cx).n() && r != n && final(cx).w(r as int)
                == old(cx).w(n as int) && accept::ground_order(
                final(cx).tm()[n as int],
                final(cx).tm()[r as int],
            ) == Some(true),
            list@.len() == 0 ==> out matches Ok(Step::Normal(_)),
            // What replaces the node agrees with it at every point that is verified.
            out matches Ok(Step::To(r, f)) ==> exists|hi: u32| #[trigger]
                list@.contains(hi) && accept::agree_at(
                    final(cx).tm(),
                    final(self).hyp@,
                    f.rel,
                    n as int,
                    r as int,
                    accept::points_for(old(self).verify, hosts@[hi as int].trusted) as int,
                ),
            old(self).refuses_all() ==> !(out matches Ok(Step::To(_, _))),
    {
        let mut fin = Fin::full();
        let mut i: usize = 0;
        while i < list.len()
            invariant
                runner::went(self, cx, old(self), old(cx)),
                n < old(cx).n(),
                link::hosts_listed(list@, hosts@.len()),
                i <= list@.len(),
            decreases list@.len() - i,
        {
            let hi = list[i];
            i = i + 1;
            let host = &hosts[hi as usize];
            if self.host_quarantined(hi) {
                fin = fin.and(Fin::provisional());
                continue;
            }
            self.charge(Counter::Candidates, 1)?;
            self.stats.host.calls = bump(self.stats.host.calls);
            let (result, own) = self.at_site(cx, host, n)?;
            fin = fin.and(own.unchanged());
            let r: u32 = match after_rewrite(cx, n, result) {
                Answer::Nothing => {
                    continue;
                },
                // A handle the rewrite did not take from this context is its error.
                Answer::Foreign => {
                    self.stats.host.rejected = bump(self.stats.host.rejected);
                    self.quarantine_host(hi);
                    continue;
                },
                Answer::Same => {
                    self.stats.host.noop = bump(self.stats.host.noop);
                    continue;
                },
                Answer::NotSmaller => {
                    self.stats.host.rejected_cost = bump(self.stats.host.rejected_cost);
                    self.stats.rejected = bump(self.stats.rejected);
                    self.emit(
                        Event::Rejected {
                            by: By::Rewrite(host.op.name()),
                            reason: Reject::Termination,
                        },
                    );
                    continue;
                },
                Answer::Candidate(r) => r,
            };
            proof {
                reveal(runner::refuses_every);
            }
            match self.accept(cx, By::Rewrite(host.op.name()), host.trusted, n, r, own.rel)? {
                Accept::Yes => {
                    self.stats.host.changed = bump(self.stats.host.changed);
                    let all = fin.and(own);
                    proof {
                        assert(list@.contains(hi));
                        let points = accept::points_for(old(self).verify, host.trusted) as int;
                        assert(accept::agree_at(
                            cx.tm(),
                            self.hyp@,
                            all.rel,
                            n as int,
                            r as int,
                            points,
                        ));
                    }
                    return Ok(Step::To(r, all));
                },
                Accept::Vetoed => {
                    self.stats.host.rejected = bump(self.stats.host.rejected);
                },
                Accept::Rejected(reason) => {
                    self.stats.host.rejected = bump(self.stats.host.rejected);
                    if is_wrong(reason) {
                        self.quarantine_host(hi);
                    }
                },
            }
        }
        Ok(Step::Normal(fin))
    }
}

/// Runs `r` at `e` in `cx`.
pub(crate) fn apply_standalone<R: Rewrite + ?Sized>(cx: &mut Context, r: &R, e: Expr) -> (out: Option<Expr>)
    requires
        old(cx).wf(),
    ensures
        final(cx).wf(),
        final(cx).grew(old(cx)),
        r.replies(old(cx), e, out),
{
    let mut own = Context::with_max_nodes(0);
    core::mem::swap(cx, &mut own);
    let mut site = Site::standalone(own);
    let out = r.rewrite(&mut site, e);
    core::mem::swap(cx, &mut site.cx);
    out
}

} // verus!
