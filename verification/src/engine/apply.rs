//! Applying a rule at a node: match, guard, template.

use vstd::prelude::*;
use crate::term;
use crate::rules::meaning;
use crate::rules::matcher;
use crate::rules::structure;
use crate::ops;
use crate::engine::runner;
use crate::bits;
use crate::engine::budget::Exhausted;
use crate::engine::fin::{Fin, Stop};
use crate::engine::runner::Runner;
use crate::expr::Context;
use crate::facts::known::KnownBits;
use crate::facts::reliance::Hyp;
use crate::facts::transfer::rel_known;
use crate::rules::matcher::{const_of, Found};
use crate::rules::rule::{FactPred, RNode, Rule};
use crate::term::{Env, Term};

verus! {

broadcast use crate::term::lemma_value_len;

/// What came of trying a rule.
#[derive(Debug)]
pub enum Applied {
    /// The template, built, and what the guard relied on.
    To(u32, Fin),
    /// The pattern did not match.
    NoMatch,
    /// The pattern matched but the guard did not hold.
    GuardFalse,
    /// Declined for lack of steps or facts.
    Degraded(Exhausted),
}

/// A match stays one as the arena grows.
pub proof fn lemma_fitted_grow(
    r: Rule,
    ws: Seq<u16>,
    nodes: Seq<u32>,
    terms: Seq<Term>,
    more: Seq<Term>,
)
    requires
        matcher::fitted(r, ws, nodes, terms),
        terms.len() <= more.len(),
        forall|i: int| 0 <= i < terms.len() ==> #[trigger] more[i] == terms[i],
    ensures
        matcher::fitted(r, ws, nodes, more),
        forall|env: Env| #[trigger] matcher::bound(more, nodes, env) == matcher::bound(terms, nodes, env),
{
    assert forall|i: int| #![trigger nodes[i]] 0 <= i < nodes.len() implies nodes[i] < more.len()
        && term::tok(more[nodes[i] as int]) && term::twidth(more[nodes[i] as int])
        == r.params@[i].width.at(ws) by {
        assert(more[nodes[i] as int] == terms[nodes[i] as int]);
    }
    assert forall|env: Env| #[trigger] matcher::bound(more, nodes, env) == matcher::bound(terms, nodes, env) by {
        assert forall|i: int| 0 <= i < nodes.len() implies #[trigger] matcher::bound(more, nodes, env)[i]
            == matcher::bound(terms, nodes, env)[i] by {
            let _ = nodes[i];
            assert(more[nodes[i] as int] == terms[nodes[i] as int]);
        }
        assert(matcher::bound(more, nodes, env) =~= matcher::bound(terms, nodes, env));
    }
}

/// Node `x` is node `k` of the rule at the match.
pub open spec fn made(
    r: Rule,
    ws: Seq<u16>,
    nodes: Seq<u32>,
    terms: Seq<Term>,
    k: int,
    x: int,
) -> bool {
    &&& 0 <= x < terms.len()
    &&& term::twidth(terms[x]) == meaning::wat(r, k, ws)
    &&& matcher::is_at(r, k, ws, nodes, terms, x)
}

/// What was made stays made.
proof fn lemma_made_grow(
    r: Rule,
    ws: Seq<u16>,
    nodes: Seq<u32>,
    terms: Seq<Term>,
    more: Seq<Term>,
    k: int,
    x: int,
)
    requires
        matcher::fitted(r, ws, nodes, terms),
        made(r, ws, nodes, terms, k, x),
        terms.len() <= more.len(),
        forall|i: int| 0 <= i < terms.len() ==> #[trigger] more[i] == terms[i],
    ensures
        made(r, ws, nodes, more, k, x),
{
    lemma_fitted_grow(r, ws, nodes, terms, more);
    assert(more[x] == terms[x]);
    assert forall|env: Env| #![trigger matcher::bound(more, nodes, env)] meaning::rvalue(
        r,
        k,
        ws,
        matcher::bound(more, nodes, env),
    ) == term::value(more[x], env) by {
        assert(matcher::bound(more, nodes, env) == matcher::bound(terms, nodes, env));
    }
}

/// Node `k` of the rule is true at the match wherever what is relied on holds.
pub open spec fn held_under(
    r: Rule,
    ws: Seq<u16>,
    nodes: Seq<u32>,
    terms: Seq<Term>,
    h: Hyp,
    fin: Fin,
    k: int,
) -> bool {
    forall|env: Env|
        #![trigger matcher::bound(terms, nodes, env)]
        fin.rel.admits(h, env) ==> meaning::rvalue(r, k, ws, matcher::bound(terms, nodes, env))[0]
}

/// The bits of node `k` of the rule are known at the match wherever what is relied on holds.
pub open spec fn knows_under(
    r: Rule,
    ws: Seq<u16>,
    nodes: Seq<u32>,
    terms: Seq<Term>,
    h: Hyp,
    fin: Fin,
    k: int,
    known: KnownBits,
) -> bool {
    &&& known.has(meaning::wat(r, k, ws) as nat)
    &&& forall|env: Env|
        #![trigger matcher::bound(terms, nodes, env)]
        fin.rel.admits(h, env) ==> known.admits(meaning::rvalue(r, k, ws, matcher::bound(terms, nodes, env)))
}

/// No predicate occurs in node `k`: it can be built.
pub open spec fn buildable(r: Rule, k: int) -> bool
    decreases k,
{
    if k < 0 {
        false
    } else {
        match r.nodes@[k] {
            RNode::Let(i) => r.lets@[i as int] < k && buildable(r, r.lets@[i as int] as int),
            RNode::Un(_, a) => a < k && buildable(r, a as int),
            RNode::Bin(_, a, b) => a < k && b < k && buildable(r, a as int) && buildable(
                r,
                b as int,
            ),
            RNode::Cmp(_, a, b) => a < k && b < k && buildable(r, a as int) && buildable(
                r,
                b as int,
            ),
            RNode::Zext(a) => a < k && buildable(r, a as int),
            RNode::Sext(a) => a < k && buildable(r, a as int),
            RNode::Extract(_, a) => a < k && buildable(r, a as int),
            RNode::Concat(h, l) => h < k && l < k && buildable(r, h as int) && buildable(
                r,
                l as int,
            ),
            RNode::Select(c, t, f) => c < k && t < k && f < k && buildable(r, c as int)
                && buildable(r, t as int) && buildable(r, f as int),
            RNode::And(_, _) | RNode::Or(_, _) | RNode::Fact(..) | RNode::ConstP(..) => false,
            _ => true,
        }
    }
}

/// A simple template can be built.
pub proof fn lemma_simple_builds(r: Rule)
    requires
        structure::simple(r),
    ensures
        buildable(r, r.rhs as int),
{
}

/// Whether no predicate occurs in node `k`.
pub(crate) fn can_build(r: &Rule, k: u32) -> (b: bool)
    requires
        meaning::rule_ok(*r),
        k < r.nodes@.len(),
    ensures
        b == buildable(*r, k as int),
    decreases k,
{
    proof {
        assert(meaning::node_ok(*r, k as int));
    }
    match &r.nodes[k as usize] {
        RNode::Let(i) => can_build(r, r.lets[*i as usize]),
        RNode::Un(_, a) => can_build(r, *a),
        RNode::Bin(_, a, b) => can_build(r, *a) && can_build(r, *b),
        RNode::Cmp(_, a, b) => can_build(r, *a) && can_build(r, *b),
        RNode::Zext(a) => can_build(r, *a),
        RNode::Sext(a) => can_build(r, *a),
        RNode::Extract(_, a) => can_build(r, *a),
        RNode::Concat(h, l) => can_build(r, *h) && can_build(r, *l),
        RNode::Select(c, t, f) => can_build(r, *c) && can_build(r, *t) && can_build(r, *f),
        RNode::And(..) | RNode::Or(..) | RNode::Fact(..) | RNode::ConstP(..) => false,
        _ => true,
    }
}

impl<'a> Runner<'a> {
    /// What is known of node `k` of the rule at the match.
    fn rule_known(&mut self, cx: &Context, r: &Rule, f: &Found, k: u32) -> (out: Result<
        (Option<KnownBits>, Fin),
        Stop,
    >)
        requires
            old(self).wf(cx),
            meaning::rule_ok(*r),
            matcher::fitted(*r, f.ws@, f.nodes@, cx.tm()),
            k < r.nodes@.len(),
        ensures
            runner::went(final(self), cx, old(self), cx),
            out matches Err(e) ==> final(self).refuses(cx, e),
            out matches Ok((Some(b), fin)) ==> knows_under(
                *r,
                f.ws@,
                f.nodes@,
                cx.tm(),
                final(self).hyp@,
                fin,
                k as int,
                b,
            ),
    {
        proof {
            assert(meaning::node_ok(*r, k as int));
            assert(meaning::typed_at(*r, k as int, f.ws@));
        }
        if let RNode::Param(p) = &r.nodes[k as usize] {
            let n = f.nodes[*p as usize];
            assert(f.nodes@[*p as int] == n);
            let (known, fin) = self.known(cx, n)?;
            return match known {
                None => Ok((None, fin)),
                Some(b) => {
                    proof {
                        assert forall|env: Env|
                            #![trigger matcher::bound(cx.tm(), f.nodes@, env)]
                            fin.rel.admits(self.hyp@, env) implies b.admits(
                            meaning::rvalue(
                                *r,
                                k as int,
                                f.ws@,
                                matcher::bound(cx.tm(), f.nodes@, env),
                            ),
                        ) by {
                            assert(matcher::bound(cx.tm(), f.nodes@, env)[*p as int] == cx.val(
                                n as int,
                                env,
                            ));
                        }
                    }
                    Ok((Some(b), fin))
                },
            };
        }
        match const_of(cx, r, &f.ws, &f.nodes, k) {
            Some(v) => {
                let b = KnownBits::constant(&v);
                Ok((Some(b), Fin::full()))
            },
            None => Ok((None, Fin::full())),
        }
    }

    /// Whether a predicate about facts is known to hold at the match.
    fn rule_fact(&mut self, cx: &Context, r: &Rule, f: &Found, k: u32) -> (out: Result<
        (bool, Fin),
        Stop,
    >)
        requires
            old(self).wf(cx),
            meaning::rule_ok(*r),
            matcher::fitted(*r, f.ws@, f.nodes@, cx.tm()),
            k < r.nodes@.len(),
        ensures
            runner::went(final(self), cx, old(self), cx),
            out matches Err(e) ==> final(self).refuses(cx, e),
            out matches Ok((true, fin)) ==> held_under(
                *r,
                f.ws@,
                f.nodes@,
                cx.tm(),
                final(self).hyp@,
                fin,
                k as int,
            ),
    {
        let ghost ws = f.ws@;
        let ghost ns = f.nodes@;
        let ghost tm = cx.tm();
        let ghost h = self.hyp@;
        proof {
            assert(meaning::node_ok(*r, k as int));
            assert(meaning::typed_at(*r, k as int, ws));
            matcher::lemma_operands_typed(*r, k as int, ws);
            assert forall|env: Env, j: int| 0 <= j < k implies (#[trigger] meaning::rvalue(
                *r,
                j,
                ws,
                matcher::bound(tm, ns, env),
            )).len() == meaning::wat(*r, j, ws) by {
                matcher::lemma_bound_fits(*r, ws, ns, tm, env);
                meaning::lemma_rvalue_len(*r, j, ws, matcher::bound(tm, ns, env));
            }
        }
        let (p, a, b) = match &r.nodes[k as usize] {
            RNode::Fact(p, a, b) => (*p, *a, *b),
            _ => {
                return Ok((false, Fin::full()));
            },
        };
        match (p, b) {
            (FactPred::Proves, _) => {
                proof {
                    assert(meaning::node_ok(*r, a as int));
                    assert(meaning::typed_at(*r, a as int, ws));
                }
                let (op, x, y) = match &r.nodes[a as usize] {
                    RNode::Cmp(op, x, y) => (*op, *x, *y),
                    _ => {
                        return Ok((false, Fin::full()));
                    },
                };
                let (s, swap) = op.canonical();
                let (u, v) = if swap {
                    (y, x)
                } else {
                    (x, y)
                };
                let (ku, fu) = self.rule_known(cx, r, f, u)?;
                let (kv, fv) = self.rule_known(cx, r, f, v)?;
                let fin = fu.and(fv);
                if let (Some(ku), Some(kv)) = (ku, kv) {
                    if let Some(true) = rel_known(s, &ku, &kv) {
                        proof {
                            assert forall|env: Env|
                                #![trigger matcher::bound(tm, ns, env)]
                                fin.rel.admits(h, env) implies meaning::rvalue(
                                *r,
                                k as int,
                                ws,
                                matcher::bound(tm, ns, env),
                            )[0] by {
                                let ps = matcher::bound(tm, ns, env);
                                let p1 = meaning::rvalue(*r, u as int, ws, ps);
                                let p2 = meaning::rvalue(*r, v as int, ws, ps);
                                assert(ku.admits(p1) && kv.admits(p2));
                                assert(ops::holds(s, p1, p2));
                                assert(ops::holds_ext(
                                    op,
                                    meaning::rvalue(*r, x as int, ws, ps),
                                    meaning::rvalue(*r, y as int, ws, ps),
                                ));
                                let av = meaning::rvalue(*r, a as int, ws, ps);
                                assert(av == ops::bool_bits(true));
                                assert(meaning::fact_true(p, av, None));
                                if let Some(m) = b {
                                    assert(meaning::fact_true(
                                        p,
                                        av,
                                        Some(meaning::rvalue(*r, m as int, ws, ps)),
                                    ));
                                }
                            }
                        }
                        return Ok((true, fin));
                    }
                }
                Ok((false, fin))
            },
            (FactPred::NonZero, _) => {
                let (ka, fin) = self.rule_known(cx, r, f, a)?;
                if let Some(ka) = ka {
                    if !ka.one.is_zero() {
                        proof {
                            assert forall|env: Env|
                                #![trigger matcher::bound(tm, ns, env)]
                                fin.rel.admits(h, env) implies meaning::rvalue(
                                *r,
                                k as int,
                                ws,
                                matcher::bound(tm, ns, env),
                            )[0] by {
                                let s = meaning::rvalue(*r, a as int, ws, matcher::bound(tm, ns, env));
                                assert(ka.admits(s));
                                if s == bits::zeros(s.len()) {
                                    assert forall|i: int| 0 <= i < s.len() implies !(
                                    #[trigger] ka.one@[i]) by {
                                        let _ = s[i];
                                    }
                                    assert(ka.one@ =~= bits::zeros(ka.one@.len()));
                                }
                            }
                        }
                        return Ok((true, fin));
                    }
                }
                Ok((false, fin))
            },
            (FactPred::ZeroBits, Some(m)) => {
                let (ka, fin) = self.rule_known(cx, r, f, a)?;
                if let (Some(ka), Some(v)) = (ka, const_of(cx, r, &f.ws, &f.nodes, m)) {
                    if ka.zero.and(&v).same(&v) {
                        proof {
                            assert forall|env: Env|
                                #![trigger matcher::bound(tm, ns, env)]
                                fin.rel.admits(h, env) implies meaning::rvalue(
                                *r,
                                k as int,
                                ws,
                                matcher::bound(tm, ns, env),
                            )[0] by {
                                let s = meaning::rvalue(*r, a as int, ws, matcher::bound(tm, ns, env));
                                assert(ka.admits(s));
                                assert forall|i: int| 0 <= i < s.len() implies !(
                                #[trigger] ops::and_bits(s, v@)[i]) by {
                                    let _ = s[i];
                                    assert(ops::and_bits(ka.zero@, v@)[i] == v@[i]);
                                }
                                assert(ops::and_bits(s, v@) =~= bits::zeros(s.len()));
                            }
                        }
                        return Ok((true, fin));
                    }
                }
                Ok((false, fin))
            },
            (FactPred::OneBits, Some(m)) => {
                let (ka, fin) = self.rule_known(cx, r, f, a)?;
                if let (Some(ka), Some(v)) = (ka, const_of(cx, r, &f.ws, &f.nodes, m)) {
                    if ka.one.and(&v).same(&v) {
                        proof {
                            assert forall|env: Env|
                                #![trigger matcher::bound(tm, ns, env)]
                                fin.rel.admits(h, env) implies meaning::rvalue(
                                *r,
                                k as int,
                                ws,
                                matcher::bound(tm, ns, env),
                            )[0] by {
                                let s = meaning::rvalue(*r, a as int, ws, matcher::bound(tm, ns, env));
                                assert(ka.admits(s));
                                assert forall|i: int| 0 <= i < s.len() implies #[trigger] ops::and_bits(
                                    s,
                                    v@,
                                )[i] == v@[i] by {
                                    let _ = s[i];
                                    assert(ops::and_bits(ka.one@, v@)[i] == v@[i]);
                                }
                                assert(ops::and_bits(s, v@) =~= v@);
                            }
                        }
                        return Ok((true, fin));
                    }
                }
                Ok((false, fin))
            },
            (FactPred::Disjoint, Some(m)) => {
                let (ka, fa) = self.rule_known(cx, r, f, a)?;
                let (km, fm) = self.rule_known(cx, r, f, m)?;
                let fin = fa.and(fm);
                if let (Some(ka), Some(km)) = (ka, km) {
                    if ka.zero.or(&km.zero).is_ones() {
                        proof {
                            assert forall|env: Env|
                                #![trigger matcher::bound(tm, ns, env)]
                                fin.rel.admits(h, env) implies meaning::rvalue(
                                *r,
                                k as int,
                                ws,
                                matcher::bound(tm, ns, env),
                            )[0] by {
                                let s = meaning::rvalue(*r, a as int, ws, matcher::bound(tm, ns, env));
                                let t = meaning::rvalue(*r, m as int, ws, matcher::bound(tm, ns, env));
                                assert(ka.admits(s) && km.admits(t));
                                assert forall|i: int| 0 <= i < s.len() implies !(
                                #[trigger] ops::and_bits(s, t)[i]) by {
                                    let _ = s[i];
                                    let _ = t[i];
                                    assert(ops::or_bits(ka.zero@, km.zero@)[i]);
                                }
                                assert(ops::and_bits(s, t) =~= bits::zeros(s.len()));
                            }
                        }
                        return Ok((true, fin));
                    }
                }
                Ok((false, fin))
            },
            _ => Ok((false, Fin::full())),
        }
    }

    /// Whether node `k` of the rule, a guard, is known to hold at the match.
    pub(crate) fn guard(&mut self, cx: &Context, r: &Rule, f: &Found, k: u32) -> (out: Result<
        (bool, Fin),
        Stop,
    >)
        requires
            old(self).wf(cx),
            meaning::rule_ok(*r),
            matcher::fitted(*r, f.ws@, f.nodes@, cx.tm()),
            k < r.nodes@.len(),
        ensures
            runner::went(final(self), cx, old(self), cx),
            out matches Err(e) ==> final(self).refuses(cx, e),
            out matches Ok((true, fin)) ==> held_under(
                *r,
                f.ws@,
                f.nodes@,
                cx.tm(),
                final(self).hyp@,
                fin,
                k as int,
            ),
        decreases k,
    {
        proof {
            assert(meaning::node_ok(*r, k as int));
            assert(meaning::typed_at(*r, k as int, f.ws@));
        }
        match &r.nodes[k as usize] {
            RNode::And(a, b) => {
                let (x, fa) = self.guard(cx, r, f, *a)?;
                if !x {
                    return Ok((false, fa));
                }
                let (y, fb) = self.guard(cx, r, f, *b)?;
                Ok((y, fa.and(fb)))
            },
            RNode::Or(a, b) => {
                let (x, fa) = self.guard(cx, r, f, *a)?;
                if x {
                    return Ok((true, fa));
                }
                let (y, fb) = self.guard(cx, r, f, *b)?;
                // What the first half relied on is not relied on; that it was capped counts.
                Ok((y, fb.and(fa.unchanged())))
            },
            RNode::Fact(..) => self.rule_fact(cx, r, f, k),
            _ => {
                match const_of(cx, r, &f.ws, &f.nodes, k) {
                    Some(v) => {
                        let b = v.at(0);
                        Ok((b, Fin::full()))
                    },
                    None => Ok((false, Fin::full())),
                }
            },
        }
    }

    /// Builds node `k` of the rule at the match.
    #[verifier::rlimit(40)]
    pub(crate) fn instantiate(&mut self, cx: &mut Context, r: &Rule, f: &Found, k: u32) -> (out: Result<
        u32,
        Stop,
    >)
        requires
            old(self).wf(old(cx)),
            meaning::rule_ok(*r),
            matcher::fitted(*r, f.ws@, f.nodes@, old(cx).tm()),
            k < r.nodes@.len(),
            buildable(*r, k as int),
        ensures
            runner::went(final(self), final(cx), old(self), old(cx)),
            out matches Err(e) ==> final(self).refuses(final(cx), e),
            matcher::fitted(*r, f.ws@, f.nodes@, final(cx).tm()),
            out matches Ok(x) ==> made(*r, f.ws@, f.nodes@, final(cx).tm(), k as int, x as int),
            out matches Ok(x) ==> (r.nodes@[k as int] matches RNode::Param(p) ==> x
                == f.nodes@[p as int]),
            out matches Ok(x) ==> r.nodes@[k as int] is Lit || r.nodes@[k as int] is Ones
                || r.nodes@[k as int] is LowMask || r.nodes@[k as int] is WidthVal
                || r.nodes@[k as int] is Bool ==> final(cx).nodes@[x as int] is Const,
        decreases k,
    {
        let ghost ws = f.ws@;
        let ghost ns = f.nodes@;
        let ghost cx0 = *cx;
        proof {
            assert(meaning::node_ok(*r, k as int));
            assert(meaning::typed_at(*r, k as int, ws));
            matcher::lemma_operands_typed(*r, k as int, ws);
        }
        let w: usize = r.wid(k, &f.ws) as usize;
        let out: Result<u32, Stop> = match &r.nodes[k as usize] {
            RNode::Param(p) => {
                let n = f.nodes[*p as usize];
                assert(ns[*p as int] == n);
                proof {
                    assert forall|env: Env| #![trigger matcher::bound(cx.tm(), ns, env)] meaning::rvalue(
                        *r,
                        k as int,
                        ws,
                        matcher::bound(cx.tm(), ns, env),
                    ) == term::value(cx.tm()[n as int], env) by {}
                }
                Ok(n)
            },
            RNode::Let(i) => self.instantiate(cx, r, f, r.lets[*i as usize]),
            RNode::Un(op, a) => {
                let x = self.instantiate(cx, r, f, *a)?;
                let ghost cx1 = *cx;
                let o = *op;
                let y = self.c_un(cx, o, x);
                proof {
                    lemma_fitted_grow(*r, ws, ns, cx1.tm(), cx.tm());
                }
                y
            },
            RNode::Bin(op, a, b) => {
                let x = self.instantiate(cx, r, f, *a)?;
                let ghost cx1 = *cx;
                let y = self.instantiate(cx, r, f, *b)?;
                let ghost cx2 = *cx;
                proof {
                    lemma_made_grow(*r, ws, ns, cx1.tm(), cx2.tm(), *a as int, x as int);
                }
                let z = self.c_bin(cx, *op, x, y);
                proof {
                    lemma_fitted_grow(*r, ws, ns, cx2.tm(), cx.tm());
                }
                z
            },
            RNode::Cmp(op, a, b) => {
                let (s, swap) = op.canonical();
                let x = self.instantiate(cx, r, f, *a)?;
                let ghost cx1 = *cx;
                let y = self.instantiate(cx, r, f, *b)?;
                let ghost cx2 = *cx;
                proof {
                    lemma_made_grow(*r, ws, ns, cx1.tm(), cx2.tm(), *a as int, x as int);
                }
                let z = if swap {
                    self.c_rel(cx, s, y, x)
                } else {
                    self.c_rel(cx, s, x, y)
                };
                proof {
                    lemma_fitted_grow(*r, ws, ns, cx2.tm(), cx.tm());
                    if let Ok(e) = z {
                        assert forall|env: Env| #![trigger matcher::bound(cx.tm(), ns, env)] meaning::rvalue(
                            *r,
                            k as int,
                            ws,
                            matcher::bound(cx.tm(), ns, env),
                        ) == term::value(cx.tm()[e as int], env) by {
                            let ps = matcher::bound(cx2.tm(), ns, env);
                            assert(ps == matcher::bound(cx.tm(), ns, env));
                            assert(cx.val(e as int, env) == cx.val(e as int, env));
                            assert(ops::holds_ext(*op, meaning::rvalue(*r, *a as int, ws, ps), meaning::rvalue(*r, *b as int, ws, ps))
                                == ops::holds_ext(*op, meaning::rvalue(*r, *a as int, ws, ps), meaning::rvalue(*r, *b as int, ws, ps)));
                        }
                    }
                }
                z
            },
            RNode::Zext(a) => {
                let x = self.instantiate(cx, r, f, *a)?;
                let ghost cx1 = *cx;
                let y = self.c_zext(cx, x, w as u16);
                proof {
                    lemma_fitted_grow(*r, ws, ns, cx1.tm(), cx.tm());
                }
                y
            },
            RNode::Sext(a) => {
                let x = self.instantiate(cx, r, f, *a)?;
                let ghost cx1 = *cx;
                let y = self.c_sext(cx, x, w as u16);
                proof {
                    lemma_fitted_grow(*r, ws, ns, cx1.tm(), cx.tm());
                }
                y
            },
            RNode::Extract(e, a) => {
                let x = self.instantiate(cx, r, f, *a)?;
                let ghost cx1 = *cx;
                let lo: i64 = e.eval(&f.ws);
                let y = self.c_extract(cx, x, lo as u16, w as u16);
                proof {
                    lemma_fitted_grow(*r, ws, ns, cx1.tm(), cx.tm());
                }
                y
            },
            RNode::Concat(a, b) => {
                let x = self.instantiate(cx, r, f, *a)?;
                let ghost cx1 = *cx;
                let y = self.instantiate(cx, r, f, *b)?;
                let ghost cx2 = *cx;
                proof {
                    lemma_made_grow(*r, ws, ns, cx1.tm(), cx2.tm(), *a as int, x as int);
                }
                let z = self.c_concat(cx, x, y);
                proof {
                    lemma_fitted_grow(*r, ws, ns, cx2.tm(), cx.tm());
                }
                z
            },
            RNode::Select(c, t, e) => {
                let x = self.instantiate(cx, r, f, *c)?;
                let ghost cx1 = *cx;
                let y = self.instantiate(cx, r, f, *t)?;
                let ghost cx2 = *cx;
                proof {
                    lemma_made_grow(*r, ws, ns, cx1.tm(), cx2.tm(), *c as int, x as int);
                }
                let z = self.instantiate(cx, r, f, *e)?;
                let ghost cx3 = *cx;
                proof {
                    lemma_made_grow(*r, ws, ns, cx2.tm(), cx3.tm(), *c as int, x as int);
                    lemma_made_grow(*r, ws, ns, cx2.tm(), cx3.tm(), *t as int, y as int);
                }
                let v = self.c_select(cx, x, y, z);
                proof {
                    lemma_fitted_grow(*r, ws, ns, cx3.tm(), cx.tm());
                }
                v
            },
            _ => {
                match const_of(cx, r, &f.ws, &f.nodes, k) {
                    Some(v) => {
                        let y = self.mk_const(cx, &v);
                        proof {
                            lemma_fitted_grow(*r, ws, ns, cx0.tm(), cx.tm());
                        }
                        y
                    },
                    None => Err(Stop::Exhausted(Exhausted::ArenaCapacity)),
                }
            },
        };
        proof {
            if let Ok(e) = out {
                assert forall|env: Env| #![trigger matcher::bound(cx.tm(), ns, env)] meaning::rvalue(
                    *r,
                    k as int,
                    ws,
                    matcher::bound(cx.tm(), ns, env),
                ) == term::value(cx.tm()[e as int], env) by {
                    assert(cx.val(e as int, env) == term::value(cx.tm()[e as int], env));
                }
            }
        }
        out
    }
}

} // verus!
