//! Matching a rule's pattern at a node: a search for widths and parameters, with backtracking
//! over the two orders of commutative operands, bounded by steps; what it finds is then checked
//! against the node.

use vstd::prelude::*;
use crate::term;
use crate::rules::meaning;
use crate::ops;
use crate::bits;
use crate::bitvec::{BitVec, Width, MAX_WIDTH};
use crate::expr;
use crate::expr::{Context, Node};
use crate::rules::heads;
use crate::rules::structure;
use crate::rules::rule;
use crate::ops::{BinOp, CmpOp};
use crate::rules::eval::{mask_value, number};
use crate::rules::meaning::{apply_ext, const_pred};
use crate::rules::rule::{ParamKind, RNode, Rule, WExpr};
use crate::term::{Env, Term};

verus! {

broadcast use crate::term::lemma_value_len;

/// The most steps one application takes.
pub const MATCH_STEPS: u32 = 10_000;

/// A match: the widths, and the node of each parameter.
#[derive(Debug)]
pub struct Found {
    /// The value of each width variable.
    pub ws: Vec<u16>,
    /// The node of each parameter.
    pub nodes: Vec<u32>,
}

/// What a search came to.
#[derive(Debug)]
pub enum Search {
    /// A match.
    Matched(Found),
    /// No match.
    Failed,
    /// Out of steps.
    Degraded,
}

/// The values of the parameters of a match.
pub open spec fn bound(terms: Seq<Term>, nodes: Seq<u32>, env: Env) -> Seq<Seq<bool>> {
    Seq::new(nodes.len(), |i: int| term::value(terms[nodes[i] as int], env))
}

/// The parameters are nodes of their widths.
pub open spec fn fitted(r: Rule, ws: Seq<u16>, nodes: Seq<u32>, terms: Seq<Term>) -> bool {
    &&& meaning::typed(r, ws)
    &&& meaning::wheres_hold(r, ws)
    &&& nodes.len() == r.params@.len()
    &&& forall|i: int|
        #![trigger nodes[i]]
        0 <= i < nodes.len() ==> nodes[i] < terms.len() && term::tok(terms[nodes[i] as int]) && term::twidth(
            terms[nodes[i] as int],
        ) == r.params@[i].width.at(ws)
}

/// The pattern at these widths and parameters is node `n`.
pub open spec fn matched(r: Rule, ws: Seq<u16>, nodes: Seq<u32>, terms: Seq<Term>, n: int) -> bool {
    &&& fitted(r, ws, nodes, terms)
    &&& meaning::wat(r, r.lhs as int, ws) == term::twidth(terms[n])
    &&& forall|env: Env| #[trigger]
        term::value(terms[n], env) == meaning::rvalue(r, r.lhs as int, ws, bound(terms, nodes, env))
}

/// The parameters of a match have their widths.
pub proof fn lemma_bound_fits(
    r: Rule,
    ws: Seq<u16>,
    nodes: Seq<u32>,
    terms: Seq<Term>,
    env: Env,
)
    requires
        fitted(r, ws, nodes, terms),
    ensures
        meaning::params_fit(r, ws, bound(terms, nodes, env)),
{
    let ps = bound(terms, nodes, env);
    assert forall|i: int| #![trigger ps[i]] 0 <= i < ps.len() implies ps[i].len()
        == r.params@[i].width.at(ws) by {
        let _ = nodes[i];
    }
}

/// The operator can have its operands in either order.
pub open spec fn commutes(op: BinOp) -> bool {
    op == BinOp::And || op == BinOp::Or || op == BinOp::Xor || op == BinOp::Add || op == BinOp::Mul
}

/// Commutative operators commute.
pub proof fn lemma_commutes(op: BinOp, a: Seq<bool>, b: Seq<bool>)
    requires
        commutes(op),
        a.len() == b.len(),
    ensures
        ops::bin_value(op, a, b) == ops::bin_value(op, b, a),
{
    match op {
        BinOp::And => {
            assert(ops::and_bits(a, b) =~= ops::and_bits(b, a));
        },
        BinOp::Or => {
            assert(ops::or_bits(a, b) =~= ops::or_bits(b, a));
        },
        BinOp::Xor => {
            assert(ops::xor_bits(a, b) =~= ops::xor_bits(b, a));
        },
        BinOp::Mul => {
            vstd::arithmetic::mul::lemma_mul_is_commutative(bits::nat_of(a) as int, bits::nat_of(b) as int);
        },
        _ => {},
    }
}

/// The value of node `k` of a rule at a match, if it is a constant there.
pub(crate) fn const_of(cx: &Context, r: &Rule, ws: &Vec<u16>, nodes: &Vec<u32>, k: u32) -> (out:
    Option<BitVec>)
    requires
        cx.wf(),
        meaning::rule_ok(*r),
        fitted(*r, ws@, nodes@, cx.tm()),
        k < r.nodes@.len(),
    ensures
        out matches Some(v) ==> v@.len() == meaning::wat(*r, k as int, ws@) && forall|env: Env|
            #![trigger bound(cx.tm(), nodes@, env)]
            meaning::rvalue(*r, k as int, ws@, bound(cx.tm(), nodes@, env)) == v@,
        r.nodes@[k as int] is Lit || r.nodes@[k as int] is Ones || r.nodes@[k as int] is LowMask
            || r.nodes@[k as int] is WidthVal || r.nodes@[k as int] is Bool ==> out is Some,
        heads::closed(*r, k as int) ==> out is Some,
    decreases k,
{
    proof {
        assert(meaning::node_ok(*r, k as int));
        assert(meaning::typed_at(*r, k as int, ws@));
        lemma_operands_typed(*r, k as int, ws@);
    }
    let w: usize = r.wid(k, ws) as usize;
    match &r.nodes[k as usize] {
        RNode::Param(i) => {
            let n = nodes[*i as usize];
            assert(nodes@[*i as int] == n);
            let v = cx.const_val(n)?;
            proof {
                assert(cx.ok_at(n as int));
                assert forall|env: Env| #![trigger bound(cx.tm(), nodes@, env)] meaning::rvalue(
                    *r,
                    k as int,
                    ws@,
                    bound(cx.tm(), nodes@, env),
                ) == v@ by {
                    assert(term::value(cx.tm()[n as int], env) == v@);
                    assert(bound(cx.tm(), nodes@, env)[*i as int] == v@);
                }
            }
            Some(v)
        },
        RNode::Lit(v) => Some(number(w, *v)),
        RNode::Ones => Some(BitVec::ones(Width { bits: w as u16 })),
        RNode::LowMask(e) => Some(mask_value(e.eval(ws), w)),
        RNode::WidthVal(e) => Some(number(w, e.eval(ws))),
        RNode::Let(i) => const_of(cx, r, ws, nodes, r.lets[*i as usize]),
        RNode::Un(op, a) => {
            let x = const_of(cx, r, ws, nodes, *a)?;
            Some(BitVec::apply_un(*op, &x))
        },
        RNode::Bin(op, a, b) => {
            let x = const_of(cx, r, ws, nodes, *a)?;
            let y = const_of(cx, r, ws, nodes, *b)?;
            Some(BitVec::apply_bin(*op, &x, &y))
        },
        RNode::Cmp(op, a, b) => {
            let x = const_of(cx, r, ws, nodes, *a)?;
            let y = const_of(cx, r, ws, nodes, *b)?;
            Some(BitVec::from_bool(apply_ext(*op, &x, &y)))
        },
        RNode::Zext(a) => {
            let x = const_of(cx, r, ws, nodes, *a)?;
            Some(x.zext(w))
        },
        RNode::Sext(a) => {
            let x = const_of(cx, r, ws, nodes, *a)?;
            Some(x.sext(w))
        },
        RNode::Extract(e, a) => {
            let x = const_of(cx, r, ws, nodes, *a)?;
            let lo: usize = e.eval(ws) as usize;
            Some(x.extract(lo, w))
        },
        RNode::Concat(h, l) => {
            let x = const_of(cx, r, ws, nodes, *h)?;
            let y = const_of(cx, r, ws, nodes, *l)?;
            Some(x.concat(&y))
        },
        RNode::Select(c, t, f) => {
            let x = const_of(cx, r, ws, nodes, *c)?;
            if x.at(0) {
                const_of(cx, r, ws, nodes, *t)
            } else {
                const_of(cx, r, ws, nodes, *f)
            }
        },
        RNode::Bool(b) => Some(BitVec::from_bool(*b)),
        RNode::ConstP(p, a) => {
            let x = const_of(cx, r, ws, nodes, *a)?;
            Some(BitVec::from_bool(const_pred(*p, &x)))
        },
        _ => None,
    }
}

/// The operands of node `k` have widths.
pub proof fn lemma_operands_typed(r: Rule, k: int, ws: Seq<u16>)
    requires
        meaning::rule_ok(r),
        meaning::typed(r, ws),
        0 <= k < r.nodes@.len(),
    ensures
        forall|j: int| 0 <= j < k ==> 1 <= #[trigger] meaning::wat(r, j, ws) <= MAX_WIDTH,
{
    assert forall|j: int| 0 <= j < k implies 1 <= #[trigger] meaning::wat(r, j, ws) <= MAX_WIDTH by {
        assert(meaning::typed_at(r, j, ws));
    }
}

/// Node `k` of a rule at a match has the value of node `i`.
pub open spec fn is_at(
    r: Rule,
    k: int,
    ws: Seq<u16>,
    nodes: Seq<u32>,
    terms: Seq<Term>,
    i: int,
) -> bool {
    forall|env: Env|
        #![trigger bound(terms, nodes, env)]
        meaning::rvalue(r, k, ws, bound(terms, nodes, env)) == term::value(terms[i], env)
}

/// Whether node `k` of a rule at a match is node `i` (false also when out of steps).
fn agrees(
    cx: &Context,
    r: &Rule,
    ws: &Vec<u16>,
    nodes: &Vec<u32>,
    k: u32,
    i: u32,
    steps: &mut u32,
) -> (b: bool)
    requires
        cx.wf(),
        meaning::rule_ok(*r),
        fitted(*r, ws@, nodes@, cx.tm()),
        k < r.nodes@.len(),
        i < cx.n(),
    ensures
        b ==> is_at(*r, k as int, ws@, nodes@, cx.tm(), i as int),
        *final(steps) <= *old(steps),
        !b ==> *final(steps) == 0 || !structure::matches(
            *r,
            k as int,
            ws@,
            nodes@,
            cx.nodes@,
            cx.tm(),
            i as int,
        ),
    decreases k,
{
    if *steps == 0 {
        return false;
    }
    *steps = *steps - 1;
    proof {
        assert(meaning::node_ok(*r, k as int));
        assert(meaning::typed_at(*r, k as int, ws@));
        lemma_operands_typed(*r, k as int, ws@);
        assert(cx.ok_at(i as int));
    }
    let ghost tm = cx.tm();
    if r.wid(k, ws) != cx.wid(i) as i64 {
        return false;
    }
    if let RNode::Param(p) = &r.nodes[k as usize] {
        let b = nodes[*p as usize] == i;
        return b;
    }
    if let Some(v) = cx.const_val(i) {
        return match const_of(cx, r, ws, nodes, k) {
            Some(x) => {
                let b = x.same(&v);
                proof {
                    let env: Env = |a: int, b: int| false;
                    let _ = bound(tm, nodes@, env);
                    assert(term::value(tm[i as int], env) == v@);
                }
                b
            },
            None => false,
        };
    }
    match (&r.nodes[k as usize], cx.node(i)) {
        (RNode::Un(op, a), Node::Un(o, x)) => *op == o && agrees(cx, r, ws, nodes, *a, x, steps),
        (RNode::Bin(op, a, b), Node::Bin(o, x, y)) => {
            if *op != o {
                return false;
            }
            if agrees(cx, r, ws, nodes, *a, x, steps) && agrees(cx, r, ws, nodes, *b, y, steps) {
                return true;
            }
            let both = o == BinOp::And || o == BinOp::Or || o == BinOp::Xor || o == BinOp::Add || o
                == BinOp::Mul;
            if both && agrees(cx, r, ws, nodes, *a, y, steps) && agrees(
                cx,
                r,
                ws,
                nodes,
                *b,
                x,
                steps,
            ) {
                proof {
                    assert(cx.ok_at(x as int));
                    assert(cx.ok_at(y as int));
                    assert forall|env: Env| #![trigger bound(tm, nodes@, env)] meaning::rvalue(
                        *r,
                        k as int,
                        ws@,
                        bound(tm, nodes@, env),
                    ) == term::value(tm[i as int], env) by {
                        lemma_commutes(o, term::value(tm[x as int], env), term::value(tm[y as int], env));
                    }
                }
                return true;
            }
            false
        },
        (RNode::Cmp(op, a, b), Node::Cmp(o, x, y)) => {
            let (s, swap) = op.canonical();
            if s != o {
                return false;
            }
            let (p, q) = if swap {
                (*b, *a)
            } else {
                (*a, *b)
            };
            if agrees(cx, r, ws, nodes, p, x, steps) && agrees(cx, r, ws, nodes, q, y, steps) {
                return true;
            }
            if (o == CmpOp::Eq || o == CmpOp::Ne) && agrees(cx, r, ws, nodes, p, y, steps)
                && agrees(cx, r, ws, nodes, q, x, steps) {
                return true;
            }
            false
        },
        (RNode::Zext(a), Node::Zext(x)) => agrees(cx, r, ws, nodes, *a, x, steps),
        (RNode::Sext(a), Node::Sext(x)) => agrees(cx, r, ws, nodes, *a, x, steps),
        (RNode::Extract(e, a), Node::Extract(x, lo)) => e.eval(ws) == lo as i64 && agrees(
            cx,
            r,
            ws,
            nodes,
            *a,
            x,
            steps,
        ),
        (RNode::Concat(h, l), Node::Concat(x, y)) => agrees(cx, r, ws, nodes, *h, x, steps)
            && agrees(cx, r, ws, nodes, *l, y, steps),
        (RNode::Select(c, t, f), Node::Select(x, y, z)) => agrees(cx, r, ws, nodes, *c, x, steps)
            && agrees(cx, r, ws, nodes, *t, y, steps) && agrees(cx, r, ws, nodes, *f, z, steps),
        _ => false,
    }
}

/// A state of the search: what is left to match, and what the parameters are so far.
struct State {
    todo: Vec<(u32, u32)>,
    nodes: Vec<Option<u32>>,
    pairs: Vec<(u32, u32)>,
}

/// Every pair is of a node of the rule and a node of the arena.
spec fn pairs_ok(v: Seq<(u32, u32)>, rules: nat, n: int) -> bool {
    forall|k: int| #![trigger v[k]] 0 <= k < v.len() ==> v[k].0 < rules && v[k].1 < n
}

/// The parameters that are bound stand for nodes of their kinds.
spec fn kinds_ok(s: State, r: Rule, nodes: Seq<Node>) -> bool {
    forall|p: int|
        #![trigger s.nodes@[p]]
        0 <= p < s.nodes@.len() ==> (s.nodes@[p] matches Some(x) ==> heads::kind_fits(
            r.params@[p].kind,
            heads::node_place(nodes[x as int]),
        ))
}

/// Pattern node `k` is still to be matched at node `i`, or their operators fit.
spec fn covered(s: State, r: Rule, nodes: Seq<Node>, k: u32, i: u32) -> bool {
    s.todo@.contains((k, i)) || heads::head(r, k as int, heads::node_place(nodes[i as int]))
}

/// The operands of node `n`, in the order in which they are matched.
spec fn taken(nodes: Seq<Node>, n: u32, turned: bool) -> Seq<u32> {
    let kids = expr::kids(nodes[n as int]);
    if turned && kids.len() == 2 {
        seq![kids[1], kids[0]]
    } else {
        kids
    }
}

/// The operands of the pattern's root are covered, in the given order.
spec fn operands_covered(s: State, r: Rule, nodes: Seq<Node>, n: u32, turned: bool) -> bool {
    let root = r.nodes@[r.lhs as int];
    &&& turned ==> heads::either_way(root)
    &&& heads::operands(root).len() == expr::kids(nodes[n as int]).len()
    &&& turned ==> heads::operands(root).len() == 2
    &&& forall|j: int|
        #![trigger heads::operands(root)[j]]
        0 <= j < heads::operands(root).len() ==> covered(
            s,
            r,
            nodes,
            heads::operands(root)[j],
            taken(nodes, n, turned)[j],
        )
}

/// Nothing was matched yet, or the root fits and its operands are covered.
spec fn on_the_way(s: State, r: Rule, nodes: Seq<Node>, n: u32) -> bool {
    heads::operator_rooted(r) ==> {
        ||| s.todo@ =~= seq![(r.lhs, n)]
        ||| heads::rooted(r, heads::node_place(nodes[n as int])) && (operands_covered(
            s,
            r,
            nodes,
            n,
            false,
        ) || operands_covered(s, r, nodes, n, true))
    }
}

/// Where the pattern is rooted at an operator, parameters are bound below the node.
spec fn stays_below(s: State, r: Rule, n: u32) -> bool {
    heads::operator_rooted(r) ==> below(s, n) && forall|t: int|
        #![trigger s.todo@[t]]
        0 <= t < s.todo@.len() ==> s.todo@[t] == (r.lhs, n) || s.todo@[t].1 < n
}

/// Taking a pair whose operators fit off the list keeps the rest covered.
proof fn lemma_on_the_way(a: State, b: State, r: Rule, nodes: Seq<Node>, n: u32)
    requires
        on_the_way(a, r, nodes, n),
        a.todo@.len() > 0,
        !(a.todo@ =~= seq![(r.lhs, n)]) || !heads::operator_rooted(r),
        heads::head(r, a.todo@.last().0 as int, heads::node_place(nodes[a.todo@.last().1 as int])),
        forall|t: (u32, u32)| #[trigger] a.todo@.drop_last().contains(t) ==> b.todo@.contains(t),
    ensures
        on_the_way(b, r, nodes, n),
{
    if heads::operator_rooted(r) {
        let turned = !operands_covered(a, r, nodes, n, false);
        let ks = heads::operands(r.nodes@[r.lhs as int]);
        assert forall|j: int| #![trigger ks[j]] 0 <= j < ks.len() implies covered(
            b,
            r,
            nodes,
            ks[j],
            taken(nodes, n, turned)[j],
        ) by {
            let t = (ks[j], taken(nodes, n, turned)[j]);
            assert(covered(a, r, nodes, t.0, t.1));
            if a.todo@.contains(t) {
                let q = choose|q: int| 0 <= q < a.todo@.len() && a.todo@[q] == t;
                if q < a.todo@.len() - 1 {
                    assert(a.todo@.drop_last()[q] == t);
                    assert(a.todo@.drop_last().contains(t));
                }
            }
        }
        assert(operands_covered(b, r, nodes, n, turned));
    }
}

/// A state with nothing left to match fits by its operators.
proof fn lemma_way_done(s: State, r: Rule, nodes: Seq<Node>, n: u32)
    requires
        on_the_way(s, r, nodes, n),
        s.todo@.len() == 0,
        heads::operator_rooted(r),
    ensures
        heads::may_match(
            r,
            heads::node_place(nodes[n as int]),
            heads::kid_places(nodes, nodes[n as int]),
        ),
{
    let ks = heads::operands(r.nodes@[r.lhs as int]);
    let ps = heads::kid_places(nodes, nodes[n as int]);
    let turned = !operands_covered(s, r, nodes, n, false);
    assert(operands_covered(s, r, nodes, n, turned));
    let qs = if turned {
        heads::swapped(ps)
    } else {
        ps
    };
    assert forall|j: int| #![trigger ks[j]] 0 <= j < ks.len() implies heads::head(
        r,
        ks[j] as int,
        qs[j],
    ) by {
        assert(covered(s, r, nodes, ks[j], taken(nodes, n, turned)[j]));
        assert(qs[j] == heads::node_place(nodes[taken(nodes, n, turned)[j] as int]));
    }
    assert(heads::heads(r, ks, qs));
}

/// The state speaks of nodes that are there.
spec fn state_ok(s: State, r: Rule, n: int) -> bool {
    &&& pairs_ok(s.todo@, r.nodes@.len(), n)
    &&& pairs_ok(s.pairs@, r.nodes@.len(), n)
    &&& s.nodes@.len() == r.params@.len()
    &&& forall|p: int|
        #![trigger s.nodes@[p]]
        0 <= p < s.nodes@.len() ==> (s.nodes@[p] matches Some(x) ==> x < n)
}

fn copy_pairs(v: &Vec<(u32, u32)>) -> (r: Vec<(u32, u32)>)
    ensures
        r@ == v@,
{
    let mut r: Vec<(u32, u32)> = Vec::with_capacity(v.len());
    let mut i: usize = 0;
    while i < v.len()
        invariant
            i <= v@.len(),
            r@ == v@.take(i as int),
        decreases v@.len() - i,
    {
        r.push(v[i]);
        i = i + 1;
        assert(r@ =~= v@.take(i as int));
    }
    assert(r@ =~= v@);
    r
}

impl State {
    fn dup(&self) -> (r: State)
        ensures
            r.todo@ == self.todo@,
            r.pairs@ == self.pairs@,
            r.nodes@ == self.nodes@,
    {
        let nodes = self.nodes.clone();
        assert(nodes@ =~= self.nodes@);
        State { todo: copy_pairs(&self.todo), nodes, pairs: copy_pairs(&self.pairs) }
    }
}

/// Whether a parameter can stand for node `i`.
fn kind_fits(cx: &Context, kind: ParamKind, i: u32) -> (b: bool)
    requires
        cx.wf(),
        i < cx.n(),
    ensures
        b == heads::kind_fits(kind, heads::node_place(cx.nodes@[i as int])),
{
    match kind {
        ParamKind::Any => true,
        ParamKind::Const => cx.is_const(i),
        ParamKind::NonConst => !cx.is_const(i),
        ParamKind::Sym => match cx.node(i) {
            Node::Sym(_) => true,
            _ => false,
        },
    }
}

/// One step of the search at pattern node `k` and node `i`: whether they can match, with the
/// operands to match and, for operands that may be exchanged, whether the other order is open.
fn children_of(cx: &Context, r: &Rule, k: u32, i: u32) -> (out: Option<(Vec<(u32, u32)>, bool)>)
    requires
        cx.wf(),
        meaning::rule_ok(*r),
        k < r.nodes@.len(),
        i < cx.n(),
    ensures
        out matches Some((v, _)) ==> pairs_ok(v@, r.nodes@.len(), cx.n()),
        out matches Some((v, true)) ==> v@.len() == 2,
        out is None ==> forall|ws: Seq<u16>, ns: Seq<u32>| #[trigger]
            structure::matches(*r, k as int, ws, ns, cx.nodes@, cx.tm(), i as int)
                ==> r.nodes@[k as int] is Param || heads::closed(*r, k as int),
        out matches Some((v, both)) ==> {
            let ks = heads::operands(r.nodes@[k as int]);
            let xs = expr::kids(cx.nodes@[i as int]);
            &&& heads::pattern_place(r.nodes@[k as int]) == Some(
                heads::node_place(cx.nodes@[i as int]),
            )
            &&& both == heads::either_way(r.nodes@[k as int])
            &&& v@.len() == ks.len() == xs.len()
            &&& forall|j: int| #![trigger v@[j]] 0 <= j < v@.len() ==> v@[j] == (ks[j], xs[j])
        },
{
    proof {
        assert(meaning::node_ok(*r, k as int));
        assert(cx.ok_at(i as int));
    }
    match (&r.nodes[k as usize], cx.node(i)) {
        (RNode::Un(op, a), Node::Un(o, x)) => {
            if *op == o {
                Some((vec![(*a, x)], false))
            } else {
                None
            }
        },
        (RNode::Bin(op, a, b), Node::Bin(o, x, y)) => {
            if *op != o {
                return None;
            }
            let both = o == BinOp::And || o == BinOp::Or || o == BinOp::Xor || o == BinOp::Add || o
                == BinOp::Mul;
            Some((vec![(*a, x), (*b, y)], both))
        },
        (RNode::Cmp(op, a, b), Node::Cmp(o, x, y)) => {
            let (s, swap) = op.canonical();
            if s != o {
                return None;
            }
            let both = o == CmpOp::Eq || o == CmpOp::Ne;
            if swap {
                Some((vec![(*b, x), (*a, y)], both))
            } else {
                Some((vec![(*a, x), (*b, y)], both))
            }
        },
        (RNode::Zext(a), Node::Zext(x)) => Some((vec![(*a, x)], false)),
        (RNode::Sext(a), Node::Sext(x)) => Some((vec![(*a, x)], false)),
        (RNode::Extract(_, a), Node::Extract(x, _)) => Some((vec![(*a, x)], false)),
        (RNode::Concat(h, l), Node::Concat(x, y)) => Some((vec![(*h, x), (*l, y)], false)),
        (RNode::Select(c, t, f), Node::Select(x, y, z)) => Some(
            (vec![(*c, x), (*t, y), (*f, z)], false),
        ),
        _ => None,
    }
}

/// Solves `e == w` for the one width that is not known yet, if there is one.
fn solve_one(e: &WExpr, w: i64, ws: &mut Vec<Option<u16>>) -> (changed: bool)
    requires
        e.fits(old(ws)@.len()),
        0 <= w <= 0x1_0000,
    ensures
        final(ws)@.len() == old(ws)@.len(),
        // What is determined is so wherever the width is that, and what was stays.
        forall|w0: Seq<u16>| #[trigger]
            told(old(ws)@, w0) && e.at(w0) == w ==> told(final(ws)@, w0),
        forall|v: int|
            #![trigger final(ws)@[v]]
            0 <= v < old(ws)@.len() && old(ws)@[v] is Some ==> final(ws)@[v] is Some,
        forall|v: int| #[trigger]
            structure::is_var(*e, v) && 1 <= w <= MAX_WIDTH ==> final(ws)@[v] is Some,
{
    let mut rest: i64 = w - e.konst;
    let mut open: Option<usize> = None;
    let mut i: usize = 0;
    while i < ws.len()
        invariant
            i <= ws@.len(),
            ws@.len() == old(ws)@.len(),
            e.fits(ws@.len()),
            open matches Some(j) ==> j < i && ws@[j as int] is None && e.coefs@[j as int] != 0,
            -(i + 2) * 0x10_0000 * 0x1_0000 <= rest <= (i + 2) * 0x10_0000 * 0x1_0000,
            ws@ == old(ws)@,
            forall|w0: Seq<u16>| #[trigger]
                told(ws@, w0) ==> rest == w - e.konst - (rule::wsum(e.coefs@, w0, i as int) - (
                match open {
                    Some(j) => e.coefs@[j as int] * w0[j as int],
                    None => 0,
                })),
            forall|v: int| #[trigger]
                structure::is_var(*e, v) ==> (if ws@[v] is Some {
                    open is None
                } else {
                    rest == w && open == (if v < i {
                        Some(v as usize)
                    } else {
                        None
                    })
                }),
        decreases ws@.len() - i,
    {
        let c: i64 = e.coefs[i];
        if c != 0 {
            match ws[i] {
                Some(v) => {
                    let x: i64 = v as i64;
                    assert(-0x10_0000 * 0x1_0000 <= c * x <= 0x10_0000 * 0x1_0000) by (nonlinear_arith)
                        requires
                            -0x10_0000 <= c <= 0x10_0000,
                            0 <= x < 0x1_0000,
                    ;
                    rest = rest - c * x;
                },
                None => {
                    if open.is_some() {
                        return false;
                    }
                    open = Some(i);
                },
            }
        }
        i = i + 1;
    }
    match open {
        None => false,
        Some(j) => {
            let c: i64 = e.coefs[j];
            if c <= 0 || rest < 1 {
                return false;
            }
            let q: i64 = rest / c;
            if rest % c != 0 || q > MAX_WIDTH as i64 {
                return false;
            }
            assert(q >= 1 && rest == c * q) by (nonlinear_arith)
                requires
                    q == rest / c,
                    rest % c == 0,
                    c > 0,
                    rest >= 1,
            ;
            ws.set(j, Some(q as u16));
            proof {
                assert forall|w0: Seq<u16>| #[trigger] told(old(ws)@, w0) && e.at(w0)
                    == w implies told(ws@, w0) by {
                    assert(c * w0[j as int] == rest);
                    assert(w0[j as int] == q) by (nonlinear_arith)
                        requires
                            c * w0[j as int] == c * q,
                            c > 0,
                    ;
                    assert forall|v: int| #![trigger ws@[v]] 0 <= v < ws@.len() implies (
                    ws@[v] matches Some(x) ==> x == w0[v]) by {
                        if v != j {
                            assert(ws@[v] == old(ws)@[v]);
                        }
                    }
                }
            }
            true
        },
    }
}

/// The widths determined so far are those of `w0`.
spec fn told(ws: Seq<Option<u16>>, w0: Seq<u16>) -> bool {
    &&& w0.len() == ws.len()
    &&& forall|v: int|
        #![trigger ws[v]]
        0 <= v < ws.len() ==> (ws[v] matches Some(x) ==> x == w0[v])
}

/// The pairs have the same width, at widths `w0`.
spec fn level(r: Rule, pairs: Seq<(u32, u32)>, terms: Seq<Term>, w0: Seq<u16>) -> bool {
    &&& w0.len() == r.width_vars@.len()
    &&& forall|q: int|
        #![trigger pairs[q]]
        0 <= q < pairs.len() ==> meaning::wat(r, pairs[q].0 as int, w0) == term::twidth(
            terms[pairs[q].1 as int],
        )
}

/// Every width variable is the width of a pattern node among the pairs.
spec fn paired(r: Rule, pairs: Seq<(u32, u32)>) -> bool {
    forall|v: int| 0 <= v < r.width_vars@.len() ==> #[trigger] var_paired(r, pairs, v)
}

spec fn var_paired(r: Rule, pairs: Seq<(u32, u32)>, v: int) -> bool {
    exists|q: int|
        #![trigger pairs[q]]
        0 <= q < pairs.len() && structure::is_var(r.widths@[pairs[q].0 as int], v)
}

/// The widths that the pairs determine, if they determine all.
fn solve(cx: &Context, r: &Rule, pairs: &Vec<(u32, u32)>) -> (out: Option<Vec<u16>>)
    requires
        cx.wf(),
        meaning::rule_ok(*r),
        pairs_ok(pairs@, r.nodes@.len(), cx.n()),
    ensures
        out matches Some(ws) ==> ws@.len() == r.width_vars@.len(),
        forall|w0: Seq<u16>| #[trigger]
            level(*r, pairs@, cx.tm(), w0) && paired(*r, pairs@) ==> (out matches Some(ws) && ws@
                == w0),
{
    let n = r.width_vars.len();
    let mut ws: Vec<Option<u16>> = Vec::with_capacity(n);
    let mut i: usize = 0;
    while i < n
        invariant
            i <= n,
            ws@.len() == i,
            forall|v: int| 0 <= v < i ==> #[trigger] ws@[v] is None,
        decreases n - i,
    {
        ws.push(None);
        i = i + 1;
    }
    // Each round that changes something determines one more width.
    let mut round: usize = 0;
    while round < n
        invariant
            cx.wf(),
            meaning::rule_ok(*r),
            pairs_ok(pairs@, r.nodes@.len(), cx.n()),
            round <= n,
            n == r.width_vars@.len(),
            ws@.len() == n,
            forall|w0: Seq<u16>| #[trigger] level(*r, pairs@, cx.tm(), w0) ==> told(ws@, w0),
            round > 0 && paired(*r, pairs@) ==> forall|v: int| 0 <= v < n ==> #[trigger] ws@[v] is Some,
        decreases n - round,
    {
        let mut j: usize = 0;
        while j < pairs.len()
            invariant
                cx.wf(),
                meaning::rule_ok(*r),
                pairs_ok(pairs@, r.nodes@.len(), cx.n()),
                n == r.width_vars@.len(),
                ws@.len() == n,
                j <= pairs@.len(),
                forall|w0: Seq<u16>| #[trigger] level(*r, pairs@, cx.tm(), w0) ==> told(ws@, w0),
                forall|q: int, v: int|
                    #![trigger pairs@[q], ws@[v]]
                    0 <= q < j && structure::is_var(r.widths@[pairs@[q].0 as int], v) && 0 <= v < n
                        ==> ws@[v] is Some,
                round > 0 && paired(*r, pairs@) ==> forall|v: int|
                    0 <= v < n ==> #[trigger] ws@[v] is Some,
            decreases pairs@.len() - j,
        {
            let (k, x) = pairs[j];
            proof {
                assert(pairs@[j as int] == (k, x));
                assert(meaning::node_ok(*r, k as int));
                assert(cx.ok_at(x as int));
            }
            let ghost ws0 = ws@;
            let _ = solve_one(&r.widths[k as usize], cx.wid(x) as i64, &mut ws);
            proof {
                assert forall|w0: Seq<u16>| #[trigger]
                    level(*r, pairs@, cx.tm(), w0) implies told(ws@, w0) by {
                    assert(told(ws0, w0));
                    let _ = pairs@[j as int];
                }
                assert forall|q: int, v: int|
                    #![trigger pairs@[q], ws@[v]]
                    0 <= q < j + 1 && structure::is_var(r.widths@[pairs@[q].0 as int], v) && 0 <= v
                        < n implies ws@[v] is Some by {
                    if q < j {
                        assert(ws0[v] is Some);
                    }
                }
                if round > 0 && paired(*r, pairs@) {
                    assert forall|v: int| 0 <= v < n implies #[trigger] ws@[v] is Some by {
                        assert(ws0[v] is Some);
                    }
                }
            }
            j = j + 1;
        }
        proof {
            if paired(*r, pairs@) {
                assert forall|v: int| 0 <= v < n implies #[trigger] ws@[v] is Some by {
                    assert(var_paired(*r, pairs@, v));
                    let q = choose|q: int|
                        #![trigger pairs@[q]]
                        0 <= q < pairs@.len() && structure::is_var(
                            r.widths@[pairs@[q].0 as int],
                            v,
                        );
                    let _ = pairs@[q];
                }
            }
        }
        round = round + 1;
    }
    let mut out: Vec<u16> = Vec::with_capacity(n);
    i = 0;
    while i < n
        invariant
            i <= n,
            ws@.len() == n,
            out@.len() == i,
            n == r.width_vars@.len(),
            forall|w0: Seq<u16>| #[trigger] level(*r, pairs@, cx.tm(), w0) ==> told(ws@, w0),
            paired(*r, pairs@) ==> forall|v: int| 0 <= v < n ==> #[trigger] ws@[v] is Some,
            forall|v: int| 0 <= v < i ==> ws@[v] == Some(#[trigger] out@[v]),
        decreases n - i,
    {
        match ws[i] {
            Some(w) => {
                out.push(w);
            },
            None => {
                assert(ws@[i as int] is None);
                return None;
            },
        }
        i = i + 1;
    }
    proof {
        assert forall|w0: Seq<u16>| #[trigger]
            level(*r, pairs@, cx.tm(), w0) && paired(*r, pairs@) implies out@ == w0 by {
            assert(told(ws@, w0));
            assert forall|v: int| 0 <= v < n implies out@[v] == w0[v] by {
                assert(ws@[v] == Some(out@[v]));
            }
            assert(out@ =~= w0);
        }
    }
    Some(out)
}

/// The state can still become the match at widths `ws` and parameters `ns`: what is left to match
/// matches there, the parameters bound are those, and every parameter of the pattern is bound or
/// occurs in what is left.
#[verifier::opaque]
spec fn compat(
    s: State,
    r: Rule,
    ws: Seq<u16>,
    ns: Seq<u32>,
    nodes: Seq<Node>,
    terms: Seq<Term>,
) -> bool {
    &&& forall|t: int|
        #![trigger s.todo@[t]]
        0 <= t < s.todo@.len() ==> structure::matches(
            r,
            s.todo@[t].0 as int,
            ws,
            ns,
            nodes,
            terms,
            s.todo@[t].1 as int,
        )
    &&& forall|p: int|
        #![trigger s.nodes@[p]]
        0 <= p < s.nodes@.len() ==> (s.nodes@[p] matches Some(x) ==> x == ns[p])
    &&& forall|q: int|
        #![trigger s.pairs@[q]]
        0 <= q < s.pairs@.len() ==> meaning::wat(r, s.pairs@[q].0 as int, ws) == term::twidth(
            terms[s.pairs@[q].1 as int],
        )
    &&& forall|k: int|
        structure::occurs(r, r.lhs as int, k) && 0 <= k < r.nodes@.len() && r.nodes@[k] is Param
            ==> #[trigger] accounted(s, r, k)
}

/// The parameter at pattern node `k` is bound, or occurs in what is left.
spec fn accounted(s: State, r: Rule, k: int) -> bool {
    (exists|q: int|
        #![trigger s.pairs@[q]]
        0 <= q < s.pairs@.len() && s.pairs@[q].0 == k && (r.nodes@[k] matches RNode::Param(p)
            && s.nodes@[p as int] is Some)) || (exists|t: int|
        #![trigger s.todo@[t]]
        0 <= t < s.todo@.len() && structure::occurs(r, s.todo@[t].0 as int, k))
}

/// The parameters are bound to these nodes.
spec fn bound_to(nodes: Seq<Option<u32>>, ns: Seq<u32>) -> bool {
    &&& nodes.len() == ns.len()
    &&& forall|p: int| 0 <= p < nodes.len() ==> #[trigger] nodes[p] == Some(ns[p])
}

/// The parameters are bound to nodes below `n`, and what is left is below it but for the root.
spec fn below(s: State, n: u32) -> bool {
    &&& forall|p: int|
        #![trigger s.nodes@[p]]
        0 <= p < s.nodes@.len() ==> (s.nodes@[p] matches Some(x) ==> x < n)
}

proof fn lemma_compat_done(
    s: State,
    r: Rule,
    ws: Seq<u16>,
    ns: Seq<u32>,
    nodes: Seq<Node>,
    terms: Seq<Term>,
)
    requires
        compat(s, r, ws, ns, nodes, terms),
        s.todo@.len() == 0,
        s.nodes@.len() == r.params@.len(),
        structure::tells_all(r),
        fitted(r, ws, ns, terms),
    ensures
        level(r, s.pairs@, terms, ws),
        paired(r, s.pairs@),
        bound_to(s.nodes@, ns),
{
    reveal(compat);
    assert forall|v: int| 0 <= v < r.width_vars@.len() implies #[trigger] var_paired(
        r,
        s.pairs@,
        v,
    ) by {
        assert(structure::tells_width(r, v));
        let k = choose|k: int| #[trigger]
            structure::occurs(r, r.lhs as int, k) && 0 <= k < r.nodes@.len() && r.nodes@[k] is Param
                && structure::is_var(r.widths@[k], v);
        assert(accounted(s, r, k));
        let q = choose|q: int| #![trigger s.pairs@[q]] 0 <= q < s.pairs@.len() && s.pairs@[q].0 == k;
        let _ = s.pairs@[q];
    }
    assert forall|p: int| 0 <= p < s.nodes@.len() implies #[trigger] s.nodes@[p] == Some(ns[p]) by {
        assert(structure::tells_param(r, p));
        let k = choose|k: int| #[trigger]
            structure::occurs(r, r.lhs as int, k) && 0 <= k < r.nodes@.len() && (
            r.nodes@[k] matches RNode::Param(q) && q == p);
        assert(accounted(s, r, k));
    }
}

proof fn lemma_compat_same(
    a: State,
    b: State,
    r: Rule,
    ws: Seq<u16>,
    ns: Seq<u32>,
    nodes: Seq<Node>,
    terms: Seq<Term>,
)
    requires
        compat(a, r, ws, ns, nodes, terms),
        a.todo@ == b.todo@,
        a.nodes@ == b.nodes@,
        a.pairs@ == b.pairs@,
    ensures
        compat(b, r, ws, ns, nodes, terms),
{
    reveal(compat);
    assert forall|k: int|
        structure::occurs(r, r.lhs as int, k) && 0 <= k < r.nodes@.len()
            && r.nodes@[k] is Param implies #[trigger] accounted(b, r, k) by {
        assert(accounted(a, r, k));
    }
}

/// The operands of a matched operator match, in one order or the other.
spec fn kids_match(
    r: Rule,
    ks: Seq<u32>,
    xs: Seq<u32>,
    ws: Seq<u16>,
    ns: Seq<u32>,
    nodes: Seq<Node>,
    terms: Seq<Term>,
) -> bool {
    forall|j: int|
        #![trigger ks[j]]
        0 <= j < ks.len() ==> structure::matches(
            r,
            ks[j] as int,
            ws,
            ns,
            nodes,
            terms,
            xs[j] as int,
        )
}

proof fn lemma_kids_match(
    r: Rule,
    k: int,
    ws: Seq<u16>,
    ns: Seq<u32>,
    nodes: Seq<Node>,
    terms: Seq<Term>,
    i: int,
)
    requires
        structure::matches(r, k, ws, ns, nodes, terms, i),
        !(r.nodes@[k] is Param),
        !heads::closed(r, k),
    ensures
        kids_match(r, heads::operands(r.nodes@[k]), expr::kids(nodes[i]), ws, ns, nodes, terms) || (
        heads::either_way(r.nodes@[k]) && expr::kids(nodes[i]).len() == 2 && kids_match(
            r,
            heads::operands(r.nodes@[k]),
            seq![expr::kids(nodes[i])[1], expr::kids(nodes[i])[0]],
            ws,
            ns,
            nodes,
            terms,
        )),
{
}

/// A state in which the operands of the pair taken off are left to match.
proof fn lemma_compat_kids(
    a: State,
    b: State,
    r: Rule,
    ws: Seq<u16>,
    ns: Seq<u32>,
    nodes: Seq<Node>,
    terms: Seq<Term>,
    xs: Seq<u32>,
)
    requires
        compat(a, r, ws, ns, nodes, terms),
        meaning::rule_ok(r),
        a.nodes@.len() == r.params@.len(),
        a.todo@.len() > 0,
        a.todo@.last().0 < r.nodes@.len(),
        !(r.nodes@[a.todo@.last().0 as int] is Param),
        b.pairs@ == a.pairs@.push(a.todo@.last()),
        b.nodes@ == a.nodes@,
        xs.len() == heads::operands(r.nodes@[a.todo@.last().0 as int]).len(),
        kids_match(
            r,
            heads::operands(r.nodes@[a.todo@.last().0 as int]),
            xs,
            ws,
            ns,
            nodes,
            terms,
        ),
        forall|t: (u32, u32)| #[trigger] a.todo@.drop_last().contains(t) ==> b.todo@.contains(t),
        forall|j: int|
            #![trigger xs[j]]
            0 <= j < xs.len() ==> b.todo@.contains(
                (heads::operands(r.nodes@[a.todo@.last().0 as int])[j], xs[j]),
            ),
        forall|t: int|
            #![trigger b.todo@[t]]
            0 <= t < b.todo@.len() ==> a.todo@.drop_last().contains(b.todo@[t]) || exists|j: int|
                #![trigger xs[j]]
                0 <= j < xs.len() && b.todo@[t] == (
                    heads::operands(r.nodes@[a.todo@.last().0 as int])[j],
                    xs[j],
                ),
    ensures
        compat(b, r, ws, ns, nodes, terms),
{
    let k = a.todo@.last().0 as int;
    let ks = heads::operands(r.nodes@[k]);
    assert forall|p: int| #![trigger b.nodes@[p]] 0 <= p < b.nodes@.len() implies (a.nodes@[p] is Some
        ==> b.nodes@[p] == a.nodes@[p]) && (b.nodes@[p] matches Some(x) ==> x == ns[p]) by {
        reveal(compat);
        let _ = a.nodes@[p];
    }
    assert forall|t: int| #![trigger b.todo@[t]] 0 <= t < b.todo@.len() implies structure::matches(
        r,
        b.todo@[t].0 as int,
        ws,
        ns,
        nodes,
        terms,
        b.todo@[t].1 as int,
    ) by {
        if a.todo@.drop_last().contains(b.todo@[t]) {
            let q = choose|q: int|
                0 <= q < a.todo@.drop_last().len() && a.todo@.drop_last()[q] == b.todo@[t];
            reveal(compat);
            assert(a.todo@[q] == b.todo@[t]);
        } else {
            let j = choose|j: int|
                #![trigger xs[j]]
                0 <= j < xs.len() && b.todo@[t] == (ks[j], xs[j]);
            let _ = ks[j];
        }
    }
    assert forall|z: int|
        structure::occurs(r, k, z) && 0 <= z < r.nodes@.len()
            && r.nodes@[z] is Param implies #[trigger] accounted(b, r, z) by {
        let j = choose|j: int|
            #![trigger heads::operands(r.nodes@[k])[j]]
            0 <= j < ks.len() && ks[j] < k && structure::occurs(r, ks[j] as int, z);
        let _ = xs[j];
        assert(b.todo@.contains((ks[j], xs[j])));
        let u = choose|u: int| 0 <= u < b.todo@.len() && b.todo@[u] == (ks[j], xs[j]);
        let _ = b.todo@[u];
    }
    lemma_compat_step(a, b, r, ws, ns, nodes, terms);
}

/// A step of the search keeps to a match.
proof fn lemma_compat_step(
    a: State,
    b: State,
    r: Rule,
    ws: Seq<u16>,
    ns: Seq<u32>,
    nodes: Seq<Node>,
    terms: Seq<Term>,
)
    requires
        compat(a, r, ws, ns, nodes, terms),
        a.todo@.len() > 0,
        b.pairs@ == a.pairs@.push(a.todo@.last()),
        b.nodes@.len() == a.nodes@.len(),
        meaning::rule_ok(r),
        a.nodes@.len() == r.params@.len(),
        forall|p: int|
            #![trigger b.nodes@[p]]
            0 <= p < b.nodes@.len() ==> (a.nodes@[p] is Some ==> b.nodes@[p] == a.nodes@[p]) && (
            b.nodes@[p] matches Some(x) ==> x == ns[p]),
        forall|t: (u32, u32)| #[trigger] a.todo@.drop_last().contains(t) ==> b.todo@.contains(t),
        forall|t: int|
            #![trigger b.todo@[t]]
            0 <= t < b.todo@.len() ==> structure::matches(
                r,
                b.todo@[t].0 as int,
                ws,
                ns,
                nodes,
                terms,
                b.todo@[t].1 as int,
            ),
        forall|k: int|
            structure::occurs(r, a.todo@.last().0 as int, k) && 0 <= k < r.nodes@.len()
                && r.nodes@[k] is Param ==> #[trigger] accounted(b, r, k),
    ensures
        compat(b, r, ws, ns, nodes, terms),
{
    reveal(compat);
    let last = a.todo@[a.todo@.len() - 1];
    assert forall|q: int| #![trigger b.pairs@[q]] 0 <= q < b.pairs@.len() implies meaning::wat(
        r,
        b.pairs@[q].0 as int,
        ws,
    ) == term::twidth(terms[b.pairs@[q].1 as int]) by {
        if q < a.pairs@.len() {
            assert(b.pairs@[q] == a.pairs@[q]);
        } else {
            assert(structure::matches(r, last.0 as int, ws, ns, nodes, terms, last.1 as int));
        }
    }
    assert forall|k: int|
        structure::occurs(r, r.lhs as int, k) && 0 <= k < r.nodes@.len()
            && r.nodes@[k] is Param implies #[trigger] accounted(b, r, k) by {
        assert(accounted(a, r, k));
        if exists|q: int|
            #![trigger a.pairs@[q]]
            0 <= q < a.pairs@.len() && a.pairs@[q].0 == k && (r.nodes@[k] matches RNode::Param(p)
                && a.nodes@[p as int] is Some) {
            let q = choose|q: int|
                #![trigger a.pairs@[q]]
                0 <= q < a.pairs@.len() && a.pairs@[q].0 == k && (r.nodes@[k] matches RNode::Param(p)
                    && a.nodes@[p as int] is Some);
            assert(b.pairs@[q] == a.pairs@[q]);
            assert(meaning::node_ok(r, k));
            if let RNode::Param(p) = r.nodes@[k] {
                let _ = b.nodes@[p as int];
            }
        } else {
            let t = choose|t: int|
                #![trigger a.todo@[t]]
                0 <= t < a.todo@.len() && structure::occurs(r, a.todo@[t].0 as int, k);
            if t < a.todo@.len() - 1 {
                assert(a.todo@.drop_last()[t] == a.todo@[t]);
                assert(a.todo@.drop_last().contains(a.todo@[t]));
                let u = choose|u: int| 0 <= u < b.todo@.len() && b.todo@[u] == a.todo@[t];
                let _ = b.todo@[u];
            } else {
                assert(a.todo@[t] == a.todo@.last());
            }
        }
    }
}

/// The state with the two operands exchanged.
spec fn is_other(a: State, b: State, ks: Seq<u32>, xs: Seq<u32>, left: Seq<(u32, u32)>) -> bool {
    &&& ks.len() == 2
    &&& xs.len() == 2
    &&& left == a.todo@.drop_last()
    &&& b.pairs@ == a.pairs@.push(a.todo@.last())
    &&& b.nodes@ == a.nodes@
    &&& b.todo@ == left.push((ks[1], xs[0])).push((ks[0], xs[1]))
}

proof fn lemma_other(
    a: State,
    b: State,
    r: Rule,
    n: u32,
    kids: Seq<(u32, u32)>,
    left: Seq<(u32, u32)>,
    nodes: Seq<Node>,
    i: u32,
)
    requires
        stays_below(a, r, n),
        a.todo@.len() > 0,
        left == a.todo@.drop_last(),
        b.nodes@ == a.nodes@,
        kids.len() == 2,
        kids[0].1 < i,
        kids[1].1 < i,
        heads::operator_rooted(r) ==> i <= n,
        b.todo@ == left.push((kids[1].0, kids[0].1)).push((kids[0].0, kids[1].1)),
    ensures
        stays_below(b, r, n),
{
    if heads::operator_rooted(r) {
        assert forall|t: int| #![trigger b.todo@[t]] 0 <= t < b.todo@.len() implies b.todo@[t] == (
            r.lhs,
            n,
        ) || b.todo@[t].1 < n by {
            if t < left.len() {
                assert(b.todo@[t] == a.todo@[t]);
            }
        }
        assert forall|p: int| #![trigger b.nodes@[p]] 0 <= p < b.nodes@.len() implies (
        b.nodes@[p] matches Some(x) ==> x < n) by {
            assert(b.nodes@[p] == a.nodes@[p]);
        }
    }
}

proof fn lemma_compat_other(
    a: State,
    b: State,
    r: Rule,
    ws: Seq<u16>,
    ns: Seq<u32>,
    nodes: Seq<Node>,
    terms: Seq<Term>,
    left: Seq<(u32, u32)>,
    ks: Seq<u32>,
    xs: Seq<u32>,
)
    requires
        compat(a, r, ws, ns, nodes, terms),
        meaning::rule_ok(r),
        a.nodes@.len() == r.params@.len(),
        a.todo@.len() > 0,
        a.todo@.last().0 < r.nodes@.len(),
        !(r.nodes@[a.todo@.last().0 as int] is Param),
        ks == heads::operands(r.nodes@[a.todo@.last().0 as int]),
        is_other(a, b, ks, xs, left),
        kids_match(r, ks, seq![xs[1], xs[0]], ws, ns, nodes, terms),
    ensures
        compat(b, r, ws, ns, nodes, terms),
{
    let ys = seq![xs[1], xs[0]];
    let m = left.len() as int;
    assert(b.todo@[m] == (ks[1], ys[1]));
    assert(b.todo@[m + 1] == (ks[0], ys[0]));
    assert forall|t: (u32, u32)| #[trigger] left.contains(t) implies b.todo@.contains(t) by {
        let q = choose|q: int| 0 <= q < left.len() && left[q] == t;
        assert(b.todo@[q] == t);
    }
    assert forall|t: int| #![trigger b.todo@[t]] 0 <= t < b.todo@.len() implies left.contains(
        b.todo@[t],
    ) || exists|q: int| #![trigger ys[q]] 0 <= q < ys.len() && b.todo@[t] == (ks[q], ys[q]) by {
        if t < m {
            assert(b.todo@[t] == left[t]);
        } else if t == m {
            let _ = ys[1];
        } else {
            let _ = ys[0];
        }
    }
    lemma_compat_kids(a, b, r, ws, ns, nodes, terms, ys);
}

/// Where a match is, some state can still become it.
spec fn open_to_all(states: Seq<State>, r: Rule, nodes: Seq<Node>, terms: Seq<Term>, n: int) -> bool {
    forall|ws: Seq<u16>, ns: Seq<u32>| #[trigger]
        structure::matches_at(r, ws, ns, nodes, terms, n) ==> some_open(
            states,
            r,
            ws,
            ns,
            nodes,
            terms,
        )
}

spec fn some_open(
    states: Seq<State>,
    r: Rule,
    ws: Seq<u16>,
    ns: Seq<u32>,
    nodes: Seq<Node>,
    terms: Seq<Term>,
) -> bool {
    exists|j: int| 0 <= j < states.len() && compat(#[trigger] states[j], r, ws, ns, nodes, terms)
}

/// Some state stays open when the last is taken off and closed, or stays open among what is put
/// in its place.
proof fn lemma_open_stays(
    was: Seq<State>,
    now: Seq<State>,
    r: Rule,
    nodes: Seq<Node>,
    terms: Seq<Term>,
    n: int,
)
    requires
        open_to_all(was, r, nodes, terms, n),
        was.len() > 0,
        was.len() - 1 <= now.len(),
        forall|j: int| 0 <= j < was.len() - 1 ==> #[trigger] now[j] == was[j],
        forall|ws: Seq<u16>, ns: Seq<u32>|
            structure::matches_at(r, ws, ns, nodes, terms, n) && #[trigger] compat(
                was.last(),
                r,
                ws,
                ns,
                nodes,
                terms,
            ) ==> some_open(now, r, ws, ns, nodes, terms),
    ensures
        open_to_all(now, r, nodes, terms, n),
{
    assert forall|ws: Seq<u16>, ns: Seq<u32>| #[trigger]
        structure::matches_at(r, ws, ns, nodes, terms, n) implies some_open(
        now,
        r,
        ws,
        ns,
        nodes,
        terms,
    ) by {
        assert(some_open(was, r, ws, ns, nodes, terms));
        let j = choose|j: int|
            0 <= j < was.len() && compat(#[trigger] was[j], r, ws, ns, nodes, terms);
        if j < was.len() - 1 {
            assert(now[j] == was[j]);
        } else {
            assert(was[j] == was.last());
        }
    }
}

/// The match that a finished state is, if it is one.
fn settle(cx: &Context, r: &Rule, n: u32, st: &State, steps: &mut u32) -> (out: Option<Found>)
    requires
        cx.wf(),
        meaning::rule_ok(*r),
        n < cx.n(),
        state_ok(*st, *r, cx.n()),
    ensures
        *final(steps) <= *old(steps),
        out matches Some(f) ==> matched(*r, f.ws@, f.nodes@, cx.tm(), n as int),
        out matches Some(f) ==> below(*st, n) ==> forall|p: int|
            0 <= p < f.nodes@.len() ==> #[trigger] f.nodes@[p] < n,
        out is None && structure::tells_all(*r) && st.todo@.len() == 0 ==> *final(steps) == 0
            || forall|ws: Seq<u16>, ns: Seq<u32>|
            structure::matches_at(*r, ws, ns, cx.nodes@, cx.tm(), n as int) ==> !#[trigger] compat(
                *st,
                *r,
                ws,
                ns,
                cx.nodes@,
                cx.tm(),
            ),
{
    proof {
        assert forall|ws: Seq<u16>, ns: Seq<u32>|
            structure::matches_at(*r, ws, ns, cx.nodes@, cx.tm(), n as int)
                && structure::tells_all(*r) && st.todo@.len() == 0 && #[trigger] compat(
                *st,
                *r,
                ws,
                ns,
                cx.nodes@,
                cx.tm(),
            ) implies level(*r, st.pairs@, cx.tm(), ws) && paired(*r, st.pairs@) && bound_to(
            st.nodes@,
            ns,
        ) by {
            lemma_compat_done(*st, *r, ws, ns, cx.nodes@, cx.tm());
        }
    }
    let ws = solve(cx, r, &st.pairs)?;
    if !r.typed_at_widths(&ws) || !r.wheres_at(&ws) {
        return None;
    }
    let mut nodes: Vec<u32> = Vec::with_capacity(st.nodes.len());
    let mut i: usize = 0;
    while i < st.nodes.len()
        invariant
            cx.wf(),
            meaning::rule_ok(*r),
            state_ok(*st, *r, cx.n()),
            ws@.len() == r.width_vars@.len(),
            i <= st.nodes@.len(),
            nodes@.len() == i,
            forall|j: int| #![trigger nodes@[j]] 0 <= j < i ==> st.nodes@[j] == Some(nodes@[j]),
            forall|w2: Seq<u16>, ns: Seq<u32>|
                structure::matches_at(*r, w2, ns, cx.nodes@, cx.tm(), n as int)
                    && structure::tells_all(*r) && st.todo@.len() == 0 && #[trigger] compat(
                    *st,
                    *r,
                    w2,
                    ns,
                    cx.nodes@,
                    cx.tm(),
                ) ==> ws@ == w2 && bound_to(st.nodes@, ns),
            forall|j: int|
                #![trigger nodes@[j]]
                0 <= j < i ==> nodes@[j] < cx.n() && term::tok(cx.tm()[nodes@[j] as int]) && term::twidth(
                    cx.tm()[nodes@[j] as int],
                ) == r.params@[j].width.at(ws@),
        decreases st.nodes@.len() - i,
    {
        let x = st.nodes[i]?;
        assert(st.nodes@[i as int] == Some(x));
        proof {
            assert(cx.ok_at(x as int));
        }
        if r.params[i].width.eval(&ws) != cx.wid(x) as i64 {
            proof {
                assert forall|w2: Seq<u16>, ns: Seq<u32>|
                    structure::matches_at(*r, w2, ns, cx.nodes@, cx.tm(), n as int)
                        && structure::tells_all(*r) && st.todo@.len() == 0 implies !#[trigger] compat(
                    *st,
                    *r,
                    w2,
                    ns,
                    cx.nodes@,
                    cx.tm(),
                ) by {
                    if compat(*st, *r, w2, ns, cx.nodes@, cx.tm()) {
                        assert(st.nodes@[i as int] == Some(ns[i as int]));
                        let _ = ns[i as int];
                    }
                }
            }
            return None;
        }
        nodes.push(x);
        i = i + 1;
    }
    if r.wid(r.lhs, &ws) != cx.wid(n) as i64 {
        return None;
    }
    proof {
        assert forall|w2: Seq<u16>, ns: Seq<u32>|
            structure::matches_at(*r, w2, ns, cx.nodes@, cx.tm(), n as int)
                && structure::tells_all(*r) && st.todo@.len() == 0 && #[trigger] compat(
                *st,
                *r,
                w2,
                ns,
                cx.nodes@,
                cx.tm(),
            ) implies nodes@ == ns by {
            assert forall|p: int| 0 <= p < nodes@.len() implies nodes@[p] == ns[p] by {
                assert(st.nodes@[p] == Some(nodes@[p]));
                assert(st.nodes@[p] == Some(ns[p]));
            }
            assert(nodes@ =~= ns);
        }
    }
    if agrees(cx, r, &ws, &nodes, r.lhs, n, steps) {
        proof {
            assert(cx.ok_at(n as int));
            let tm = cx.tm();
            assert forall|env: Env| #[trigger] term::value(tm[n as int], env) == meaning::rvalue(
                *r,
                r.lhs as int,
                ws@,
                bound(tm, nodes@, env),
            ) by {
                let _ = bound(tm, nodes@, env);
            }
        }
        Some(Found { ws, nodes })
    } else {
        None
    }
}

/// A match of the rule's pattern at `n`.
pub(crate) fn find(cx: &Context, r: &Rule, n: u32, steps: &mut u32) -> (out: Search)
    requires
        cx.wf(),
        meaning::rule_ok(*r),
        n < cx.n(),
    ensures
        *final(steps) <= *old(steps),
        out matches Search::Matched(f) ==> matched(*r, f.ws@, f.nodes@, cx.tm(), n as int),
        out is Matched && heads::operator_rooted(*r) ==> heads::may_match(
            *r,
            heads::node_place(cx.nodes@[n as int]),
            heads::kid_places(cx.nodes@, cx.nodes@[n as int]),
        ),
        out is Degraded ==> *final(steps) == 0,
        out matches Search::Matched(f) ==> heads::operator_rooted(*r) ==> forall|p: int|
            0 <= p < f.nodes@.len() ==> #[trigger] f.nodes@[p] < n,
        // It fails only where there is no match.
        out is Failed && structure::tells_all(*r) ==> forall|ws: Seq<u16>, ns: Seq<u32>|
            !#[trigger] structure::matches_at(*r, ws, ns, cx.nodes@, cx.tm(), n as int),
{
    let mut none: Vec<Option<u32>> = Vec::with_capacity(r.params.len());
    let mut i: usize = 0;
    while i < r.params.len()
        invariant
            i <= r.params@.len(),
            none@.len() == i,
            forall|p: int| 0 <= p < i ==> #[trigger] none@[p] is None,
        decreases r.params@.len() - i,
    {
        none.push(None);
        i = i + 1;
    }
    let mut states: Vec<State> = Vec::new();
    states.push(State { todo: vec![(r.lhs, n)], nodes: none, pairs: Vec::new() });
    proof {
        assert(cx.ok_at(n as int));
        assert forall|ws: Seq<u16>, ns: Seq<u32>| #[trigger]
            structure::matches_at(*r, ws, ns, cx.nodes@, cx.tm(), n as int) implies some_open(
            states@,
            *r,
            ws,
            ns,
            cx.nodes@,
            cx.tm(),
        ) by {
            reveal(compat);
            let s = states@[0];
            assert forall|k: int|
                structure::occurs(*r, r.lhs as int, k) && 0 <= k < r.nodes@.len()
                    && r.nodes@[k] is Param implies #[trigger] accounted(s, *r, k) by {
                let _ = s.todo@[0];
            }
            assert(compat(states@[0], *r, ws, ns, cx.nodes@, cx.tm()));
        }
    }
    while states.len() > 0
        invariant
            cx.wf(),
            meaning::rule_ok(*r),
            n < cx.n(),
            *steps <= *old(steps),
            forall|j: int|
                0 <= j < states@.len() ==> state_ok(#[trigger] states@[j], *r, cx.n()) && kinds_ok(
                    states@[j],
                    *r,
                    cx.nodes@,
                ) && on_the_way(states@[j], *r, cx.nodes@, n) && stays_below(states@[j], *r, n),
            structure::tells_all(*r) ==> *steps == 0 || open_to_all(
                states@,
                *r,
                cx.nodes@,
                cx.tm(),
                n as int,
            ),
        decreases *steps, states@.len(),
    {
        let ghost states0 = states@;
        let mut st = match states.pop() {
            Some(s) => s,
            None => {
                return Search::Failed;
            },
        };
        assert(st == states0[states0.len() - 1]);
        let ghost was = st;
        if *steps == 0 {
            return Search::Degraded;
        }
        let (k, i) = match st.todo.pop() {
            Some(t) => t,
            None => {
                match settle(cx, r, n, &st, steps) {
                    Some(f) => {
                        proof {
                            if heads::operator_rooted(*r) {
                                lemma_way_done(st, *r, cx.nodes@, n);
                            }
                        }
                        return Search::Matched(f);
                    },
                    None => {
                        proof {
                            if structure::tells_all(*r) && *steps > 0 {
                                assert forall|ws: Seq<u16>, ns: Seq<u32>|
                                    structure::matches_at(
                                        *r,
                                        ws,
                                        ns,
                                        cx.nodes@,
                                        cx.tm(),
                                        n as int,
                                    ) && #[trigger] compat(
                                        states0.last(),
                                        *r,
                                        ws,
                                        ns,
                                        cx.nodes@,
                                        cx.tm(),
                                    ) implies some_open(
                                    states@,
                                    *r,
                                    ws,
                                    ns,
                                    cx.nodes@,
                                    cx.tm(),
                                ) by {
                                    lemma_compat_same(was, st, *r, ws, ns, cx.nodes@, cx.tm());
                                }
                                lemma_open_stays(
                                    states0,
                                    states@,
                                    *r,
                                    cx.nodes@,
                                    cx.tm(),
                                    n as int,
                                );
                            }
                        }
                        continue;
                    },
                }
            },
        };
        let ghost nodes = cx.nodes@;
        let ghost tm = cx.tm();
        *steps = *steps - 1;
        proof {
            assert(states0[states0.len() - 1].todo@[states0[states0.len() - 1].todo@.len() - 1] == (
                k,
                i,
            ));
            assert(meaning::node_ok(*r, k as int));
        }
        st.pairs.push((k, i));
        if let RNode::Param(p) = &r.nodes[k as usize] {
            let p: usize = *p as usize;
            match st.nodes[p] {
                Some(x) => {
                    if x != i {
                        proof {
                            reveal(compat);
                            let _ = was.todo@[was.todo@.len() - 1];
                            let _ = was.nodes@[p as int];
                            if structure::tells_all(*r) {
                                lemma_open_stays(states0, states@, *r, nodes, tm, n as int);
                            }
                        }
                        continue;
                    }
                },
                None => {
                    if !kind_fits(cx, r.params[p].kind, i) {
                        proof {
                            reveal(compat);
                            let _ = was.todo@[was.todo@.len() - 1];
                            if structure::tells_all(*r) {
                                lemma_open_stays(states0, states@, *r, nodes, tm, n as int);
                            }
                        }
                        continue;
                    }
                    st.nodes.set(p, Some(i));
                },
            }
            proof {
                lemma_on_the_way(was, st, *r, cx.nodes@, n);
                assert(st.todo@ =~= was.todo@.drop_last());
                let _ = was.todo@[was.todo@.len() - 1];
                assert(below(st, n) || !heads::operator_rooted(*r)) by {
                    if heads::operator_rooted(*r) {
                        assert((k, i) != (r.lhs, n));
                    }
                }
                assert(stays_below(st, *r, n)) by {
                    if heads::operator_rooted(*r) {
                        assert forall|t: int| #![trigger st.todo@[t]] 0 <= t < st.todo@.len() implies st.todo@[t]
                            == (r.lhs, n) || st.todo@[t].1 < n by {
                            assert(st.todo@[t] == was.todo@[t]);
                        }
                    }
                }
            }
            let ghost kept = st;
            states.push(st);
            proof {
                if structure::tells_all(*r) {
                    assert forall|ws: Seq<u16>, ns: Seq<u32>|
                        structure::matches_at(*r, ws, ns, nodes, tm, n as int) && #[trigger] compat(
                            states0.last(),
                            *r,
                            ws,
                            ns,
                            nodes,
                            tm,
                        ) implies some_open(states@, *r, ws, ns, nodes, tm) by {
                        assert(structure::matches(*r, k as int, ws, ns, nodes, tm, i as int)) by {
                            reveal(compat);
                            let _ = was.todo@[was.todo@.len() - 1];
                        }
                        assert forall|q: int|
                            #![trigger kept.nodes@[q]]
                            0 <= q < kept.nodes@.len() implies (was.nodes@[q] is Some
                            ==> kept.nodes@[q] == was.nodes@[q]) && (kept.nodes@[q] matches Some(x)
                            ==> x == ns[q]) by {
                            reveal(compat);
                            let _ = was.nodes@[q];
                        }
                        assert forall|t: int|
                            #![trigger kept.todo@[t]]
                            0 <= t < kept.todo@.len() implies structure::matches(
                            *r,
                            kept.todo@[t].0 as int,
                            ws,
                            ns,
                            nodes,
                            tm,
                            kept.todo@[t].1 as int,
                        ) by {
                            reveal(compat);
                            assert(kept.todo@[t] == was.todo@[t]);
                        }
                        assert forall|z: int|
                            structure::occurs(*r, was.todo@.last().0 as int, z) && 0 <= z
                                < r.nodes@.len() && r.nodes@[z] is Param implies #[trigger] accounted(
                            kept,
                            *r,
                            z,
                        ) by {
                            assert(heads::operands(r.nodes@[k as int]).len() == 0);
                            assert(z == k);
                            assert(kept.pairs@[was.pairs@.len() as int] == (k, i));
                        }
                        lemma_compat_step(was, kept, *r, ws, ns, nodes, tm);
                        assert(states@[states@.len() - 1] == kept);
                    }
                    lemma_open_stays(states0, states@, *r, nodes, tm, n as int);
                }
            }
            continue;
        }
        let lit = heads::closed_at(r, k);
        if lit || cx.is_const(i) {
            // What a part without parameters is worth is compared once the widths are known.
            if lit && cx.is_const(i) {
                proof {
                    lemma_on_the_way(was, st, *r, cx.nodes@, n);
                    assert(st.todo@ =~= was.todo@.drop_last());
                    assert(stays_below(st, *r, n)) by {
                        if heads::operator_rooted(*r) {
                            assert forall|t: int| #![trigger st.todo@[t]] 0 <= t < st.todo@.len() implies st.todo@[t]
                                == (r.lhs, n) || st.todo@[t].1 < n by {
                                assert(st.todo@[t] == was.todo@[t]);
                            }
                        }
                    }
                }
                let ghost kept = st;
                states.push(st);
                proof {
                    if structure::tells_all(*r) {
                        assert forall|ws: Seq<u16>, ns: Seq<u32>|
                            structure::matches_at(*r, ws, ns, nodes, tm, n as int)
                                && #[trigger] compat(states0.last(), *r, ws, ns, nodes, tm) implies some_open(
                            states@,
                            *r,
                            ws,
                            ns,
                            nodes,
                            tm,
                        ) by {
                            assert forall|q: int|
                                #![trigger kept.nodes@[q]]
                                0 <= q < kept.nodes@.len() implies (was.nodes@[q] is Some
                                ==> kept.nodes@[q] == was.nodes@[q]) && (kept.nodes@[q] matches Some(x)
                                ==> x == ns[q]) by {
                                reveal(compat);
                                let _ = was.nodes@[q];
                            }
                            assert forall|t: int|
                                #![trigger kept.todo@[t]]
                                0 <= t < kept.todo@.len() implies structure::matches(
                                *r,
                                kept.todo@[t].0 as int,
                                ws,
                                ns,
                                nodes,
                                tm,
                                kept.todo@[t].1 as int,
                            ) by {
                                reveal(compat);
                                assert(kept.todo@[t] == was.todo@[t]);
                            }
                            assert forall|z: int|
                                structure::occurs(*r, was.todo@.last().0 as int, z) && 0 <= z
                                    < r.nodes@.len() && r.nodes@[z] is Param implies #[trigger] accounted(
                                kept,
                                *r,
                                z,
                            ) by {
                                structure::lemma_closed_holds_none(*r, k as int, z);
                            }
                            lemma_compat_step(was, kept, *r, ws, ns, nodes, tm);
                            assert(states@[states@.len() - 1] == kept);
                        }
                        lemma_open_stays(states0, states@, *r, nodes, tm, n as int);
                    }
                }
            } else {
                proof {
                    if structure::tells_all(*r) {
                        assert forall|ws: Seq<u16>, ns: Seq<u32>|
                            structure::matches_at(*r, ws, ns, nodes, tm, n as int)
                                && #[trigger] compat(states0.last(), *r, ws, ns, nodes, tm) implies some_open(
                            states@,
                            *r,
                            ws,
                            ns,
                            nodes,
                            tm,
                        ) by {
                            reveal(compat);
                            let _ = was.todo@[was.todo@.len() - 1];
                            assert(structure::matches(*r, k as int, ws, ns, nodes, tm, i as int));
                        }
                        lemma_open_stays(states0, states@, *r, nodes, tm, n as int);
                    }
                }
            }
            continue;
        }
        match children_of(cx, r, k, i) {
            None => {
                proof {
                    if structure::tells_all(*r) {
                        assert forall|ws: Seq<u16>, ns: Seq<u32>|
                            structure::matches_at(*r, ws, ns, nodes, tm, n as int)
                                && #[trigger] compat(states0.last(), *r, ws, ns, nodes, tm) implies some_open(
                            states@,
                            *r,
                            ws,
                            ns,
                            nodes,
                            tm,
                        ) by {
                            reveal(compat);
                            let _ = was.todo@[was.todo@.len() - 1];
                            assert(structure::matches(*r, k as int, ws, ns, nodes, tm, i as int));
                        }
                        lemma_open_stays(states0, states@, *r, nodes, tm, n as int);
                    }
                }
            },
            Some((kids, both)) => {
                let ghost left = st.todo@;
                let ghost mut turned = st;
                let ghost ks = heads::operands(r.nodes@[k as int]);
                proof {
                    assert(left =~= was.todo@.drop_last());
                    assert(heads::head(*r, k as int, heads::node_place(cx.nodes@[i as int])));
                }
                if both {
                    let mut other = st.dup();
                    other.todo.push((kids[1].0, kids[0].1));
                    other.todo.push((kids[0].0, kids[1].1));
                    proof {
                        assert forall|t: (u32, u32)| #[trigger]
                            left.contains(t) implies other.todo@.contains(t) by {
                            let q = choose|q: int| 0 <= q < left.len() && left[q] == t;
                            assert(other.todo@[q] == t);
                        }
                        let at = left.len() as int;
                        assert(other.todo@[at] == (ks[1], expr::kids(cx.nodes@[i as int])[0]));
                        assert(other.todo@[at + 1] == (ks[0], expr::kids(cx.nodes@[i as int])[1]));
                        if was.todo@ =~= seq![(r.lhs, n)] && heads::operator_rooted(*r) {
                            assert((k, i) == (r.lhs, n));
                            assert(operands_covered(other, *r, cx.nodes@, n, true));
                        } else {
                            lemma_on_the_way(was, other, *r, cx.nodes@, n);
                        }
                    }
                    proof {
                        assert(cx.ok_at(i as int));
                        let _ = (kids@[0], kids@[1]);
                        let _ = was.todo@[was.todo@.len() - 1];
                        lemma_other(was, other, *r, n, kids@, left, cx.nodes@, i);
                        turned = other;
                    }
                    states.push(other);
                }
                let ghost mid = states@;
                let mut j: usize = kids.len();
                while j > 0
                    invariant
                        j <= kids@.len(),
                        pairs_ok(kids@, r.nodes@.len(), cx.n()),
                        state_ok(st, *r, cx.n()),
                        kinds_ok(st, *r, cx.nodes@),
                        left.len() <= st.todo@.len(),
                        st.todo@.take(left.len() as int) == left,
                        st.nodes@ == was.nodes@,
                        st.pairs@ == was.pairs@.push((k, i)),
                        forall|t: int|
                            #![trigger st.todo@[t]]
                            left.len() <= t < st.todo@.len() ==> kids@.contains(st.todo@[t]),
                        forall|q: int| j <= q < kids@.len() ==> st.todo@.contains(#[trigger] kids@[q]),
                    decreases j,
                {
                    j = j - 1;
                    let kid = kids[j];
                    let ghost before = st.todo@;
                    st.todo.push(kid);
                    proof {
                        assert forall|t: int|
                            #![trigger st.todo@[t]]
                            left.len() <= t < st.todo@.len() implies kids@.contains(st.todo@[t]) by {
                            if t < before.len() {
                                assert(st.todo@[t] == before[t]);
                            } else {
                                assert(kids@[j as int] == st.todo@[t]);
                            }
                        }
                        assert(st.todo@.take(left.len() as int) =~= before.take(left.len() as int));
                        assert forall|q: int| j <= q < kids@.len() implies st.todo@.contains(
                            #[trigger] kids@[q],
                        ) by {
                            if q == j {
                                assert(st.todo@[before.len() as int] == kids@[q]);
                            } else {
                                let z = choose|z: int| 0 <= z < before.len() && before[z] == kids@[q];
                                assert(st.todo@[z] == kids@[q]);
                            }
                        }
                    }
                }
                proof {
                    assert forall|t: (u32, u32)| #[trigger]
                        left.contains(t) implies st.todo@.contains(t) by {
                        let q = choose|q: int| 0 <= q < left.len() && left[q] == t;
                        assert(st.todo@.take(left.len() as int)[q] == t);
                        assert(st.todo@[q] == t);
                    }
                    if was.todo@ =~= seq![(r.lhs, n)] && heads::operator_rooted(*r) {
                        assert((k, i) == (r.lhs, n));
                        assert forall|q: int| #![trigger ks[q]] 0 <= q < ks.len() implies covered(
                            st,
                            *r,
                            cx.nodes@,
                            ks[q],
                            taken(cx.nodes@, n, false)[q],
                        ) by {
                            assert(st.todo@.contains(kids@[q]));
                        }
                        assert(operands_covered(st, *r, cx.nodes@, n, false));
                    } else {
                        lemma_on_the_way(was, st, *r, cx.nodes@, n);
                    }
                }
                proof {
                    assert(stays_below(st, *r, n)) by {
                        assert forall|t: int| #![trigger st.todo@[t]] 0 <= t < st.todo@.len()
                            && heads::operator_rooted(*r) implies st.todo@[t] == (r.lhs, n)
                            || st.todo@[t].1 < n by {
                            if t < left.len() {
                                assert(st.todo@.take(left.len() as int)[t] == left[t]);
                                assert(left[t] == was.todo@[t]);
                            } else {
                                assert(kids@.contains(st.todo@[t]));
                                let q = choose|q: int| 0 <= q < kids@.len() && kids@[q] == st.todo@[t];
                                let _ = was.todo@[was.todo@.len() - 1];
                                let _ = kids@[q];
                                assert(cx.ok_at(i as int));
                                assert(expr::kids(cx.nodes@[i as int])[q] < i);
                            }
                        }
                        if heads::operator_rooted(*r) {
                            assert(below(was, n));
                            assert forall|p: int| #![trigger st.nodes@[p]] 0 <= p < st.nodes@.len() implies (
                            st.nodes@[p] matches Some(x) ==> x < n) by {
                                assert(st.nodes@[p] == was.nodes@[p]);
                            }
                        }
                    }
                }
                let ghost kept = st;
                states.push(st);
                proof {
                    if structure::tells_all(*r) {
                        let xs = expr::kids(nodes[i as int]);
                        assert forall|ws: Seq<u16>, ns: Seq<u32>|
                            structure::matches_at(*r, ws, ns, nodes, tm, n as int)
                                && #[trigger] compat(states0.last(), *r, ws, ns, nodes, tm) implies some_open(
                            states@,
                            *r,
                            ws,
                            ns,
                            nodes,
                            tm,
                        ) by {
                            assert(structure::matches(*r, k as int, ws, ns, nodes, tm, i as int)) by {
                                reveal(compat);
                                let _ = was.todo@[was.todo@.len() - 1];
                            }
                            lemma_kids_match(*r, k as int, ws, ns, nodes, tm, i as int);
                            if kids_match(*r, ks, xs, ws, ns, nodes, tm) {
                                assert forall|q: int| #![trigger xs[q]] 0 <= q < xs.len() implies kept.todo@.contains(
                                    (ks[q], xs[q]),
                                ) by {
                                    assert(kept.todo@.contains(kids@[q]));
                                }
                                assert forall|t: int|
                                    #![trigger kept.todo@[t]]
                                    0 <= t < kept.todo@.len() implies left.contains(kept.todo@[t])
                                    || exists|q: int|
                                    #![trigger xs[q]]
                                    0 <= q < xs.len() && kept.todo@[t] == (ks[q], xs[q]) by {
                                    if t < left.len() {
                                        assert(kept.todo@.take(left.len() as int)[t] == left[t]);
                                        assert(left.contains(kept.todo@[t]));
                                    } else {
                                        assert(kids@.contains(kept.todo@[t]));
                                        let q = choose|q: int|
                                            0 <= q < kids@.len() && kids@[q] == kept.todo@[t];
                                        let _ = xs[q];
                                    }
                                }
                                lemma_compat_kids(was, kept, *r, ws, ns, nodes, tm, xs);
                                assert(states@[states@.len() - 1] == kept);
                            } else {
                                let ys = seq![xs[1], xs[0]];
                                lemma_compat_other(was, turned, *r, ws, ns, nodes, tm, left, ks, xs);
                                assert(states@[states@.len() - 2] == turned);
                            }
                        }
                        lemma_open_stays(states0, states@, *r, nodes, tm, n as int);
                    }
                }
            },
        }
    }
    if *steps == 0 {
        return Search::Degraded;
    }
    proof {
        if structure::tells_all(*r) {
            assert forall|ws: Seq<u16>, ns: Seq<u32>| !#[trigger] structure::matches_at(
                *r,
                ws,
                ns,
                cx.nodes@,
                cx.tm(),
                n as int,
            ) by {
                if structure::matches_at(*r, ws, ns, cx.nodes@, cx.tm(), n as int) {
                    assert(some_open(states@, *r, ws, ns, cx.nodes@, cx.tm()));
                }
            }
        }
    }
    Search::Failed
}

} // verus!
