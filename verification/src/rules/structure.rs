//! What it is for a pattern to match a node, operator by operator.

use vstd::prelude::*;
use crate::expr;
use crate::expr::{Context, Node};
use crate::ops::CmpOp;
use crate::rules::heads;
use crate::rules::matcher;
use crate::rules::meaning;
use crate::rules::rule::{RNode, Rule, WExpr};
use crate::term;
use crate::term::Term;

verus! {

/// Pattern node `k` is node `i`, at widths `ws` and parameters `ns`: a parameter is the node it
/// stands for, a part without parameters the constant it is worth, and an operator has operands
/// that match, in either order where it commutes.
pub open spec fn matches(
    r: Rule,
    k: int,
    ws: Seq<u16>,
    ns: Seq<u32>,
    nodes: Seq<Node>,
    terms: Seq<Term>,
    i: int,
) -> bool
    decreases k,
{
    &&& k >= 0
    &&& meaning::wat(r, k, ws) == term::twidth(terms[i])
    &&& match r.nodes@[k] {
        RNode::Param(p) => ns[p as int] == i && heads::kind_fits(
            r.params@[p as int].kind,
            heads::node_place(nodes[i]),
        ),
        _ => if heads::closed(r, k) {
            nodes[i] is Const && matcher::is_at(r, k, ws, ns, terms, i)
        } else {
            match (r.nodes@[k], nodes[i]) {
                (RNode::Un(op, a), Node::Un(o, x)) => op == o && a < k && matches(
                    r,
                    a as int,
                    ws,
                    ns,
                    nodes,
                    terms,
                    x as int,
                ),
                (RNode::Bin(op, a, b), Node::Bin(o, x, y)) => op == o && a < k && b < k && ((
                matches(r, a as int, ws, ns, nodes, terms, x as int) && matches(
                    r,
                    b as int,
                    ws,
                    ns,
                    nodes,
                    terms,
                    y as int,
                )) || (matcher::commutes(op) && matches(r, a as int, ws, ns, nodes, terms, y as int)
                    && matches(r, b as int, ws, ns, nodes, terms, x as int))),
                (RNode::Cmp(op, a, b), Node::Cmp(o, x, y)) => {
                    let (s, swap) = op.stored();
                    let p: u32 = if swap {
                        b
                    } else {
                        a
                    };
                    let q: u32 = if swap {
                        a
                    } else {
                        b
                    };
                    s == o && p < k && q < k && ((matches(
                        r,
                        p as int,
                        ws,
                        ns,
                        nodes,
                        terms,
                        x as int,
                    ) && matches(r, q as int, ws, ns, nodes, terms, y as int)) || ((s == CmpOp::Eq
                        || s == CmpOp::Ne) && matches(
                        r,
                        p as int,
                        ws,
                        ns,
                        nodes,
                        terms,
                        y as int,
                    ) && matches(r, q as int, ws, ns, nodes, terms, x as int)))
                },
                (RNode::Zext(a), Node::Zext(x)) => a < k && matches(
                    r,
                    a as int,
                    ws,
                    ns,
                    nodes,
                    terms,
                    x as int,
                ),
                (RNode::Sext(a), Node::Sext(x)) => a < k && matches(
                    r,
                    a as int,
                    ws,
                    ns,
                    nodes,
                    terms,
                    x as int,
                ),
                (RNode::Extract(e, a), Node::Extract(x, lo)) => e.at(ws) == lo && a < k && matches(
                    r,
                    a as int,
                    ws,
                    ns,
                    nodes,
                    terms,
                    x as int,
                ),
                (RNode::Concat(h, l), Node::Concat(x, y)) => h < k && l < k && matches(
                    r,
                    h as int,
                    ws,
                    ns,
                    nodes,
                    terms,
                    x as int,
                ) && matches(r, l as int, ws, ns, nodes, terms, y as int),
                (RNode::Select(c, t, f), Node::Select(x, y, z)) => c < k && t < k && f < k
                    && matches(r, c as int, ws, ns, nodes, terms, x as int) && matches(
                    r,
                    t as int,
                    ws,
                    ns,
                    nodes,
                    terms,
                    y as int,
                ) && matches(r, f as int, ws, ns, nodes, terms, z as int),
                _ => false,
            }
        },
    }
}

/// The rule's pattern matches node `n`, at these widths and parameters.
pub open spec fn matches_at(
    r: Rule,
    ws: Seq<u16>,
    ns: Seq<u32>,
    nodes: Seq<Node>,
    terms: Seq<Term>,
    n: int,
) -> bool {
    matcher::fitted(r, ws, ns, terms) && matches(r, r.lhs as int, ws, ns, nodes, terms, n)
}

/// Pattern node `k` occurs in pattern node `a`.
pub open spec fn occurs(r: Rule, a: int, k: int) -> bool
    decreases a,
{
    a == k || (a >= 0 && exists|j: int|
        #![trigger heads::operands(r.nodes@[a])[j]]
        0 <= j < heads::operands(r.nodes@[a]).len() && heads::operands(r.nodes@[a])[j] < a
            && occurs(r, heads::operands(r.nodes@[a])[j] as int, k))
}

/// The width is that of variable `v`.
pub open spec fn is_var(e: WExpr, v: int) -> bool {
    &&& e.konst == 0
    &&& 0 <= v < e.coefs@.len()
    &&& forall|i: int| 0 <= i < e.coefs@.len() ==> #[trigger] e.coefs@[i] == (if i == v {
        1int
    } else {
        0int
    })
}

/// The pattern says all there is to know of a match: every parameter occurs in it, and every
/// width variable is the width of one that does.
pub open spec fn tells_all(r: Rule) -> bool {
    &&& forall|p: int| 0 <= p < r.params@.len() ==> #[trigger] tells_param(r, p)
    &&& forall|v: int| 0 <= v < r.width_vars@.len() ==> #[trigger] tells_width(r, v)
}

/// Parameter `p` occurs in the pattern.
pub open spec fn tells_param(r: Rule, p: int) -> bool {
    exists|k: int| #[trigger]
        occurs(r, r.lhs as int, k) && 0 <= k < r.nodes@.len() && (r.nodes@[k] matches RNode::Param(q)
            && q == p)
}

/// Width variable `v` is the width of a parameter that occurs in the pattern.
pub open spec fn tells_width(r: Rule, v: int) -> bool {
    exists|k: int| #[trigger]
        occurs(r, r.lhs as int, k) && 0 <= k < r.nodes@.len() && r.nodes@[k] is Param && is_var(
            r.widths@[k],
            v,
        )
}

/// No parameter occurs in a part without parameters.
pub proof fn lemma_closed_holds_none(r: Rule, a: int, k: int)
    requires
        heads::closed(r, a),
        occurs(r, a, k),
    ensures
        !(r.nodes@[k] is Param),
    decreases a,
{
    if a != k {
        let ks = heads::operands(r.nodes@[a]);
        let j = choose|j: int|
            #![trigger heads::operands(r.nodes@[a])[j]]
            0 <= j < ks.len() && ks[j] < a && occurs(r, ks[j] as int, k);
        lemma_closed_holds_none(r, ks[j] as int, k);
    }
}

/// What matches by structure matches by its operator.
pub proof fn lemma_head(
    r: Rule,
    k: int,
    ws: Seq<u16>,
    ns: Seq<u32>,
    nodes: Seq<Node>,
    terms: Seq<Term>,
    i: int,
)
    requires
        matches(r, k, ws, ns, nodes, terms, i),
    ensures
        heads::head(r, k, heads::node_place(nodes[i])),
        !(r.nodes@[k] is Param) && !heads::closed(r, k) ==> heads::pattern_place(r.nodes@[k])
            == Some(heads::node_place(nodes[i])) && !(nodes[i] is Const),
{
}

/// A rule that matches at a node may match by operators alone.
pub proof fn lemma_may_match(
    r: Rule,
    ws: Seq<u16>,
    ns: Seq<u32>,
    nodes: Seq<Node>,
    terms: Seq<Term>,
    n: int,
)
    requires
        heads::operator_rooted(r),
        matches(r, r.lhs as int, ws, ns, nodes, terms, n),
    ensures
        heads::may_match(r, heads::node_place(nodes[n]), heads::kid_places(nodes, nodes[n])),
{
    let k = r.lhs as int;
    let root = r.nodes@[k];
    let ks = heads::operands(root);
    let xs = expr::kids(nodes[n]);
    let ps = heads::kid_places(nodes, nodes[n]);
    lemma_head(r, k, ws, ns, nodes, terms, n);
    assert(!(root is Param));
    let straight = forall|j: int|
        #![trigger ks[j]]
        0 <= j < ks.len() ==> matches(r, ks[j] as int, ws, ns, nodes, terms, xs[j] as int);
    if straight {
        assert forall|j: int| #![trigger ks[j]] 0 <= j < ks.len() implies heads::head(
            r,
            ks[j] as int,
            ps[j],
        ) by {
            lemma_head(r, ks[j] as int, ws, ns, nodes, terms, xs[j] as int);
        }
        assert(heads::heads(r, ks, ps));
    } else {
        let qs = heads::swapped(ps);
        assert forall|j: int| #![trigger ks[j]] 0 <= j < ks.len() implies heads::head(
            r,
            ks[j] as int,
            qs[j],
        ) by {
            lemma_head(r, ks[j] as int, ws, ns, nodes, terms, xs[1 - j] as int);
        }
        assert(heads::heads(r, ks, qs));
    }
}

/// The template is a parameter or a number: what the rule gives is not the node it matches.
pub open spec fn simple(r: Rule) -> bool {
    match r.nodes@[r.rhs as int] {
        RNode::Param(_)
        | RNode::Lit(_)
        | RNode::Ones
        | RNode::LowMask(_)
        | RNode::WidthVal(_)
        | RNode::Bool(_) => true,
        _ => false,
    }
}

/// Wherever the rule matches it applies, and gives another node: it has no guard, its pattern is
/// an operator that says all there is to know of a match, and its template is simple.
pub open spec fn certain(r: Rule) -> bool {
    r.guard is None && tells_all(r) && heads::operator_rooted(r) && simple(r)
}

/// The rule leaves node `n`: if it is certain, it does not match there.
pub open spec fn leaves(r: Rule, nodes: Seq<Node>, terms: Seq<Term>, n: int) -> bool {
    certain(r) ==> forall|ws: Seq<u16>, ns: Seq<u32>|
        !#[trigger] matches_at(r, ws, ns, nodes, terms, n)
}

/// What is below `n` decides whether a pattern matches there.
pub(crate) proof fn lemma_matches_grow(
    r: Rule,
    k: int,
    ws: Seq<u16>,
    ns: Seq<u32>,
    cx0: &Context,
    cx1: &Context,
    i: int,
)
    requires
        cx0.wf(),
        cx1.wf(),
        cx1.extends(cx0),
        0 <= i < cx0.n(),
        matches(r, k, ws, ns, cx1.nodes@, cx1.tm(), i),
        forall|p: int| 0 <= p < ns.len() ==> #[trigger] ns[p] < cx0.n(),
    ensures
        matches(r, k, ws, ns, cx0.nodes@, cx0.tm(), i),
    decreases k, 1nat,
{
    assert(cx1.nodes@[i] == cx0.nodes@[i]);
    assert(cx1.tm()[i] == cx0.tm()[i]);
    assert(cx0.ok_at(i));
    match r.nodes@[k] {
        RNode::Param(_) => {},
        _ => if heads::closed(r, k) {
            assert forall|env: crate::term::Env|
                #![trigger matcher::bound(cx0.tm(), ns, env)]
                meaning::rvalue(r, k, ws, matcher::bound(cx0.tm(), ns, env)) == term::value(
                cx0.tm()[i],
                env,
            ) by {
                assert(matcher::bound(cx0.tm(), ns, env) =~= matcher::bound(cx1.tm(), ns, env)) by {
                    assert forall|p: int| 0 <= p < ns.len() implies matcher::bound(
                        cx0.tm(),
                        ns,
                        env,
                    )[p] == matcher::bound(cx1.tm(), ns, env)[p] by {
                        let _ = ns[p];
                        assert(cx1.tm()[ns[p] as int] == cx0.tm()[ns[p] as int]);
                    }
                }
            }
        } else {
            match (r.nodes@[k], cx0.nodes@[i]) {
                (RNode::Un(_, a), Node::Un(_, x)) => {
                    lemma_matches_grow(r, a as int, ws, ns, cx0, cx1, x as int);
                },
                (RNode::Bin(_, a, b), Node::Bin(_, x, y)) => {
                    lemma_pair_grow(r, k, a, b, ws, ns, cx0, cx1, x as int, y as int);
                },
                (RNode::Cmp(op, a, b), Node::Cmp(_, x, y)) => {
                    if op.stored().1 {
                        lemma_pair_grow(r, k, b, a, ws, ns, cx0, cx1, x as int, y as int);
                    } else {
                        lemma_pair_grow(r, k, a, b, ws, ns, cx0, cx1, x as int, y as int);
                    }
                },
                (RNode::Zext(a), Node::Zext(x)) => {
                    lemma_matches_grow(r, a as int, ws, ns, cx0, cx1, x as int);
                },
                (RNode::Sext(a), Node::Sext(x)) => {
                    lemma_matches_grow(r, a as int, ws, ns, cx0, cx1, x as int);
                },
                (RNode::Extract(_, a), Node::Extract(x, _)) => {
                    lemma_matches_grow(r, a as int, ws, ns, cx0, cx1, x as int);
                },
                (RNode::Concat(a, b), Node::Concat(x, y)) => {
                    lemma_matches_grow(r, a as int, ws, ns, cx0, cx1, x as int);
                    lemma_matches_grow(r, b as int, ws, ns, cx0, cx1, y as int);
                },
                (RNode::Select(a, b, c), Node::Select(x, y, z)) => {
                    lemma_matches_grow(r, a as int, ws, ns, cx0, cx1, x as int);
                    lemma_matches_grow(r, b as int, ws, ns, cx0, cx1, y as int);
                    lemma_matches_grow(r, c as int, ws, ns, cx0, cx1, z as int);
                },
                _ => {},
            }
        },
    }
}

proof fn lemma_pair_grow(
    r: Rule,
    k: int,
    a: u32,
    b: u32,
    ws: Seq<u16>,
    ns: Seq<u32>,
    cx0: &Context,
    cx1: &Context,
    x: int,
    y: int,
)
    requires
        cx0.wf(),
        cx1.wf(),
        cx1.extends(cx0),
        a < k,
        b < k,
        0 <= x < cx0.n(),
        0 <= y < cx0.n(),
        forall|p: int| 0 <= p < ns.len() ==> #[trigger] ns[p] < cx0.n(),
    ensures
        matches(r, a as int, ws, ns, cx1.nodes@, cx1.tm(), x) ==> matches(
            r,
            a as int,
            ws,
            ns,
            cx0.nodes@,
            cx0.tm(),
            x,
        ),
        matches(r, b as int, ws, ns, cx1.nodes@, cx1.tm(), y) ==> matches(
            r,
            b as int,
            ws,
            ns,
            cx0.nodes@,
            cx0.tm(),
            y,
        ),
        matches(r, a as int, ws, ns, cx1.nodes@, cx1.tm(), y) ==> matches(
            r,
            a as int,
            ws,
            ns,
            cx0.nodes@,
            cx0.tm(),
            y,
        ),
        matches(r, b as int, ws, ns, cx1.nodes@, cx1.tm(), x) ==> matches(
            r,
            b as int,
            ws,
            ns,
            cx0.nodes@,
            cx0.tm(),
            x,
        ),
    decreases k, 0nat,
{
    if matches(r, a as int, ws, ns, cx1.nodes@, cx1.tm(), x) {
        lemma_matches_grow(r, a as int, ws, ns, cx0, cx1, x);
    }
    if matches(r, b as int, ws, ns, cx1.nodes@, cx1.tm(), y) {
        lemma_matches_grow(r, b as int, ws, ns, cx0, cx1, y);
    }
    if matches(r, a as int, ws, ns, cx1.nodes@, cx1.tm(), y) {
        lemma_matches_grow(r, a as int, ws, ns, cx0, cx1, y);
    }
    if matches(r, b as int, ws, ns, cx1.nodes@, cx1.tm(), x) {
        lemma_matches_grow(r, b as int, ws, ns, cx0, cx1, x);
    }
}

/// A parameter that occurs in a pattern that matches at `i` stands for a node up to `i`.
pub(crate) proof fn lemma_param_below(
    r: Rule,
    a: int,
    k: int,
    ws: Seq<u16>,
    ns: Seq<u32>,
    cx: &Context,
    i: int,
)
    requires
        cx.wf(),
        0 <= i < cx.n(),
        matches(r, a, ws, ns, cx.nodes@, cx.tm(), i),
        occurs(r, a, k),
        r.nodes@[k] is Param,
    ensures
        r.nodes@[k] matches RNode::Param(p) && ns[p as int] <= i,
    decreases a,
{
    if a != k {
        if heads::closed(r, a) {
            lemma_closed_holds_none(r, a, k);
        }
        let ks = heads::operands(r.nodes@[a]);
        let j = choose|j: int|
            #![trigger heads::operands(r.nodes@[a])[j]]
            0 <= j < ks.len() && ks[j] < a && occurs(r, ks[j] as int, k);
        assert(cx.ok_at(i));
        let xs = expr::kids(cx.nodes@[i]);
        assert(!(r.nodes@[a] is Param));
        if matches(r, ks[j] as int, ws, ns, cx.nodes@, cx.tm(), xs[j] as int) {
            lemma_param_below(r, ks[j] as int, k, ws, ns, cx, xs[j] as int);
        } else {
            lemma_param_below(r, ks[j] as int, k, ws, ns, cx, xs[1 - j] as int);
        }
    }
}

/// A rule goes on leaving a node as the arena grows.
pub(crate) proof fn lemma_leaves_grow(r: Rule, cx0: &Context, cx1: &Context, n: int)
    requires
        cx0.wf(),
        cx1.wf(),
        cx1.extends(cx0),
        0 <= n < cx0.n(),
        leaves(r, cx0.nodes@, cx0.tm(), n),
    ensures
        leaves(r, cx1.nodes@, cx1.tm(), n),
{
    if certain(r) {
        assert forall|ws: Seq<u16>, ns: Seq<u32>| !#[trigger] matches_at(
            r,
            ws,
            ns,
            cx1.nodes@,
            cx1.tm(),
            n,
        ) by {
            if matches_at(r, ws, ns, cx1.nodes@, cx1.tm(), n) {
                assert forall|p: int| 0 <= p < ns.len() implies #[trigger] ns[p] < cx0.n() by {
                    assert(tells_param(r, p));
                    let k = choose|k: int| #[trigger]
                        occurs(r, r.lhs as int, k) && 0 <= k < r.nodes@.len() && (
                        r.nodes@[k] matches RNode::Param(q) && q == p);
                    lemma_param_below(r, r.lhs as int, k, ws, ns, cx1, n);
                }
                lemma_matches_grow(r, r.lhs as int, ws, ns, cx0, cx1, n);
                assert(matcher::fitted(r, ws, ns, cx0.tm())) by {
                    assert forall|p: int|
                        #![trigger ns[p]]
                        0 <= p < ns.len() implies ns[p] < cx0.tm().len() && term::tok(
                        cx0.tm()[ns[p] as int],
                    ) && term::twidth(cx0.tm()[ns[p] as int]) == r.params@[p].width.at(ws) by {
                        assert(cx1.tm()[ns[p] as int] == cx0.tm()[ns[p] as int]);
                    }
                }
                assert(matches_at(r, ws, ns, cx0.nodes@, cx0.tm(), n));
            }
        }
    }
}

} // verus!
