//! Combinations of comparisons of one node with constants, and what they say of its value.

use vstd::prelude::*;
use vstd::arithmetic::power2::pow2;
use crate::bits;
use crate::engine::pass::compares::{is_boolean, joined, Conn};
use crate::engine::pass::shapes;
use crate::expr::{Context, Expr, Node};
use crate::ops;
use crate::ops::{BinOp, CmpOp, UnOp};
use crate::term;
use crate::term::Term;

verus! {

/// Node `n` combines comparisons of node `x`, which is no constant, with constants.
pub open spec fn speaks(nodes: Seq<Node>, n: int, x: int) -> bool
    decreases n,
{
    match nodes[n] {
        Node::Cmp(_, a, b) => !(nodes[x] is Const) && ((a == x && nodes[b as int] is Const) || (b
            == x && nodes[a as int] is Const)),
        Node::Un(op, a) => op == UnOp::Not && 0 <= a < n && speaks(nodes, a as int, x),
        Node::Bin(op, a, b) => (op == BinOp::And || op == BinOp::Or || op == BinOp::Xor) && 0 <= a
            < n && 0 <= b < n && speaks(nodes, a as int, x) && speaks(nodes, b as int, x),
        _ => false,
    }
}

/// What it says where `x` has the value `v`.
pub open spec fn truth(nodes: Seq<Node>, tm: Seq<Term>, n: int, x: int, v: Seq<bool>) -> bool
    decreases n,
{
    match nodes[n] {
        Node::Cmp(op, a, b) => if a == x {
            shapes::compared(op, v, tm[b as int]->Const_0, true)
        } else {
            shapes::compared(op, v, tm[a as int]->Const_0, false)
        },
        Node::Un(op, a) => 0 <= a < n && !truth(nodes, tm, a as int, x, v),
        Node::Bin(op, a, b) => 0 <= a < n && 0 <= b < n && joined(
            conn_of(op),
            truth(nodes, tm, a as int, x, v),
            truth(nodes, tm, b as int, x, v),
        ),
        _ => false,
    }
}

/// The connective of an operator.
pub open spec fn conn_of(op: BinOp) -> Conn {
    match op {
        BinOp::And => Conn::And,
        BinOp::Or => Conn::Or,
        _ => Conn::Xor,
    }
}

/// How many spans the values at which it holds have at most.
pub open spec fn most_spans(nodes: Seq<Node>, n: int) -> nat
    decreases n,
{
    match nodes[n] {
        Node::Cmp(_, _, _) => 2,
        Node::Un(_, a) => if 0 <= a < n {
            most_spans(nodes, a as int) + 1
        } else {
            0
        },
        Node::Bin(op, a, b) => if 0 <= a < n && 0 <= b < n {
            let both = most_spans(nodes, a as int) + most_spans(nodes, b as int);
            if op == BinOp::Xor {
                2 * both
            } else {
                both
            }
        } else {
            0
        },
        _ => 0,
    }
}

/// It holds whatever the value.
pub open spec fn always(nodes: Seq<Node>, tm: Seq<Term>, n: int, x: int) -> bool {
    forall|v: Seq<bool>|
        v.len() == term::twidth(tm[x]) ==> #[trigger] truth(nodes, tm, n, x, v)
}

/// It holds at no value.
pub open spec fn never(nodes: Seq<Node>, tm: Seq<Term>, n: int, x: int) -> bool {
    forall|v: Seq<bool>|
        v.len() == term::twidth(tm[x]) ==> !#[trigger] truth(nodes, tm, n, x, v)
}

/// It holds exactly at the values from `lo` up to `hi`, going on from the greatest at zero.
pub open spec fn in_range(
    nodes: Seq<Node>,
    tm: Seq<Term>,
    n: int,
    x: int,
    lo: int,
    hi: int,
) -> bool {
    forall|v: Seq<bool>|
        v.len() == term::twidth(tm[x]) ==> (#[trigger] truth(nodes, tm, n, x, v)
            <==> crate::engine::pass::intervals::cyclic(lo, hi, bits::nat_of(v) as int))
}

/// Node `n` combines few comparisons of `x` with constants, and holds exactly at these values.
pub open spec fn ranges(
    nodes: Seq<Node>,
    tm: Seq<Term>,
    n: int,
    x: int,
    lo: int,
    hi: int,
) -> bool {
    &&& is_boolean(nodes[n])
    &&& speaks(nodes, n, x)
    &&& most_spans(nodes, n) <= shapes::MAX_INTERVALS
    &&& 0 <= lo < pow2(term::twidth(tm[x]))
    &&& 0 <= hi < pow2(term::twidth(tm[x]))
    &&& in_range(nodes, tm, n, x, lo, hi)
}

/// Node `n` combines comparisons of nodes `x` and `y`, which are no constants.
pub open spec fn relates(nodes: Seq<Node>, n: int, x: int, y: int) -> bool
    decreases n,
{
    match nodes[n] {
        Node::Cmp(_, a, b) => x < y && !(nodes[x] is Const) && !(nodes[y] is Const) && ((a == x && b
            == y) || (a == y && b == x)),
        Node::Un(op, a) => op == UnOp::Not && 0 <= a < n && relates(nodes, a as int, x, y),
        Node::Bin(op, a, b) => (op == BinOp::And || op == BinOp::Or || op == BinOp::Xor) && 0 <= a
            < n && 0 <= b < n && relates(nodes, a as int, x, y) && relates(nodes, b as int, x, y),
        _ => false,
    }
}

/// What it says where `x` has the value `v` and `y` the value `u`.
pub open spec fn truth_of(
    nodes: Seq<Node>,
    n: int,
    x: int,
    v: Seq<bool>,
    u: Seq<bool>,
) -> bool
    decreases n,
{
    match nodes[n] {
        Node::Cmp(op, a, b) => if a == x {
            ops::holds(op, v, u)
        } else {
            ops::holds(op, u, v)
        },
        Node::Un(op, a) => 0 <= a < n && !truth_of(nodes, a as int, x, v, u),
        Node::Bin(op, a, b) => 0 <= a < n && 0 <= b < n && joined(
            conn_of(op),
            truth_of(nodes, a as int, x, v, u),
            truth_of(nodes, b as int, x, v, u),
        ),
        _ => false,
    }
}

/// It holds, or fails, whatever the two values.
pub open spec fn same_for_all(nodes: Seq<Node>, n: int, x: int, w: nat, b: bool) -> bool {
    forall|v: Seq<bool>, u: Seq<bool>|
        v.len() == w && u.len() == w ==> #[trigger] truth_of(nodes, n, x, v, u) == b
}

/// It is one comparison of the two values, the first first or last.
pub open spec fn one_comparison(
    nodes: Seq<Node>,
    n: int,
    x: int,
    w: nat,
    op: CmpOp,
    first: bool,
) -> bool {
    forall|v: Seq<bool>, u: Seq<bool>|
        v.len() == w && u.len() == w ==> (#[trigger] truth_of(nodes, n, x, v, u) == if first {
            ops::holds(op, v, u)
        } else {
            ops::holds(op, u, v)
        })
}

/// A combination of comparisons of two nodes is left only where it holds at some values and not at
/// others.
pub open spec fn open_pair(nodes: Seq<Node>, tm: Seq<Term>, n: int) -> bool {
    forall|x: u32, y: u32|
        #![trigger relates(nodes, n, x as int, y as int)]
        is_boolean(nodes[n]) && relates(nodes, n, x as int, y as int) ==> !same_for_all(
            nodes,
            n,
            x as int,
            term::twidth(tm[x as int]),
            true,
        ) && !same_for_all(nodes, n, x as int, term::twidth(tm[x as int]), false)
}

/// All of it is the same in an arena that has grown.
pub(crate) proof fn lemma_related_grow(cx0: &Context, cx1: &Context, n: int, x: int, y: int)
    requires
        cx0.wf(),
        cx1.wf(),
        cx1.extends(cx0),
        0 <= n < cx0.n(),
        0 <= x < cx0.n(),
        0 <= y < cx0.n(),
    ensures
        relates(cx1.nodes@, n, x, y) == relates(cx0.nodes@, n, x, y),
        relates(cx0.nodes@, n, x, y) ==> forall|v: Seq<bool>, u: Seq<bool>| #[trigger]
            truth_of(cx1.nodes@, n, x, v, u) == truth_of(cx0.nodes@, n, x, v, u),
    decreases n,
{
    assert(cx0.ok_at(n));
    assert(cx1.nodes@[n] == cx0.nodes@[n]);
    assert(cx1.nodes@[x] == cx0.nodes@[x]);
    assert(cx1.nodes@[y] == cx0.nodes@[y]);
    match cx0.nodes@[n] {
        Node::Un(_, a) => {
            assert(crate::expr::kids(cx0.nodes@[n])[0] == a);
            lemma_related_grow(cx0, cx1, a as int, x, y);
            if relates(cx0.nodes@, n, x, y) {
                assert forall|v: Seq<bool>, u: Seq<bool>| #[trigger]
                    truth_of(cx1.nodes@, n, x, v, u) == truth_of(cx0.nodes@, n, x, v, u) by {
                    assert(truth_of(cx1.nodes@, a as int, x, v, u) == truth_of(
                        cx0.nodes@,
                        a as int,
                        x,
                        v,
                        u,
                    ));
                }
            }
        },
        Node::Bin(_, a, b) => {
            assert(crate::expr::kids(cx0.nodes@[n])[0] == a);
            assert(crate::expr::kids(cx0.nodes@[n])[1] == b);
            lemma_related_grow(cx0, cx1, a as int, x, y);
            lemma_related_grow(cx0, cx1, b as int, x, y);
            if relates(cx0.nodes@, n, x, y) {
                assert forall|v: Seq<bool>, u: Seq<bool>| #[trigger]
                    truth_of(cx1.nodes@, n, x, v, u) == truth_of(cx0.nodes@, n, x, v, u) by {
                    assert(truth_of(cx1.nodes@, a as int, x, v, u) == truth_of(
                        cx0.nodes@,
                        a as int,
                        x,
                        v,
                        u,
                    ));
                    assert(truth_of(cx1.nodes@, b as int, x, v, u) == truth_of(
                        cx0.nodes@,
                        b as int,
                        x,
                        v,
                        u,
                    ));
                }
            }
        },
        _ => {},
    }
}

/// The nodes it speaks of are there, and it has one bit.
pub(crate) proof fn lemma_relates(cx: &Context, n: int, x: int, y: int)
    requires
        cx.wf(),
        0 <= n < cx.n(),
        relates(cx.nodes@, n, x, y),
    ensures
        0 <= x < y < n,
        cx.w(n) == 1,
        cx.w(x) == cx.w(y),
    decreases n,
{
    assert(cx.ok_at(n));
    match cx.nodes@[n] {
        Node::Cmp(_, a, b) => {
            assert(crate::expr::kids(cx.nodes@[n])[0] == a);
            assert(crate::expr::kids(cx.nodes@[n])[1] == b);
        },
        Node::Un(_, a) => {
            lemma_relates(cx, a as int, x, y);
        },
        Node::Bin(_, a, b) => {
            lemma_relates(cx, a as int, x, y);
            lemma_relates(cx, b as int, x, y);
        },
        _ => {},
    }
}

/// It says what its value is.
pub(crate) proof fn lemma_truth_of(cx: &Context, n: int, x: int, y: int, env: term::Env)
    requires
        cx.wf(),
        0 <= n < cx.n(),
        relates(cx.nodes@, n, x, y),
    ensures
        cx.val(n, env)[0] == truth_of(cx.nodes@, n, x, cx.val(x, env), cx.val(y, env)),
    decreases n,
{
    assert(cx.ok_at(n));
    lemma_relates(cx, n, x, y);
    match cx.nodes@[n] {
        Node::Cmp(op, a, b) => {
            assert(cx.ok_at(a as int));
            assert(cx.ok_at(b as int));
            assert(cx.val(n, env) == ops::bool_bits(
                ops::holds(op, cx.val(a as int, env), cx.val(b as int, env)),
            ));
        },
        Node::Un(op, a) => {
            lemma_truth_of(cx, a as int, x, y, env);
            lemma_relates(cx, a as int, x, y);
            term::lemma_value_len(cx.tm()[a as int], env);
            assert(cx.ok_at(a as int));
            assert(cx.val(n, env) == ops::un_value(op, cx.val(a as int, env)));
        },
        Node::Bin(op, a, b) => {
            lemma_truth_of(cx, a as int, x, y, env);
            lemma_truth_of(cx, b as int, x, y, env);
            lemma_relates(cx, a as int, x, y);
            lemma_relates(cx, b as int, x, y);
            term::lemma_value_len(cx.tm()[a as int], env);
            term::lemma_value_len(cx.tm()[b as int], env);
            assert(cx.ok_at(a as int));
            assert(cx.ok_at(b as int));
            assert(cx.val(n, env) == ops::bin_value(
                op,
                cx.val(a as int, env),
                cx.val(b as int, env),
            ));
        },
        _ => {},
    }
}

/// A combination of few comparisons of one node with constants is left only where it holds at some
/// values and not at others.
pub open spec fn undecided(nodes: Seq<Node>, tm: Seq<Term>, n: int) -> bool {
    forall|x: u32|
        #![trigger speaks(nodes, n, x as int)]
        x < nodes.len() && is_boolean(nodes[n]) && speaks(nodes, n, x as int) && most_spans(
            nodes,
            n,
        ) <= shapes::MAX_INTERVALS ==> !always(nodes, tm, n, x as int) && !never(
            nodes,
            tm,
            n,
            x as int,
        )
}

impl Context {
    /// `n` combines comparisons of `x` and `y`, which are no constants.
    pub open(crate) spec fn compares_the_two(&self, n: Expr, x: Expr, y: Expr) -> bool {
        is_boolean(self.nodes@[n.id as int]) && relates(
            self.nodes@,
            n.id as int,
            x.id as int,
            y.id as int,
        )
    }

    /// What it says where `x` has the value `v` and `y` the value `u`.
    pub open(crate) spec fn said_of(&self, n: Expr, x: Expr, v: Seq<bool>, u: Seq<bool>) -> bool {
        truth_of(self.nodes@, n.id as int, x.id as int, v, u)
    }

    /// `n` combines comparisons of `x`, which is no constant, with constants.
    pub open(crate) spec fn compares_with_constants(&self, n: Expr, x: Expr) -> bool {
        speaks(self.nodes@, n.id as int, x.id as int)
    }

    /// What it says where `x` has the value `v`.
    pub open(crate) spec fn said_at(&self, n: Expr, x: Expr, v: Seq<bool>) -> bool {
        truth(self.nodes@, self.tm(), n.id as int, x.id as int, v)
    }

    /// `n` combines few comparisons.
    pub open(crate) spec fn few_comparisons(&self, n: Expr) -> bool {
        is_boolean(self.nodes@[n.id as int]) && most_spans(self.nodes@, n.id as int)
            <= shapes::MAX_INTERVALS
    }
}

/// All of it is the same in an arena that has grown.
pub(crate) proof fn lemma_spoken_grow(cx0: &Context, cx1: &Context, n: int, x: int)
    requires
        cx0.wf(),
        cx1.wf(),
        cx1.extends(cx0),
        0 <= n < cx0.n(),
        0 <= x < cx0.n(),
    ensures
        speaks(cx1.nodes@, n, x) == speaks(cx0.nodes@, n, x),
        most_spans(cx1.nodes@, n) == most_spans(cx0.nodes@, n),
        speaks(cx0.nodes@, n, x) ==> forall|v: Seq<bool>| #[trigger]
            truth(cx1.nodes@, cx1.tm(), n, x, v) == truth(cx0.nodes@, cx0.tm(), n, x, v),
    decreases n,
{
    assert(cx0.ok_at(n));
    assert(cx1.nodes@[n] == cx0.nodes@[n]);
    assert(cx1.nodes@[x] == cx0.nodes@[x]);
    match cx0.nodes@[n] {
        Node::Cmp(_, a, b) => {
            assert(crate::expr::kids(cx0.nodes@[n])[0] == a);
            assert(crate::expr::kids(cx0.nodes@[n])[1] == b);
            assert(cx1.nodes@[a as int] == cx0.nodes@[a as int]);
            assert(cx1.nodes@[b as int] == cx0.nodes@[b as int]);
            assert(cx1.tm()[a as int] == cx0.tm()[a as int]);
            assert(cx1.tm()[b as int] == cx0.tm()[b as int]);
        },
        Node::Un(_, a) => {
            assert(crate::expr::kids(cx0.nodes@[n])[0] == a);
            lemma_spoken_grow(cx0, cx1, a as int, x);
            if speaks(cx0.nodes@, n, x) {
                assert forall|v: Seq<bool>| #[trigger]
                    truth(cx1.nodes@, cx1.tm(), n, x, v) == truth(cx0.nodes@, cx0.tm(), n, x, v) by {
                    assert(truth(cx1.nodes@, cx1.tm(), a as int, x, v) == truth(
                        cx0.nodes@,
                        cx0.tm(),
                        a as int,
                        x,
                        v,
                    ));
                }
            }
        },
        Node::Bin(_, a, b) => {
            assert(crate::expr::kids(cx0.nodes@[n])[0] == a);
            assert(crate::expr::kids(cx0.nodes@[n])[1] == b);
            lemma_spoken_grow(cx0, cx1, a as int, x);
            lemma_spoken_grow(cx0, cx1, b as int, x);
            if speaks(cx0.nodes@, n, x) {
                assert forall|v: Seq<bool>| #[trigger]
                    truth(cx1.nodes@, cx1.tm(), n, x, v) == truth(cx0.nodes@, cx0.tm(), n, x, v) by {
                    assert(truth(cx1.nodes@, cx1.tm(), a as int, x, v) == truth(
                        cx0.nodes@,
                        cx0.tm(),
                        a as int,
                        x,
                        v,
                    ));
                    assert(truth(cx1.nodes@, cx1.tm(), b as int, x, v) == truth(
                        cx0.nodes@,
                        cx0.tm(),
                        b as int,
                        x,
                        v,
                    ));
                }
            }
        },
        _ => {},
    }
}

/// A node it speaks of is there, and it has one bit.
pub(crate) proof fn lemma_speaks(cx: &Context, n: int, x: int)
    requires
        cx.wf(),
        0 <= n < cx.n(),
        speaks(cx.nodes@, n, x),
    ensures
        0 <= x < n,
        cx.w(n) == 1,
        most_spans(cx.nodes@, n) >= 2,
    decreases n,
{
    assert(cx.ok_at(n));
    match cx.nodes@[n] {
        Node::Cmp(_, a, b) => {
            assert(crate::expr::kids(cx.nodes@[n])[0] == a);
            assert(crate::expr::kids(cx.nodes@[n])[1] == b);
        },
        Node::Un(_, a) => {
            lemma_speaks(cx, a as int, x);
        },
        Node::Bin(_, a, b) => {
            lemma_speaks(cx, a as int, x);
            lemma_speaks(cx, b as int, x);
        },
        _ => {},
    }
}

/// It says what its value is.
pub(crate) proof fn lemma_truth(cx: &Context, n: int, x: int, env: term::Env)
    requires
        cx.wf(),
        0 <= n < cx.n(),
        speaks(cx.nodes@, n, x),
    ensures
        cx.val(n, env)[0] == truth(cx.nodes@, cx.tm(), n, x, cx.val(x, env)),
    decreases n,
{
    assert(cx.ok_at(n));
    lemma_speaks(cx, n, x);
    match cx.nodes@[n] {
        Node::Cmp(op, a, b) => {
            assert(cx.ok_at(a as int));
            assert(cx.ok_at(b as int));
            assert(cx.val(n, env) == crate::ops::bool_bits(
                crate::ops::holds(op, cx.val(a as int, env), cx.val(b as int, env)),
            ));
        },
        Node::Un(op, a) => {
            lemma_truth(cx, a as int, x, env);
            lemma_speaks(cx, a as int, x);
            term::lemma_value_len(cx.tm()[a as int], env);
            assert(cx.ok_at(a as int));
            assert(cx.val(n, env) == crate::ops::un_value(op, cx.val(a as int, env)));
        },
        Node::Bin(op, a, b) => {
            lemma_truth(cx, a as int, x, env);
            lemma_truth(cx, b as int, x, env);
            lemma_speaks(cx, a as int, x);
            lemma_speaks(cx, b as int, x);
            term::lemma_value_len(cx.tm()[a as int], env);
            term::lemma_value_len(cx.tm()[b as int], env);
            assert(cx.ok_at(a as int));
            assert(cx.ok_at(b as int));
            assert(cx.val(n, env) == crate::ops::bin_value(
                op,
                cx.val(a as int, env),
                cx.val(b as int, env),
            ));
        },
        _ => {},
    }
}

} // verus!
