//! Why walks over an arena end: an operand has a lower index than its user, so replacing a node
//! on a stack by its operands makes the stack lighter.

use vstd::prelude::*;
use crate::expr;
use crate::expr::{Context, Node};

verus! {

/// The weight of an index: more than three times that of any lower index.
pub open spec fn heft(i: nat) -> nat
    decreases i,
{
    if i == 0 {
        8
    } else {
        4 * heft((i - 1) as nat)
    }
}

pub proof fn lemma_heft_mono(a: nat, b: nat)
    requires
        a < b,
    ensures
        4 * heft(a) <= heft(b),
        heft(a) >= 8,
    decreases b,
{
    lemma_heft_pos(a);
    if a + 1 < b {
        lemma_heft_mono(a, (b - 1) as nat);
        lemma_heft_pos((b - 1) as nat);
    }
}

pub proof fn lemma_heft_pos(a: nat)
    ensures
        heft(a) >= 8,
    decreases a,
{
    if a > 0 {
        lemma_heft_pos((a - 1) as nat);
    }
}

/// The weight of a stack of indices.
pub open spec fn load(s: Seq<u32>) -> nat
    decreases s.len(),
{
    if s.len() == 0 {
        0
    } else {
        load(s.drop_last()) + heft(s.last() as nat)
    }
}

pub broadcast proof fn lemma_load_push(s: Seq<u32>, i: u32)
    ensures
        #[trigger] load(s.push(i)) == load(s) + heft(i as nat),
{
    assert(s.push(i).drop_last() =~= s);
}

/// Taking the front of a queue makes it lighter by that index.
pub proof fn lemma_load_front(s: Seq<u32>)
    requires
        s.len() > 0,
    ensures
        load(s) == load(s.skip(1)) + heft(s[0] as nat),
    decreases s.len(),
{
    if s.len() == 1 {
        assert(s.skip(1) =~= Seq::<u32>::empty());
        assert(s.drop_last() =~= Seq::<u32>::empty());
    } else {
        lemma_load_front(s.drop_last());
        assert(s.drop_last().skip(1) =~= s.skip(1).drop_last());
    }
}

/// The weight of a stack whose entries say whether their operands were pushed.
pub open spec fn freight(s: Seq<(u32, bool)>) -> nat
    decreases s.len(),
{
    if s.len() == 0 {
        0
    } else {
        freight(s.drop_last()) + mass(s.last())
    }
}

/// The weight of one entry.
pub open spec fn mass(e: (u32, bool)) -> nat {
    if e.1 {
        1
    } else {
        heft(e.0 as nat)
    }
}

pub broadcast proof fn lemma_freight_push(s: Seq<(u32, bool)>, e: (u32, bool))
    ensures
        #[trigger] freight(s.push(e)) == freight(s) + mass(e),
{
    assert(s.push(e).drop_last() =~= s);
}

/// Every operand of an entry whose operands were pushed is done, or waits above it.
pub open spec fn waiting(
    stack: Seq<(u32, bool)>,
    done: spec_fn(u32) -> bool,
    nodes: Seq<Node>,
) -> bool {
    forall|p: int, j: int|
        #![trigger expr::kids(nodes[stack[p].0 as int])[j]]
        0 <= p < stack.len() && stack[p].1 && 0 <= j < expr::kids(nodes[stack[p].0 as int]).len()
            ==> done(expr::kids(nodes[stack[p].0 as int])[j]) || above(
            stack,
            p,
            expr::kids(nodes[stack[p].0 as int])[j],
        )
}

/// Node `c` is on the stack above `p`.
pub open spec fn above(stack: Seq<(u32, bool)>, p: int, c: u32) -> bool {
    exists|q: int| p < q < stack.len() && (#[trigger] stack[q]).0 == c
}

/// Taking a done node off the stack.
pub proof fn lemma_wait_done(
    stack: Seq<(u32, bool)>,
    done: spec_fn(u32) -> bool,
    done1: spec_fn(u32) -> bool,
    nodes: Seq<Node>,
)
    requires
        stack.len() > 0,
        waiting(stack, done, nodes),
        done1(stack.last().0),
        forall|i: u32| #[trigger] done(i) ==> done1(i),
    ensures
        waiting(stack.drop_last(), done1, nodes),
{
    let rest = stack.drop_last();
    assert forall|p: int, j: int|
        #![trigger expr::kids(nodes[rest[p].0 as int])[j]]
        0 <= p < rest.len() && rest[p].1 && 0 <= j < expr::kids(
            nodes[rest[p].0 as int],
        ).len() implies done1(expr::kids(nodes[rest[p].0 as int])[j]) || above(
        rest,
        p,
        expr::kids(nodes[rest[p].0 as int])[j],
    ) by {
        let c = expr::kids(nodes[rest[p].0 as int])[j];
        assert(rest[p] == stack[p]);
        assert(done(c) || above(stack, p, c));
        if !done(c) {
            let q = choose|q: int| p < q < stack.len() && (#[trigger] stack[q]).0 == c;
            if q < rest.len() {
                assert(rest[q].0 == c);
            }
        }
    }
}

/// Putting a node's operands above it.
pub proof fn lemma_wait_expand(
    stack: Seq<(u32, bool)>,
    next: Seq<(u32, bool)>,
    done: spec_fn(u32) -> bool,
    nodes: Seq<Node>,
)
    requires
        stack.len() > 0,
        waiting(stack, done, nodes),
        next.len() >= stack.len(),
        forall|k: int| 0 <= k < stack.len() - 1 ==> #[trigger] next[k] == stack[k],
        next[stack.len() - 1] == (stack.last().0, true),
        forall|k: int| stack.len() <= k < next.len() ==> !(#[trigger] next[k]).1,
        forall|j: int|
            #![trigger expr::kids(nodes[stack.last().0 as int])[j]]
            0 <= j < expr::kids(nodes[stack.last().0 as int]).len() ==> done(
                expr::kids(nodes[stack.last().0 as int])[j],
            ) || above(next, stack.len() - 1, expr::kids(nodes[stack.last().0 as int])[j]),
    ensures
        waiting(next, done, nodes),
{
    assert forall|p: int, j: int|
        #![trigger expr::kids(nodes[next[p].0 as int])[j]]
        0 <= p < next.len() && next[p].1 && 0 <= j < expr::kids(
            nodes[next[p].0 as int],
        ).len() implies done(expr::kids(nodes[next[p].0 as int])[j]) || above(
        next,
        p,
        expr::kids(nodes[next[p].0 as int])[j],
    ) by {
        let c = expr::kids(nodes[next[p].0 as int])[j];
        if p < stack.len() - 1 {
            assert(next[p] == stack[p]);
            assert(done(c) || above(stack, p, c));
            if !done(c) {
                let q = choose|q: int| p < q < stack.len() && (#[trigger] stack[q]).0 == c;
                assert(next[q].0 == c);
            }
        }
    }
}

/// The nodes on a stack are there.
pub open spec fn staying(stack: Seq<(u32, bool)>, n: int) -> bool {
    forall|k: int| 0 <= k < stack.len() ==> (#[trigger] stack[k]).0 < n
}

/// Puts node `i`, just taken off the stack `stack0`, back with its operands that are not done
/// above it.
pub(crate) fn expand<F: Fn(u32) -> bool>(
    cx: &Context,
    stack: &mut Vec<(u32, bool)>,
    i: u32,
    is_done: F,
    Ghost(stack0): Ghost<Seq<(u32, bool)>>,
    Ghost(done): Ghost<spec_fn(u32) -> bool>,
)
    requires
        cx.wf(),
        i < cx.n(),
        stack0.len() > 0,
        stack0.last() == (i, false),
        old(stack)@ == stack0.drop_last(),
        staying(stack0, cx.n()),
        waiting(stack0, done, cx.nodes@),
        forall|c: u32| is_done.requires((c,)),
        forall|c: u32, b: bool| is_done.ensures((c,), b) ==> b == done(c),
    ensures
        waiting(final(stack)@, done, cx.nodes@),
        staying(final(stack)@, cx.n()),
        freight(final(stack)@) < freight(stack0),
        final(stack)@.len() >= stack0.len(),
        final(stack)@[0].0 == stack0[0].0,
{
    broadcast use lemma_freight_push;

    let ghost rest = stack@;
    proof {
        lemma_heft_pos(i as nat);
        assert(stack0 =~= rest.push((i, false)));
    }
    stack.push((i, true));
    let ghost under = freight(stack@);
    let node = cx.node(i);
    let ch = node.children();
    let mut j: usize = 0;
    while j < ch.len()
        invariant
            cx.wf(),
            i < cx.n(),
            cx.ok_at(i as int),
            node == cx.nodes@[i as int],
            ch@ == expr::kids(node),
            j <= ch.len(),
            ch.len() <= 3,
            forall|c: u32| is_done.requires((c,)),
            forall|c: u32, b: bool| is_done.ensures((c,), b) ==> b == done(c),
            staying(stack@, cx.n()),
            stack@.len() > rest.len(),
            stack@[rest.len() as int] == (i, true),
            forall|k: int| 0 <= k < rest.len() ==> #[trigger] stack@[k] == rest[k],
            forall|k: int| rest.len() < k < stack@.len() ==> !(#[trigger] stack@[k]).1,
            forall|q: int|
                #![trigger expr::kids(node)[q]]
                0 <= q < j ==> done(expr::kids(node)[q]) || above(
                    stack@,
                    rest.len() as int,
                    expr::kids(node)[q],
                ),
            4 * (freight(stack@) - under) <= j * heft(i as nat),
        decreases ch.len() - j,
    {
        let c = ch[j];
        assert(expr::kids(node)[j as int] == c);
        assert(c < i);
        let ghost was = stack@;
        if !is_done(c) {
            proof {
                lemma_heft_mono(c as nat, i as nat);
                lemma_freight_push(was, (c, false));
            }
            stack.push((c, false));
            assert(stack@[was.len() as int].0 == c);
        }
        proof {
            assert forall|q: int| #![trigger expr::kids(node)[q]] 0 <= q < j + 1 implies done(
                expr::kids(node)[q],
            ) || above(stack@, rest.len() as int, expr::kids(node)[q]) by {
                if q < j && !done(expr::kids(node)[q]) {
                    let x = choose|x: int|
                        rest.len() < x < was.len() && (#[trigger] was[x]).0 == expr::kids(node)[q];
                    assert(stack@[x] == was[x]);
                }
            }
        }
        assert((j + 1) * heft(i as nat) == j * heft(i as nat) + heft(i as nat)) by (nonlinear_arith);
        j = j + 1;
    }
    assert(j * heft(i as nat) <= 3 * heft(i as nat)) by (nonlinear_arith)
        requires
            j <= 3,
    ;
    proof {
        lemma_wait_expand(stack0, stack@, done, cx.nodes@);
        if rest.len() > 0 {
            assert(stack@[0] == rest[0]);
        }
    }
}

/// The operands of the top of the stack, when they were pushed, are done.
pub proof fn lemma_wait_top(
    stack: Seq<(u32, bool)>,
    done: spec_fn(u32) -> bool,
    nodes: Seq<Node>,
)
    requires
        stack.len() > 0,
        stack.last().1,
        waiting(stack, done, nodes),
    ensures
        forall|j: int|
            0 <= j < expr::kids(nodes[stack.last().0 as int]).len() ==> done(
                #[trigger] expr::kids(nodes[stack.last().0 as int])[j],
            ),
{
    let p = stack.len() - 1;
    assert(stack[p] == stack.last());
    assert forall|j: int| 0 <= j < expr::kids(nodes[stack.last().0 as int]).len() implies done(
        #[trigger] expr::kids(nodes[stack.last().0 as int])[j],
    ) by {
        assert(done(expr::kids(nodes[stack[p].0 as int])[j]) || above(
            stack,
            p,
            expr::kids(nodes[stack[p].0 as int])[j],
        ));
    }
}

} // verus!
