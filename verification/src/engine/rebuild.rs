//! Rebuilding nodes over other operands.

use vstd::prelude::*;
use crate::term;
use crate::expr;
use crate::ops;
use crate::engine::runner;
use crate::dfs;
use std::collections::HashMap;
use crate::dfs::expand;
use crate::engine::fin::Stop;
use crate::engine::runner::Runner;
use crate::expr::{Context, Node};
use crate::term::{Env, Term};

verus! {

broadcast use {crate::term::lemma_value_len, vstd::std_specs::hash::group_hash_axioms};

/// The nodes `ks` have the values of the operands of `node` at `env`.
pub open spec fn same_kids(node: Node, ks: Seq<u32>, terms: Seq<Term>, env: Env) -> bool {
    forall|j: int|
        #![trigger ks[j]]
        0 <= j < ks.len() ==> term::value(terms[ks[j] as int], env) == term::value(
            terms[expr::kids(node)[j] as int],
            env,
        )
}

/// The value of a node over the values `vs` of its operands; its own where it has none.
pub open spec fn value_over(node: Node, w: nat, own: Seq<bool>, vs: Seq<Seq<bool>>) -> Seq<bool> {
    match node {
        Node::Const(_) => own,
        Node::Sym(_) => own,
        Node::Un(op, _) => ops::un_value(op, vs[0]),
        Node::Bin(op, _, _) => ops::bin_value(op, vs[0], vs[1]),
        Node::Cmp(op, _, _) => ops::bool_bits(ops::holds(op, vs[0], vs[1])),
        Node::Zext(_) => ops::zext_bits(vs[0], w),
        Node::Sext(_) => ops::sext_bits(vs[0], w),
        Node::Extract(_, lo) => vs[0].subrange(lo as int, lo + w),
        Node::Concat(_, _) => vs[1] + vs[0],
        Node::Select(_, _, _) => if vs[0][0] {
            vs[1]
        } else {
            vs[2]
        },
    }
}

/// The values of nodes.
pub open spec fn values_at(terms: Seq<Term>, ks: Seq<u32>, env: Env) -> Seq<Seq<bool>> {
    Seq::new(ks.len(), |j: int| term::value(terms[ks[j] as int], env))
}

/// The nodes `ks` can stand for the operands of `node`.
pub open spec fn fit_kids(node: Node, ks: Seq<u32>, terms: Seq<Term>) -> bool {
    &&& ks.len() == expr::kids(node).len()
    &&& forall|j: int|
        #![trigger ks[j]]
        0 <= j < ks.len() ==> ks[j] < terms.len() && term::twidth(terms[ks[j] as int]) == term::twidth(
            terms[expr::kids(node)[j] as int],
        )
}

/// Where two nodes have one value, the results of replacing one by the other have one too.
pub open spec fn replaced(
    m: Map<u32, u32>,
    terms: Seq<Term>,
    from: u32,
    to: u32,
) -> bool {
    forall|i: u32| #[trigger]
        m.contains_key(i) ==> i < terms.len() && m[i] < terms.len() && term::twidth(terms[i as int])
            == term::twidth(terms[m[i] as int]) && forall|env: Env|
            term::value(terms[from as int], env) == term::value(terms[to as int], env) ==> #[trigger] term::value(
                terms[i as int],
                env,
            ) == term::value(terms[m[i] as int], env)
}

/// The nodes replaced so far.
pub open spec fn has_key(m: Map<u32, u32>) -> spec_fn(u32) -> bool {
    |i: u32| m.contains_key(i)
}

proof fn lemma_replaced_grow(
    m: Map<u32, u32>,
    terms: Seq<Term>,
    more: Seq<Term>,
    from: u32,
    to: u32,
)
    requires
        replaced(m, terms, from, to),
        from < terms.len(),
        to < terms.len(),
        terms.len() <= more.len(),
        forall|i: int| 0 <= i < terms.len() ==> #[trigger] more[i] == terms[i],
    ensures
        replaced(m, more, from, to),
{
    assert(more[from as int] == terms[from as int]);
    assert(more[to as int] == terms[to as int]);
    assert forall|i: u32| #[trigger] m.contains_key(i) implies i < more.len() && m[i] < more.len()
        && term::twidth(more[i as int]) == term::twidth(more[m[i] as int]) && forall|env: Env|
        term::value(more[from as int], env) == term::value(more[to as int], env) ==> #[trigger] term::value(
            more[i as int],
            env,
        ) == term::value(more[m[i] as int], env) by {
        assert(more[i as int] == terms[i as int]);
        assert(more[m[i] as int] == terms[m[i] as int]);
    }
}

impl<'a> Runner<'a> {
    /// The node `i` over the operands `ks`.
    pub(crate) fn rebuild(&mut self, cx: &mut Context, i: u32, ks: &Vec<u32>) -> (out: Result<
        u32,
        Stop,
    >)
        requires
            old(self).wf(old(cx)),
            i < old(cx).n(),
            fit_kids(old(cx).nodes@[i as int], ks@, old(cx).tm()),
        ensures
            runner::went(final(self), final(cx), old(self), old(cx)),
            out matches Err(e) ==> final(self).refuses(final(cx), e) && runner::no_room(e),
            out matches Ok(x) ==> forall|env: Env| #[trigger]
                final(cx).val(x as int, env) == value_over(
                    old(cx).nodes@[i as int],
                    old(cx).w(i as int),
                    old(cx).val(i as int, env),
                    values_at(old(cx).tm(), ks@, env),
                ),
            out matches Ok(x) ==> x < final(cx).n() && final(cx).w(x as int) == old(cx).w(i as int)
                && forall|env: Env|
                same_kids(old(cx).nodes@[i as int], ks@, old(cx).tm(), env) ==> #[trigger] final(cx).val(x as int, env) == old(cx).val(i as int, env),
    {
        let node = cx.node(i);
        let w = cx.wid(i);
        let ghost k = expr::kids(node);
        let ghost tm = cx.tm();
        proof {
            assert(cx.ok_at(i as int));
            if k.len() > 0 {
                assert(cx.ok_at(k[0] as int));
                assert(ks@[0] < tm.len());
            }
            if k.len() > 1 {
                assert(cx.ok_at(k[1] as int));
                assert(ks@[1] < tm.len());
            }
            if k.len() > 2 {
                assert(cx.ok_at(k[2] as int));
                assert(ks@[2] < tm.len());
            }
            assert forall|env: Env, j: int|
                same_kids(node, ks@, tm, env) && 0 <= j < k.len() implies term::value(
                tm[#[trigger] ks@[j] as int],
                env,
            ) == #[trigger] term::value(tm[k[j] as int], env) by {}
        }
        match node {
            Node::Const(_) => Ok(i),
            Node::Sym(_) => Ok(i),
            Node::Un(op, _) => self.c_un(cx, op, ks[0]),
            Node::Bin(op, _, _) => self.c_bin(cx, op, ks[0], ks[1]),
            Node::Cmp(op, _, _) => self.c_rel(cx, op, ks[0], ks[1]),
            Node::Zext(_) => self.c_zext(cx, ks[0], w),
            Node::Sext(_) => self.c_sext(cx, ks[0], w),
            Node::Extract(_, lo) => self.c_extract(cx, ks[0], lo, w),
            Node::Concat(_, _) => self.c_concat(cx, ks[0], ks[1]),
            Node::Select(_, _, _) => self.c_select(cx, ks[0], ks[1], ks[2]),
        }
    }

    /// `root` with the node `from` replaced by `to`.
    pub(crate) fn replace(&mut self, cx: &mut Context, root: u32, from: u32, to: u32) -> (out: Result<
        u32,
        Stop,
    >)
        requires
            old(self).wf(old(cx)),
            root < old(cx).n(),
            from < old(cx).n(),
            to < old(cx).n(),
            old(cx).w(from as int) == old(cx).w(to as int),
        ensures
            runner::went(final(self), final(cx), old(self), old(cx)),
            out matches Err(e) ==> final(self).refuses(final(cx), e),
            out matches Ok(x) ==> x < final(cx).n() && final(cx).w(x as int) == old(cx).w(
                root as int,
            ) && forall|env: Env|
                old(cx).val(from as int, env) == old(cx).val(to as int, env) ==> #[trigger] final(cx).val(x as int, env) == old(cx).val(root as int, env),
    {
        let mut done: HashMap<u32, u32> = HashMap::new();
        done.insert(from, to);
        let mut stack: Vec<(u32, bool)> = vec![(root, false)];
        let ghost top_n = cx.n();
        while stack.len() > 0
            invariant
                runner::went(self, cx, old(self), old(cx)),
                root < old(cx).n(),
                from < old(cx).n(),
                to < old(cx).n(),
                replaced(done@, cx.tm(), from, to),
                dfs::staying(stack@, cx.n()),
                dfs::waiting(stack@, has_key(done@), cx.nodes@),
                done@.contains_key(root) || (stack@.len() > 0 && stack@[0].0 == root),
            decreases dfs::freight(stack@),
        {
            let ghost stack0 = stack@;
            let ghost done0 = has_key(done@);
            let top = match stack.pop() {
                Some(t) => t,
                None => {
                    return Ok(root);
                },
            };
            let (i, expanded) = top;
            assert(stack0.last() == top);
            assert(stack@ =~= stack0.drop_last());
            proof {
                dfs::lemma_freight_push(stack@, top);
                assert(stack0 =~= stack@.push(top));
                dfs::lemma_heft_pos(i as nat);
            }
            if done.contains_key(&i) {
                proof {
                    dfs::lemma_wait_done(stack0, done0, done0, cx.nodes@);
                }
                continue;
            }
            if !expanded {
                let kept = &done;
                let is_done = |c: u32| -> (b: bool)
                    ensures
                        b == kept@.contains_key(c),
                {
                    kept.contains_key(&c)
                };
                expand(cx, &mut stack, i, is_done, Ghost(stack0), Ghost(done0));
                continue;
            }
            let ch = cx.node(i).children();
            let ghost node = cx.nodes@[i as int];
            proof {
                dfs::lemma_wait_top(stack0, done0, cx.nodes@);
            }
            let mut ks: Vec<u32> = Vec::new();
            let mut j: usize = 0;
            while j < ch.len()
                invariant
                    j <= ch.len(),
                    ch@ == expr::kids(node),
                    ks@.len() == j,
                    replaced(done@, cx.tm(), from, to),
                    done0 == has_key(done@),
                    forall|q: int| 0 <= q < expr::kids(node).len() ==> done0(#[trigger] expr::kids(node)[q]),
                    forall|q: int|
                        0 <= q < j ==> done@.contains_key(ch@[q]) && #[trigger] ks@[q] == done@[ch@[q]],
                decreases ch.len() - j,
            {
                proof {
                    assert(done0(expr::kids(node)[j as int]));
                    assert(done@.contains_key(ch@[j as int]));
                }
                match done.get(&ch[j]) {
                    Some(x) => {
                        ks.push(*x);
                    },
                    None => {},
                }
                j = j + 1;
            }
            let ghost cx1 = *cx;
            let x = self.rebuild(cx, i, &ks)?;
            let ghost m0 = done@;
            done.insert(i, x);
            proof {
                lemma_replaced_grow(m0, cx1.tm(), cx.tm(), from, to);
                assert forall|env: Env| term::value(cx.tm()[from as int], env) == term::value(
                    cx.tm()[to as int],
                    env,
                ) implies #[trigger] term::value(cx.tm()[i as int], env) == term::value(
                    cx.tm()[x as int],
                    env,
                ) by {
                    assert(cx.tm()[from as int] == cx1.tm()[from as int]);
                    assert(cx.tm()[to as int] == cx1.tm()[to as int]);
                    assert(cx.tm()[i as int] == cx1.tm()[i as int]);
                    assert forall|q: int| #![trigger ks@[q]] 0 <= q < ks@.len() implies term::value(
                        cx1.tm()[ks@[q] as int],
                        env,
                    ) == term::value(cx1.tm()[expr::kids(node)[q] as int], env) by {
                        assert(m0.contains_key(ch@[q]));
                        let _ = term::value(cx1.tm()[ch@[q] as int], env);
                    }
                    assert(same_kids(node, ks@, cx1.tm(), env));
                    assert(cx.val(x as int, env) == cx1.val(i as int, env));
                }
                assert forall|q: u32| #[trigger] done@.contains_key(q) implies q < cx.tm().len()
                    && done@[q] < cx.tm().len() && term::twidth(cx.tm()[q as int]) == term::twidth(
                    cx.tm()[done@[q] as int],
                ) && forall|env: Env|
                    term::value(cx.tm()[from as int], env) == term::value(cx.tm()[to as int], env)
                        ==> #[trigger] term::value(cx.tm()[q as int], env) == term::value(
                        cx.tm()[done@[q] as int],
                        env,
                    ) by {
                    if q != i {
                        assert(m0.contains_key(q));
                    } else {
                        assert(cx.tm()[i as int] == cx1.tm()[i as int]);
                    }
                }
                dfs::lemma_wait_done(stack0, done0, has_key(done@), cx1.nodes@);
                lemma_wait_nodes(stack@, has_key(done@), cx1.nodes@, cx.nodes@, cx1.n());
            }
        }
        match done.get(&root) {
            Some(x) => {
                proof {
                    assert(done@.contains_key(root));
                    assert forall|env: Env| old(cx).val(from as int, env) == old(cx).val(
                        to as int,
                        env,
                    ) implies #[trigger] cx.val(*x as int, env) == old(cx).val(root as int, env) by {
                        assert(cx.tm()[from as int] == old(cx).tm()[from as int]);
                        assert(cx.tm()[to as int] == old(cx).tm()[to as int]);
                        assert(cx.tm()[root as int] == old(cx).tm()[root as int]);
                        let _ = term::value(cx.tm()[root as int], env);
                    }
                    assert(cx.tm()[root as int] == old(cx).tm()[root as int]);
                }
                Ok(*x)
            },
            None => Ok(root),
        }
    }
}

/// What waits does not depend on nodes added since.
pub proof fn lemma_wait_nodes(
    stack: Seq<(u32, bool)>,
    done: spec_fn(u32) -> bool,
    nodes: Seq<Node>,
    more: Seq<Node>,
    n: int,
)
    requires
        dfs::waiting(stack, done, nodes),
        dfs::staying(stack, n),
        forall|i: int| 0 <= i < n ==> #[trigger] more[i] == nodes[i],
    ensures
        dfs::waiting(stack, done, more),
{
    assert forall|p: int, j: int|
        #![trigger expr::kids(more[stack[p].0 as int])[j]]
        0 <= p < stack.len() && stack[p].1 && 0 <= j < expr::kids(
            more[stack[p].0 as int],
        ).len() implies done(expr::kids(more[stack[p].0 as int])[j]) || dfs::above(
        stack,
        p,
        expr::kids(more[stack[p].0 as int])[j],
    ) by {
        assert(stack[p].0 < n);
        assert(more[stack[p].0 as int] == nodes[stack[p].0 as int]);
        let _ = expr::kids(nodes[stack[p].0 as int])[j];
    }
}

} // verus!
