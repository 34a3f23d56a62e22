//! Low bits by residues: the low `k` bits of `+ - * neg ~ & | ^` and left shifts by constants
//! depend only on the low `k` bits of their operands, so an expression built from them is,
//! modulo `2^k`, a function of its leaves modulo `2^k`. With few leaves and a small `k` that
//! function is a small table, computed by evaluating every combination of the leaves'
//! residues. It decides what the operations' transfer functions cannot: `x*x` is `x` modulo 2
//! and never `2` or `3` modulo 4, an odd square is 1 modulo 8, `x*(x + 1)` is even, a product
//! of four consecutive values is a multiple of 8.

use vstd::prelude::*;
use crate::term;
use crate::ops;
use crate::engine::runner;
use crate::engine::pass::demanded;
use crate::engine::pass::order;
use crate::bits;
use vstd::arithmetic::power2::pow2;
use crate::bitvec::{BitVec, MAX_WIDTH};
use crate::engine::budget::Counter;
use crate::engine::fin::Stop;
use crate::engine::runner::Runner;
use crate::expr::{Context, Node};
use crate::ops::{BinOp, UnOp};
use crate::term::{Env, Term};

verus! {

broadcast use {crate::term::lemma_value_len, vstd::std_specs::hash::group_hash_axioms};

/// The most leaves a table is built over.
pub const MAX_LEAVES: usize = 3;

/// The most nodes the expression may have.
pub const MAX_NODES: usize = 32;

/// The most combinations of the leaves' residues evaluated.
pub const MAX_COMBOS: usize = 4096;

/// One operation over residues.
enum Op {
    Leaf(usize),
    Const(BitVec),
    Un(UnOp, usize),
    Bin(BinOp, usize, usize),
    Shl(usize, usize),
}

/// An expression compiled, operands first.
struct Prog {
    ops: Vec<Op>,
    nodes: Vec<u32>,
    leaves: Vec<u32>,
    product: bool,
}

/// The values of an expression modulo `2^k`, for every combination of its leaves' residues.
pub struct Residues {
    /// The leaves, in the order their residues are enumerated.
    pub leaves: Vec<u32>,
    /// The expression's low bits per combination: combination `c` gives leaf `i` the bits of
    /// `c` from `k*i` on.
    pub values: Vec<BitVec>,
}

/// The operators whose low bits depend on their operands' low bits alone.
pub open spec fn low_un(op: UnOp) -> bool {
    op == UnOp::Neg || op == UnOp::Not
}

/// The operators whose low bits depend on their operands' low bits alone.
pub open spec fn low_bin(op: BinOp) -> bool {
    op == BinOp::Add || op == BinOp::Sub || op == BinOp::Mul || op == BinOp::And || op == BinOp::Or
        || op == BinOp::Xor
}

/// The low bits of an operation.
pub proof fn lemma_low_un(op: UnOp, a: Seq<bool>, k: int)
    requires
        low_un(op),
        0 <= k <= a.len(),
    ensures
        ops::un_value(op, a).take(k) == ops::un_value(op, a.take(k)),
{
    if op == UnOp::Not {
        assert(ops::not_bits(a).take(k) =~= ops::not_bits(a.take(k)));
    } else {
        let x = -(bits::nat_of(a) as int);
        let y = -(bits::nat_of(a.take(k)) as int);
        bits::lemma_bits_of_take(x, a.len(), k);
        bits::lemma_nat_take(a, k);
        lemma_low_num(a, k);
        vstd::arithmetic::div_mod::lemma_sub_mod_noop(0, bits::nat_of(a) as int, pow2(k as nat) as int);
        vstd::arithmetic::div_mod::lemma_sub_mod_noop(0, bits::nat_of(a.take(k)) as int, pow2(k as nat) as int);
        bits::lemma_bits_of_congruent(x, y, k as nat);
    }
}

/// A value and its low bits are congruent.
proof fn lemma_low_num(a: Seq<bool>, k: int)
    requires
        0 <= k <= a.len(),
    ensures
        (bits::nat_of(a) as int) % (pow2(k as nat) as int) == (bits::nat_of(a.take(k)) as int) % (
        pow2(k as nat) as int),
        pow2(k as nat) > 0,
{
    bits::lemma_nat_take(a, k);
    vstd::arithmetic::power2::lemma_pow2_pos(k as nat);
    vstd::arithmetic::div_mod::lemma_mod_twice(bits::nat_of(a) as int, pow2(k as nat) as int);
}

/// The low bits of an operation.
pub proof fn lemma_low_bin(op: BinOp, a: Seq<bool>, b: Seq<bool>, k: int)
    requires
        low_bin(op),
        a.len() == b.len(),
        0 <= k <= a.len(),
    ensures
        ops::bin_value(op, a, b).take(k) == ops::bin_value(op, a.take(k), b.take(k)),
{
    let w = a.len();
    let m = pow2(k as nat) as int;
    let x = bits::nat_of(a) as int;
    let y = bits::nat_of(b) as int;
    let u = bits::nat_of(a.take(k)) as int;
    let v = bits::nat_of(b.take(k)) as int;
    lemma_low_num(a, k);
    lemma_low_num(b, k);
    match op {
        BinOp::Add => {
            bits::lemma_bits_of_take(x + y, w, k);
            vstd::arithmetic::div_mod::lemma_add_mod_noop(x, y, m);
            vstd::arithmetic::div_mod::lemma_add_mod_noop(u, v, m);
            bits::lemma_bits_of_congruent(x + y, u + v, k as nat);
        },
        BinOp::Sub => {
            bits::lemma_bits_of_take(x - y, w, k);
            vstd::arithmetic::div_mod::lemma_sub_mod_noop(x, y, m);
            vstd::arithmetic::div_mod::lemma_sub_mod_noop(u, v, m);
            bits::lemma_bits_of_congruent(x - y, u - v, k as nat);
        },
        BinOp::Mul => {
            bits::lemma_bits_of_take(x * y, w, k);
            vstd::arithmetic::div_mod::lemma_mul_mod_noop(x, y, m);
            vstd::arithmetic::div_mod::lemma_mul_mod_noop(u, v, m);
            bits::lemma_bits_of_congruent(x * y, u * v, k as nat);
        },
        BinOp::And => {
            assert(ops::and_bits(a, b).take(k) =~= ops::and_bits(a.take(k), b.take(k)));
        },
        BinOp::Or => {
            assert(ops::or_bits(a, b).take(k) =~= ops::or_bits(a.take(k), b.take(k)));
        },
        _ => {
            assert(ops::xor_bits(a, b).take(k) =~= ops::xor_bits(a.take(k), b.take(k)));
        },
    }
}

/// Node `n`'s low bits at `env`.
pub open spec fn low(tm: Seq<Term>, n: u32, k: nat, env: Env) -> Seq<bool> {
    term::value(tm[n as int], env).take(k as int)
}

/// What operation `op`, at place `j`, says of the low bits of node `n`.
spec fn op_says(tm: Seq<Term>, p: Prog, op: Op, n: u32, k: nat, j: int) -> bool {
    &&& n < tm.len()
    &&& match op {
        Op::Leaf(i) => i < p.leaves@.len() && p.leaves@[i as int] == n,
        Op::Const(v) => v@.len() == k && forall|env: Env| #[trigger] low(tm, n, k, env) == v@,
        Op::Un(o, a) => a < j && low_un(o) && forall|env: Env| #[trigger]
            low(tm, n, k, env) == ops::un_value(o, low(tm, p.nodes@[a as int], k, env)),
        Op::Bin(o, a, b) => a < j && b < j && low_bin(o) && forall|env: Env| #[trigger]
            low(tm, n, k, env) == ops::bin_value(
                o,
                low(tm, p.nodes@[a as int], k, env),
                low(tm, p.nodes@[b as int], k, env),
            ),
        Op::Shl(a, s) => a < j && forall|env: Env| #[trigger]
            low(tm, n, k, env) == ops::shl_bits(low(tm, p.nodes@[a as int], k, env), s as nat),
    }
}

spec fn op_ok(tm: Seq<Term>, p: Prog, k: nat, j: int) -> bool {
    op_says(tm, p, p.ops@[j], p.nodes@[j], k, j)
}

/// The program is the expression modulo `2^k`.
spec fn prog_ok(cx: &Context, p: Prog, k: nat) -> bool {
    &&& p.ops@.len() == p.nodes@.len()
    &&& p.leaves@.len() <= MAX_LEAVES
    &&& forall|i: int|
        #![trigger p.leaves@[i]]
        0 <= i < p.leaves@.len() ==> p.leaves@[i] < cx.n() && cx.w(p.leaves@[i] as int) >= k
    &&& forall|j: int| 0 <= j < p.ops@.len() ==> #[trigger] op_ok(cx.tm(), p, k, j)
}

/// `p1` is `p0` with more in it.
spec fn longer(p1: Prog, p0: Prog) -> bool {
    &&& order::begins(p1.ops@, p0.ops@)
    &&& order::begins(p1.nodes@, p0.nodes@)
    &&& order::begins(p1.leaves@, p0.leaves@)
}

proof fn lemma_says_longer(tm: Seq<Term>, p0: Prog, p1: Prog, op: Op, n: u32, k: nat, j: int)
    requires
        longer(p1, p0),
        j <= p0.nodes@.len(),
        op_says(tm, p0, op, n, k, j),
    ensures
        op_says(tm, p1, op, n, k, j),
{
}

impl Prog {
    /// The operation of node `n`.
    fn index(&self, n: u32) -> (r: Option<usize>)
        ensures
            r matches Some(i) ==> i < self.nodes@.len() && self.nodes@[i as int] == n,
    {
        let mut i: usize = 0;
        while i < self.nodes.len()
            invariant
                i <= self.nodes.len(),
            decreases self.nodes.len() - i,
        {
            if self.nodes[i] == n {
                return Some(i);
            }
            i = i + 1;
        }
        None
    }

    /// Appends an operation: none when there are too many.
    fn push(&mut self, cx: &Context, op: Op, n: u32, k: Ghost<nat>) -> (r: Option<usize>)
        requires
            prog_ok(cx, *old(self), k@),
            op_says(cx.tm(), *old(self), op, n, k@, old(self).ops@.len() as int),
        ensures
            prog_ok(cx, *final(self), k@),
            longer(*final(self), *old(self)),
            r matches Some(i) ==> i < final(self).ops@.len() && final(self).nodes@[i as int] == n
                && final(self).ops@.len() <= MAX_NODES,
    {
        let ghost p0 = *self;
        let ghost op0 = op;
        let r = self.ops.len();
        self.ops.push(op);
        self.nodes.push(n);
        proof {
            assert forall|j: int| 0 <= j < self.ops@.len() implies #[trigger] op_ok(
                cx.tm(),
                *self,
                k@,
                j,
            ) by {
                if j < r {
                    assert(op_ok(cx.tm(), p0, k@, j));
                    lemma_says_longer(cx.tm(), p0, *self, p0.ops@[j], p0.nodes@[j], k@, j);
                } else {
                    lemma_says_longer(cx.tm(), p0, *self, op0, n, k@, j);
                }
            }
        }
        if self.ops.len() > MAX_NODES {
            return None;
        }
        Some(r)
    }

    /// Compiles the expression at `x`, or none when it has more leaves or nodes than the caps.
    /// (More than `depth` operators in a chain are too many nodes.)
    fn compile(&mut self, cx: &Context, x: u32, w: u16, k: usize, depth: usize) -> (r: Option<usize>)
        requires
            cx.wf(),
            x < cx.n(),
            cx.w(x as int) == w,
            1 <= k <= w,
            prog_ok(cx, *old(self), k as nat),
        ensures
            prog_ok(cx, *final(self), k as nat),
            longer(*final(self), *old(self)),
            r matches Some(i) ==> i < final(self).ops@.len() && final(self).nodes@[i as int] == x
                && (final(self).ops@.len() <= MAX_NODES || final(self).ops@ == old(self).ops@),
        decreases depth,
    {
        if let Some(i) = self.index(x) {
            return Some(i);
        }
        if depth == 0 {
            return None;
        }
        if let Some(v) = cx.const_val(x) {
            let c = v.extract(0, k);
            proof {
                assert forall|env: Env| #[trigger] low(cx.tm(), x, k as nat, env) == c@ by {
                    assert(cx.val(x as int, env) == v@);
                    assert(v@.take(k as int) =~= v@.subrange(0, k as int));
                }
            }
            return self.push(cx, Op::Const(c), x, Ghost(k as nat));
        }
        match cx.node(x) {
            Node::Un(op, a) => {
                if op == UnOp::Neg || op == UnOp::Not {
                    proof {
                        assert(cx.ok_at(a as int));
                    }
                    let i = match self.compile(cx, a, w, k, depth - 1) {
                        Some(i) => i,
                        None => {
                            return None;
                        },
                    };
                    proof {
                        assert forall|env: Env| #[trigger] low(cx.tm(), x, k as nat, env)
                            == ops::un_value(op, low(cx.tm(), a, k as nat, env)) by {
                            lemma_low_un(op, cx.val(a as int, env), k as int);
                        }
                    }
                    return self.push(cx, Op::Un(op, i), x, Ghost(k as nat));
                }
            },
            Node::Bin(op, a, b) => {
                let arith = op == BinOp::Add || op == BinOp::Sub || op == BinOp::Mul || op
                    == BinOp::And || op == BinOp::Or || op == BinOp::Xor;
                proof {
                    assert(cx.ok_at(a as int));
                    assert(cx.ok_at(b as int));
                }
                if arith {
                    let i = match self.compile(cx, a, w, k, depth - 1) {
                        Some(i) => i,
                        None => {
                            return None;
                        },
                    };
                    let ghost p1 = *self;
                    let j = match self.compile(cx, b, w, k, depth - 1) {
                        Some(j) => j,
                        None => {
                            return None;
                        },
                    };
                    if op == BinOp::Mul {
                        let ghost p2 = *self;
                        self.product = true;
                        proof {
                            assert forall|j: int| 0 <= j < self.ops@.len() implies #[trigger] op_ok(
                                cx.tm(),
                                *self,
                                k as nat,
                                j,
                            ) by {
                                assert(op_ok(cx.tm(), p2, k as nat, j));
                                lemma_says_longer(
                                    cx.tm(),
                                    p2,
                                    *self,
                                    p2.ops@[j],
                                    p2.nodes@[j],
                                    k as nat,
                                    j,
                                );
                            }
                        }
                    }
                    proof {
                        assert(self.nodes@[i as int] == p1.nodes@[i as int]);
                        assert forall|env: Env| #[trigger] low(cx.tm(), x, k as nat, env)
                            == ops::bin_value(
                            op,
                            low(cx.tm(), a, k as nat, env),
                            low(cx.tm(), b, k as nat, env),
                        ) by {
                            lemma_low_bin(
                                op,
                                cx.val(a as int, env),
                                cx.val(b as int, env),
                                k as int,
                            );
                        }
                    }
                    return self.push(cx, Op::Bin(op, i, j), x, Ghost(k as nat));
                }
                if op == BinOp::Shl {
                    if let Some(s) = cx.const_val(b) {
                        let i = match self.compile(cx, a, w, k, depth - 1) {
                            Some(i) => i,
                            None => {
                                return None;
                            },
                        };
                        let n = s.amount(k);
                        proof {
                            assert forall|env: Env| #[trigger] low(cx.tm(), x, k as nat, env)
                                == ops::shl_bits(
                                low(cx.tm(), a, k as nat, env),
                                n as nat,
                            ) by {
                                let v = cx.val(a as int, env);
                                assert(cx.val(b as int, env) == s@);
                                assert(ops::shl_bits(v, bits::nat_of(s@)).take(k as int)
                                    =~= ops::shl_bits(v.take(k as int), n as nat));
                            }
                        }
                        return self.push(cx, Op::Shl(i, n), x, Ghost(k as nat));
                    }
                }
            },
            _ => {},
        }
        if self.leaves.len() >= MAX_LEAVES {
            return None;
        }
        let i = self.leaves.len();
        let ghost p0 = *self;
        self.leaves.push(x);
        proof {
            assert forall|j: int| 0 <= j < self.ops@.len() implies #[trigger] op_ok(
                cx.tm(),
                *self,
                k as nat,
                j,
            ) by {
                assert(op_ok(cx.tm(), p0, k as nat, j));
                lemma_says_longer(cx.tm(), p0, *self, p0.ops@[j], p0.nodes@[j], k as nat, j);
            }
        }
        self.push(cx, Op::Leaf(i), x, Ghost(k as nat))
    }
}

/// The leaves' low bits at `env`, one after the other.
pub open spec fn word(tm: Seq<Term>, leaves: Seq<u32>, k: nat, env: Env) -> Seq<bool> {
    Seq::new(k * leaves.len(), |i: int| term::value(tm[leaves[i / k as int] as int], env)[i % k as int])
}

/// The bits of leaf `i`.
proof fn lemma_word(tm: Seq<Term>, leaves: Seq<u32>, k: nat, env: Env, i: int)
    requires
        k > 0,
        0 <= i < leaves.len(),
        term::value(tm[leaves[i] as int], env).len() >= k,
    ensures
        0 <= k * i <= k * i + k <= k * leaves.len(),
        word(tm, leaves, k, env).subrange(k * i, k * i + k) == low(tm, leaves[i], k, env),
{
    assert(0 <= k * i && k * i + k <= k * leaves.len()) by (nonlinear_arith)
        requires
            k > 0,
            0 <= i,
            i + 1 <= leaves.len(),
    ;
    let s = word(tm, leaves, k, env).subrange(k * i, k * i + k);
    assert forall|j: int| 0 <= j < k implies s[j] == low(tm, leaves[i], k, env)[j] by {
        vstd::arithmetic::mul::lemma_mul_is_commutative(k as int, i);
        vstd::arithmetic::div_mod::lemma_fundamental_div_mod_converse(k * i + j, k as int, i, j);
    }
    assert(s =~= low(tm, leaves[i], k, env));
}

/// The combination of the leaves' residues that `c` numbers is the leaves' low bits at `env`.
spec fn at_word(cx: &Context, p: Prog, k: nat, c: Seq<bool>, env: Env) -> bool {
    c == word(cx.tm(), p.leaves@, k, env)
}

/// The low bits at combination `c` of the compiled expression.
fn eval(cx: &Context, p: &Prog, k: usize, c: &BitVec) -> (out: Vec<BitVec>)
    requires
        cx.wf(),
        1 <= k <= MAX_WIDTH,
        prog_ok(cx, *p, k as nat),
        c@.len() == k * p.leaves@.len(),
    ensures
        out@.len() == p.ops@.len(),
        forall|j: int, env: Env|
            #![trigger out@[j], at_word(cx, *p, k as nat, c@, env)]
            0 <= j < out@.len() && at_word(cx, *p, k as nat, c@, env) ==> out@[j]@ == low(
                cx.tm(),
                p.nodes@[j],
                k as nat,
                env,
            ),
{
    let mut out: Vec<BitVec> = Vec::new();
    while out.len() < p.ops.len()
        invariant
            cx.wf(),
            1 <= k <= MAX_WIDTH,
            prog_ok(cx, *p, k as nat),
            c@.len() == k * p.leaves@.len(),
            out@.len() <= p.ops@.len(),
            forall|j: int| #![trigger out@[j]] 0 <= j < out@.len() ==> out@[j]@.len() == k,
            forall|j: int, env: Env|
                #![trigger out@[j], at_word(cx, *p, k as nat, c@, env)]
                0 <= j < out@.len() && at_word(cx, *p, k as nat, c@, env) ==> out@[j]@ == low(
                    cx.tm(),
                    p.nodes@[j],
                    k as nat,
                    env,
                ),
        decreases p.ops@.len() - out@.len(),
    {
        let j = out.len();
        let ghost o0 = out@;
        assert(op_ok(cx.tm(), *p, k as nat, j as int));
        let ghost n = p.nodes@[j as int];
        let v: BitVec = match &p.ops[j] {
            Op::Leaf(i) => {
                assert(k * *i + k <= k * p.leaves@.len() && k * *i >= 0) by (nonlinear_arith)
                    requires
                        *i + 1 <= p.leaves@.len(),
                        k >= 0,
                ;
                assert(k * *i <= k * MAX_LEAVES) by (nonlinear_arith)
                    requires
                        *i <= MAX_LEAVES,
                        k >= 0,
                ;
                let r = c.extract(k * *i, k);
                proof {
                    assert forall|env: Env| #[trigger] at_word(cx, *p, k as nat, c@, env) implies r@
                        == low(cx.tm(), n, k as nat, env) by {
                        assert(cx.ok_at(n as int));
                        lemma_word(cx.tm(), p.leaves@, k as nat, env, *i as int);
                    }
                }
                r
            },
            Op::Const(v) => {
                proof {
                    assert forall|env: Env| v@ == #[trigger] low(cx.tm(), n, k as nat, env) by {}
                }
                v.dup()
            },
            Op::Un(op, a) => {
                proof {
                    assert forall|env: Env| #[trigger] at_word(cx, *p, k as nat, c@, env) implies low(
                        cx.tm(),
                        n,
                        k as nat,
                        env,
                    ) == ops::un_value(*op, out@[*a as int]@) by {
                        let _ = low(cx.tm(), n, k as nat, env);
                    }
                }
                BitVec::apply_un(*op, &out[*a])
            },
            Op::Bin(op, a, b) => {
                proof {
                    assert forall|env: Env| #[trigger] at_word(cx, *p, k as nat, c@, env) implies low(
                        cx.tm(),
                        n,
                        k as nat,
                        env,
                    ) == ops::bin_value(*op, out@[*a as int]@, out@[*b as int]@) by {
                        let _ = low(cx.tm(), n, k as nat, env);
                    }
                }
                BitVec::apply_bin(*op, &out[*a], &out[*b])
            },
            Op::Shl(a, s) => {
                proof {
                    assert forall|env: Env| #[trigger] at_word(cx, *p, k as nat, c@, env) implies low(
                        cx.tm(),
                        n,
                        k as nat,
                        env,
                    ) == ops::shl_bits(out@[*a as int]@, *s as nat) by {
                        let _ = low(cx.tm(), n, k as nat, env);
                    }
                }
                out[*a].shl(*s)
            },
        };
        let ghost vv = v@;
        out.push(v);
        proof {
            assert forall|q: int, env: Env|
                #![trigger out@[q], at_word(cx, *p, k as nat, c@, env)]
                0 <= q < out@.len() && at_word(cx, *p, k as nat, c@, env) implies out@[q]@ == low(
                cx.tm(),
                p.nodes@[q],
                k as nat,
                env,
            ) by {
                if q < j {
                    assert(out@[q] == o0[q]);
                } else {
                    let _ = low(cx.tm(), n, k as nat, env);
                }
            }
            assert forall|q: int| #![trigger out@[q]] 0 <= q < out@.len() implies out@[q]@.len()
                == k by {
                if q < j {
                    assert(out@[q] == o0[q]);
                }
            }
        }
    }
    out
}

/// The table gives the low bits of node `x` at every assignment.
pub open spec fn table_ok(t: Residues, tm: Seq<Term>, x: u32, k: nat) -> bool {
    &&& x < tm.len()
    &&& t.values@.len() == pow2(k * t.leaves@.len())
    &&& forall|i: int| #![trigger t.leaves@[i]] 0 <= i < t.leaves@.len() ==> t.leaves@[i] < tm.len()
    &&& forall|env: Env| #[trigger]
        low(tm, x, k, env) == t.values@[bits::nat_of(word(tm, t.leaves@, k, env)) as int]@
}

/// The key of a table: the node and how many bits.
pub open spec fn table_key(x: u32, k: nat) -> u64 {
    (x as u64 * 0x1_0000_0000 + k) as u64
}

/// The tables kept are right.
#[verifier::opaque]
pub open spec fn tables_ok(m: Map<u64, Option<Residues>>, tm: Seq<Term>) -> bool {
    forall|x: u32, k: u32|
        #![trigger m.contains_key(table_key(x, k as nat))]
        m.contains_key(table_key(x, k as nat)) ==> (m[table_key(x, k as nat)] matches Some(t)
            ==> table_ok(t, tm, x, k as nat))
}

/// Tables stay right as the arena grows.
pub proof fn lemma_tables_grow(
    m: Map<u64, Option<Residues>>,
    terms: Seq<Term>,
    more: Seq<Term>,
)
    requires
        tables_ok(m, terms),
        terms.len() <= more.len(),
        forall|i: int| 0 <= i < terms.len() ==> #[trigger] more[i] == terms[i],
    ensures
        tables_ok(m, more),
{
    reveal(tables_ok);
    assert forall|x: u32, k: u32|
        #![trigger m.contains_key(table_key(x, k as nat))]
        m.contains_key(table_key(x, k as nat)) implies (m[table_key(x, k as nat)] matches Some(t)
        ==> table_ok(t, more, x, k as nat)) by {
        if let Some(t) = m[table_key(x, k as nat)] {
            assert(table_ok(t, terms, x, k as nat));
            assert forall|i: int| #![trigger t.leaves@[i]] 0 <= i < t.leaves@.len() implies t.leaves@[i]
                < more.len() by {}
            assert forall|env: Env| #[trigger] low(more, x, k as nat, env)
                == t.values@[bits::nat_of(word(more, t.leaves@, k as nat, env)) as int]@ by {
                assert(more[x as int] == terms[x as int]);
                assert(low(terms, x, k as nat, env) == low(more, x, k as nat, env));
                let u = word(more, t.leaves@, k as nat, env);
                let v = word(terms, t.leaves@, k as nat, env);
                assert forall|i: int| 0 <= i < u.len() implies u[i] == v[i] by {
                    let q = i / k as int;
                    assert(0 <= q < t.leaves@.len()) by (nonlinear_arith)
                        requires
                            q == i / k as int,
                            0 <= i < k * t.leaves@.len(),
                            k >= 0,
                    ;
                    let _ = t.leaves@[q];
                }
                assert(u =~= v);
            }
        }
    }
}

/// Keys tell nodes and bits apart.
proof fn lemma_key(x: u32, k: u32, y: u32, j: u32)
    requires
        table_key(x, k as nat) == table_key(y, j as nat),
    ensures
        x == y,
        k == j,
{
    assert(x as int * 0x1_0000_0000 + k < 0x1_0000_0000_0000_0000);
    assert(y as int * 0x1_0000_0000 + j < 0x1_0000_0000_0000_0000);
}

impl<'a> Runner<'a> {
    fn table(&mut self, cx: &Context, x: u32, k: u32) -> (out: Result<Option<Residues>, Stop>)
        requires
            old(self).wf(cx),
            x < cx.n(),
        ensures
            runner::went(final(self), cx, old(self), cx),
            out matches Err(e) ==> final(self).refuses(cx, e),
            final(self).metered(old(self)),
            out matches Ok(Some(t)) ==> table_ok(t, cx.tm(), x, k as nat),
    {
        let w = cx.wid(x);
        if k == 0 || k > w as u32 {
            return Ok(None);
        }
        let kk: usize = k as usize;
        let mut p = Prog { ops: Vec::new(), nodes: Vec::new(), leaves: Vec::new(), product: false };
        let root = match p.compile(cx, x, w, kk, MAX_NODES + 1) {
            Some(r) => r,
            None => {
                return Ok(None);
            },
        };
        if !p.product {
            return Ok(None);
        }
        assert(kk * p.leaves@.len() <= 512 * 3) by (nonlinear_arith)
            requires
                kk <= 512,
                p.leaves@.len() <= 3,
        ;
        let width = kk * p.leaves.len();
        if width > 12 {
            return Ok(None);
        }
        let combos: usize = power(width);
        if combos > MAX_COMBOS {
            return Ok(None);
        }
        assert(combos * p.ops@.len() <= 4096 * 32) by (nonlinear_arith)
            requires
                combos <= 4096,
                p.ops@.len() <= 32,
        ;
        let work: u64 = (combos * p.ops.len()) as u64 / 64 + 1;
        self.charge(Counter::PassWork, work)?;
        let mut values: Vec<BitVec> = Vec::new();
        while values.len() < combos
            invariant
                cx.wf(),
                1 <= kk <= MAX_WIDTH,
                prog_ok(cx, p, kk as nat),
                root < p.ops@.len(),
                p.nodes@[root as int] == x,
                width == kk * p.leaves@.len(),
                width <= 12,
                combos == pow2(width as nat),
                combos <= MAX_COMBOS,
                values@.len() <= combos,
                forall|c: int, env: Env|
                    #![trigger values@[c], low(cx.tm(), x, kk as nat, env)]
                    0 <= c < values@.len() && c == bits::nat_of(
                        word(cx.tm(), p.leaves@, kk as nat, env),
                    ) ==> values@[c]@ == low(cx.tm(), x, kk as nat, env),
            decreases combos - values@.len(),
        {
            let c = values.len();
            let ghost v0 = values@;
            let bits_c = BitVec::from_u64(width, c as u64);
            let vals = eval(cx, &p, kk, &bits_c);
            let v = vals[root].dup();
            values.push(v);
            proof {
                assert forall|q: int, env: Env|
                    #![trigger values@[q], low(cx.tm(), x, kk as nat, env)]
                    0 <= q < values@.len() && q == bits::nat_of(
                        word(cx.tm(), p.leaves@, kk as nat, env),
                    ) implies values@[q]@ == low(cx.tm(), x, kk as nat, env) by {
                    if q < c {
                        assert(values@[q] == v0[q]);
                    } else {
                        bits::lemma_bits_of_nat(word(cx.tm(), p.leaves@, kk as nat, env));
                        assert(at_word(cx, p, kk as nat, bits_c@, env));
                        let _ = vals@[root as int];
                    }
                }
            }
        }
        let t = Residues { leaves: p.leaves, values };
        proof {
            assert forall|env: Env| #[trigger] low(cx.tm(), x, kk as nat, env)
                == t.values@[bits::nat_of(word(cx.tm(), t.leaves@, kk as nat, env)) as int]@ by {
                bits::lemma_nat_bound(word(cx.tm(), t.leaves@, kk as nat, env));
                let _ = t.values@[bits::nat_of(word(cx.tm(), t.leaves@, kk as nat, env)) as int];
            }
        }
        Ok(Some(t))
    }

    /// Makes sure that the table of `x` modulo `2^k` is kept, if it fits the caps (a node's
    /// table never changes).
    pub(crate) fn residues(&mut self, cx: &Context, x: u32, k: u32) -> (out: Result<u64, Stop>)
        requires
            old(self).wf(cx),
            x < cx.n(),
        ensures
            runner::went(final(self), cx, old(self), cx),
            out matches Err(e) ==> final(self).refuses(cx, e),
            out matches Ok(key) ==> key == table_key(x, k as nat)
                && final(self).residues@.contains_key(key),
    {
        let key: u64 = x as u64 * 0x1_0000_0000 + k as u64;
        if self.residues.contains_key(&key) {
            return Ok(key);
        }
        let t = self.table(cx, x, k)?;
        let ghost m0 = self.residues@;
        self.residues.insert(key, t);
        proof {
            reveal(tables_ok);
            assert forall|y: u32, j: u32|
                #![trigger self.residues@.contains_key(table_key(y, j as nat))]
                self.residues@.contains_key(table_key(y, j as nat)) implies (self.residues@[table_key(y, j as nat)] matches Some(
                t,
            ) ==> table_ok(t, cx.tm(), y, j as nat)) by {
                if table_key(y, j as nat) == key {
                    lemma_key(x, k, y, j);
                } else {
                    assert(m0.contains_key(table_key(y, j as nat)));
                }
            }
        }
        Ok(key)
    }
}

/// What the bits of a mask of a node are at every assignment.
pub enum LowForm {
    /// Those of a constant.
    Const(BitVec),
    /// Those of a leaf.
    Leaf(u32),
}

/// The low `k` bits of `a` and `b` agree where `m` is set.
spec fn match_low(a: Seq<bool>, b: Seq<bool>, m: Seq<bool>, k: int) -> bool {
    &&& a.len() == k
    &&& b.len() == k
    &&& forall|i: int| #![trigger m[i]] 0 <= i < k && m[i] ==> a[i] == b[i]
}

/// Whether the low `k` bits of `a` and `b` agree where `m` is set.
fn matches_low(a: &BitVec, b: &BitVec, m: &BitVec, k: usize) -> (r: bool)
    requires
        k <= m@.len(),
    ensures
        r == match_low(a@, b@, m@, k as int),
{
    if a.len() != k || b.len() != k {
        return false;
    }
    let mut i: usize = 0;
    while i < k
        invariant
            i <= k <= m@.len(),
            a@.len() == k,
            b@.len() == k,
            forall|j: int| #![trigger m@[j]] 0 <= j < i && m@[j] ==> a@[j] == b@[j],
        decreases k - i,
    {
        if m.at(i) && a.at(i) != b.at(i) {
            assert(m@[i as int]);
            return false;
        }
        i = i + 1;
    }
    true
}

/// Whether the bits of `m` are the same in every value of a table.
fn all_same(t: &Residues, m: &BitVec, k: usize) -> (r: bool)
    requires
        k <= m@.len(),
        t.values@.len() > 0,
    ensures
        r ==> forall|q: int|
            0 <= q < t.values@.len() ==> match_low(
                (#[trigger] t.values@[q])@,
                t.values@[0]@,
                m@,
                k as int,
            ),
{
    let mut q: usize = 0;
    while q < t.values.len()
        invariant
            q <= t.values@.len(),
            t.values@.len() > 0,
            k <= m@.len(),
            forall|p: int|
                0 <= p < q ==> match_low(
                    (#[trigger] t.values@[p])@,
                    t.values@[0]@,
                    m@,
                    k as int,
                ),
        decreases t.values@.len() - q,
    {
        if !matches_low(&t.values[q], &t.values[0], m, k) {
            return false;
        }
        q = q + 1;
    }
    true
}

/// Whether the bits of `m` are those of leaf `i` in every value of a table.
fn all_leaf(t: &Residues, i: usize, m: &BitVec, k: usize) -> (r: bool)
    requires
        k <= m@.len(),
        k * t.leaves@.len() <= 12,
        0 <= k * i <= k * i + k <= k * t.leaves@.len(),
        t.values@.len() <= MAX_COMBOS,
        i < t.leaves@.len(),
    ensures
        r ==> forall|q: int|
            0 <= q < t.values@.len() ==> match_low(
                (#[trigger] t.values@[q])@,
                bits::bits_of(q, (k * t.leaves@.len()) as nat).subrange(k * i, k * i + k),
                m@,
                k as int,
            ),
{
    let width: usize = k * t.leaves.len();
    let lo: usize = k * i;
    let mut q: usize = 0;
    while q < t.values.len()
        invariant
            q <= t.values@.len(),
            t.values@.len() <= MAX_COMBOS,
            k <= m@.len(),
            width == k * t.leaves@.len(),
            lo == k * i,
            lo + k <= width,
            forall|p: int|
                0 <= p < q ==> match_low(
                    (#[trigger] t.values@[p])@,
                    bits::bits_of(p, width as nat).subrange(lo as int, lo + k),
                    m@,
                    k as int,
                ),
        decreases t.values@.len() - q,
    {
        let c = BitVec::from_u64(width, q as u64);
        let part = c.extract(lo, k);
        if !matches_low(&t.values[q], &part, m, k) {
            return false;
        }
        q = q + 1;
    }
    true
}

/// The bits of `m` are at every assignment those of the form.
pub open(crate) spec fn form_meets(f: LowForm, cx: &Context, x: u32, m: Seq<bool>) -> bool {
    match f {
        LowForm::Const(v) => v@.len() == m.len() && forall|env: Env|
            demanded::agree(v@, #[trigger] cx.val(x as int, env), m),
        LowForm::Leaf(l) => l < cx.n() && cx.w(l as int) == m.len() && forall|env: Env|
            demanded::agree(#[trigger] cx.val(l as int, env), cx.val(x as int, env), m),
    }
}

impl<'a> Runner<'a> {
    /// What the bits of `m` of `x` are, where its residues show that they are a constant or one
    /// leaf's.
    pub(crate) fn low_form(&mut self, cx: &Context, x: u32, m: &BitVec) -> (out: Result<
        Option<LowForm>,
        Stop,
    >)
        requires
            old(self).wf(cx),
            x < cx.n(),
            cx.w(x as int) == m@.len(),
        ensures
            runner::went(final(self), cx, old(self), cx),
            out matches Err(e) ==> final(self).refuses(cx, e),
            out matches Ok(Some(f)) ==> form_meets(f, cx, x, m@),
    {
        proof {
            assert(cx.ok_at(x as int));
        }
        let k: usize = m.len() - m.clz();
        if k == 0 || k > 12 {
            return Ok(None);
        }
        let key = self.residues(cx, x, k as u32)?;
        let t = match self.residues.get(&key) {
            Some(Some(t)) => t,
            _ => {
                return Ok(None);
            },
        };
        proof {
            reveal(tables_ok);
            assert(table_ok(*t, cx.tm(), x, k as nat));
            assert forall|env: Env| #[trigger] cx.val(x as int, env).take(k as int) == low(
                cx.tm(),
                x,
                k as nat,
                env,
            ) by {}
            assert forall|i: int| #![trigger m@[i]] k <= i < m@.len() implies !m@[i] by {}
        }
        if t.values.len() == 0 || t.values.len() > MAX_COMBOS || t.leaves.len() > 12 {
            return Ok(None);
        }
        if all_same(t, m, k) {
            let v = t.values[0].zext(m.len());
            proof {
                assert forall|env: Env| demanded::agree(v@, #[trigger] cx.val(x as int, env), m@) by {
                    let wd = word(cx.tm(), t.leaves@, k as nat, env);
                    bits::lemma_nat_bound(wd);
                    let q = bits::nat_of(wd) as int;
                    let s = cx.val(x as int, env);
                    assert(low(cx.tm(), x, k as nat, env) == t.values@[q]@);
                    assert(match_low(t.values@[q]@, t.values@[0]@, m@, k as int));
                    assert forall|i: int| #![trigger m@[i]] 0 <= i < m@.len() && m@[i] implies v@[i]
                        == s[i] by {
                        assert(i < k);
                        assert(s.take(k as int)[i] == s[i]);
                    }
                }
            }
            return Ok(Some(LowForm::Const(v)));
        }
        let n: usize = t.leaves.len();
        assert(k * n <= 144) by (nonlinear_arith)
            requires
                k <= 12,
                n <= 12,
        ;
        if k * n > 12 {
            return Ok(None);
        }
        let mut i: usize = 0;
        while i < n
            invariant
                cx.wf(),
                x < cx.n(),
                runner::went(self, cx, old(self), cx),
                1 <= k <= m@.len(),
                k * n <= 12,
                n == t.leaves@.len(),
                t.values@.len() <= MAX_COMBOS,
                table_ok(*t, cx.tm(), x, k as nat),
                cx.w(x as int) == m@.len(),
                forall|j: int| #![trigger m@[j]] k <= j < m@.len() ==> !m@[j],
            decreases n - i,
        {
            let l = t.leaves[i];
            proof {
                let _ = t.leaves@[i as int];
                assert(cx.ok_at(l as int));
                assert(cx.ok_at(x as int));
                assert(k * i + k <= k * n) by (nonlinear_arith)
                    requires
                        i + 1 <= n,
                        k >= 1,
                ;
                assert(0 <= k * i) by (nonlinear_arith)
                    requires
                        k >= 1,
                ;
            }
            if cx.wid(l) as usize == m.len() && all_leaf(t, i, m, k) {
                proof {
                    assert forall|env: Env| demanded::agree(
                        #[trigger] cx.val(l as int, env),
                        cx.val(x as int, env),
                        m@,
                    ) by {
                        let wd = word(cx.tm(), t.leaves@, k as nat, env);
                        bits::lemma_nat_bound(wd);
                        bits::lemma_bits_of_nat(wd);
                        let q = bits::nat_of(wd) as int;
                        let s = cx.val(x as int, env);
                        let u = cx.val(l as int, env);
                        lemma_word(cx.tm(), t.leaves@, k as nat, env, i as int);
                        assert(low(cx.tm(), x, k as nat, env) == t.values@[q]@);
                        assert(match_low(t.values@[q]@, wd.subrange(k * i, k * i + k), m@, k as int));
                        assert forall|j: int| #![trigger m@[j]] 0 <= j < m@.len() && m@[j] implies u[j]
                            == s[j] by {
                            assert(j < k);
                            assert(s.take(k as int)[j] == s[j]);
                            assert(u.take(k as int)[j] == u[j]);
                        }
                    }
                }
                return Ok(Some(LowForm::Leaf(l)));
            }
            i = i + 1;
        }
        Ok(None)
    }
}

/// Two to the power of `k`.
fn power(k: usize) -> (r: usize)
    requires
        k <= 12,
    ensures
        r == pow2(k as nat),
        r <= 4096,
{
    let mut r: usize = 1;
    let mut i: usize = 0;
    proof {
        bits::lemma_pow2_zero();
        vstd::arithmetic::power2::lemma2_to64();
    }
    while i < k
        invariant
            i <= k <= 12,
            r == pow2(i as nat),
            r <= 4096,
            pow2(12) == 4096,
        decreases k - i,
    {
        proof {
            bits::lemma_pow2_step(i as nat);
            bits::lemma_pow2_le((i + 1) as nat, 12);
        }
        r = r * 2;
        i = i + 1;
    }
    r
}

} // verus!
