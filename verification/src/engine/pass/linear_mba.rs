//! The linear-MBA pass: linear combinations of bitwise functions of a few atoms.
//!
//! A linear MBA is determined by its signature: its values at the corners where every atom is 0
//! or all ones (see `corners`). The pass recognizes the fragment (linear operators over bitwise
//! functions of atoms, with only 0 and all-ones constants inside the bitwise parts), evaluates
//! the signature, and emits the cheaper of:
//!
//! - the affine form `c + sum of k*x`, when no conjunction of two or more atoms has a
//!   coefficient;
//! - `u0 + sum of (u0 - u)*g`, where `u0` and the `u` are the distinct signature values and `g`
//!   is the minimum form of the bitwise function true exactly at the corners with value `u`
//!   (three atoms or fewer, from the bitwise pass's table);
//! - the conjunction form `c + sum of k*(x & y & ...)` itself, read off the Moebius transform
//!   (any number of atoms), when a conjunction of two or more atoms remains.
//!
//! A form is taken only when it has the signature at every corner, so it is equal to the node.
//! The result replaces the node when the DAG gets smaller.

use vstd::prelude::*;
use crate::engine::pass::xor;
use crate::engine::pass::tables;
use crate::engine::pass::linear;
use crate::engine::pass::bitwise;
use crate::engine::fin;
use crate::term;
use crate::ops;
use crate::modular;
use crate::expr;
use crate::engine::runner;
use crate::engine::pass::corners;
use crate::bits;
use crate::algebra;
use vstd::arithmetic::power2::pow2;
use std::collections::HashMap;
use crate::bitvec::{BitVec, MAX_WIDTH};
use crate::engine::budget::Counter;
use crate::engine::fin::{Fin, Step, Stop};
use crate::engine::pass::forms::Form;
use crate::engine::runner::{lists, Runner};
use crate::engine::stats::{bump, PassKind};
use crate::expr::{Context, Node};
use crate::ops::{BinOp, UnOp};
use crate::term::{Env, Term};

verus! {

broadcast use {crate::term::lemma_value_len, vstd::std_specs::hash::group_hash_axioms};

/// The most atoms (the signature has `2^t` entries).
pub const MAX_ATOMS: usize = 6;

/// The most fragment nodes examined per candidate.
pub const MAX_REGION: usize = 256;

/// The most entries a walk takes off its stack: each of the nodes is read in two ways at most.
const MAX_STEPS: usize = 4096;

/// The fragment below a node: its atoms (in the canonical order), its interior nodes operands
/// first, and whether it mixes linear and bitwise operators.
struct Region {
    atoms: Vec<u32>,
    order: Vec<u32>,
    mixed: bool,
}

/// How a node is read by its user: as a term of a linear combination, or as an operand of a
/// bitwise function (which must itself be a bitwise function of atoms).
#[derive(Clone, Copy, PartialEq, Eq, Structural)]
enum Mode {
    Linear,
    Bitwise,
}

/// Whether the node is a constant that is 0 or all ones, or no constant.
fn plain(cx: &Context, c: u32) -> (r: bool)
    requires
        cx.wf(),
        c < cx.n(),
{
    match cx.const_val(c) {
        Some(v) => v.is_zero() || v.is_ones(),
        None => true,
    }
}

/// Whether node `i` is interior when read in `mode` (otherwise it is an atom).
fn interior(cx: &Context, i: u32, mode: Mode) -> (r: bool)
    requires
        cx.wf(),
        i < cx.n(),
{
    if let Some(v) = cx.const_val(i) {
        // Inside bitwise functions only 0 and all ones are uniform across bit positions.
        return mode == Mode::Linear || v.is_zero() || v.is_ones();
    }
    match cx.node(i) {
        Node::Un(UnOp::Neg, _) => mode == Mode::Linear,
        Node::Un(UnOp::Not, a) => plain(cx, a),
        Node::Bin(op, a, b) => match op {
            // Linear operators are terms, never operands of a bitwise function.
            BinOp::Mul => mode == Mode::Linear && (cx.is_const(a) || cx.is_const(b)),
            BinOp::Shl => mode == Mode::Linear && cx.is_const(b),
            BinOp::Add | BinOp::Sub => mode == Mode::Linear,
            // A bitwise operator whose constant operands are all 0 or all ones.
            BinOp::And | BinOp::Or | BinOp::Xor => plain(cx, a) && plain(cx, b),
            _ => false,
        },
        _ => false,
    }
}

/// Whether the node's operator is linear.
fn is_linear(node: &Node) -> (r: bool) {
    match node {
        Node::Un(op, _) => *op == UnOp::Neg,
        Node::Bin(op, _, _) => *op == BinOp::Add || *op == BinOp::Sub || *op == BinOp::Mul || *op
            == BinOp::Shl,
        _ => false,
    }
}

/// Whether the node's operator joins two values bit by bit.
fn is_joining(node: &Node) -> (r: bool) {
    match node {
        Node::Bin(op, _, _) => *op == BinOp::And || *op == BinOp::Or || *op == BinOp::Xor,
        _ => false,
    }
}

/// The mode in which a node's operands are read, when it is read in `mode`.
fn operand_mode(node: &Node, mode: Mode) -> (r: Mode) {
    match node {
        Node::Bin(op, _, _) => {
            if *op == BinOp::And || *op == BinOp::Or || *op == BinOp::Xor {
                Mode::Bitwise
            } else {
                Mode::Linear
            }
        },
        // `~x` is `-x - 1` among terms and a bitwise function among bitwise operands.
        Node::Un(op, _) => {
            if *op == UnOp::Not {
                mode
            } else {
                Mode::Linear
            }
        },
        _ => Mode::Linear,
    }
}

enum Walk {
    /// The region.
    Found(Region),
    /// A node is interior in one reading and an atom in another: it must be an atom.
    Conflict(u32),
    /// It is too large.
    Over,
}

/// How a node was reached: whether it is interior, and the readings seen.
#[derive(Clone, Copy)]
struct Seen {
    inner: bool,
    linear: bool,
    bitwise: bool,
}

/// Nodes of the arena.
spec fn placed(stack: Seq<(u32, Mode, bool)>, n: int) -> bool {
    forall|k: int| #![trigger stack[k]] 0 <= k < stack.len() ==> stack[k].0 < n
}

/// Puts node `a` in its place among nodes in the canonical order.
fn put(cx: &Context, v: &mut Vec<u32>, a: u32)
    requires
        cx.wf(),
        a < cx.n(),
        runner::listed(old(v)@, cx.n()),
        old(v)@.len() < usize::MAX,
    ensures
        runner::listed(final(v)@, cx.n()),
        final(v)@.len() == old(v)@.len() + 1,
{
    let ghost v0 = v@;
    let mut i: usize = 0;
    while i < v.len() && !cx.before(a, v[i])
        invariant
            cx.wf(),
            a < cx.n(),
            v@ == v0,
            runner::listed(v0, cx.n()),
            i <= v@.len(),
        decreases v@.len() - i,
    {
        i = i + 1;
    }
    v.insert(i, a);
    proof {
        assert forall|k: int| 0 <= k < v@.len() implies #[trigger] v@[k] < cx.n() by {
            if k < i {
                assert(v@[k] == v0[k]);
            } else if k > i {
                assert(v@[k] == v0[k - 1]);
            }
        }
    }
}

/// The region below `root`, where the nodes of `forced` are atoms.
fn walk(cx: &Context, root: u32, forced: &Vec<u32>) -> (r: Walk)
    requires
        cx.wf(),
        root < cx.n(),
    ensures
        r matches Walk::Found(g) ==> runner::listed(g.atoms@, cx.n()) && runner::listed(
            g.order@,
            cx.n(),
        ) && g.atoms@.len() <= MAX_ATOMS && g.order@.len() <= MAX_REGION,
{
    let mut seen: HashMap<u32, Seen> = HashMap::new();
    let mut reached: usize = 0;
    let mut order: Vec<u32> = Vec::new();
    let mut atoms: Vec<u32> = Vec::new();
    let mut lin = false;
    let mut bit = false;
    let mut stack: Vec<(u32, Mode, bool)> = Vec::new();
    stack.push((root, Mode::Linear, false));
    let mut steps: usize = 0;
    while stack.len() > 0
        invariant
            cx.wf(),
            root < cx.n(),
            placed(stack@, cx.n()),
            runner::listed(atoms@, cx.n()),
            runner::listed(order@, cx.n()),
            atoms@.len() <= MAX_ATOMS,
            reached <= MAX_REGION,
            order@.len() <= MAX_REGION,
            steps <= MAX_STEPS,
        decreases MAX_STEPS - steps,
    {
        if steps == MAX_STEPS {
            return Walk::Over;
        }
        steps = steps + 1;
        let ghost s0 = stack@;
        let (i, mode, expanded) = match stack.pop() {
            Some(t) => t,
            None => {
                return Walk::Over;
            },
        };
        assert(s0[s0.len() - 1].0 < cx.n());
        assert(placed(stack@, cx.n())) by {
            assert forall|k: int| #![trigger stack@[k]] 0 <= k < stack@.len() implies stack@[k].0
                < cx.n() by {
                assert(stack@[k] == s0[k]);
            }
        }
        if expanded {
            if order.len() >= MAX_REGION {
                return Walk::Over;
            }
            order.push(i);
            continue;
        }
        let inner = !lists(forced, i) && interior(cx, i, mode);
        let state: Option<Seen> = match seen.get(&i) {
            Some(s) => Some(*s),
            None => None,
        };
        match state {
            Some(s) => {
                if s.inner != inner {
                    return Walk::Conflict(i);
                }
                let read = if mode == Mode::Linear {
                    s.linear
                } else {
                    s.bitwise
                };
                if read {
                    continue;
                }
                seen.insert(
                    i,
                    Seen {
                        inner,
                        linear: s.linear || mode == Mode::Linear,
                        bitwise: s.bitwise || mode == Mode::Bitwise,
                    },
                );
                if !inner {
                    continue;
                }
            },
            None => {
                seen.insert(
                    i,
                    Seen { inner, linear: mode == Mode::Linear, bitwise: mode == Mode::Bitwise },
                );
                if reached >= MAX_REGION {
                    return Walk::Over;
                }
                reached = reached + 1;
                if !inner {
                    if atoms.len() >= MAX_ATOMS {
                        return Walk::Over;
                    }
                    put(cx, &mut atoms, i);
                    continue;
                }
                stack.push((i, mode, true));
            },
        }
        let node = cx.node(i);
        lin = lin || is_linear(&node);
        bit = bit || is_joining(&node);
        let m = operand_mode(&node, mode);
        let ch = node.children();
        let mut k: usize = 0;
        while k < ch.len()
            invariant
                cx.wf(),
                i < cx.n(),
                cx.ok_at(i as int),
                ch@ == expr::kids(cx.nodes@[i as int]),
                placed(stack@, cx.n()),
            decreases ch@.len() - k,
        {
            assert(expr::kids(cx.nodes@[i as int])[k as int] < i);
            stack.push((ch[k], m, false));
            k = k + 1;
        }
    }
    Walk::Found(Region { atoms, order, mixed: lin && bit })
}

/// The region below `root`, if it is one within the caps.
fn region(cx: &Context, root: u32) -> (r: Option<Region>)
    requires
        cx.wf(),
        root < cx.n(),
    ensures
        r matches Some(g) ==> runner::listed(g.atoms@, cx.n()) && runner::listed(g.order@, cx.n())
            && g.atoms@.len() <= MAX_ATOMS && g.order@.len() <= MAX_REGION,
{
    let mut forced: Vec<u32> = Vec::new();
    let mut k: usize = 0;
    while k < 32
        invariant
            cx.wf(),
            root < cx.n(),
            k <= 32,
        decreases 32 - k,
    {
        match walk(cx, root, &forced) {
            Walk::Found(r) => {
                return Some(r);
            },
            Walk::Conflict(i) => {
                if i == root {
                    return None;
                }
                forced.push(i);
            },
            Walk::Over => {
                return None;
            },
        }
        k = k + 1;
    }
    None
}

/// A row of corner values as plain values.
pub open spec fn row_view(v: Seq<BitVec>) -> Seq<Seq<bool>> {
    v.map_values(|x: BitVec| x@)
}

/// The corner values of the nodes evaluated.
struct Rows {
    ids: Vec<u32>,
    rows: Vec<Vec<BitVec>>,
    /// Whether the node is a bitwise function of the atoms.
    pure: Vec<bool>,
}

/// A row of `2^t` values of width `w` that tells node `i`.
spec fn row_ok(cx: &Context, atoms: Seq<u32>, w: nat, i: u32, row: Seq<BitVec>, pure: bool) -> bool {
    &&& i < cx.n()
    &&& cx.w(i as int) == w
    &&& row.len() == pow2(atoms.len())
    &&& forall|p: int| #![trigger row[p]] 0 <= p < row.len() ==> row[p]@.len() == w
    &&& corners::tells(cx.tm(), atoms, row_view(row), i, w)
    &&& pure ==> corners::uniform(cx.tm(), atoms, row_view(row), i, w)
}

spec fn rows_ok(cx: &Context, atoms: Seq<u32>, w: nat, t: Rows) -> bool {
    &&& t.ids@.len() == t.rows@.len()
    &&& t.ids@.len() == t.pure@.len()
    &&& forall|k: int|
        #![trigger t.rows@[k]]
        0 <= k < t.ids@.len() ==> row_ok(cx, atoms, w, t.ids@[k], t.rows@[k]@, t.pure@[k])
}

impl Rows {
    /// Where node `i` is.
    fn index(&self, i: u32) -> (r: Option<usize>)
        ensures
            r matches Some(k) ==> k < self.ids@.len() && self.ids@[k as int] == i,
    {
        let mut k: usize = 0;
        while k < self.ids.len()
            invariant
                k <= self.ids@.len(),
            decreases self.ids@.len() - k,
        {
            if self.ids[k] == i {
                return Some(k);
            }
            k = k + 1;
        }
        None
    }

    fn push(&mut self, cx: &Context, atoms: &Vec<u32>, w: Ghost<nat>, i: u32, row: Vec<BitVec>, pure: bool)
        requires
            rows_ok(cx, atoms@, w@, *old(self)),
            row_ok(cx, atoms@, w@, i, row@, pure),
        ensures
            rows_ok(cx, atoms@, w@, *final(self)),
    {
        let ghost t0 = *self;
        let ghost r = row;
        self.ids.push(i);
        self.rows.push(row);
        self.pure.push(pure);
        proof {
            assert forall|k: int| #![trigger self.rows@[k]] 0 <= k < self.ids@.len() implies row_ok(
                cx,
                atoms@,
                w@,
                self.ids@[k],
                self.rows@[k]@,
                self.pure@[k],
            ) by {
                if k < t0.ids@.len() {
                    let _ = t0.rows@[k];
                }
            }
        }
    }
}

/// Bit `j` of corner `p`.
fn corner_bit(p: usize, j: usize) -> (r: bool)
    requires
        j < MAX_ATOMS,
    ensures
        r == bits::int_bit(p as int, j as nat),
{
    proof {
        vstd::arithmetic::power2::lemma2_to64();
    }
    if j == 0 {
        p % 2 == 1
    } else if j == 1 {
        (p / 2) % 2 == 1
    } else if j == 2 {
        (p / 4) % 2 == 1
    } else if j == 3 {
        (p / 8) % 2 == 1
    } else if j == 4 {
        (p / 16) % 2 == 1
    } else {
        (p / 32) % 2 == 1
    }
}

/// How many corners there are.
fn corner_count(t: usize) -> (r: usize)
    requires
        t <= MAX_ATOMS,
    ensures
        r == pow2(t as nat),
        1 <= r <= 64,
{
    proof {
        vstd::arithmetic::power2::lemma2_to64();
    }
    if t == 0 {
        1
    } else if t == 1 {
        2
    } else if t == 2 {
        4
    } else if t == 3 {
        8
    } else if t == 4 {
        16
    } else if t == 5 {
        32
    } else {
        64
    }
}

/// The row of atom `j`.
fn atom_row(cx: &Context, atoms: &Vec<u32>, j: usize, w: usize) -> (r: Vec<BitVec>)
    requires
        cx.wf(),
        j < atoms@.len() <= MAX_ATOMS,
        w > 0,
        atoms@[j as int] < cx.n(),
        cx.w(atoms@[j as int] as int) == w,
    ensures
        row_ok(cx, atoms@, w as nat, atoms@[j as int], r@, true),
{
    let n = corner_count(atoms.len());
    let mut r: Vec<BitVec> = Vec::new();
    while r.len() < n
        invariant
            j < atoms@.len() <= MAX_ATOMS,
            r@.len() <= n,
            forall|p: int|
                #![trigger r@[p]]
                0 <= p < r@.len() ==> r@[p]@ == (if bits::int_bit(p, j as nat) {
                    bits::ones(w as nat)
                } else {
                    bits::zeros(w as nat)
                }),
        decreases n - r@.len(),
    {
        let p = r.len();
        let b = corner_bit(p, j);
        let v = BitVec::fill(w, b);
        proof {
            assert(v@ =~= (if b {
                bits::ones(w as nat)
            } else {
                bits::zeros(w as nat)
            }));
        }
        r.push(v);
    }
    proof {
        let i = atoms@[j as int];
        let rv = row_view(r@);
        assert(cx.ok_at(i as int));
        assert(bits::zeros(w as nat)[0] != bits::ones(w as nat)[0]);
        assert(corners::uniform(cx.tm(), atoms@, rv, i, w as nat)) by {
            assert forall|p: int| #![trigger rv[p]] 0 <= p < rv.len() implies rv[p] == bits::zeros(
                w as nat,
            ) || rv[p] == bits::ones(w as nat) by {
                assert(rv[p] == r@[p]@);
            }
            assert forall|env: Env, b: int|
                #![trigger term::value(cx.tm()[i as int], env)[b]]
                0 <= b < w implies term::value(cx.tm()[i as int], env)[b] == (rv[corners::corner(
                cx.tm(),
                atoms@,
                env,
                b,
            )] == bits::ones(w as nat)) by {
                corners::lemma_corner(cx.tm(), atoms@, env, b);
                let p = corners::corner(cx.tm(), atoms@, env, b);
                assert(rv[p] == r@[p]@);
                let jj = j as int;
                assert(bits::int_bit(p, jj as nat) == term::value(cx.tm()[atoms@[jj] as int], env)[b]);
            }
        }
        corners::lemma_uniform_tells(cx.tm(), atoms@, rv, i, w as nat);
    }
    r
}

/// The row of a constant.
fn const_row(cx: &Context, atoms: &Vec<u32>, i: u32, v: &BitVec) -> (r: (Vec<BitVec>, bool))
    requires
        cx.wf(),
        atoms@.len() <= MAX_ATOMS,
        i < cx.n(),
        cx.tm()[i as int] == Term::Const(v@),
        v@.len() == cx.w(i as int),
        v@.len() > 0,
    ensures
        row_ok(cx, atoms@, v@.len(), i, r.0@, r.1),
{
    let n = corner_count(atoms.len());
    let mut r: Vec<BitVec> = Vec::new();
    while r.len() < n
        invariant
            r@.len() <= n,
            forall|p: int| #![trigger r@[p]] 0 <= p < r@.len() ==> r@[p]@ == v@,
        decreases n - r@.len(),
    {
        r.push(v.dup());
    }
    let z = v.is_zero();
    let o = v.is_ones();
    let pure = z || o;
    proof {
        let w = v@.len();
        let rv = row_view(r@);
        assert forall|p: int| #![trigger rv[p]] 0 <= p < rv.len() implies rv[p] == v@ by {
            assert(rv[p] == r@[p]@);
        }
        corners::lemma_const_tells(cx.tm(), atoms@, rv, i, v@);
        if pure {
            assert(bits::zeros(w)[0] != bits::ones(w)[0]);
            assert forall|env: Env, b: int|
                #![trigger term::value(cx.tm()[i as int], env)[b]]
                0 <= b < w implies term::value(cx.tm()[i as int], env)[b] == (rv[corners::corner(
                cx.tm(),
                atoms@,
                env,
                b,
            )] == bits::ones(w)) by {
                corners::lemma_corner(cx.tm(), atoms@, env, b);
                let _ = rv[corners::corner(cx.tm(), atoms@, env, b)];
            }
        }
    }
    (r, pure)
}

/// Whether the operator is told by its operands' rows, and how.
spec fn un_line(op: UnOp) -> (int, int) {
    if op == UnOp::Neg {
        (-1int, 0int)
    } else {
        (-1int, -1int)
    }
}

/// The row of a negation or a complement.
fn un_row(cx: &Context, atoms: &Vec<u32>, w: usize, i: u32, op: UnOp, a: u32, x: &Vec<BitVec>, pure: bool) -> (r: (Vec<BitVec>, bool))
    requires
        cx.wf(),
        i < cx.n(),
        w > 0,
        cx.nodes@[i as int] == Node::Un(op, a),
        op == UnOp::Neg || op == UnOp::Not,
        row_ok(cx, atoms@, w as nat, a, x@, pure),
    ensures
        row_ok(cx, atoms@, w as nat, i, r.0@, r.1),
{
    let mut r: Vec<BitVec> = Vec::new();
    while r.len() < x.len()
        invariant
            op == UnOp::Neg || op == UnOp::Not,
            r@.len() <= x@.len(),
            forall|p: int| #![trigger x@[p]] 0 <= p < x@.len() ==> x@[p]@.len() == w,
            forall|p: int|
                #![trigger r@[p]]
                0 <= p < r@.len() ==> r@[p]@ == ops::un_value(op, x@[p]@) && r@[p]@.len() == w,
        decreases x@.len() - r@.len(),
    {
        let p = r.len();
        let v = BitVec::apply_un(op, &x[p]);
        proof {
            let _ = x@[p as int];
        }
        r.push(v);
    }
    let out_pure = pure && op == UnOp::Not;
    proof {
        assert(cx.ok_at(i as int));
        assert(cx.ok_at(a as int));
        let rv = row_view(r@);
        let xv = row_view(x@);
        let (k, d) = un_line(op);
        assert forall|p: int| #![trigger rv[p]] 0 <= p < rv.len() implies modular::eqm(
            modular::num(rv[p]),
            k * modular::num(xv[p]) + 0 * modular::num(xv[p]) + d,
            w as nat,
        ) by {
            assert(rv[p] == r@[p]@);
            assert(xv[p] == x@[p]@);
            let _ = x@[p];
            modular::lemma_eqm_un(x@[p]@);
            assert(-1 * modular::num(xv[p]) + 0 * modular::num(xv[p]) == -modular::num(xv[p]))
                by (nonlinear_arith);
        }
        assert forall|env: Env| #![trigger term::value(cx.tm()[i as int], env)] modular::eqm(
            modular::num(term::value(cx.tm()[i as int], env)),
            k * modular::num(term::value(cx.tm()[a as int], env)) + 0 * modular::num(
                term::value(cx.tm()[a as int], env),
            ) + d,
            w as nat,
        ) by {
            let v = term::value(cx.tm()[a as int], env);
            modular::lemma_eqm_un(v);
            assert(-1 * modular::num(v) + 0 * modular::num(v) == -modular::num(v))
                by (nonlinear_arith);
        }
        corners::lemma_tells(cx.tm(), atoms@, rv, i, xv, a, xv, a, k, 0, d, w as nat);
        if out_pure {
            let z = bits::zeros(w as nat);
            let o = bits::ones(w as nat);
            assert(z[0] != o[0]);
            assert(ops::not_bits(z) =~= o);
            assert(ops::not_bits(o) =~= z);
            assert(corners::uniform(cx.tm(), atoms@, rv, i, w as nat)) by {
                assert forall|p: int| #![trigger rv[p]] 0 <= p < rv.len() implies rv[p] == z
                    || rv[p] == o by {
                    assert(rv[p] == r@[p]@);
                    assert(xv[p] == x@[p]@);
                }
                assert forall|env: Env, b: int|
                    #![trigger term::value(cx.tm()[i as int], env)[b]]
                    0 <= b < w implies term::value(cx.tm()[i as int], env)[b] == (rv[corners::corner(
                    cx.tm(),
                    atoms@,
                    env,
                    b,
                )] == o) by {
                    corners::lemma_corner(cx.tm(), atoms@, env, b);
                    let p = corners::corner(cx.tm(), atoms@, env, b);
                    assert(rv[p] == r@[p]@);
                    assert(xv[p] == x@[p]@);
                    let _ = term::value(cx.tm()[a as int], env)[b];
                }
            }
        }
    }
    (r, out_pure)
}

/// The row of a sum, a difference, or a bitwise function of bitwise functions.
fn bin_row(cx: &Context, atoms: &Vec<u32>, w: usize, i: u32, op: BinOp, a: u32, b: u32, x: &Vec<BitVec>, y: &Vec<BitVec>, pure: bool) -> (r: Vec<BitVec>)
    requires
        cx.wf(),
        i < cx.n(),
        0 < w <= MAX_WIDTH,
        cx.nodes@[i as int] == Node::Bin(op, a, b),
        op == BinOp::Add || op == BinOp::Sub || (pure && (op == BinOp::And || op == BinOp::Or || op
            == BinOp::Xor)),
        row_ok(cx, atoms@, w as nat, a, x@, pure),
        row_ok(cx, atoms@, w as nat, b, y@, pure),
    ensures
        row_ok(
            cx,
            atoms@,
            w as nat,
            i,
            r@,
            op != BinOp::Add && op != BinOp::Sub,
        ),
{
    let mut r: Vec<BitVec> = Vec::new();
    while r.len() < x.len()
        invariant
            0 < w <= MAX_WIDTH,
            r@.len() <= x@.len(),
            x@.len() == y@.len(),
            forall|p: int| #![trigger x@[p]] 0 <= p < x@.len() ==> x@[p]@.len() == w,
            forall|p: int| #![trigger y@[p]] 0 <= p < y@.len() ==> y@[p]@.len() == w,
            forall|p: int|
                #![trigger r@[p]]
                0 <= p < r@.len() ==> r@[p]@ == ops::bin_value(op, x@[p]@, y@[p]@),
        decreases x@.len() - r@.len(),
    {
        let p = r.len();
        proof {
            let _ = x@[p as int];
            let _ = y@[p as int];
        }
        let v = BitVec::apply_bin(op, &x[p], &y[p]);
        r.push(v);
    }
    proof {
        assert(cx.ok_at(i as int));
        assert(cx.ok_at(a as int));
        assert(cx.ok_at(b as int));
        let rv = row_view(r@);
        let xv = row_view(x@);
        let yv = row_view(y@);
        assert forall|p: int| 0 <= p < r@.len() implies rv[p] == #[trigger] r@[p]@ && xv[p] == x@[p]@
            && yv[p] == y@[p]@ && r@[p]@.len() == w by {
            let _ = x@[p];
            let _ = y@[p];
            ops::lemma_bin_len(op, x@[p]@, y@[p]@);
        }
        if op == BinOp::Add || op == BinOp::Sub {
            let c = if op == BinOp::Add {
                1int
            } else {
                -1int
            };
            assert forall|p: int| #![trigger rv[p]] 0 <= p < rv.len() implies modular::eqm(
                modular::num(rv[p]),
                1 * modular::num(xv[p]) + c * modular::num(yv[p]) + 0,
                w as nat,
            ) by {
                let _ = r@[p];
                let _ = x@[p];
                let _ = y@[p];
                modular::lemma_eqm_ops(x@[p]@, y@[p]@);
                lemma_ones(modular::num(xv[p]), modular::num(yv[p]));
            }
            assert forall|env: Env| #![trigger term::value(cx.tm()[i as int], env)] modular::eqm(
                modular::num(term::value(cx.tm()[i as int], env)),
                1 * modular::num(term::value(cx.tm()[a as int], env)) + c * modular::num(
                    term::value(cx.tm()[b as int], env),
                ) + 0,
                w as nat,
            ) by {
                let u = term::value(cx.tm()[a as int], env);
                let v = term::value(cx.tm()[b as int], env);
                modular::lemma_eqm_ops(u, v);
                lemma_ones(modular::num(u), modular::num(v));
            }
            corners::lemma_tells(cx.tm(), atoms@, rv, i, xv, a, yv, b, 1, c, 0, w as nat);
        } else {
            let z = bits::zeros(w as nat);
            let o = bits::ones(w as nat);
            assert(z[0] != o[0]);
            assert(ops::bin_value(op, z, z) =~= z);
            assert(ops::bin_value(op, z, o) =~= (if op == BinOp::And {
                z
            } else {
                o
            }));
            assert(ops::bin_value(op, o, z) =~= (if op == BinOp::And {
                z
            } else {
                o
            }));
            assert(ops::bin_value(op, o, o) =~= (if op == BinOp::Xor {
                z
            } else {
                o
            }));
            assert(corners::uniform(cx.tm(), atoms@, rv, i, w as nat)) by {
                assert forall|p: int| #![trigger rv[p]] 0 <= p < rv.len() implies rv[p] == z
                    || rv[p] == o by {
                    let _ = r@[p];
                    let _ = xv[p];
                    let _ = yv[p];
                }
                assert forall|env: Env, q: int|
                    #![trigger term::value(cx.tm()[i as int], env)[q]]
                    0 <= q < w implies term::value(cx.tm()[i as int], env)[q] == (rv[corners::corner(
                    cx.tm(),
                    atoms@,
                    env,
                    q,
                )] == o) by {
                    corners::lemma_corner(cx.tm(), atoms@, env, q);
                    let p = corners::corner(cx.tm(), atoms@, env, q);
                    let _ = r@[p];
                    let _ = xv[p];
                    let _ = yv[p];
                    let _ = term::value(cx.tm()[a as int], env)[q];
                    let _ = term::value(cx.tm()[b as int], env)[q];
                }
            }
            corners::lemma_uniform_tells(cx.tm(), atoms@, rv, i, w as nat);
        }
    }
    r
}

proof fn lemma_ones(x: int, y: int)
    ensures
        1 * x + 1 * y == x + y,
        1 * x + -1 * y == x - y,
{
}

/// The row of a product with a constant, or of a shift left by one.
fn scaled_row(cx: &Context, atoms: &Vec<u32>, w: usize, i: u32, a: u32, x: &Vec<BitVec>, pure: bool, k: &BitVec) -> (r: Vec<BitVec>)
    requires
        cx.wf(),
        i < cx.n(),
        0 < w <= MAX_WIDTH,
        k@.len() == w,
        cx.w(i as int) == w,
        row_ok(cx, atoms@, w as nat, a, x@, pure),
        forall|env: Env|
            #![trigger term::value(cx.tm()[i as int], env)]
            modular::eqm(
                modular::num(term::value(cx.tm()[i as int], env)),
                modular::num(term::value(cx.tm()[a as int], env)) * modular::num(k@),
                w as nat,
            ),
    ensures
        row_ok(cx, atoms@, w as nat, i, r@, false),
{
    let mut r: Vec<BitVec> = Vec::new();
    while r.len() < x.len()
        invariant
            0 < w <= MAX_WIDTH,
            k@.len() == w,
            r@.len() <= x@.len(),
            forall|p: int| #![trigger x@[p]] 0 <= p < x@.len() ==> x@[p]@.len() == w,
            forall|p: int|
                #![trigger r@[p]]
                0 <= p < r@.len() ==> r@[p]@ == ops::bin_value(BinOp::Mul, x@[p]@, k@),
        decreases x@.len() - r@.len(),
    {
        let p = r.len();
        proof {
            let _ = x@[p as int];
        }
        let v = BitVec::apply_bin(BinOp::Mul, &x[p], k);
        r.push(v);
    }
    proof {
        assert(cx.ok_at(i as int));
        let rv = row_view(r@);
        let xv = row_view(x@);
        let c = modular::num(k@);
        assert forall|p: int| #![trigger r@[p]] 0 <= p < r@.len() implies r@[p]@.len() == w by {
            let _ = x@[p];
            modular::lemma_eqm_ops(x@[p]@, k@);
        }
        assert forall|p: int| #![trigger rv[p]] 0 <= p < rv.len() implies modular::eqm(
            modular::num(rv[p]),
            c * modular::num(xv[p]) + 0 * modular::num(xv[p]) + 0,
            w as nat,
        ) by {
            assert(rv[p] == r@[p]@);
            assert(xv[p] == x@[p]@);
            let _ = x@[p];
            modular::lemma_eqm_ops(x@[p]@, k@);
            vstd::arithmetic::mul::lemma_mul_is_commutative(c, modular::num(xv[p]));
            assert(0 * modular::num(xv[p]) == 0);
        }
        assert forall|env: Env| #![trigger term::value(cx.tm()[i as int], env)] modular::eqm(
            modular::num(term::value(cx.tm()[i as int], env)),
            c * modular::num(term::value(cx.tm()[a as int], env)) + 0 * modular::num(
                term::value(cx.tm()[a as int], env),
            ) + 0,
            w as nat,
        ) by {
            let v = modular::num(term::value(cx.tm()[a as int], env));
            vstd::arithmetic::mul::lemma_mul_is_commutative(c, v);
            assert(0 * v == 0);
        }
        corners::lemma_tells(cx.tm(), atoms@, rv, i, xv, a, xv, a, c, 0, 0, w as nat);
    }
    r
}

/// The row of interior node `i` from those of its operands: none when they do not fit.
fn node_row(cx: &Context, atoms: &Vec<u32>, w: usize, i: u32, t: &Rows) -> (r: Option<(Vec<BitVec>, bool)>)
    requires
        cx.wf(),
        i < cx.n(),
        0 < w <= MAX_WIDTH,
        atoms@.len() <= MAX_ATOMS,
        rows_ok(cx, atoms@, w as nat, *t),
    ensures
        r matches Some((row, pure)) ==> row_ok(cx, atoms@, w as nat, i, row@, pure),
{
    if cx.wid(i) as usize != w {
        return None;
    }
    if let Some(v) = cx.const_val(i) {
        return Some(const_row(cx, atoms, i, &v));
    }
    match cx.node(i) {
        Node::Un(op, a) => {
            let k = match t.index(a) {
                Some(k) => k,
                None => {
                    return None;
                },
            };
            let _ = &t.rows[k];
            if op == UnOp::Neg || op == UnOp::Not {
                Some(un_row(cx, atoms, w, i, op, a, &t.rows[k], t.pure[k]))
            } else {
                None
            }
        },
        Node::Bin(op, a, b) => {
            proof {
                assert(cx.ok_at(a as int));
                assert(cx.ok_at(b as int));
            }
            match op {
                BinOp::Add | BinOp::Sub => {
                    match (t.index(a), t.index(b)) {
                        (Some(k), Some(j)) => Some(
                            (
                                bin_row(
                                    cx,
                                    atoms,
                                    w,
                                    i,
                                    op,
                                    a,
                                    b,
                                    &t.rows[k],
                                    &t.rows[j],
                                    false,
                                ),
                                false,
                            ),
                        ),
                        _ => None,
                    }
                },
                BinOp::And | BinOp::Or | BinOp::Xor => {
                    match (t.index(a), t.index(b)) {
                        (Some(k), Some(j)) => {
                            if t.pure[k] && t.pure[j] {
                                Some(
                                    (
                                        bin_row(
                                            cx,
                                            atoms,
                                            w,
                                            i,
                                            op,
                                            a,
                                            b,
                                            &t.rows[k],
                                            &t.rows[j],
                                            true,
                                        ),
                                        true,
                                    ),
                                )
                            } else {
                                None
                            }
                        },
                        _ => None,
                    }
                },
                BinOp::Mul => {
                    if let Some(c) = cx.const_val(b) {
                        match t.index(a) {
                            Some(k) => {
                                proof {
                                    assert forall|env: Env|
                                        #![trigger term::value(cx.tm()[i as int], env)]
                                        modular::eqm(
                                            modular::num(term::value(cx.tm()[i as int], env)),
                                            modular::num(term::value(cx.tm()[a as int], env))
                                                * modular::num(c@),
                                            w as nat,
                                        ) by {
                                        assert(cx.val(b as int, env) == c@);
                                        modular::lemma_eqm_ops(cx.val(a as int, env), c@);
                                    }
                                }
                                Some(
                                    (
                                        scaled_row(
                                            cx,
                                            atoms,
                                            w,
                                            i,
                                            a,
                                            &t.rows[k],
                                            t.pure[k],
                                            &c,
                                        ),
                                        false,
                                    ),
                                )
                            },
                            None => None,
                        }
                    } else if let Some(c) = cx.const_val(a) {
                        match t.index(b) {
                            Some(k) => {
                                proof {
                                    assert forall|env: Env|
                                        #![trigger term::value(cx.tm()[i as int], env)]
                                        modular::eqm(
                                            modular::num(term::value(cx.tm()[i as int], env)),
                                            modular::num(term::value(cx.tm()[b as int], env))
                                                * modular::num(c@),
                                            w as nat,
                                        ) by {
                                        assert(cx.val(a as int, env) == c@);
                                        modular::lemma_eqm_ops(c@, cx.val(b as int, env));
                                        vstd::arithmetic::mul::lemma_mul_is_commutative(
                                            modular::num(c@),
                                            modular::num(cx.val(b as int, env)),
                                        );
                                    }
                                }
                                Some(
                                    (
                                        scaled_row(
                                            cx,
                                            atoms,
                                            w,
                                            i,
                                            b,
                                            &t.rows[k],
                                            t.pure[k],
                                            &c,
                                        ),
                                        false,
                                    ),
                                )
                            },
                            None => None,
                        }
                    } else {
                        None
                    }
                },
                BinOp::Shl => {
                    let c = match cx.const_val(b) {
                        Some(c) => c,
                        None => {
                            return None;
                        },
                    };
                    match t.index(a) {
                        Some(k) => {
                            let one = BitVec::from_u64(w, 1);
                            let f = BitVec::apply_bin(BinOp::Shl, &one, &c);
                            proof {
                                algebra::lemma_one_nat(w as nat);
                                assert forall|env: Env|
                                    #![trigger term::value(cx.tm()[i as int], env)]
                                    modular::eqm(
                                        modular::num(term::value(cx.tm()[i as int], env)),
                                        modular::num(term::value(cx.tm()[a as int], env))
                                            * modular::num(f@),
                                        w as nat,
                                    ) by {
                                    assert(cx.val(b as int, env) == c@);
                                    let s = bits::nat_of(c@);
                                    let v = cx.val(a as int, env);
                                    modular::lemma_eqm_shl(v, s);
                                    modular::lemma_eqm_shl(one@, s);
                                    assert(1 * pow2(s) == pow2(s));
                                    modular::lemma_eqm_mul(
                                        modular::num(v),
                                        modular::num(v),
                                        modular::num(f@),
                                        pow2(s) as int,
                                        w as nat,
                                    );
                                }
                            }
                            Some(
                                (
                                    scaled_row(
                                        cx,
                                        atoms,
                                        w,
                                        i,
                                        a,
                                        &t.rows[k],
                                        t.pure[k],
                                        &f,
                                    ),
                                    false,
                                ),
                            )
                        },
                        None => None,
                    }
                },
                _ => None,
            }
        },
        _ => None,
    }
}

/// The values of the root at the corners (corner `p`: atom `j` is all ones when bit `j` of `p`
/// is set).
fn signature(cx: &Context, reg: &Region, root: u32, w: usize) -> (r: Option<Vec<BitVec>>)
    requires
        cx.wf(),
        root < cx.n(),
        cx.w(root as int) == w,
        runner::listed(reg.atoms@, cx.n()),
        runner::listed(reg.order@, cx.n()),
        reg.atoms@.len() <= MAX_ATOMS,
    ensures
        r matches Some(row) ==> row_ok(cx, reg.atoms@, w as nat, root, row@, false) && forall|k: int|
            #![trigger reg.atoms@[k]]
            0 <= k < reg.atoms@.len() ==> cx.w(reg.atoms@[k] as int) == w,
{
    assert(cx.ok_at(root as int));
    let mut t = Rows { ids: Vec::new(), rows: Vec::new(), pure: Vec::new() };
    let mut j: usize = 0;
    while j < reg.atoms.len()
        invariant
            cx.wf(),
            0 < w <= MAX_WIDTH,
            runner::listed(reg.atoms@, cx.n()),
            reg.atoms@.len() <= MAX_ATOMS,
            j <= reg.atoms@.len(),
            rows_ok(cx, reg.atoms@, w as nat, t),
            forall|k: int|
                #![trigger reg.atoms@[k]]
                0 <= k < j ==> cx.w(reg.atoms@[k] as int) == w,
        decreases reg.atoms@.len() - j,
    {
        let a = reg.atoms[j];
        if cx.wid(a) as usize != w {
            return None;
        }
        let row = atom_row(cx, &reg.atoms, j, w);
        t.push(cx, &reg.atoms, Ghost(w as nat), a, row, true);
        j = j + 1;
    }
    let mut k: usize = 0;
    while k < reg.order.len()
        invariant
            cx.wf(),
            0 < w <= MAX_WIDTH,
            runner::listed(reg.order@, cx.n()),
            reg.atoms@.len() <= MAX_ATOMS,
            rows_ok(cx, reg.atoms@, w as nat, t),
        decreases reg.order@.len() - k,
    {
        let i = reg.order[k];
        match node_row(cx, &reg.atoms, w, i, &t) {
            Some((row, pure)) => {
                t.push(cx, &reg.atoms, Ghost(w as nat), i, row, pure);
            },
            None => {
                return None;
            },
        }
        k = k + 1;
    }
    match t.index(root) {
        Some(p) => {
            let ghost g = t.rows@[p as int];
            let row = dup_row(&t.rows[p]);
            assert(row_view(row@) =~= row_view(g@));
            Some(row)
        },
        None => None,
    }
}

/// The same values.
fn dup_row(v: &Vec<BitVec>) -> (r: Vec<BitVec>)
    ensures
        r@.len() == v@.len(),
        forall|p: int| #![trigger r@[p]] 0 <= p < r@.len() ==> r@[p]@ == v@[p]@,
{
    let mut r: Vec<BitVec> = Vec::with_capacity(v.len());
    let mut i: usize = 0;
    while i < v.len()
        invariant
            i <= v@.len(),
            r@.len() == i,
            forall|p: int| #![trigger r@[p]] 0 <= p < r@.len() ==> r@[p]@ == v@[p]@,
        decreases v@.len() - i,
    {
        r.push(v[i].dup());
        i = i + 1;
    }
    r
}

/// The conjunction coefficients from the signature: the value at corner `p`, negated, is the
/// sum of the coefficients of the subsets of `p`.
fn mobius(sig: &Vec<BitVec>, t: usize, w: usize) -> (d: Vec<BitVec>)
    requires
        0 < w <= MAX_WIDTH,
        t <= MAX_ATOMS,
        sig@.len() == pow2(t as nat),
        forall|p: int| #![trigger sig@[p]] 0 <= p < sig@.len() ==> sig@[p]@.len() == w,
    ensures
        d@.len() == sig@.len(),
        forall|p: int| #![trigger d@[p]] 0 <= p < d@.len() ==> d@[p]@.len() == w,
{
    let mut d: Vec<BitVec> = Vec::with_capacity(sig.len());
    let mut i: usize = 0;
    while i < sig.len()
        invariant
            i <= sig@.len(),
            d@.len() == i,
            forall|p: int| #![trigger sig@[p]] 0 <= p < sig@.len() ==> sig@[p]@.len() == w,
            forall|p: int| #![trigger d@[p]] 0 <= p < d@.len() ==> d@[p]@.len() == w,
        decreases sig@.len() - i,
    {
        let v = sig[i].neg();
        proof {
            let _ = sig@[i as int];
            ops::lemma_un_len(UnOp::Neg, sig@[i as int]@);
        }
        d.push(v);
        i = i + 1;
    }
    let mut j: usize = 0;
    while j < t
        invariant
            0 < w <= MAX_WIDTH,
            t <= MAX_ATOMS,
            d@.len() == sig@.len(),
            forall|p: int| #![trigger d@[p]] 0 <= p < d@.len() ==> d@[p]@.len() == w,
        decreases t - j,
    {
        let bit = corner_count(j);
        let mut p: usize = 0;
        while p < d.len()
            invariant
                0 < w <= MAX_WIDTH,
                j < MAX_ATOMS,
                d@.len() == sig@.len(),
                forall|p: int| #![trigger d@[p]] 0 <= p < d@.len() ==> d@[p]@.len() == w,
            decreases d@.len() - p,
        {
            if corner_bit(p, j) && p >= bit {
                proof {
                    let _ = d@[p as int];
                    let _ = d@[p - bit];
                    ops::lemma_bin_len(BinOp::Sub, d@[p as int]@, d@[p - bit]@);
                }
                let v = BitVec::apply_bin(BinOp::Sub, &d[p], &d[p - bit]);
                d.set(p, v);
            }
            p = p + 1;
        }
        j = j + 1;
    }
    d
}

/// A bitwise function of the atoms.
enum Part {
    /// The conjunction of a set of atoms, as a corner.
    All(usize),
    /// The function with these values at the corners.
    Table(Vec<bool>),
}

/// A candidate form: a constant and bitwise functions with their coefficients, and an estimate
/// of the nodes it makes.
struct Candidate {
    est: u32,
    konst: BitVec,
    parts: Vec<(Part, BitVec)>,
}

/// The parts speak of the atoms, with coefficients of width `w`.
spec fn cand_ok(c: Candidate, t: nat, w: nat) -> bool {
    &&& c.konst@.len() == w
    &&& forall|k: int|
        #![trigger c.parts@[k]]
        0 <= k < c.parts@.len() ==> c.parts@[k].1@.len() == w && (match c.parts@[k].0 {
            Part::All(_) => true,
            Part::Table(b) => t <= 3 && b@.len() == pow2(t),
        })
}

/// The estimate of a form with these coefficients.
fn estimate_of(konst: &BitVec, ks: &Vec<BitVec>) -> (r: u32)
    requires
        1 <= konst@.len() <= MAX_WIDTH,
        ks@.len() <= 64,
        forall|k: int| #![trigger ks@[k]] 0 <= k < ks@.len() ==> ks@[k]@.len() == konst@.len(),
    ensures
        r <= 1000,
{
    // (Distinct atoms: the estimate only needs the coefficients.)
    let mut terms: Vec<(u32, BitVec)> = Vec::new();
    let mut i: usize = 0;
    while i < ks.len()
        invariant
            i <= ks@.len() <= 64,
            terms@.len() == i,
            forall|k: int| #![trigger ks@[k]] 0 <= k < ks@.len() ==> ks@[k]@.len() == konst@.len(),
            forall|k: int|
                #![trigger terms@[k]]
                0 <= k < terms@.len() ==> terms@[k].1@.len() == konst@.len(),
        decreases ks@.len() - i,
    {
        let ghost _k = ks@[i as int];
        terms.push((i as u32, ks[i].dup()));
        i = i + 1;
    }
    let f = Form { konst: konst.dup(), terms, fin: Fin::full() };
    proof {
        assert forall|i: int| 0 <= i < f@.terms.len() implies (#[trigger] f@.terms[i]).1.len()
            == f@.konst.len() by {
            let _ = f.terms@[i];
        }
    }
    linear::estimate(&f)
}

/// How many atoms a set has.
fn set_size(s: usize, t: usize) -> (r: u32)
    requires
        t <= MAX_ATOMS,
    ensures
        r <= t,
{
    let mut r: u32 = 0;
    let mut j: usize = 0;
    while j < t
        invariant
            t <= MAX_ATOMS,
            j <= t,
            r <= j,
        decreases t - j,
    {
        if corner_bit(s, j) {
            r = r + 1;
        }
        j = j + 1;
    }
    r
}

/// The affine form when no conjunction of two or more atoms has a coefficient, and the
/// conjunction form otherwise.
fn subset_form(d: &Vec<BitVec>, t: usize, w: usize) -> (r: Candidate)
    requires
        0 < w <= MAX_WIDTH,
        t <= MAX_ATOMS,
        d@.len() == pow2(t as nat),
        d@.len() >= 1,
        forall|p: int| #![trigger d@[p]] 0 <= p < d@.len() ==> d@[p]@.len() == w,
    ensures
        cand_ok(r, t as nat, w as nat),
        r.parts@.len() <= 64,
{
    let n = corner_count(t);
    let ghost d0 = d@[0];
    let konst = d[0].neg();
    proof {
        ops::lemma_un_len(UnOp::Neg, d@[0]@);
    }
    let mut parts: Vec<(Part, BitVec)> = Vec::new();
    let mut ks: Vec<BitVec> = Vec::new();
    let mut ands: u32 = 0;
    let mut s: usize = 1;
    while s < n
        invariant
            0 < w <= MAX_WIDTH,
            t <= MAX_ATOMS,
            n == d@.len(),
            n <= 64,
            1 <= s <= n,
            konst@.len() == w,
            forall|p: int| #![trigger d@[p]] 0 <= p < d@.len() ==> d@[p]@.len() == w,
            parts@.len() == ks@.len(),
            ks@.len() < s,
            ands <= 6 * s,
            forall|k: int| #![trigger ks@[k]] 0 <= k < ks@.len() ==> ks@[k]@.len() == w,
            forall|k: int|
                #![trigger parts@[k]]
                0 <= k < parts@.len() ==> parts@[k].1@.len() == w && parts@[k].0 is All,
        decreases n - s,
    {
        let ghost _d = d@[s as int];
        if !d[s].is_zero() {
            let m = set_size(s, t);
            if m > 0 {
                ands = ands + (m - 1);
            }
            ks.push(d[s].dup());
            parts.push((Part::All(s), d[s].dup()));
        }
        s = s + 1;
    }
    let est = ands + estimate_of(&konst, &ks);
    Candidate { est, konst, parts }
}

/// The function with these values at the corners as a truth table.
fn table_of(b: &Vec<bool>, t: usize) -> (r: u8)
    requires
        t <= 3,
        b@.len() == pow2(t as nat),
    ensures
        forall|i: u8|
            #![trigger tables::bit8(r, i)]
            i < 8 ==> tables::bit8(r, i) == b@[i as int % b@.len() as int],
{
    let n = corner_count(t);
    let mut out: u8 = 0;
    let mut i: u8 = 0;
    proof {
        assert forall|j: u8| j < 8 implies !#[trigger] tables::bit8(0, j) by {
            tables::lemma_bit8_set(0, 0, j);
        }
    }
    while i < 8
        invariant
            i <= 8,
            n == b@.len(),
            1 <= n <= 64,
            forall|j: u8|
                #![trigger tables::bit8(out, j)]
                j < 8 ==> tables::bit8(out, j) == (j < i && b@[j as int % n as int]),
        decreases 8 - i,
    {
        let ghost o0 = out;
        let v = b[i as usize % n];
        if v {
            out = out | (1u8 << i);
        }
        proof {
            assert forall|j: u8| j < 8 implies #[trigger] tables::bit8(out, j) == (j < i + 1
                && b@[j as int % n as int]) by {
                let _ = tables::bit8(o0, j);
                tables::lemma_bit8_set(o0, i, j);
            }
        }
        i = i + 1;
    }
    out
}

/// The corners with a value.
fn where_is(sig: &Vec<BitVec>, u: &BitVec) -> (r: Vec<bool>)
    ensures
        r@.len() == sig@.len(),
{
    let mut r: Vec<bool> = Vec::with_capacity(sig.len());
    let mut p: usize = 0;
    while p < sig.len()
        invariant
            p <= sig@.len(),
            r@.len() == p,
        decreases sig@.len() - p,
    {
        r.push(sig[p].same(u));
        p = p + 1;
    }
    r
}

/// The distinct values, in order of first appearance.
fn distinct(sig: &Vec<BitVec>, w: Ghost<nat>) -> (r: Vec<BitVec>)
    requires
        forall|p: int| #![trigger sig@[p]] 0 <= p < sig@.len() ==> sig@[p]@.len() == w@,
    ensures
        r@.len() <= sig@.len(),
        forall|p: int| #![trigger r@[p]] 0 <= p < r@.len() ==> r@[p]@.len() == w@,
{
    let mut r: Vec<BitVec> = Vec::new();
    let mut p: usize = 0;
    while p < sig.len()
        invariant
            p <= sig@.len(),
            r@.len() <= p,
            forall|p: int| #![trigger sig@[p]] 0 <= p < sig@.len() ==> sig@[p]@.len() == w@,
            forall|p: int| #![trigger r@[p]] 0 <= p < r@.len() ==> r@[p]@.len() == w@,
        decreases sig@.len() - p,
    {
        let mut known = false;
        let mut q: usize = 0;
        while q < r.len()
            invariant
                p < sig@.len(),
            decreases r@.len() - q,
        {
            if r[q].same(&sig[p]) {
                known = true;
            }
            q = q + 1;
        }
        let ghost _s = sig@[p as int];
        if !known {
            r.push(sig[p].dup());
        }
        p = p + 1;
    }
    r
}

/// Node `g` has at each position what the function has at the corner there.
spec fn part_ok(cx: &Context, atoms: Seq<u32>, w: nat, b: Seq<bool>, g: u32) -> bool {
    &&& g < cx.n()
    &&& cx.w(g as int) == w
    &&& b.len() == pow2(atoms.len())
    &&& forall|env: Env, q: int|
        #![trigger term::value(cx.tm()[g as int], env)[q]]
        0 <= q < w ==> term::value(cx.tm()[g as int], env)[q] == b[corners::corner(
            cx.tm(),
            atoms,
            env,
            q,
        )]
}

/// Corners stay where they are as the arena grows.
proof fn lemma_corner_grow(cx0: &Context, cx1: &Context, atoms: Seq<u32>, env: Env, q: int)
    requires
        runner::listed(atoms, cx0.n()),
        cx1.grew(cx0),
    ensures
        corners::corner(cx1.tm(), atoms, env, q) == corners::corner(cx0.tm(), atoms, env, q),
{
    let a = corners::pattern(cx1.tm(), atoms, env, q);
    let b = corners::pattern(cx0.tm(), atoms, env, q);
    assert forall|j: int| 0 <= j < atoms.len() implies a[j] == b[j] by {
        let _ = atoms[j];
        assert(cx1.tm()[atoms[j] as int] == cx0.tm()[atoms[j] as int]);
    }
    assert(a =~= b);
}

/// A part stays what it is as the arena grows.
proof fn lemma_part_grow(cx0: &Context, cx1: &Context, atoms: Seq<u32>, w: nat, b: Seq<bool>, g: u32)
    requires
        runner::listed(atoms, cx0.n()),
        cx1.grew(cx0),
        part_ok(cx0, atoms, w, b, g),
    ensures
        part_ok(cx1, atoms, w, b, g),
{
    assert(cx1.tm()[g as int] == cx0.tm()[g as int]);
    assert forall|env: Env, q: int|
        #![trigger term::value(cx1.tm()[g as int], env)[q]]
        0 <= q < w implies term::value(cx1.tm()[g as int], env)[q] == b[corners::corner(
        cx1.tm(),
        atoms,
        env,
        q,
    )] by {
        lemma_corner_grow(cx0, cx1, atoms, env, q);
        let _ = term::value(cx0.tm()[g as int], env)[q];
    }
}

/// The corners where atom `j` is set.
fn atom_bits(atoms: &Vec<u32>, j: usize, cx: &Context, w: Ghost<nat>) -> (r: Vec<bool>)
    requires
        cx.wf(),
        j < atoms@.len() <= MAX_ATOMS,
        atoms@[j as int] < cx.n(),
        cx.w(atoms@[j as int] as int) == w@,
    ensures
        part_ok(cx, atoms@, w@, r@, atoms@[j as int]),
{
    let n = corner_count(atoms.len());
    let mut r: Vec<bool> = Vec::new();
    while r.len() < n
        invariant
            j < MAX_ATOMS,
            r@.len() <= n,
            forall|p: int|
                #![trigger r@[p]]
                0 <= p < r@.len() ==> r@[p] == bits::int_bit(p, j as nat),
        decreases n - r@.len(),
    {
        let p = r.len();
        r.push(corner_bit(p, j));
    }
    proof {
        let g = atoms@[j as int];
        assert forall|env: Env, q: int|
            #![trigger term::value(cx.tm()[g as int], env)[q]]
            0 <= q < w@ implies term::value(cx.tm()[g as int], env)[q] == r@[corners::corner(
            cx.tm(),
            atoms@,
            env,
            q,
        )] by {
            corners::lemma_corner(cx.tm(), atoms@, env, q);
            let jj = j as int;
            let p = corners::corner(cx.tm(), atoms@, env, q);
            assert(bits::int_bit(p, jj as nat) == term::value(cx.tm()[atoms@[jj] as int], env)[q]);
        }
    }
    r
}

/// Both.
fn both(a: &Vec<bool>, b: &Vec<bool>) -> (r: Vec<bool>)
    requires
        a@.len() == b@.len(),
    ensures
        r@.len() == a@.len(),
        forall|p: int| #![trigger r@[p]] 0 <= p < r@.len() ==> r@[p] == (a@[p] && b@[p]),
{
    let mut r: Vec<bool> = Vec::new();
    while r.len() < a.len()
        invariant
            r@.len() <= a@.len(),
            a@.len() == b@.len(),
            forall|p: int| #![trigger r@[p]] 0 <= p < r@.len() ==> r@[p] == (a@[p] && b@[p]),
        decreases a@.len() - r@.len(),
    {
        let p = r.len();
        r.push(a[p] && b[p]);
    }
    r
}

/// A corner of three atoms or fewer is their combination.
proof fn lemma_comb_corner(cx: &Context, atoms: Seq<u32>, env: Env, q: int)
    requires
        atoms.len() <= 3,
    ensures
        bitwise::comb_at(atoms, xor::env_vals(cx.tm(), env), q) == corners::corner(
            cx.tm(),
            atoms,
            env,
            q,
        ),
        corners::corner(cx.tm(), atoms, env, q) < pow2(atoms.len()),
{
    let s = corners::pattern(cx.tm(), atoms, env, q);
    corners::lemma_corner(cx.tm(), atoms, env, q);
    let e = Seq::<bool>::empty();
    assert(bits::nat_of(e) == 0);
    vstd::arithmetic::power2::lemma2_to64();
    if atoms.len() == 0 {
        assert(s =~= e);
    } else if atoms.len() == 1 {
        assert(s =~= e.push(s[0]));
        bits::lemma_nat_push(e, s[0]);
    } else if atoms.len() == 2 {
        assert(s =~= e.push(s[0]).push(s[1]));
        bits::lemma_nat_push(e, s[0]);
        bits::lemma_nat_push(e.push(s[0]), s[1]);
    } else {
        assert(s =~= e.push(s[0]).push(s[1]).push(s[2]));
        bits::lemma_nat_push(e, s[0]);
        bits::lemma_nat_push(e.push(s[0]), s[1]);
        bits::lemma_nat_push(e.push(s[0]).push(s[1]), s[2]);
    }
}

/// The atoms are nodes of width `w`.
spec fn atoms_ok(cx: &Context, atoms: Seq<u32>, w: nat) -> bool {
    &&& atoms.len() <= MAX_ATOMS
    &&& runner::listed(atoms, cx.n())
    &&& forall|k: int| #![trigger atoms[k]] 0 <= k < atoms.len() ==> cx.w(atoms[k] as int) == w
}

proof fn lemma_atoms_grow(cx0: &Context, cx1: &Context, atoms: Seq<u32>, w: nat)
    requires
        atoms_ok(cx0, atoms, w),
        cx1.grew(cx0),
    ensures
        atoms_ok(cx1, atoms, w),
{
    assert forall|k: int| #![trigger atoms[k]] 0 <= k < atoms.len() implies cx1.w(atoms[k] as int)
        == w && atoms[k] < cx1.n() by {
        assert(cx1.tm()[atoms[k] as int] == cx0.tm()[atoms[k] as int]);
    }
}

impl<'a> Runner<'a> {
    /// Makes a part: its node, and its values at the corners.
    fn mba_part(&mut self, cx: &mut Context, part: &Part, atoms: &Vec<u32>, w: u16) -> (out: Result<
        Option<(u32, Vec<bool>)>,
        Stop,
    >)
        requires
            old(self).wf(old(cx)),
            atoms_ok(old(cx), atoms@, w as nat),
            1 <= w <= MAX_WIDTH,
            match *part {
                Part::All(_) => true,
                Part::Table(b) => atoms@.len() <= 3 && b@.len() == pow2(atoms@.len()),
            },
        ensures
            runner::went(final(self), final(cx), old(self), old(cx)),
            out matches Err(e) ==> final(self).refuses(final(cx), e),
            out matches Ok(Some((g, b))) ==> part_ok(final(cx), atoms@, w as nat, b@, g),
    {
        match part {
            Part::All(s) => {
                let mut acc: Option<(u32, Vec<bool>)> = None;
                let mut j: usize = 0;
                while j < atoms.len()
                    invariant
                        runner::went(self, cx, old(self), old(cx)),
                        atoms_ok(cx, atoms@, w as nat),
                        1 <= w <= MAX_WIDTH,
                        acc matches Some((g, b)) ==> part_ok(cx, atoms@, w as nat, b@, g),
                    decreases atoms@.len() - j,
                {
                    if corner_bit(*s, j) {
                        let a = atoms[j];
                        let ab = atom_bits(atoms, j, cx, Ghost(w as nat));
                        acc = match acc {
                            None => Some((a, ab)),
                            Some((g, b)) => {
                                let ghost cx0 = *cx;
                                let x = self.c_bin(cx, BinOp::And, g, a)?;
                                let bb = both(&b, &ab);
                                proof {
                                    lemma_atoms_grow(&cx0, cx, atoms@, w as nat);
                                    assert(cx.ok_at(x as int));
                                    assert(cx0.ok_at(g as int));
                                    assert(cx0.ok_at(a as int));
                                    assert forall|env: Env, q: int|
                                        #![trigger term::value(cx.tm()[x as int], env)[q]]
                                        0 <= q < w implies term::value(cx.tm()[x as int], env)[q]
                                        == bb@[corners::corner(cx.tm(), atoms@, env, q)] by {
                                        lemma_corner_grow(&cx0, cx, atoms@, env, q);
                                        corners::lemma_corner(cx0.tm(), atoms@, env, q);
                                        assert(cx.val(x as int, env) == ops::bin_value(
                                            BinOp::And,
                                            cx0.val(g as int, env),
                                            cx0.val(a as int, env),
                                        ));
                                        let _ = term::value(cx0.tm()[g as int], env)[q];
                                        let _ = term::value(cx0.tm()[a as int], env)[q];
                                    }
                                }
                                Some((x, bb))
                            },
                        };
                    }
                    j = j + 1;
                }
                Ok(acc)
            },
            Part::Table(b) => {
                let tt = table_of(b, atoms.len());
                let forms = self.forms;
                let form = match forms.get(tt) {
                    Some(f) => f,
                    None => {
                        return Ok(None);
                    },
                };
                let ghost cx0 = *cx;
                proof {
                    assert forall|k: int| #![trigger atoms@[k]] 0 <= k < atoms@.len() implies term::tok(
                        cx.tm()[atoms@[k] as int],
                    ) by {
                        assert(cx.ok_at(atoms@[k] as int));
                    }
                }
                let g = self.bitwise_emit(cx, form, tt, atoms, w)?;
                let mut bb: Vec<bool> = Vec::new();
                let mut p: usize = 0;
                while p < b.len()
                    invariant
                        p <= b@.len(),
                        bb@ == b@.take(p as int),
                    decreases b@.len() - p,
                {
                    bb.push(b[p]);
                    p = p + 1;
                    assert(bb@ =~= b@.take(p as int));
                }
                assert(b@.take(b@.len() as int) =~= b@);
                proof {
                    assert forall|env: Env, q: int|
                        #![trigger term::value(cx.tm()[g as int], env)[q]]
                        0 <= q < w implies term::value(cx.tm()[g as int], env)[q]
                        == bb@[corners::corner(cx.tm(), atoms@, env, q)] by {
                        lemma_comb_corner(cx, atoms@, env, q);
                        let vals = xor::env_vals(cx.tm(), env);
                        let c = bitwise::comb_at(atoms@, vals, q);
                        tables::lemma_comb(
                            bitwise::atom_bit(atoms@, vals, 0, q),
                            bitwise::atom_bit(atoms@, vals, 1, q),
                            bitwise::atom_bit(atoms@, vals, 2, q),
                        );
                        tables::lemma_proper(form.nodes@, (form.nodes@.len() - 1) as nat);
                        tables::lemma_says(tables::root_of(form.nodes@), c);
                        vstd::arithmetic::div_mod::lemma_small_mod(c as nat, pow2(atoms@.len()));
                        assert(tables::bit8(tt, c) == b@[c as int % b@.len() as int]);
                    }
                }
                Ok(Some((g, bb)))
            },
        }
    }
}

/// A form, and its values at the corners: what it is there, negated, is what the weighed corner
/// values say.
spec fn form_tells(cx: &Context, atoms: Seq<u32>, w: nat, f: Form, row: Seq<BitVec>) -> bool {
    &&& f@.has(w)
    &&& xor::atoms_fit(f@.terms, cx.tm(), w)
    &&& row.len() == pow2(atoms.len())
    &&& forall|p: int| #![trigger row[p]] 0 <= p < row.len() ==> row[p]@.len() == w
    &&& forall|env: Env|
        #![trigger linear::lin_num(f@, xor::env_vals(cx.tm(), env))]
        modular::eqm(
            linear::lin_num(f@, xor::env_vals(cx.tm(), env)) + corners::dot(
                corners::nums(row_view(row)),
                corners::corners(cx.tm(), atoms, env),
                w,
            ),
            0,
            w,
        )
}

/// The constant form.
fn start_form(cx: &Context, atoms: &Vec<u32>, konst: &BitVec) -> (r: (Form, Vec<BitVec>))
    requires
        cx.wf(),
        atoms@.len() <= MAX_ATOMS,
        0 < konst@.len() <= MAX_WIDTH,
    ensures
        form_tells(cx, atoms@, konst@.len(), r.0, r.1@),
{
    let n = corner_count(atoms.len());
    let f = linear::of_const(konst.dup());
    let mut row: Vec<BitVec> = Vec::new();
    while row.len() < n
        invariant
            row@.len() <= n,
            forall|p: int| #![trigger row@[p]] 0 <= p < row@.len() ==> row@[p]@ == konst@,
        decreases n - row@.len(),
    {
        row.push(konst.dup());
    }
    proof {
        let w = konst@.len();
        let rv = row_view(row@);
        let k = modular::num(konst@);
        assert forall|env: Env|
            #![trigger linear::lin_num(f@, xor::env_vals(cx.tm(), env))]
            modular::eqm(
                linear::lin_num(f@, xor::env_vals(cx.tm(), env)) + corners::dot(
                    corners::nums(rv),
                    corners::corners(cx.tm(), atoms@, env),
                    w,
                ),
                0,
                w,
            ) by {
            let cs = corners::corners(cx.tm(), atoms@, env);
            let z = corners::nums(rv);
            assert forall|b: int| #![trigger cs(b)] 0 <= b < w implies modular::eqm(
                z(cs(b)),
                0 * z(cs(b)) + 0 * z(cs(b)) + k,
                w,
            ) by {
                corners::lemma_corner(cx.tm(), atoms@, env, b);
                assert(rv[cs(b)] == row@[cs(b)]@);
                assert(0 * z(cs(b)) == 0);
            }
            corners::lemma_dot(z, z, z, 0, 0, k, cs, w, w);
            let m = pow2(w) as int;
            let dz = corners::dot(z, cs, w);
            assert(0 * dz == 0);
            modular::lemma_eqm_add(k, k, dz, k * (m - 1), w);
            modular::lemma_eqm_modulus(w, k);
            assert(k + k * (m - 1) == k * m) by (nonlinear_arith);
        }
    }
    (f, row)
}

/// The values of a bitwise function at the corners, weighed, are its value.
proof fn lemma_part_dot(cx: &Context, atoms: Seq<u32>, w: nat, b: Seq<bool>, g: u32, env: Env, n: nat)
    requires
        cx.wf(),
        part_ok(cx, atoms, w, b, g),
        n <= w,
    ensures
        corners::dot(
            |p: int| bits::b2n(b[p]) as int,
            corners::corners(cx.tm(), atoms, env),
            n,
        ) == modular::num(cx.val(g as int, env).take(n as int)),
    decreases n,
{
    let v = cx.val(g as int, env);
    assert(cx.ok_at(g as int));
    if n == 0 {
        assert(v.take(0) =~= Seq::empty());
    } else {
        lemma_part_dot(cx, atoms, w, b, g, env, (n - 1) as nat);
        bits::lemma_nat_take_step(v, n - 1);
        let _ = term::value(cx.tm()[g as int], env)[n - 1];
    }
}

/// One more term.
fn with_term(cx: &Context, atoms: &Vec<u32>, f: &Form, row: &Vec<BitVec>, g: u32, b: &Vec<bool>, k: &BitVec) -> (r: (Form, Vec<BitVec>))
    requires
        cx.wf(),
        0 < k@.len() <= MAX_WIDTH,
        atoms@.len() <= MAX_ATOMS,
        form_tells(cx, atoms@, k@.len(), *f, row@),
        part_ok(cx, atoms@, k@.len(), b@, g),
    ensures
        form_tells(cx, atoms@, k@.len(), r.0, r.1@),
{
    let ghost w = k@.len();
    let t = linear::of_term(g, k.dup(), Fin::full());
    proof {
        assert(cx.ok_at(g as int));
        assert forall|i: int| #![trigger t@.terms[i]] 0 <= i < t@.terms.len() implies t@.terms[i].0
            < cx.n() && cx.w(t@.terms[i].0 as int) == w && term::tok(cx.tm()[t@.terms[i].0 as int]) by {}
    }
    let sum = linear::plus(f, &t, Ghost(cx.tm()));
    let mut out: Vec<BitVec> = Vec::new();
    while out.len() < row.len()
        invariant
            0 < k@.len() <= MAX_WIDTH,
            out@.len() <= row@.len(),
            b@.len() == row@.len(),
            forall|p: int| #![trigger row@[p]] 0 <= p < row@.len() ==> row@[p]@.len() == k@.len(),
            forall|p: int|
                #![trigger out@[p]]
                0 <= p < out@.len() ==> out@[p]@.len() == k@.len() && modular::eqm(
                    modular::num(out@[p]@),
                    1 * modular::num(row@[p]@) + -modular::num(k@) * bits::b2n(b@[p]) + 0,
                    k@.len(),
                ),
        decreases row@.len() - out@.len(),
    {
        let p = out.len();
        let ghost x = row@[p as int]@;
        let ghost kk = modular::num(k@);
        let v = if b[p] {
            proof {
                modular::lemma_eqm_ops(x, k@);
                assert(-kk * 1 == -kk) by (nonlinear_arith);
            }
            row[p].minus(k)
        } else {
            proof {
                assert(-kk * 0 == 0) by (nonlinear_arith);
            }
            row[p].dup()
        };
        out.push(v);
    }
    proof {
        let rv = row_view(row@);
        let ov = row_view(out@);
        let y = |p: int| bits::b2n(b@[p]) as int;
        let c = -modular::num(k@);
        assert forall|env: Env|
            #![trigger linear::lin_num(sum@, xor::env_vals(cx.tm(), env))]
            modular::eqm(
                linear::lin_num(sum@, xor::env_vals(cx.tm(), env)) + corners::dot(
                    corners::nums(ov),
                    corners::corners(cx.tm(), atoms@, env),
                    w,
                ),
                0,
                w,
            ) by {
            let cs = corners::corners(cx.tm(), atoms@, env);
            let vals = xor::env_vals(cx.tm(), env);
            assert forall|q: int| #![trigger cs(q)] 0 <= q < w implies modular::eqm(
                corners::nums(ov)(cs(q)),
                1 * corners::nums(rv)(cs(q)) + c * y(cs(q)) + 0,
                w,
            ) by {
                corners::lemma_corner(cx.tm(), atoms@, env, q);
                assert(ov[cs(q)] == out@[cs(q)]@);
                assert(rv[cs(q)] == row@[cs(q)]@);
            }
            corners::lemma_dot(corners::nums(ov), corners::nums(rv), y, 1, c, 0, cs, w, w);
            lemma_part_dot(cx, atoms@, w, b@, g, env, w);
            let v = cx.val(g as int, env);
            assert(v.take(w as int) =~= v);
            let fv = linear::lin_num(f@, vals);
            let sv = linear::lin_num(sum@, vals);
            let tv = linear::lin_num(t@, vals);
            let dr = corners::dot(corners::nums(rv), cs, w);
            let dy = corners::dot(y, cs, w);
            let dv = corners::dot(corners::nums(ov), cs, w);
            let nk = modular::num(k@);
            assert(tv == modular::num(v) * nk);
            assert(0 * (pow2(w) - 1) == 0);
            assert(c * dy == -(modular::num(v) * nk)) by (nonlinear_arith)
                requires
                    c == -nk,
                    dy == modular::num(v),
            ;
            modular::lemma_eqm_add(sv, fv + tv, dv, 1 * dr + c * dy + 0 * (pow2(w) - 1), w);
            assert(fv + tv + (1 * dr + c * dy + 0 * (pow2(w) - 1)) == fv + dr);
        }
    }
    (sum, out)
}

/// Whether two rows are the same.
fn same_rows(a: &Vec<BitVec>, b: &Vec<BitVec>) -> (r: bool)
    ensures
        r ==> row_view(a@) == row_view(b@),
{
    if a.len() != b.len() {
        return false;
    }
    let mut p: usize = 0;
    while p < a.len()
        invariant
            p <= a@.len(),
            a@.len() == b@.len(),
            forall|q: int| #![trigger a@[q]] 0 <= q < p ==> a@[q]@ == b@[q]@,
        decreases a@.len() - p,
    {
        if !a[p].same(&b[p]) {
            return false;
        }
        p = p + 1;
    }
    assert(row_view(a@) =~= row_view(b@));
    true
}

impl<'a> Runner<'a> {
    /// The indicator forms: each distinct value as the base in turn, the cheapest.
    fn indicators(&self, sig: &Vec<BitVec>, t: usize, w: usize, best: Candidate) -> (r: Candidate)
        requires
            self.forms.wf(),
            0 < w <= MAX_WIDTH,
            t <= 3,
            sig@.len() == pow2(t as nat),
            sig@.len() <= 8,
            forall|p: int| #![trigger sig@[p]] 0 <= p < sig@.len() ==> sig@[p]@.len() == w,
            cand_ok(best, t as nat, w as nat),
        ensures
            cand_ok(r, t as nat, w as nat),
    {
        let vals = distinct(sig, Ghost(w as nat));
        let mut best = best;
        let mut i: usize = 0;
        while i < vals.len()
            invariant
                self.forms.wf(),
                0 < w <= MAX_WIDTH,
                t <= 3,
                sig@.len() == pow2(t as nat),
                vals@.len() <= sig@.len() <= 8,
                forall|p: int| #![trigger vals@[p]] 0 <= p < vals@.len() ==> vals@[p]@.len() == w,
                cand_ok(best, t as nat, w as nat),
            decreases vals@.len() - i,
        {
            let ghost _u = vals@[i as int];
            let u0 = vals[i].dup();
            let mut parts: Vec<(Part, BitVec)> = Vec::new();
            let mut ks: Vec<BitVec> = Vec::new();
            let mut funcs: u32 = 0;
            let mut all = true;
            let mut j: usize = 0;
            while j < vals.len()
                invariant
                    self.forms.wf(),
                    0 < w <= MAX_WIDTH,
                    t <= 3,
                    u0@.len() == w,
                    j <= vals@.len() <= 8,
                    sig@.len() == pow2(t as nat),
                    forall|p: int| #![trigger vals@[p]] 0 <= p < vals@.len() ==> vals@[p]@.len() == w,
                    ks@.len() <= j,
                    funcs <= 100_000 * j,
                    forall|k: int| #![trigger ks@[k]] 0 <= k < ks@.len() ==> ks@[k]@.len() == w,
                    forall|k: int|
                        #![trigger parts@[k]]
                        0 <= k < parts@.len() ==> parts@[k].1@.len() == w && (parts@[k].0 matches Part::Table(
                            b,
                        ) && b@.len() == pow2(t as nat)),
                decreases vals@.len() - j,
            {
                if j != i {
                    let ghost _v = vals@[j as int];
                    let b = where_is(sig, &vals[j]);
                    let tt = table_of(&b, t);
                    // The function's operators and constants, plus its term in the sum.
                    match self.forms.get(tt) {
                        Some(f) => {
                            let m = bitwise::made_by(f);
                            funcs = funcs + if m < 100_000 {
                                m
                            } else {
                                100_000
                            };
                        },
                        None => {
                            all = false;
                        },
                    }
                    proof {
                        ops::lemma_bin_len(BinOp::Sub, u0@, vals@[j as int]@);
                    }
                    let k = u0.minus(&vals[j]);
                    ks.push(k.dup());
                    parts.push((Part::Table(b), k));
                }
                j = j + 1;
            }
            let est = funcs + estimate_of(&u0, &ks);
            if all && est < best.est {
                best = Candidate { est, konst: u0, parts };
            }
            i = i + 1;
        }
        best
    }

    /// Makes a candidate and its sum, if it has the signature.
    fn mba_form(&mut self, cx: &mut Context, c: &Candidate, atoms: &Vec<u32>, sig: &Vec<BitVec>, w: u16) -> (out: Result<
        Option<Form>,
        Stop,
    >)
        requires
            old(self).wf(old(cx)),
            atoms_ok(old(cx), atoms@, w as nat),
            1 <= w <= MAX_WIDTH,
            cand_ok(*c, atoms@.len(), w as nat),
        ensures
            runner::went(final(self), final(cx), old(self), old(cx)),
            out matches Err(e) ==> final(self).refuses(final(cx), e),
            out matches Ok(Some(f)) ==> f@.terms.len() <= linear::MAX_TERMS && form_tells(
                final(cx),
                atoms@,
                w as nat,
                f,
                sig@,
            ),
    {
        let mut gs: Vec<(u32, Vec<bool>)> = Vec::new();
        let mut i: usize = 0;
        while i < c.parts.len()
            invariant
                runner::went(self, cx, old(self), old(cx)),
                atoms_ok(cx, atoms@, w as nat),
                1 <= w <= MAX_WIDTH,
                cand_ok(*c, atoms@.len(), w as nat),
                i <= c.parts@.len(),
                gs@.len() == i,
                forall|k: int|
                    #![trigger gs@[k]]
                    0 <= k < gs@.len() ==> part_ok(cx, atoms@, w as nat, gs@[k].1@, gs@[k].0),
            decreases c.parts@.len() - i,
        {
            let ghost cx0 = *cx;
            let ghost _p = c.parts@[i as int];
            match self.mba_part(cx, &c.parts[i].0, atoms, w)? {
                Some((g, b)) => {
                    let ghost gs0 = gs@;
                    gs.push((g, b));
                    proof {
                        lemma_atoms_grow(&cx0, cx, atoms@, w as nat);
                        assert forall|k: int| #![trigger gs@[k]] 0 <= k < gs@.len() implies part_ok(
                            cx,
                            atoms@,
                            w as nat,
                            gs@[k].1@,
                            gs@[k].0,
                        ) by {
                            if k < gs0.len() {
                                assert(gs@[k] == gs0[k]);
                                lemma_part_grow(
                                    &cx0,
                                    cx,
                                    atoms@,
                                    w as nat,
                                    gs0[k].1@,
                                    gs0[k].0,
                                );
                            }
                        }
                    }
                },
                None => {
                    return Ok(None);
                },
            }
            i = i + 1;
        }
        let (mut f, mut row) = start_form(cx, atoms, &c.konst);
        let mut i: usize = 0;
        while i < gs.len()
            invariant
                cx.wf(),
                runner::went(self, cx, old(self), old(cx)),
                atoms@.len() <= MAX_ATOMS,
                1 <= w <= MAX_WIDTH,
                cand_ok(*c, atoms@.len(), w as nat),
                gs@.len() == c.parts@.len(),
                forall|k: int|
                    #![trigger gs@[k]]
                    0 <= k < gs@.len() ==> part_ok(cx, atoms@, w as nat, gs@[k].1@, gs@[k].0),
                form_tells(cx, atoms@, w as nat, f, row@),
            decreases gs@.len() - i,
        {
            let ghost _p = c.parts@[i as int];
            let ghost _g = gs@[i as int];
            let next = with_term(cx, atoms, &f, &row, gs[i].0, &gs[i].1, &c.parts[i].1);
            f = next.0;
            row = next.1;
            i = i + 1;
        }
        if f.terms.len() > linear::MAX_TERMS || !same_rows(&row, sig) {
            return Ok(None);
        }
        proof {
            assert(row_view(sig@).len() == sig@.len());
            assert(row_view(row@).len() == row@.len());
            assert forall|p: int| #![trigger sig@[p]] 0 <= p < sig@.len() implies sig@[p]@.len() == w by {
                assert(row_view(sig@)[p] == row_view(row@)[p]);
                assert(row_view(row@)[p] == row@[p]@);
            }
        }
        Ok(Some(f))
    }

    /// The linear-MBA pass at `n`.
    pub(crate) fn linear_mba_step(&mut self, cx: &mut Context, n: u32) -> (out: Result<Step, Stop>)
        requires
            old(self).wf(old(cx)),
            n < old(cx).n(),
        ensures
            runner::went(final(self), final(cx), old(self), old(cx)),
            out matches Err(e) ==> final(self).refuses(final(cx), e),
            out matches Ok(s) ==> fin::step_keeps(s, final(cx).tm(), final(self).hyp@, n as int),
            old(self).refuses_all() ==> !(out matches Ok(Step::To(_, _))),
    {
        let node = cx.node(n);
        let bitwise = is_joining(&node) || matches!(node, Node::Un(UnOp::Not, _));
        if !(is_linear(&node) || bitwise) || !interior(cx, n, Mode::Linear) {
            return Ok(Step::Normal(Fin::full()));
        }
        let reg = match region(cx, n) {
            Some(r) => r,
            None => {
                let c = self.stats.passes.entry(PassKind::LinearMba);
                c.atomized = bump(c.atomized);
                return Ok(Step::Normal(Fin::full()));
            },
        };
        // Pure linear or pure bitwise regions belong to those passes.
        if !reg.mixed || reg.atoms.len() == 0 {
            return Ok(Step::Normal(Fin::full()));
        }
        let t = reg.atoms.len();
        let count = corner_count(t);
        assert(reg.order@.len() * count <= 256 * 64) by (nonlinear_arith)
            requires
                reg.order@.len() <= 256,
                count <= 64,
        ;
        self.charge(Counter::PassWork, (reg.order.len() * count) as u64)?;
        let w = cx.wid(n);
        let sig = match signature(cx, &reg, n, w as usize) {
            Some(s) => s,
            None => {
                return Ok(Step::Normal(Fin::full()));
            },
        };
        let d = mobius(&sig, t, w as usize);
        let first = subset_form(&d, t, w as usize);
        let cand = if t <= 3 {
            proof {
                vstd::arithmetic::power2::lemma2_to64();
                bits::lemma_pow2_le(t as nat, 3);
            }
            self.indicators(&sig, t, w as usize, first)
        } else {
            first
        };
        if let Some(f) = self.worth_building(cx, n, &reg.atoms, cand.est)? {
            let c = self.stats.passes.entry(PassKind::LinearMba);
            c.rejected_cost = bump(c.rejected_cost);
            return Ok(Step::Normal(f));
        }
        let before: u32 = cx.len() as u32;
        let ghost cx0 = *cx;
        let form = match self.mba_form(cx, &cand, &reg.atoms, &sig, w)? {
            Some(f) => f,
            None => {
                return Ok(Step::Normal(Fin::full()));
            },
        };
        let ghost cx1 = *cx;
        let e = self.lin_emit(cx, &form)?;
        let fin = Fin::full();
        let ghost h = self.hyp@;
        proof {
            let atoms = reg.atoms@;
            let rv = row_view(sig@);
            assert(cx.ok_at(n as int));
            assert(cx.tm()[n as int] == cx0.tm()[n as int]);
            assert forall|env: Env|
                #![trigger term::value(cx.tm()[n as int], env)]
                #![trigger term::value(cx.tm()[e as int], env)]
                fin.rel.admits(h, env) implies term::value(cx.tm()[n as int], env) == term::value(
                cx.tm()[e as int],
                env,
            ) by {
                let v = cx0.val(n as int, env);
                let u = cx.val(e as int, env);
                let vals = xor::env_vals(cx1.tm(), env);
                let x = linear::lin_num(form@, vals);
                assert(u == bits::bits_of(x, w as nat));
                modular::lemma_eqm_nat(x, w as nat);
                let cs0 = corners::corners(cx0.tm(), atoms, env);
                let cs1 = corners::corners(cx1.tm(), atoms, env);
                assert forall|b: int| #[trigger] cs0(b) == cs1(b) by {
                    lemma_corner_grow(&cx0, &cx1, atoms, env, b);
                }
                assert(cs0 =~= cs1);
                let dd = corners::dot(corners::nums(rv), cs0, w as nat);
                modular::lemma_eqm_add(modular::num(u), x, dd, dd, w as nat);
                let _ = term::value(cx0.tm()[n as int], env);
                corners::lemma_same_corners(cx0.tm(), atoms, rv, v, u, env, w as nat);
            }
        }
        self.finish(cx, PassKind::LinearMba, n, e, before, &reg.atoms, fin)
    }
}


} // verus!
