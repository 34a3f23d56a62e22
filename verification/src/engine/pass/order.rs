//! The order part of the compares pass: boolean combinations of comparisons between a few terms
//! of one width, where a term is an atom or a `select` between terms on such a condition (a
//! minimum or maximum written out), decided over the orders the atoms can stand in.
//!
//! Whatever values the atoms take, they stand in one total preorder (a ranking with ties): the
//! unsigned one for `<u`, `<=u`, the signed one for `<s`, `<=s`, and either for `==`, `!=`. A
//! comparison of two terms is decided by their ranks, so the whole formula is a function of the
//! preorder (and of the 1-bit leaves that are not comparisons, enumerated too). The pass
//! enumerates every preorder of a few atoms, drops the ones the atoms cannot stand in, and
//! reads the formula's value in each:
//!
//! - constants stand in their own order, and facts order atoms whose ranges do not overlap;
//! - an operation bounded by an operand stands at most (or at least) there: `x & y <=u x`,
//!   `x <=u x | y`, `x >>u s <=u x`, `urem(x, y) <=u x`, `udiv(x, d) <=u x` for a divisor the
//!   facts show nonzero;
//! - monotone operations keep the order of their operands: `x <=u y` gives
//!   `x >>u s <=u y >>u s` and `udiv(x, d) <=u udiv(y, d)`, and `x <=s y` gives
//!   `x >>s s <=s y >>s s`.
//!
//! Dropping only orders that cannot occur keeps the reading exact: each assignment of values
//! stands in one of the orders read. A formula true in every one is true, false in every one is
//! false, and one that agrees everywhere with a single comparison of two atoms (or a 1-bit
//! leaf) is that comparison; a `select` whose value is always one atom is that atom, and one
//! that is always the lesser (greater) of two is written as that minimum (maximum).

use vstd::prelude::*;
use crate::term;
use crate::engine::fin;
use crate::engine::pass::ranks;
use crate::engine::runner;
use vstd::arithmetic::power2::pow2;
use crate::ops;
use crate::bits;
use crate::bitvec::BitVec;
use crate::engine::budget::Counter;
use crate::engine::fin::{Fin, Stop};
use crate::engine::pass::ranks::{enumerate_preorders, MAX_ATOMS};
use crate::engine::runner::{lists, Runner, PASS_STEP};
use crate::engine::stats::bump;
use crate::expr::{Context, Node};
use crate::facts::reliance::{Hyp, Reliance};
use crate::ops::{BinOp, CmpOp, UnOp};
use crate::term::Env;

verus! {

broadcast use crate::term::lemma_value_len;

/// The most 1-bit leaves that are not comparisons.
pub const MAX_BOOLS: usize = 2;

/// The most formula nodes.
pub const MAX_ITEMS: usize = 48;

/// A formula node.
#[derive(Clone, Copy)]
pub enum Item {
    /// A term atom (its index).
    Atom(usize),
    /// A 1-bit leaf (its index).
    Bool(usize),
    /// A 1-bit constant.
    Const(bool),
    /// A complement.
    Not(usize),
    /// A conjunction.
    And(usize, usize),
    /// A disjunction.
    Or(usize, usize),
    /// An exclusive disjunction.
    Xor(usize, usize),
    /// `a < b` (strict) or `a <= b` in the model's order, between term items.
    Less(bool, usize, usize),
    /// `a == b` (or `!=` when negated) between term items.
    Equal(bool, usize, usize),
    /// A 1-bit select between 1-bit items, or a term select between term items.
    Select(usize, usize, usize),
}

/// The formula below a node, compiled.
pub struct Model {
    /// The formula, operands first.
    pub items: Vec<Item>,
    /// The term atoms.
    pub atoms: Vec<u32>,
    /// The 1-bit leaves.
    pub bools: Vec<u32>,
    /// The width of the terms.
    pub width: u16,
    /// The order's kind, once a comparison fixed it: signed or not.
    pub signed: Option<bool>,
    /// Whether an item is a term (else 1-bit).
    pub term: Vec<bool>,
    /// How many comparisons there are.
    pub comparisons: u64,
    /// How many selects between terms there are.
    pub selects: u64,
    /// The node of each item, in order.
    pub nodes: Vec<u32>,
}

/// A model's state, to return to when an attempt does not fit.
struct Mark {
    items: usize,
    atoms: usize,
    bools: usize,
    width: u16,
    signed: Option<bool>,
    comparisons: u64,
    selects: u64,
}

/// Where a value stands in the unsigned or the signed order.
pub open spec fn key(signed: bool, v: Seq<bool>) -> int {
    if signed {
        bits::int_of(v)
    } else {
        bits::nat_of(v) as int
    }
}

/// Values of one width that stand at one place are equal.
pub proof fn lemma_key_same(signed: bool, a: Seq<bool>, b: Seq<bool>)
    requires
        a.len() == b.len(),
    ensures
        key(signed, a) == key(signed, b) <==> a == b,
{
    if key(signed, a) == key(signed, b) {
        if signed {
            ops::lemma_int_injective(a, b);
        } else {
            bits::lemma_nat_injective(a, b);
        }
    }
}

/// The 1-bit node `n` is set at `env`.
pub open(crate) spec fn set_at(cx: &Context, n: u32, env: Env) -> bool {
    cx.val(n as int, env)[0]
}

/// Item `a` comes before `i` and is 1-bit.
pub open spec fn flag(m: Model, a: usize, i: int) -> bool {
    a < i && !m.term@[a as int]
}

/// Item `a` comes before `i` and is a term.
pub open spec fn side(m: Model, a: usize, i: int) -> bool {
    a < i && m.term@[a as int]
}

/// Item `it` at place `i`, over the items before it, is what node `n` computes.
pub open(crate) spec fn says(cx: &Context, m: Model, it: Item, n: u32, t: bool, i: int) -> bool {
    &&& n < cx.n()
    &&& cx.w(n as int) == (if t {
        m.width as nat
    } else {
        1nat
    })
    &&& match it {
        Item::Atom(a) => t && a < m.atoms@.len() && m.atoms@[a as int] == n,
        Item::Bool(b) => !t && b < m.bools@.len() && m.bools@[b as int] == n,
        Item::Const(v) => !t && forall|env: Env| #[trigger] set_at(cx, n, env) == v,
        Item::Not(a) => !t && flag(m, a, i) && forall|env: Env| #[trigger]
            set_at(cx, n, env) == !set_at(cx, m.nodes@[a as int], env),
        Item::And(a, b) => !t && flag(m, a, i) && flag(m, b, i) && forall|env: Env| #[trigger]
            set_at(cx, n, env) == (set_at(cx, m.nodes@[a as int], env) && set_at(
                cx,
                m.nodes@[b as int],
                env,
            )),
        Item::Or(a, b) => !t && flag(m, a, i) && flag(m, b, i) && forall|env: Env| #[trigger]
            set_at(cx, n, env) == (set_at(cx, m.nodes@[a as int], env) || set_at(
                cx,
                m.nodes@[b as int],
                env,
            )),
        Item::Xor(a, b) => !t && flag(m, a, i) && flag(m, b, i) && forall|env: Env| #[trigger]
            set_at(cx, n, env) == (set_at(cx, m.nodes@[a as int], env) != set_at(
                cx,
                m.nodes@[b as int],
                env,
            )),
        Item::Less(strict, a, b) => !t && side(m, a, i) && side(m, b, i) && m.signed is Some
            && forall|env: Env| #[trigger]
            set_at(cx, n, env) == less(
                strict,
                key(m.signed == Some(true), cx.val(m.nodes@[a as int] as int, env)),
                key(m.signed == Some(true), cx.val(m.nodes@[b as int] as int, env)),
            ),
        Item::Equal(neg, a, b) => !t && side(m, a, i) && side(m, b, i) && forall|env: Env|
         #[trigger]
            set_at(cx, n, env) == ((cx.val(m.nodes@[a as int] as int, env) == cx.val(
                m.nodes@[b as int] as int,
                env,
            )) != neg),
        Item::Select(c, x, y) => flag(m, c, i) && x < i && y < i && m.term@[x as int] == t
            && m.term@[y as int] == t && forall|env: Env| #[trigger]
            cx.val(n as int, env) == (if set_at(cx, m.nodes@[c as int], env) {
                cx.val(m.nodes@[x as int] as int, env)
            } else {
                cx.val(m.nodes@[y as int] as int, env)
            }),
    }
}

/// `a < b` or `a <= b`.
pub open spec fn less(strict: bool, a: int, b: int) -> bool {
    if strict {
        a < b
    } else {
        a <= b
    }
}

/// Item `i` is what its node computes.
pub open(crate) spec fn item_ok(cx: &Context, m: Model, i: int) -> bool {
    says(cx, m, m.items@[i], m.nodes@[i], m.term@[i], i)
}

/// The model is the formula.
pub open(crate) spec fn model_ok(cx: &Context, m: Model) -> bool {
    &&& m.items@.len() == m.nodes@.len()
    &&& m.items@.len() == m.term@.len()
    &&& m.atoms@.len() <= MAX_ATOMS
    &&& m.bools@.len() <= MAX_BOOLS
    &&& forall|k: int|
        #![trigger m.atoms@[k]]
        0 <= k < m.atoms@.len() ==> m.atoms@[k] < cx.n() && cx.w(m.atoms@[k] as int) == m.width
    &&& forall|k: int|
        #![trigger m.bools@[k]]
        0 <= k < m.bools@.len() ==> m.bools@[k] < cx.n() && cx.w(m.bools@[k] as int) == 1
    &&& forall|i: int| 0 <= i < m.items@.len() ==> #[trigger] item_ok(cx, m, i)
}

/// `a` begins with `b`.
pub open spec fn begins<T>(a: Seq<T>, b: Seq<T>) -> bool {
    a.len() >= b.len() && forall|k: int|
        #![trigger a[k]]
        #![trigger b[k]]
        0 <= k < b.len() ==> a[k] == b[k]
}

/// `m1` is `m0` with more in it.
pub open spec fn grown(m1: Model, m0: Model) -> bool {
    &&& begins(m1.items@, m0.items@)
    &&& begins(m1.nodes@, m0.nodes@)
    &&& begins(m1.term@, m0.term@)
    &&& begins(m1.atoms@, m0.atoms@)
    &&& begins(m1.bools@, m0.bools@)
    &&& m0.width != 0 ==> m1.width == m0.width
    &&& m0.signed is Some ==> m1.signed == m0.signed
}

/// What an item says stays right as the model grows.
proof fn lemma_says_grown(cx: &Context, m0: Model, m1: Model, it: Item, n: u32, t: bool, i: int)
    requires
        cx.wf(),
        m0.nodes@.len() == m0.term@.len(),
        i <= m0.nodes@.len(),
        grown(m1, m0),
        says(cx, m0, it, n, t, i),
    ensures
        says(cx, m1, it, n, t, i),
{
    assert(cx.ok_at(n as int));
}

/// The items stay right as the model grows.
proof fn lemma_items_grown(cx: &Context, m0: Model, m1: Model)
    requires
        cx.wf(),
        model_ok(cx, m0),
        grown(m1, m0),
    ensures
        forall|i: int| 0 <= i < m0.items@.len() ==> #[trigger] item_ok(cx, m1, i),
        forall|k: int|
            #![trigger m1.atoms@[k]]
            0 <= k < m0.atoms@.len() ==> m1.atoms@[k] < cx.n() && cx.w(m1.atoms@[k] as int)
                == m1.width,
{
    assert forall|i: int| 0 <= i < m0.items@.len() implies #[trigger] item_ok(cx, m1, i) by {
        assert(item_ok(cx, m0, i));
        lemma_says_grown(cx, m0, m1, m0.items@[i], m0.nodes@[i], m0.term@[i], i);
    }
    assert forall|k: int| #![trigger m1.atoms@[k]] 0 <= k < m0.atoms@.len() implies m1.atoms@[k]
        < cx.n() && cx.w(m1.atoms@[k] as int) == m1.width by {
        let _ = m0.atoms@[k];
        assert(cx.ok_at(m0.atoms@[k] as int));
    }
}

impl Model {
    /// Nothing yet.
    fn empty(width: u16) -> (r: Model)
        ensures
            forall|cx: &Context| #[trigger] model_ok(cx, r),
            r.width == width,
    {
        Model {
            items: Vec::new(),
            atoms: Vec::new(),
            bools: Vec::new(),
            width,
            signed: None,
            term: Vec::new(),
            comparisons: 0,
            selects: 0,
            nodes: Vec::new(),
        }
    }

    /// The item of node `n`.
    fn index(&self, n: u32) -> (r: Option<usize>)
        ensures
            r matches Some(i) ==> i < self.nodes@.len() && self.nodes@[i as int] == n,
    {
        let mut i: usize = 0;
        while i < self.nodes.len()
            invariant
                i <= self.nodes.len(),
            decreases self.nodes.len() - i,
        {
            if self.nodes[i] == n {
                return Some(i);
            }
            i = i + 1;
        }
        None
    }

    fn push(&mut self, cx: &Context, n: u32, it: Item, term: bool) -> (r: usize)
        requires
            cx.wf(),
            model_ok(cx, *old(self)),
            says(cx, *old(self), it, n, term, old(self).items@.len() as int),
        ensures
            model_ok(cx, *final(self)),
            grown(*final(self), *old(self)),
            r == old(self).items@.len(),
            r < final(self).items@.len(),
            final(self).nodes@[r as int] == n,
            final(self).term@[r as int] == term,
            final(self).items@[r as int] == it,
    {
        let ghost m0 = *self;
        let r = self.items.len();
        self.items.push(it);
        self.term.push(term);
        self.nodes.push(n);
        proof {
            lemma_items_grown(cx, m0, *self);
            lemma_says_grown(cx, m0, *self, it, n, term, r as int);
            assert forall|i: int| 0 <= i < self.items@.len() implies #[trigger] item_ok(
                cx,
                *self,
                i,
            ) by {
                if i == r {
                    assert(says(cx, *self, it, n, term, i));
                }
            }
        }
        r
    }

    fn mark(&self) -> (r: Mark)
        ensures
            r.items == self.items@.len(),
            r.atoms == self.atoms@.len(),
            r.bools == self.bools@.len(),
            r.width == self.width,
            r.signed == self.signed,
    {
        Mark {
            items: self.items.len(),
            atoms: self.atoms.len(),
            bools: self.bools.len(),
            width: self.width,
            signed: self.signed,
            comparisons: self.comparisons,
            selects: self.selects,
        }
    }

    fn undo(&mut self, m: Mark, Ghost(m0): Ghost<Model>, cx: &Context)
        requires
            cx.wf(),
            model_ok(cx, m0),
            grown(*old(self), m0),
            m.items == m0.items@.len(),
            m.atoms == m0.atoms@.len(),
            m.bools == m0.bools@.len(),
            m.width == m0.width,
            m.signed == m0.signed,
        ensures
            model_ok(cx, *final(self)),
            grown(*final(self), m0),
            final(self).atoms@ == m0.atoms@,
            final(self).items@ == m0.items@,
    {
        self.items.truncate(m.items);
        self.term.truncate(m.items);
        self.nodes.truncate(m.items);
        self.atoms.truncate(m.atoms);
        self.bools.truncate(m.bools);
        self.width = m.width;
        self.signed = m.signed;
        self.comparisons = m.comparisons;
        self.selects = m.selects;
        proof {
            assert(self.items@ =~= m0.items@);
            assert(self.term@ =~= m0.term@);
            assert(self.nodes@ =~= m0.nodes@);
            assert(self.atoms@ =~= m0.atoms@);
            assert(self.bools@ =~= m0.bools@);
            lemma_items_grown(cx, m0, *self);
        }
    }

    /// The operands of a comparison, as terms of the model's width and order.
    fn sides(&mut self, cx: &Context, op: CmpOp, a: u32, b: u32) -> (r: Option<(usize, usize)>)
        requires
            cx.wf(),
            a < cx.n(),
            b < cx.n(),
            cx.w(a as int) == cx.w(b as int),
            model_ok(cx, *old(self)),
        ensures
            model_ok(cx, *final(self)),
            grown(*final(self), *old(self)),
            r matches Some((x, y)) ==> side(*final(self), x, final(self).items@.len() as int)
                && side(*final(self), y, final(self).items@.len() as int)
                && final(self).nodes@[x as int] == a && final(self).nodes@[y as int] == b && (op
                == CmpOp::Ult || op == CmpOp::Ule ==> final(self).signed == Some(false)) && (op
                == CmpOp::Slt || op == CmpOp::Sle ==> final(self).signed == Some(true)),
        decreases
            (if a >= b {
                a
            } else {
                b
            }),
            1nat,
    {
        let ghost m0 = *self;
        let w = cx.wid(a);
        if self.width == 0 {
            self.width = w;
        } else if self.width != w {
            return None;
        }
        let signed: Option<bool> = match op {
            CmpOp::Ult | CmpOp::Ule => Some(false),
            CmpOp::Slt | CmpOp::Sle => Some(true),
            CmpOp::Eq | CmpOp::Ne => None,
        };
        if let Some(s) = signed {
            match self.signed {
                None => {
                    self.signed = Some(s);
                },
                Some(t) => {
                    if t != s {
                        proof {
                            lemma_items_grown(cx, m0, *self);
                        }
                        return None;
                    }
                },
            }
        }
        proof {
            lemma_items_grown(cx, m0, *self);
        }
        let ghost m1 = *self;
        let x = match self.value(cx, a) {
            Some(x) => x,
            None => {
                return None;
            },
        };
        let ghost m2 = *self;
        let y = match self.value(cx, b) {
            Some(y) => y,
            None => {
                return None;
            },
        };
        proof {
            assert(m2.term@[x as int] == self.term@[x as int]);
            assert(m2.nodes@[x as int] == self.nodes@[x as int]);
        }
        Some((x, y))
    }

    /// The 1-bit node `n`: none when it does not fit.
    fn boolean(&mut self, cx: &Context, n: u32) -> (r: Option<usize>)
        requires
            cx.wf(),
            n < cx.n(),
            cx.w(n as int) == 1,
            model_ok(cx, *old(self)),
        ensures
            model_ok(cx, *final(self)),
            grown(*final(self), *old(self)),
            r matches Some(i) ==> flag(*final(self), i, final(self).items@.len() as int)
                && final(self).nodes@[i as int] == n,
        decreases n, 0nat,
    {
        if let Some(i) = self.index(n) {
            return if !self.term[i] {
                Some(i)
            } else {
                None
            };
        }
        if self.items.len() >= MAX_ITEMS {
            return None;
        }
        let ghost m0 = *self;
        let it = match cx.node(n) {
            Node::Const(_) => {
                let v = match cx.const_val(n) {
                    Some(v) => v,
                    None => {
                        return None;
                    },
                };
                let b = !v.is_zero();
                proof {
                    assert forall|env: Env| #[trigger] set_at(cx, n, env) == b by {
                        assert(cx.val(n as int, env) == v@);
                        if !v@[0] {
                            assert(v@ =~= bits::zeros(1));
                        } else {
                            assert(!bits::zeros(1)[0]);
                        }
                    }
                }
                Item::Const(b)
            },
            Node::Un(UnOp::Not, a) => {
                let x = match self.boolean(cx, a) {
                    Some(x) => x,
                    None => {
                        return None;
                    },
                };
                proof {
                    assert forall|env: Env| #[trigger] set_at(cx, n, env) == !set_at(cx, a, env) by {}
                }
                Item::Not(x)
            },
            Node::Bin(op, a, b) => {
                if op != BinOp::And && op != BinOp::Or && op != BinOp::Xor {
                    return self.leaf(cx, n);
                }
                let x = match self.boolean(cx, a) {
                    Some(x) => x,
                    None => {
                        return None;
                    },
                };
                let ghost m1 = *self;
                proof {
                    assert(cx.ok_at(b as int));
                }
                let y = match self.boolean(cx, b) {
                    Some(y) => y,
                    None => {
                        return None;
                    },
                };
                proof {
                    assert(m1.term@[x as int] == self.term@[x as int]);
                    assert(m1.nodes@[x as int] == self.nodes@[x as int]);
                    assert(cx.ok_at(a as int));
                    assert forall|env: Env|
                        #![trigger set_at(cx, n, env)]
                        set_at(cx, n, env) == (match op {
                            BinOp::And => set_at(cx, a, env) && set_at(cx, b, env),
                            BinOp::Or => set_at(cx, a, env) || set_at(cx, b, env),
                            _ => set_at(cx, a, env) != set_at(cx, b, env),
                        }) by {}
                }
                match op {
                    BinOp::And => Item::And(x, y),
                    BinOp::Or => Item::Or(x, y),
                    _ => Item::Xor(x, y),
                }
            },
            Node::Select(c, a, b) => {
                proof {
                    assert(cx.ok_at(c as int));
                    assert(cx.ok_at(a as int));
                    assert(cx.ok_at(b as int));
                }
                let z = match self.boolean(cx, c) {
                    Some(z) => z,
                    None => {
                        return None;
                    },
                };
                let ghost m1 = *self;
                let x = match self.boolean(cx, a) {
                    Some(x) => x,
                    None => {
                        return None;
                    },
                };
                let ghost m2 = *self;
                let y = match self.boolean(cx, b) {
                    Some(y) => y,
                    None => {
                        return None;
                    },
                };
                proof {
                    assert(m1.nodes@[z as int] == self.nodes@[z as int]);
                    assert(m1.term@[z as int] == self.term@[z as int]);
                    assert(m2.nodes@[x as int] == self.nodes@[x as int]);
                    assert(m2.term@[x as int] == self.term@[x as int]);
                }
                Item::Select(z, x, y)
            },
            Node::Cmp(op, a, b) => {
                if cx.wid(a) <= 1 {
                    return self.leaf(cx, n);
                }
                proof {
                    assert(cx.ok_at(a as int));
                    assert(cx.ok_at(b as int));
                }
                let (x, y) = match self.sides(cx, op, a, b) {
                    Some(p) => p,
                    None => {
                        return None;
                    },
                };
                let ghost m1 = *self;
                self.comparisons = bump(self.comparisons);
                proof {
                    lemma_items_grown(cx, m1, *self);
                    assert forall|env: Env| #[trigger] set_at(cx, n, env) == ops::holds(
                        op,
                        cx.val(a as int, env),
                        cx.val(b as int, env),
                    ) by {}
                }
                match op {
                    CmpOp::Ult | CmpOp::Slt => Item::Less(true, x, y),
                    CmpOp::Ule | CmpOp::Sle => Item::Less(false, x, y),
                    CmpOp::Eq => Item::Equal(false, x, y),
                    CmpOp::Ne => Item::Equal(true, x, y),
                }
            },
            _ => {
                return self.leaf(cx, n);
            },
        };
        let r = self.push(cx, n, it, false);
        Some(r)
    }

    /// The 1-bit node `n` as a leaf: none when there are too many.
    fn leaf(&mut self, cx: &Context, n: u32) -> (r: Option<usize>)
        requires
            cx.wf(),
            n < cx.n(),
            cx.w(n as int) == 1,
            model_ok(cx, *old(self)),
        ensures
            model_ok(cx, *final(self)),
            grown(*final(self), *old(self)),
            r matches Some(i) ==> flag(*final(self), i, final(self).items@.len() as int)
                && final(self).nodes@[i as int] == n,
    {
        if self.bools.len() >= MAX_BOOLS {
            return None;
        }
        let ghost m0 = *self;
        let k = self.bools.len();
        self.bools.push(n);
        proof {
            lemma_items_grown(cx, m0, *self);
        }
        let r = self.push(cx, n, Item::Bool(k), false);
        Some(r)
    }

    /// The term `n` (of the model's width): a select on a condition that fits, or an atom.
    fn value(&mut self, cx: &Context, n: u32) -> (r: Option<usize>)
        requires
            cx.wf(),
            n < cx.n(),
            cx.w(n as int) == old(self).width,
            model_ok(cx, *old(self)),
        ensures
            model_ok(cx, *final(self)),
            grown(*final(self), *old(self)),
            r matches Some(i) ==> side(*final(self), i, final(self).items@.len() as int)
                && final(self).nodes@[i as int] == n,
        decreases n, 0nat,
    {
        if let Some(i) = self.index(n) {
            return if self.term[i] {
                Some(i)
            } else {
                None
            };
        }
        if self.items.len() >= MAX_ITEMS {
            return None;
        }
        let ghost m0 = *self;
        assert(cx.ok_at(n as int));
        if let Node::Select(c, a, b) = cx.node(n) {
            let mark = self.mark();
            if let Some(r) = self.choice(cx, n, c, a, b) {
                return Some(r);
            }
            // Not a select between terms on an order condition: an atom after all.
            self.undo(mark, Ghost(m0), cx);
        }
        if self.atoms.len() >= MAX_ATOMS {
            return None;
        }
        let ghost m1 = *self;
        let k = self.atoms.len();
        self.atoms.push(n);
        proof {
            lemma_items_grown(cx, m1, *self);
        }
        let r = self.push(cx, n, Item::Atom(k), true);
        Some(r)
    }

    /// The term select `n`, if its condition and its arms fit.
    fn choice(&mut self, cx: &Context, n: u32, c: u32, a: u32, b: u32) -> (r: Option<usize>)
        requires
            cx.wf(),
            n < cx.n(),
            cx.nodes@[n as int] == Node::Select(c, a, b),
            cx.w(n as int) == old(self).width,
            model_ok(cx, *old(self)),
        ensures
            model_ok(cx, *final(self)),
            grown(*final(self), *old(self)),
            r matches Some(i) ==> side(*final(self), i, final(self).items@.len() as int)
                && final(self).nodes@[i as int] == n,
        decreases
            (if c >= a && c >= b {
                c
            } else if a >= b {
                a
            } else {
                b
            }),
            1nat,
    {
        proof {
            assert(cx.ok_at(n as int));
            assert(cx.ok_at(c as int));
            assert(cx.ok_at(a as int));
            assert(cx.ok_at(b as int));
        }
        let z = match self.boolean(cx, c) {
            Some(z) => z,
            None => {
                return None;
            },
        };
        let ghost m1 = *self;
        let x = match self.value(cx, a) {
            Some(x) => x,
            None => {
                return None;
            },
        };
        let ghost m2 = *self;
        let y = match self.value(cx, b) {
            Some(y) => y,
            None => {
                return None;
            },
        };
        proof {
            assert(m1.nodes@[z as int] == self.nodes@[z as int]);
            assert(m1.term@[z as int] == self.term@[z as int]);
            assert(m2.nodes@[x as int] == self.nodes@[x as int]);
            assert(m2.term@[x as int] == self.term@[x as int]);
        }
        let ghost m3 = *self;
        self.selects = bump(self.selects);
        proof {
            lemma_items_grown(cx, m3, *self);
        }
        let r = self.push(cx, n, Item::Select(z, x, y), true);
        Some(r)
    }
}

/// What is known about the atoms: pairs where the first is always at most (below) the second,
/// and conditional orders: when the first is at most the second, the third is at most the
/// fourth.
struct Orders {
    le: Vec<(usize, usize)>,
    lt: Vec<(usize, usize)>,
    mono: Vec<(usize, usize, usize, usize)>,
}

/// Where atom `i` stands at `env`.
pub open(crate) spec fn place(cx: &Context, m: Model, i: int, env: Env) -> int {
    key(m.signed == Some(true), cx.val(m.atoms@[i] as int, env))
}

/// The pairs speak of atoms.
spec fn orders_fit(kn: Orders, k: int) -> bool {
    &&& forall|p: int|
        #![trigger kn.le@[p]]
        0 <= p < kn.le@.len() ==> kn.le@[p].0 < k && kn.le@[p].1 < k
    &&& forall|p: int|
        #![trigger kn.lt@[p]]
        0 <= p < kn.lt@.len() ==> kn.lt@[p].0 < k && kn.lt@[p].1 < k
    &&& forall|p: int|
        #![trigger kn.mono@[p]]
        0 <= p < kn.mono@.len() ==> kn.mono@[p].0 < k && kn.mono@[p].1 < k && kn.mono@[p].2 < k
            && kn.mono@[p].3 < k
}

/// What is known about the atoms holds at `env`.
spec fn orders_hold(cx: &Context, m: Model, kn: Orders, env: Env) -> bool {
    &&& forall|p: int|
        #![trigger kn.le@[p]]
        0 <= p < kn.le@.len() ==> place(cx, m, kn.le@[p].0 as int, env) <= place(
            cx,
            m,
            kn.le@[p].1 as int,
            env,
        )
    &&& forall|p: int|
        #![trigger kn.lt@[p]]
        0 <= p < kn.lt@.len() ==> place(cx, m, kn.lt@[p].0 as int, env) < place(
            cx,
            m,
            kn.lt@[p].1 as int,
            env,
        )
    &&& forall|p: int|
        #![trigger kn.mono@[p]]
        0 <= p < kn.mono@.len() && place(cx, m, kn.mono@[p].0 as int, env) <= place(
            cx,
            m,
            kn.mono@[p].1 as int,
            env,
        ) ==> place(cx, m, kn.mono@[p].2 as int, env) <= place(cx, m, kn.mono@[p].3 as int, env)
}

/// It holds wherever what is relied on does.
spec fn orders_ok(cx: &Context, m: Model, kn: Orders, h: Hyp, rel: Reliance) -> bool {
    &&& orders_fit(kn, m.atoms@.len() as int)
    &&& forall|env: Env| rel.admits(h, env) ==> #[trigger] orders_hold(cx, m, kn, env)
}

/// An operation bounded by its first operand, unsigned.
proof fn lemma_bounded(op: BinOp, a: Seq<bool>, b: Seq<bool>)
    requires
        a.len() == b.len(),
    ensures
        op == BinOp::And ==> bits::nat_of(ops::bin_value(op, a, b)) <= bits::nat_of(a),
        op == BinOp::And ==> bits::nat_of(ops::bin_value(op, a, b)) <= bits::nat_of(b),
        op == BinOp::Or ==> bits::nat_of(ops::bin_value(op, a, b)) >= bits::nat_of(a),
        op == BinOp::Or ==> bits::nat_of(ops::bin_value(op, a, b)) >= bits::nat_of(b),
        op == BinOp::LShr ==> bits::nat_of(ops::bin_value(op, a, b)) <= bits::nat_of(a),
        op == BinOp::URem ==> bits::nat_of(ops::bin_value(op, a, b)) <= bits::nat_of(a),
        op == BinOp::UDiv && bits::nat_of(b) != 0 ==> bits::nat_of(ops::bin_value(op, a, b))
            <= bits::nat_of(a),
{
    ops::lemma_and_or_xor_nat(a, b);
    let x = bits::nat_of(a);
    let y = bits::nat_of(b);
    bits::lemma_nat_bound(a);
    if op == BinOp::LShr {
        lemma_shr_nat(a, y);
        vstd::arithmetic::power2::lemma_pow2_pos(y);
        vstd::arithmetic::div_mod::lemma_div_nonincreasing(x as int, pow2(y) as int);
    }
    if y != 0 && op == BinOp::URem {
        vstd::arithmetic::div_mod::lemma_mod_decreases(x, y);
        bits::lemma_nat_bits_of((x % y) as int, a.len());
        vstd::arithmetic::div_mod::lemma_small_mod(x % y, pow2(a.len()));
    }
    if y != 0 && op == BinOp::UDiv {
        vstd::arithmetic::div_mod::lemma_div_nonincreasing(x as int, y as int);
        vstd::arithmetic::div_mod::lemma_div_pos_is_pos(x as int, y as int);
        bits::lemma_nat_bits_of((x / y) as int, a.len());
        vstd::arithmetic::div_mod::lemma_small_mod(x / y, pow2(a.len()));
    }
}

/// A logical shift right divides.
proof fn lemma_shr_nat(a: Seq<bool>, k: nat)
    ensures
        bits::nat_of(ops::shr_bits(a, k, false)) == bits::nat_of(a) / pow2(k),
{
    let w = a.len();
    let r = ops::shr_bits(a, k, false);
    if k <= w {
        let hi = a.skip(k as int);
        assert(r =~= hi + bits::zeros(k));
        bits::lemma_nat_concat(hi, bits::zeros(k));
        bits::lemma_zeros_nat(k);
        assert(pow2(hi.len()) * 0 == 0);
        bits::lemma_nat_take(a, k as int);
    } else {
        assert(r =~= bits::zeros(w));
        bits::lemma_zeros_nat(w);
        bits::lemma_nat_bound(a);
        bits::lemma_pow2_le(w, k);
        vstd::arithmetic::div_mod::lemma_basic_div(bits::nat_of(a) as int, pow2(k) as int);
    }
}

/// A logical shift right and a division keep the unsigned order.
proof fn lemma_monotone(op: BinOp, a: Seq<bool>, c: Seq<bool>, b: Seq<bool>)
    requires
        a.len() == b.len(),
        c.len() == b.len(),
        op == BinOp::LShr || op == BinOp::UDiv,
        bits::nat_of(a) <= bits::nat_of(c),
    ensures
        bits::nat_of(ops::bin_value(op, a, b)) <= bits::nat_of(ops::bin_value(op, c, b)),
{
    let x = bits::nat_of(a);
    let z = bits::nat_of(c);
    let y = bits::nat_of(b);
    bits::lemma_nat_bound(a);
    bits::lemma_nat_bound(c);
    if op == BinOp::LShr {
        lemma_shr_nat(a, y);
        lemma_shr_nat(c, y);
        vstd::arithmetic::power2::lemma_pow2_pos(y);
        vstd::arithmetic::div_mod::lemma_div_is_ordered(x as int, z as int, pow2(y) as int);
    } else if y != 0 {
        vstd::arithmetic::div_mod::lemma_div_nonincreasing(x as int, y as int);
        vstd::arithmetic::div_mod::lemma_div_nonincreasing(z as int, y as int);
        vstd::arithmetic::div_mod::lemma_div_is_ordered(x as int, z as int, y as int);
        bits::lemma_nat_bits_of((x / y) as int, a.len());
        vstd::arithmetic::div_mod::lemma_small_mod(x / y, pow2(a.len()));
        bits::lemma_nat_bits_of((z / y) as int, a.len());
        vstd::arithmetic::div_mod::lemma_small_mod(z / y, pow2(a.len()));
    }
}

/// An arithmetic shift right keeps the signed order.
proof fn lemma_monotone_signed(a: Seq<bool>, c: Seq<bool>, k: nat)
    requires
        a.len() == c.len(),
        a.len() > 0,
        bits::int_of(a) <= bits::int_of(c),
    ensures
        bits::int_of(ops::shr_bits(a, k, a.last())) <= bits::int_of(
            ops::shr_bits(c, k, c.last()),
        ),
{
    let p = ops::shr_bits(a, k, a.last());
    let q = ops::shr_bits(c, k, c.last());
    ops::lemma_sign(a);
    ops::lemma_sign(c);
    ops::lemma_sign(p);
    ops::lemma_sign(q);
    bits::lemma_nat_bound(a);
    bits::lemma_nat_bound(c);
    bits::lemma_nat_bound(p);
    bits::lemma_nat_bound(q);
    assert(p.last() == a.last());
    assert(q.last() == c.last());
    if a.last() == c.last() {
        if a.last() {
            // The complements shift in zeros, and stand in the opposite order.
            ops::lemma_not_nat(a);
            ops::lemma_not_nat(c);
            ops::lemma_not_nat(p);
            ops::lemma_not_nat(q);
            let na = ops::not_bits(a);
            let nc = ops::not_bits(c);
            assert(ops::not_bits(p) =~= ops::shr_bits(na, k, false));
            assert(ops::not_bits(q) =~= ops::shr_bits(nc, k, false));
            lemma_shr_nat(na, k);
            lemma_shr_nat(nc, k);
            vstd::arithmetic::power2::lemma_pow2_pos(k);
            vstd::arithmetic::div_mod::lemma_div_is_ordered(
                bits::nat_of(nc) as int,
                bits::nat_of(na) as int,
                pow2(k) as int,
            );
        } else {
            lemma_shr_nat(a, k);
            lemma_shr_nat(c, k);
            vstd::arithmetic::power2::lemma_pow2_pos(k);
            vstd::arithmetic::div_mod::lemma_div_is_ordered(
                bits::nat_of(a) as int,
                bits::nat_of(c) as int,
                pow2(k) as int,
            );
        }
    }
}

/// The index of `n` among the atoms.
fn position(v: &Vec<u32>, n: u32) -> (r: Option<usize>)
    ensures
        r matches Some(i) ==> i < v@.len() && v@[i as int] == n,
{
    let mut i: usize = 0;
    while i < v.len()
        invariant
            i <= v.len(),
        decreases v.len() - i,
    {
        if v[i] == n {
            return Some(i);
        }
        i = i + 1;
    }
    None
}

/// The least and the greatest value of atom `i` wherever what is relied on holds.
spec fn bound_ok(cx: &Context, m: Model, i: int, b: Option<(BitVec, BitVec)>, h: Hyp, rel: Reliance) -> bool {
    b matches Some((lo, hi)) ==> lo@.len() == m.width && hi@.len() == m.width && forall|env: Env|
        rel.admits(h, env) ==> key(m.signed == Some(true), lo@) <= #[trigger] place(
            cx,
            m,
            i,
            env,
        ) <= key(m.signed == Some(true), hi@)
}

impl<'a> Runner<'a> {
    /// The ranges of the atoms, from the facts.
    fn ranges(&mut self, cx: &Context, m: &Model) -> (out: Result<
        (Vec<Option<(BitVec, BitVec)>>, Fin),
        Stop,
    >)
        requires
            old(self).wf(cx),
            model_ok(cx, *m),
            m.width > 0,
        ensures
            runner::went(final(self), cx, old(self), cx),
            out matches Err(e) ==> final(self).refuses(cx, e),
            out matches Ok((v, fin)) ==> v@.len() == m.atoms@.len() && forall|i: int|
                #![trigger v@[i]]
                0 <= i < v@.len() ==> bound_ok(cx, *m, i, v@[i], final(self).hyp@, fin.rel),
    {
        let signed = m.signed == Some(true);
        let mut fin = Fin::full();
        let mut out: Vec<Option<(BitVec, BitVec)>> = Vec::new();
        let ghost h = self.hyp@;
        while out.len() < m.atoms.len()
            invariant
                self.wf(cx),
                runner::went(self, cx, old(self), cx),
                self.hyp@ == h,
                model_ok(cx, *m),
                m.width > 0,
                signed == (m.signed == Some(true)),
                out@.len() <= m.atoms@.len(),
                forall|i: int|
                    #![trigger out@[i]]
                    0 <= i < out@.len() ==> bound_ok(cx, *m, i, out@[i], h, fin.rel),
            decreases m.atoms@.len() - out@.len(),
        {
            let i = out.len();
            let a = m.atoms[i];
            let (f, ff) = self.known(cx, a)?;
            let ghost fin0 = fin;
            fin = fin.and(ff);
            let b: Option<(BitVec, BitVec)> = match f {
                Some(k) => {
                    if signed {
                        Some((k.smin(), k.smax()))
                    } else {
                        Some((k.umin(), k.umax()))
                    }
                },
                None => None,
            };
            proof {
                assert(bound_ok(cx, *m, i as int, b, h, fin.rel)) by {
                    if let Some((lo, hi)) = b {
                        assert forall|env: Env| fin.rel.admits(h, env) implies key(signed, lo@)
                            <= #[trigger] place(cx, *m, i as int, env) <= key(signed, hi@) by {
                            let v = cx.val(a as int, env);
                            assert(f->Some_0.admits(v));
                        }
                    }
                }
                assert forall|j: int| #![trigger out@[j]] 0 <= j < out@.len() implies bound_ok(
                    cx,
                    *m,
                    j,
                    out@[j],
                    h,
                    fin.rel,
                ) by {
                    assert(bound_ok(cx, *m, j, out@[j], h, fin0.rel));
                }
            }
            out.push(b);
        }
        Ok((out, fin))
    }
}


/// Adds to what is known that atom `i` is at most atom `j`.
fn at_most(kn: &mut Orders, i: usize, j: usize)
    ensures
        final(kn).le@ == old(kn).le@.push((i, j)),
        final(kn).lt@ == old(kn).lt@,
        final(kn).mono@ == old(kn).mono@,
{
    kn.le.push((i, j));
}

/// What the ranges say about the order of the atoms.
fn apart(cx: &Context, m: &Model, bounds: &Vec<Option<(BitVec, BitVec)>>, Ghost(h): Ghost<Hyp>, rel: Ghost<Reliance>) -> (kn: Orders)
    requires
        cx.wf(),
        model_ok(cx, *m),
        m.width > 0,
        bounds@.len() == m.atoms@.len(),
        forall|i: int|
            #![trigger bounds@[i]]
            0 <= i < bounds@.len() ==> bound_ok(cx, *m, i, bounds@[i], h, rel@),
    ensures
        orders_ok(cx, *m, kn, h, rel@),
        kn.mono@.len() == 0,
{
    let signed = m.signed == Some(true);
    let k = m.atoms.len();
    let mut kn = Orders { le: Vec::new(), lt: Vec::new(), mono: Vec::new() };
    let mut i: usize = 0;
    while i < k
        invariant
            model_ok(cx, *m),
            m.width > 0,
            signed == (m.signed == Some(true)),
            k == m.atoms@.len(),
            bounds@.len() == k,
            forall|i: int|
                #![trigger bounds@[i]]
                0 <= i < bounds@.len() ==> bound_ok(cx, *m, i, bounds@[i], h, rel@),
            orders_ok(cx, *m, kn, h, rel@),
            kn.mono@.len() == 0,
        decreases k - i,
    {
        let mut j: usize = 0;
        while j < k
            invariant
                model_ok(cx, *m),
                m.width > 0,
                signed == (m.signed == Some(true)),
                i < k,
                k == m.atoms@.len(),
                bounds@.len() == k,
                forall|i: int|
                    #![trigger bounds@[i]]
                    0 <= i < bounds@.len() ==> bound_ok(cx, *m, i, bounds@[i], h, rel@),
                orders_ok(cx, *m, kn, h, rel@),
                kn.mono@.len() == 0,
            decreases k - j,
        {
            if i != j {
                if let (Some((_, hi)), Some((lo, _))) = (&bounds[i], &bounds[j]) {
                    let below = if signed {
                        hi.slt(lo)
                    } else {
                        hi.ult(lo)
                    };
                    let most = if signed {
                        !lo.slt(hi)
                    } else {
                        hi.ule(lo)
                    };
                    let ghost kn0 = kn;
                    if below {
                        kn.lt.push((i, j));
                    }
                    if most {
                        at_most(&mut kn, i, j);
                    }
                    proof {
                        assert(bound_ok(cx, *m, i as int, bounds@[i as int], h, rel@));
                        assert(bound_ok(cx, *m, j as int, bounds@[j as int], h, rel@));
                        assert forall|env: Env| rel@.admits(h, env) implies #[trigger] orders_hold(
                            cx,
                            *m,
                            kn,
                            env,
                        ) by {
                            assert(orders_hold(cx, *m, kn0, env));
                            let x = place(cx, *m, i as int, env);
                            let y = place(cx, *m, j as int, env);
                            assert(x <= key(signed, hi@));
                            assert(key(signed, lo@) <= y);
                            lemma_hold_le(cx, *m, kn0.le@, kn.le@, i, j, env, most);
                            assert forall|p: int|
                                #![trigger kn.lt@[p]]
                                0 <= p < kn.lt@.len() implies place(
                                cx,
                                *m,
                                kn.lt@[p].0 as int,
                                env,
                            ) < place(cx, *m, kn.lt@[p].1 as int, env) by {
                                if p < kn0.lt@.len() {
                                    assert(kn.lt@[p] == kn0.lt@[p]);
                                }
                            }
                        }
                        assert(orders_fit(kn, k as int)) by {
                            assert forall|p: int|
                                #![trigger kn.lt@[p]]
                                0 <= p < kn.lt@.len() implies kn.lt@[p].0 < k && kn.lt@[p].1
                                < k by {
                                if p < kn0.lt@.len() {
                                    assert(kn.lt@[p] == kn0.lt@[p]);
                                }
                            }
                            assert forall|p: int|
                                #![trigger kn.le@[p]]
                                0 <= p < kn.le@.len() implies kn.le@[p].0 < k && kn.le@[p].1
                                < k by {
                                if p < kn0.le@.len() {
                                    assert(kn.le@[p] == kn0.le@[p]);
                                }
                            }
                        }
                    }
                }
            }
            j = j + 1;
        }
        i = i + 1;
    }
    kn
}

/// One more pair in order.
proof fn lemma_hold_le(
    cx: &Context,
    m: Model,
    old_le: Seq<(usize, usize)>,
    le: Seq<(usize, usize)>,
    i: usize,
    j: usize,
    env: Env,
    more: bool,
)
    requires
        le == (if more {
            old_le.push((i, j))
        } else {
            old_le
        }),
        more ==> place(cx, m, i as int, env) <= place(cx, m, j as int, env),
        forall|p: int|
            #![trigger old_le[p]]
            0 <= p < old_le.len() ==> place(cx, m, old_le[p].0 as int, env) <= place(
                cx,
                m,
                old_le[p].1 as int,
                env,
            ),
    ensures
        forall|p: int|
            #![trigger le[p]]
            0 <= p < le.len() ==> place(cx, m, le[p].0 as int, env) <= place(
                cx,
                m,
                le[p].1 as int,
                env,
            ),
{
    assert forall|p: int| #![trigger le[p]] 0 <= p < le.len() implies place(
        cx,
        m,
        le[p].0 as int,
        env,
    ) <= place(cx, m, le[p].1 as int, env) by {
        if p < old_le.len() {
            assert(le[p] == old_le[p]);
        }
    }
}

/// Adds the order of atoms `i` and `j`, where it is known.
fn note(cx: &Context, m: &Model, kn: &mut Orders, i: usize, j: Option<usize>, Ghost(h): Ghost<Hyp>, rel: Ghost<Reliance>)
    requires
        orders_ok(cx, *m, *old(kn), h, rel@),
        i < m.atoms@.len(),
        j matches Some(j) ==> j < m.atoms@.len() && forall|env: Env|
            rel@.admits(h, env) ==> place(cx, *m, i as int, env) <= #[trigger] place(
                cx,
                *m,
                j as int,
                env,
            ),
    ensures
        orders_ok(cx, *m, *final(kn), h, rel@),
{
    if let Some(j) = j {
        let ghost kn0 = *kn;
        at_most(kn, i, j);
        proof {
            assert forall|env: Env| rel@.admits(h, env) implies #[trigger] orders_hold(
                cx,
                *m,
                *kn,
                env,
            ) by {
                assert(orders_hold(cx, *m, kn0, env));
                let _ = place(cx, *m, j as int, env);
                lemma_hold_le(cx, *m, kn0.le@, kn.le@, i, j, env, true);
            }
            assert forall|p: int| #![trigger kn.le@[p]] 0 <= p < kn.le@.len() implies kn.le@[p].0
                < m.atoms@.len() && kn.le@[p].1 < m.atoms@.len() by {
                if p < kn0.le@.len() {
                    assert(kn.le@[p] == kn0.le@[p]);
                }
            }
        }
    }
}

/// More is relied on.
proof fn lemma_orders_rely(cx: &Context, m: Model, kn: Orders, h: Hyp, a: Reliance, b: Reliance)
    requires
        orders_ok(cx, m, kn, h, a),
        forall|env: Env| b.admits(h, env) ==> #[trigger] a.admits(h, env),
    ensures
        orders_ok(cx, m, kn, h, b),
{
    assert forall|env: Env| b.admits(h, env) implies #[trigger] orders_hold(cx, m, kn, env) by {
        assert(a.admits(h, env));
    }
}

/// The operation and operands of a binary node.
fn bin_of(cx: &Context, n: u32) -> (r: Option<(BinOp, u32, u32)>)
    requires
        cx.wf(),
        n < cx.n(),
    ensures
        r is Some <==> cx.nodes@[n as int] is Bin,
        r matches Some((op, a, b)) ==> cx.nodes@[n as int] == Node::Bin(op, a, b) && a < n && b < n && cx.w(a as int) == cx.w(n as int) && cx.w(
            b as int,
        ) == cx.w(n as int) && forall|env: Env| #[trigger]
            cx.val(n as int, env) == ops::bin_value(
                op,
                cx.val(a as int, env),
                cx.val(b as int, env),
            ),
{
    match cx.node(n) {
        Node::Bin(op, a, b) => {
            proof {
                assert(cx.ok_at(a as int));
                assert(cx.ok_at(b as int));
            }
            Some((op, a, b))
        },
        _ => None,
    }
}

/// The pairs of atom `i` with the atoms made by the same operation with the same second
/// operand, from atoms.
fn monotone_pairs(cx: &Context, m: &Model, kn: &mut Orders, i: usize, op: BinOp, a: u32, b: u32, Ghost(h): Ghost<Hyp>, rel: Ghost<Reliance>)
    requires
        cx.wf(),
        model_ok(cx, *m),
        orders_ok(cx, *m, *old(kn), h, rel@),
        i < m.atoms@.len(),
        cx.nodes@[m.atoms@[i as int] as int] == Node::Bin(op, a, b),
        if m.signed == Some(true) {
            op == BinOp::AShr
        } else {
            op == BinOp::LShr || op == BinOp::UDiv
        },
    ensures
        orders_ok(cx, *m, *final(kn), h, rel@),
{
    let mut j: usize = 0;
    let c = match position(&m.atoms, a) {
        Some(c) => c,
        None => {
            return;
        },
    };
    while j < m.atoms.len()
        invariant
            cx.wf(),
            model_ok(cx, *m),
            orders_ok(cx, *m, *kn, h, rel@),
            i < m.atoms@.len(),
            c < m.atoms@.len(),
            m.atoms@[c as int] == a,
            cx.nodes@[m.atoms@[i as int] as int] == Node::Bin(op, a, b),
            if m.signed == Some(true) {
                op == BinOp::AShr
            } else {
                op == BinOp::LShr || op == BinOp::UDiv
            },
        decreases m.atoms@.len() - j,
    {
        if j != i {
            if let Some((op2, a2, b2)) = bin_of(cx, m.atoms[j]) {
                if op2 == op && b2 == b {
                    if let Some(d) = position(&m.atoms, a2) {
                        let ghost kn0 = *kn;
                        kn.mono.push((c, d, i, j));
                        proof {
                            let x = m.atoms@[i as int];
                            let y = m.atoms@[j as int];
                            assert(cx.ok_at(x as int));
                            assert(cx.ok_at(y as int));
                            assert(cx.ok_at(a as int));
                            assert(cx.ok_at(b as int));
                            assert(cx.ok_at(a2 as int));
                            assert forall|env: Env| rel@.admits(h, env) implies #[trigger] orders_hold(
                                cx,
                                *m,
                                *kn,
                                env,
                            ) by {
                                assert(orders_hold(cx, *m, kn0, env));
                                let va = cx.val(a as int, env);
                                let vc = cx.val(a2 as int, env);
                                let vb = cx.val(b as int, env);
                                assert(cx.val(x as int, env) == ops::bin_value(op, va, vb));
                                assert(cx.val(y as int, env) == ops::bin_value(op, vc, vb));
                                if place(cx, *m, c as int, env) <= place(cx, *m, d as int, env) {
                                    if op == BinOp::AShr {
                                        lemma_monotone_signed(va, vc, bits::nat_of(vb));
                                    } else {
                                        lemma_monotone(op, va, vc, vb);
                                    }
                                }
                                assert forall|p: int|
                                    #![trigger kn.mono@[p]]
                                    0 <= p < kn.mono@.len() && place(
                                        cx,
                                        *m,
                                        kn.mono@[p].0 as int,
                                        env,
                                    ) <= place(cx, *m, kn.mono@[p].1 as int, env) implies place(
                                    cx,
                                    *m,
                                    kn.mono@[p].2 as int,
                                    env,
                                ) <= place(cx, *m, kn.mono@[p].3 as int, env) by {
                                    if p < kn0.mono@.len() {
                                        assert(kn.mono@[p] == kn0.mono@[p]);
                                    }
                                }
                            }
                            assert forall|p: int|
                                #![trigger kn.mono@[p]]
                                0 <= p < kn.mono@.len() implies kn.mono@[p].0 < m.atoms@.len()
                                && kn.mono@[p].1 < m.atoms@.len() && kn.mono@[p].2
                                < m.atoms@.len() && kn.mono@[p].3 < m.atoms@.len() by {
                                if p < kn0.mono@.len() {
                                    assert(kn.mono@[p] == kn0.mono@[p]);
                                }
                            }
                        }
                    }
                }
            }
        }
        j = j + 1;
    }
}

impl<'a> Runner<'a> {
    /// The order facts of the model's atoms, and the finality their facts carry.
    fn orders(&mut self, cx: &Context, m: &Model) -> (out: Result<(Orders, Fin), Stop>)
        requires
            old(self).wf(cx),
            model_ok(cx, *m),
            m.width > 0,
        ensures
            runner::went(final(self), cx, old(self), cx),
            out matches Err(e) ==> final(self).refuses(cx, e),
            out matches Ok((kn, fin)) ==> orders_ok(cx, *m, kn, final(self).hyp@, fin.rel),
    {
        let (bounds, f0) = self.ranges(cx, m)?;
        let mut fin = f0;
        let ghost h = self.hyp@;
        let mut kn = apart(cx, m, &bounds, Ghost(h), Ghost(fin.rel));
        let signed = m.signed == Some(true);
        let mut i: usize = 0;
        while i < m.atoms.len()
            invariant
                self.wf(cx),
                runner::went(self, cx, old(self), cx),
                self.hyp@ == h,
                model_ok(cx, *m),
                m.width > 0,
                signed == (m.signed == Some(true)),
                orders_ok(cx, *m, kn, h, fin.rel),
            decreases m.atoms@.len() - i,
        {
            let n = m.atoms[i];
            if let Some((op, a, b)) = bin_of(cx, n) {
                let pa = position(&m.atoms, a);
                let pb = position(&m.atoms, b);
                proof {
                    assert(cx.ok_at(a as int));
                    assert(cx.ok_at(b as int));
                    assert forall|env: Env| !signed implies (op == BinOp::And ==> #[trigger] place(
                        cx,
                        *m,
                        i as int,
                        env,
                    ) <= key(false, cx.val(a as int, env))) && (op == BinOp::And ==> place(
                        cx,
                        *m,
                        i as int,
                        env,
                    ) <= key(false, cx.val(b as int, env))) && (op == BinOp::LShr || op
                        == BinOp::URem ==> place(cx, *m, i as int, env) <= key(
                        false,
                        cx.val(a as int, env),
                    )) && (op == BinOp::UDiv && bits::nat_of(cx.val(b as int, env)) != 0 ==> place(
                        cx,
                        *m,
                        i as int,
                        env,
                    ) <= key(false, cx.val(a as int, env))) && (op == BinOp::Or ==> place(
                        cx,
                        *m,
                        i as int,
                        env,
                    ) >= key(false, cx.val(a as int, env)) && place(cx, *m, i as int, env) >= key(
                        false,
                        cx.val(b as int, env),
                    )) by {
                        lemma_bounded(op, cx.val(a as int, env), cx.val(b as int, env));
                        assert(cx.val(n as int, env) == ops::bin_value(
                            op,
                            cx.val(a as int, env),
                            cx.val(b as int, env),
                        ));
                    }
                }
                if !signed {
                    match op {
                        // Bounded by an operand, unsigned.
                        BinOp::And => {
                            proof {
                                lemma_le_of(cx, *m, i as int, pa, h, fin.rel, a);
                                lemma_le_of(cx, *m, i as int, pb, h, fin.rel, b);
                            }
                            note(cx, m, &mut kn, i, pa, Ghost(h), Ghost(fin.rel));
                            note(cx, m, &mut kn, i, pb, Ghost(h), Ghost(fin.rel));
                        },
                        BinOp::LShr | BinOp::URem => {
                            proof {
                                lemma_le_of(cx, *m, i as int, pa, h, fin.rel, a);
                            }
                            note(cx, m, &mut kn, i, pa, Ghost(h), Ghost(fin.rel));
                        },
                        BinOp::UDiv => {
                            let (f, ff) = self.known(cx, b)?;
                            let positive = match &f {
                                Some(k) => {
                                    let lo = k.umin();
                                    let z = lo.is_zero();
                                    proof {
                                        bits::lemma_zeros_nat(lo@.len());
                                        if !z && bits::nat_of(lo@) == 0 {
                                            bits::lemma_nat_injective(lo@, bits::zeros(lo@.len()));
                                        }
                                        if !z {
                                            assert forall|env: Env|
                                                ff.rel.admits(h, env) implies bits::nat_of(
                                                #[trigger] cx.val(b as int, env),
                                            ) != 0 by {
                                                assert(k.admits(cx.val(b as int, env)));
                                            }
                                        }
                                    }
                                    !z
                                },
                                None => false,
                            };
                            if positive {
                                let ghost rel0 = fin.rel;
                                fin = fin.and(ff);
                                proof {
                                    lemma_orders_rely(cx, *m, kn, h, rel0, fin.rel);
                                    assert forall|env: Env| fin.rel.admits(h, env) implies #[trigger] place(
                                        cx,
                                        *m,
                                        i as int,
                                        env,
                                    ) <= key(false, cx.val(a as int, env)) by {
                                        let _ = cx.val(b as int, env);
                                    }
                                    lemma_le_of(cx, *m, i as int, pa, h, fin.rel, a);
                                }
                                note(cx, m, &mut kn, i, pa, Ghost(h), Ghost(fin.rel));
                            }
                        },
                        BinOp::Or => {
                            if let Some(j) = pa {
                                proof {
                                    assert forall|env: Env| fin.rel.admits(h, env) implies place(
                                        cx,
                                        *m,
                                        j as int,
                                        env,
                                    ) <= #[trigger] place(cx, *m, i as int, env) by {}
                                }
                                note(cx, m, &mut kn, j, Some(i), Ghost(h), Ghost(fin.rel));
                            }
                            if let Some(j) = pb {
                                proof {
                                    assert forall|env: Env| fin.rel.admits(h, env) implies place(
                                        cx,
                                        *m,
                                        j as int,
                                        env,
                                    ) <= #[trigger] place(cx, *m, i as int, env) by {}
                                }
                                note(cx, m, &mut kn, j, Some(i), Ghost(h), Ghost(fin.rel));
                            }
                        },
                        _ => {},
                    }
                }
                // Monotone pairs: the same operation with the same second operand.
                let monotone = if signed {
                    op == BinOp::AShr
                } else {
                    op == BinOp::LShr || op == BinOp::UDiv
                };
                if monotone {
                    monotone_pairs(cx, m, &mut kn, i, op, a, b, Ghost(h), Ghost(fin.rel));
                }
            }
            i = i + 1;
        }
        Ok((kn, fin))
    }
}

/// An order on a node is one on its atom.
proof fn lemma_le_of(cx: &Context, m: Model, i: int, j: Option<usize>, h: Hyp, rel: Reliance, n: u32)
    requires
        m.signed != Some(true),
        j matches Some(j) ==> j < m.atoms@.len() && m.atoms@[j as int] == n,
        forall|env: Env|
            rel.admits(h, env) ==> #[trigger] place(cx, m, i, env) <= key(
                false,
                cx.val(n as int, env),
            ),
    ensures
        j matches Some(j) ==> forall|env: Env|
            rel.admits(h, env) ==> place(cx, m, i, env) <= #[trigger] place(cx, m, j as int, env),
{
    if let Some(j) = j {
        assert forall|env: Env| rel.admits(h, env) implies place(cx, m, i, env) <= #[trigger] place(
            cx,
            m,
            j as int,
            env,
        ) by {
            let _ = place(cx, m, i, env);
        }
    }
}


/// Bit `k` of an assignment of the 1-bit leaves.
pub open spec fn leaf_bit(b: u8, k: int) -> bool {
    if k == 0 {
        b % 2 == 1
    } else {
        (b / 2) % 2 == 1
    }
}

/// One or zero.
pub open spec fn one(b: bool) -> u8 {
    if b {
        1
    } else {
        0
    }
}

/// Item `i`'s value in one state: a term's is the rank of the atom it takes, a 1-bit item's 0
/// or 1.
pub open spec fn reading(items: Seq<Item>, rank: Seq<u8>, b: u8, i: int) -> u8
    decreases i,
{
    match items[i] {
        Item::Atom(a) => rank[a as int],
        Item::Bool(k) => one(leaf_bit(b, k as int)),
        Item::Const(v) => one(v),
        Item::Not(x) => if 0 <= x < i {
            one(reading(items, rank, b, x as int) == 0)
        } else {
            0
        },
        Item::And(x, y) => if 0 <= x < i && 0 <= y < i {
            one(
                reading(items, rank, b, x as int) != 0 && reading(items, rank, b, y as int) != 0,
            )
        } else {
            0
        },
        Item::Or(x, y) => if 0 <= x < i && 0 <= y < i {
            one(
                reading(items, rank, b, x as int) != 0 || reading(items, rank, b, y as int) != 0,
            )
        } else {
            0
        },
        Item::Xor(x, y) => if 0 <= x < i && 0 <= y < i {
            one(
                (reading(items, rank, b, x as int) != 0) != (reading(items, rank, b, y as int)
                    != 0),
            )
        } else {
            0
        },
        Item::Less(strict, x, y) => if 0 <= x < i && 0 <= y < i {
            one(
                less(
                    strict,
                    reading(items, rank, b, x as int) as int,
                    reading(items, rank, b, y as int) as int,
                ),
            )
        } else {
            0
        },
        Item::Equal(neg, x, y) => if 0 <= x < i && 0 <= y < i {
            one(
                (reading(items, rank, b, x as int) == reading(items, rank, b, y as int)) != neg,
            )
        } else {
            0
        },
        Item::Select(c, x, y) => if 0 <= c < i && 0 <= x < i && 0 <= y < i {
            if reading(items, rank, b, c as int) != 0 {
                reading(items, rank, b, x as int)
            } else {
                reading(items, rank, b, y as int)
            }
        } else {
            0
        },
    }
}

/// The atoms stand in the order of the ranks at `env`, and the leaves have the bits of `b`.
pub open(crate) spec fn describes(cx: &Context, m: Model, rank: Seq<u8>, b: u8, env: Env) -> bool {
    &&& rank.len() == m.atoms@.len()
    &&& forall|i: int, j: int|
        #![trigger rank[i], rank[j]]
        0 <= i < rank.len() && 0 <= j < rank.len() ==> (rank[i] <= rank[j] <==> place(
            cx,
            m,
            i,
            env,
        ) <= place(cx, m, j, env))
    &&& forall|k: int|
        #![trigger leaf_bit(b, k)]
        0 <= k < m.bools@.len() ==> leaf_bit(b, k) == set_at(cx, m.bools@[k], env)
}

/// The term item `i` takes an atom of the rank read.
pub open(crate) spec fn takes_atom(cx: &Context, m: Model, rank: Seq<u8>, b: u8, env: Env, i: int) -> bool {
    exists|a: int|
        #![trigger rank[a]]
        0 <= a < rank.len() && rank[a] == reading(m.items@, rank, b, i) && cx.val(
            m.atoms@[a] as int,
            env,
        ) == cx.val(m.nodes@[i] as int, env)
}

/// What a state says of a term is right.
pub open(crate) spec fn reads(cx: &Context, m: Model, rank: Seq<u8>, b: u8, env: Env, i: int) -> bool {
    if m.term@[i] {
        takes_atom(cx, m, rank, b, env, i)
    } else {
        reading(m.items@, rank, b, i) == one(set_at(cx, m.nodes@[i], env))
    }
}

/// Two terms compare as their ranks do.
proof fn lemma_terms(cx: &Context, m: Model, rank: Seq<u8>, b: u8, env: Env, i: int, j: int)
    requires
        cx.wf(),
        model_ok(cx, m),
        describes(cx, m, rank, b, env),
        0 <= i < m.items@.len(),
        0 <= j < m.items@.len(),
        takes_atom(cx, m, rank, b, env, i),
        takes_atom(cx, m, rank, b, env, j),
    ensures
        ({
            let x = reading(m.items@, rank, b, i);
            let y = reading(m.items@, rank, b, j);
            let p = cx.val(m.nodes@[i] as int, env);
            let q = cx.val(m.nodes@[j] as int, env);
            let s = m.signed == Some(true);
            &&& x <= y <==> key(s, p) <= key(s, q)
            &&& x < y <==> key(s, p) < key(s, q)
            &&& x == y <==> p == q
        }),
{
    let x = choose|a: int|
        #![trigger rank[a]]
        0 <= a < rank.len() && rank[a] == reading(m.items@, rank, b, i) && cx.val(
            m.atoms@[a] as int,
            env,
        ) == cx.val(m.nodes@[i] as int, env);
    let y = choose|a: int|
        #![trigger rank[a]]
        0 <= a < rank.len() && rank[a] == reading(m.items@, rank, b, j) && cx.val(
            m.atoms@[a] as int,
            env,
        ) == cx.val(m.nodes@[j] as int, env);
    assert(rank[x] <= rank[y] <==> place(cx, m, x, env) <= place(cx, m, y, env));
    assert(rank[y] <= rank[x] <==> place(cx, m, y, env) <= place(cx, m, x, env));
    assert(cx.ok_at(m.atoms@[x] as int));
    assert(cx.ok_at(m.atoms@[y] as int));
    lemma_key_same(
        m.signed == Some(true),
        cx.val(m.atoms@[x] as int, env),
        cx.val(m.atoms@[y] as int, env),
    );
}

/// Every item reads right in a state that describes the assignment.
proof fn lemma_reads(cx: &Context, m: Model, rank: Seq<u8>, b: u8, env: Env, i: int)
    requires
        cx.wf(),
        model_ok(cx, m),
        describes(cx, m, rank, b, env),
        0 <= i < m.items@.len(),
    ensures
        reads(cx, m, rank, b, env, i),
    decreases i,
{
    assert(item_ok(cx, m, i));
    let n = m.nodes@[i];
    assert(cx.ok_at(n as int));
    match m.items@[i] {
        Item::Atom(a) => {
            assert(rank[a as int] == reading(m.items@, rank, b, i));
        },
        Item::Bool(k) => {
            let _ = leaf_bit(b, k as int);
        },
        Item::Const(v) => {
            let _ = set_at(cx, n, env);
        },
        Item::Not(x) => {
            lemma_reads(cx, m, rank, b, env, x as int);
            let _ = set_at(cx, n, env);
        },
        Item::And(x, y) | Item::Or(x, y) | Item::Xor(x, y) => {
            lemma_reads(cx, m, rank, b, env, x as int);
            lemma_reads(cx, m, rank, b, env, y as int);
            let _ = set_at(cx, n, env);
        },
        Item::Less(strict, x, y) => {
            lemma_reads(cx, m, rank, b, env, x as int);
            lemma_reads(cx, m, rank, b, env, y as int);
            lemma_terms(cx, m, rank, b, env, x as int, y as int);
            let _ = set_at(cx, n, env);
        },
        Item::Equal(neg, x, y) => {
            lemma_reads(cx, m, rank, b, env, x as int);
            lemma_reads(cx, m, rank, b, env, y as int);
            lemma_terms(cx, m, rank, b, env, x as int, y as int);
            let _ = set_at(cx, n, env);
        },
        Item::Select(c, x, y) => {
            lemma_reads(cx, m, rank, b, env, c as int);
            lemma_reads(cx, m, rank, b, env, x as int);
            lemma_reads(cx, m, rank, b, env, y as int);
            let v = cx.val(n as int, env);
            let z = if set_at(cx, m.nodes@[c as int], env) {
                x
            } else {
                y
            };
            assert(v == cx.val(m.nodes@[z as int] as int, env));
            assert(reading(m.items@, rank, b, i) == reading(m.items@, rank, b, z as int));
            if m.term@[i] {
                assert(takes_atom(cx, m, rank, b, env, z as int));
                let a = choose|a: int|
                    #![trigger rank[a]]
                    0 <= a < rank.len() && rank[a] == reading(m.items@, rank, b, z as int)
                        && cx.val(m.atoms@[a] as int, env) == cx.val(
                        m.nodes@[z as int] as int,
                        env,
                    );
                assert(rank[a] == reading(m.items@, rank, b, i));
            }
        },
    }
}

/// One or zero.
fn flag_of(b: bool) -> (r: u8)
    ensures
        r == one(b),
{
    if b {
        1
    } else {
        0
    }
}

/// Every item's value in one state.
fn eval(cx: &Context, m: &Model, rank: &Vec<u8>, b: u8) -> (out: Vec<u8>)
    requires
        model_ok(cx, *m),
        rank@.len() == m.atoms@.len(),
    ensures
        out@.len() == m.items@.len(),
        forall|i: int|
            #![trigger out@[i]]
            0 <= i < out@.len() ==> out@[i] == reading(m.items@, rank@, b, i),
{
    let mut out: Vec<u8> = Vec::new();
    while out.len() < m.items.len()
        invariant
            model_ok(cx, *m),
            rank@.len() == m.atoms@.len(),
            out@.len() <= m.items@.len(),
            forall|i: int|
                #![trigger out@[i]]
                0 <= i < out@.len() ==> out@[i] == reading(m.items@, rank@, b, i),
        decreases m.items@.len() - out@.len(),
    {
        let i = out.len();
        assert(item_ok(cx, *m, i as int));
        let v: u8 = match m.items[i] {
            Item::Atom(a) => rank[a],
            Item::Bool(k) => flag_of(
                if k == 0 {
                    b % 2 == 1
                } else {
                    (b / 2) % 2 == 1
                },
            ),
            Item::Const(v) => flag_of(v),
            Item::Not(x) => flag_of(out[x] == 0),
            Item::And(x, y) => flag_of(out[x] != 0 && out[y] != 0),
            Item::Or(x, y) => flag_of(out[x] != 0 || out[y] != 0),
            Item::Xor(x, y) => flag_of((out[x] != 0) != (out[y] != 0)),
            Item::Less(strict, x, y) => flag_of(
                if strict {
                    out[x] < out[y]
                } else {
                    out[x] <= out[y]
                },
            ),
            Item::Equal(neg, x, y) => flag_of((out[x] == out[y]) != neg),
            Item::Select(c, x, y) => if out[c] != 0 {
                out[x]
            } else {
                out[y]
            },
        };
        out.push(v);
    }
    out
}

/// The ranks keep what is known.
spec fn allowed(kn: Orders, rank: Seq<u8>) -> bool {
    &&& forall|p: int|
        #![trigger kn.le@[p]]
        0 <= p < kn.le@.len() ==> rank[kn.le@[p].0 as int] <= rank[kn.le@[p].1 as int]
    &&& forall|p: int|
        #![trigger kn.lt@[p]]
        0 <= p < kn.lt@.len() ==> rank[kn.lt@[p].0 as int] < rank[kn.lt@[p].1 as int]
    &&& forall|p: int|
        #![trigger kn.mono@[p]]
        0 <= p < kn.mono@.len() ==> rank[kn.mono@[p].0 as int] > rank[kn.mono@[p].1 as int]
            || rank[kn.mono@[p].2 as int] <= rank[kn.mono@[p].3 as int]
}

/// Whether the atoms can stand in the order of the ranks.
fn feasible(kn: &Orders, rank: &Vec<u8>) -> (r: bool)
    requires
        orders_fit(*kn, rank@.len() as int),
    ensures
        r == allowed(*kn, rank@),
{
    let mut p: usize = 0;
    while p < kn.le.len()
        invariant
            orders_fit(*kn, rank@.len() as int),
            p <= kn.le@.len(),
            forall|q: int|
                #![trigger kn.le@[q]]
                0 <= q < p ==> rank@[kn.le@[q].0 as int] <= rank@[kn.le@[q].1 as int],
        decreases kn.le@.len() - p,
    {
        let (i, j) = kn.le[p];
        if rank[i] > rank[j] {
            return false;
        }
        p = p + 1;
    }
    let mut p: usize = 0;
    while p < kn.lt.len()
        invariant
            orders_fit(*kn, rank@.len() as int),
            p <= kn.lt@.len(),
            forall|q: int|
                #![trigger kn.lt@[q]]
                0 <= q < p ==> rank@[kn.lt@[q].0 as int] < rank@[kn.lt@[q].1 as int],
        decreases kn.lt@.len() - p,
    {
        let (i, j) = kn.lt[p];
        if rank[i] >= rank[j] {
            return false;
        }
        p = p + 1;
    }
    let mut p: usize = 0;
    while p < kn.mono.len()
        invariant
            orders_fit(*kn, rank@.len() as int),
            p <= kn.mono@.len(),
            forall|q: int|
                #![trigger kn.mono@[q]]
                0 <= q < p ==> rank@[kn.mono@[q].0 as int] > rank@[kn.mono@[q].1 as int]
                    || rank@[kn.mono@[q].2 as int] <= rank@[kn.mono@[q].3 as int],
        decreases kn.mono@.len() - p,
    {
        let (c, d, a, b) = kn.mono[p];
        if rank[c] <= rank[d] && rank[a] > rank[b] {
            return false;
        }
        p = p + 1;
    }
    true
}

/// The orders the atoms can stand in.
fn possible(kn: &Orders, k: usize) -> (out: Vec<Vec<u8>>)
    requires
        1 <= k <= MAX_ATOMS,
        orders_fit(*kn, k as int),
    ensures
        out@.len() <= 3125,
        forall|p: int| 0 <= p < out@.len() ==> (#[trigger] out@[p])@.len() == k,
        forall|p: int| 0 <= p < out@.len() ==> allowed(*kn, (#[trigger] out@[p])@),
        forall|r: Seq<u8>|
            ranks::preorder(r, k as nat) && allowed(*kn, r) ==> #[trigger] ranks::holds_rank(
                out@,
                r,
            ),
{
    let all = enumerate_preorders(k);
    // With nothing known, every order is possible.
    if kn.le.len() == 0 && kn.lt.len() == 0 && kn.mono.len() == 0 {
        return all;
    }
    let mut out: Vec<Vec<u8>> = Vec::new();
    let mut i: usize = 0;
    while i < all.len()
        invariant
            i <= all@.len(),
            all@.len() <= 3125,
            orders_fit(*kn, k as int),
            forall|p: int|
                0 <= p < all@.len() ==> ranks::preorder((#[trigger] all@[p])@, k as nat),
            out@.len() <= i,
            forall|p: int| 0 <= p < out@.len() ==> (#[trigger] out@[p])@.len() == k,
            forall|p: int| 0 <= p < out@.len() ==> allowed(*kn, (#[trigger] out@[p])@),
            forall|q: int|
                0 <= q < i && allowed(*kn, (#[trigger] all@[q])@) ==> ranks::holds_rank(
                    out@,
                    all@[q]@,
                ),
        decreases all@.len() - i,
    {
        let ghost o0 = out@;
        assert(ranks::preorder(all@[i as int]@, k as nat));
        if feasible(kn, &all[i]) {
            out.push(copy_of(&all[i]));
        }
        proof {
            assert forall|q: int|
                0 <= q < i + 1 && allowed(*kn, (#[trigger] all@[q])@) implies ranks::holds_rank(
                out@,
                all@[q]@,
            ) by {
                if q == i {
                    assert(out@[out@.len() - 1]@ == all@[q]@);
                } else {
                    assert(ranks::holds_rank(o0, all@[q]@));
                    let p = choose|p: int|
                        0 <= p < o0.len() && (#[trigger] o0[p])@ == all@[q]@;
                    assert(out@[p]@ == all@[q]@);
                }
            }
        }
        i = i + 1;
    }
    proof {
        assert forall|r: Seq<u8>|
            ranks::preorder(r, k as nat) && allowed(*kn, r) implies #[trigger] ranks::holds_rank(
            out@,
            r,
        ) by {
            assert(ranks::holds_rank(all@, r));
            let q = choose|q: int| 0 <= q < all@.len() && (#[trigger] all@[q])@ == r;
            assert(ranks::holds_rank(out@, all@[q]@));
        }
    }
    out
}

/// The same ranks.
fn copy_of(v: &Vec<u8>) -> (r: Vec<u8>)
    ensures
        r@ == v@,
{
    let mut r: Vec<u8> = Vec::with_capacity(v.len());
    let mut i: usize = 0;
    while i < v.len()
        invariant
            i <= v@.len(),
            r@ == v@.take(i as int),
        decreases v@.len() - i,
    {
        r.push(v[i]);
        i = i + 1;
        assert(r@ =~= v@.take(i as int));
    }
    assert(v@.take(v@.len() as int) =~= v@);
    r
}

/// What a formula is, if simpler.
#[derive(Clone, Copy)]
enum Found {
    /// A constant.
    Const(bool),
    /// A comparison of two atoms: of their equality or of their order, strict (or an
    /// inequality) or not.
    Rel(bool, bool, usize, usize),
    /// A 1-bit leaf, or its complement.
    Leaf(usize, bool),
    /// A term atom.
    Atom(usize),
    /// The minimum or maximum of two atoms.
    Extreme(bool, usize, usize),
    /// A part of the formula.
    Part(usize),
}

/// What the form reads as in one state.
spec fn form_reading(items: Seq<Item>, f: Found, rank: Seq<u8>, b: u8) -> u8 {
    match f {
        Found::Const(v) => one(v),
        Found::Rel(eq, strict, i, j) => one(
            if eq {
                (rank[i as int] == rank[j as int]) != strict
            } else {
                less(strict, rank[i as int] as int, rank[j as int] as int)
            },
        ),
        Found::Leaf(k, neg) => one(leaf_bit(b, k as int) != neg),
        Found::Atom(i) => rank[i as int],
        Found::Extreme(max, i, j) => if (rank[i as int] < rank[j as int]) != max {
            rank[i as int]
        } else {
            rank[j as int]
        },
        Found::Part(i) => reading(items, rank, b, i as int),
    }
}

/// The form speaks of the model, and is a term when the formula is.
spec fn form_fits(m: Model, root: int, f: Found) -> bool {
    match f {
        Found::Const(_) => !m.term@[root],
        Found::Rel(_, _, i, j) => !m.term@[root] && i < m.atoms@.len() && j < m.atoms@.len(),
        Found::Leaf(k, _) => !m.term@[root] && k < m.bools@.len(),
        Found::Atom(i) => m.term@[root] && i < m.atoms@.len(),
        Found::Extreme(_, i, j) => m.term@[root] && i < m.atoms@.len() && j < m.atoms@.len(),
        Found::Part(i) => i < m.items@.len() && m.term@[i as int] == m.term@[root],
    }
}

/// The form's value in one state.
fn form_at(m: &Model, f: Found, rank: &Vec<u8>, b: u8, vals: &Vec<u8>, root: usize) -> (r: u8)
    requires
        form_fits(*m, root as int, f),
        rank@.len() == m.atoms@.len(),
        vals@.len() == m.items@.len(),
        m.bools@.len() <= MAX_BOOLS,
        forall|i: int|
            #![trigger vals@[i]]
            0 <= i < vals@.len() ==> vals@[i] == reading(m.items@, rank@, b, i),
    ensures
        r == form_reading(m.items@, f, rank@, b),
{
    match f {
        Found::Const(v) => flag_of(v),
        Found::Rel(eq, strict, i, j) => flag_of(
            if eq {
                (rank[i] == rank[j]) != strict
            } else if strict {
                rank[i] < rank[j]
            } else {
                rank[i] <= rank[j]
            },
        ),
        Found::Leaf(k, neg) => {
            let bit = if k == 0 {
                b % 2 == 1
            } else {
                (b / 2) % 2 == 1
            };
            flag_of(bit != neg)
        },
        Found::Atom(i) => rank[i],
        Found::Extreme(max, i, j) => if (rank[i] < rank[j]) != max {
            rank[i]
        } else {
            rank[j]
        },
        Found::Part(i) => vals[i],
    }
}

/// The states read, and every item's value in each.
struct Table {
    ranks: Vec<Vec<u8>>,
    bits: Vec<u8>,
    vals: Vec<Vec<u8>>,
}

spec fn table_ok(m: Model, t: Table) -> bool {
    &&& t.bits@.len() == t.ranks@.len()
    &&& t.vals@.len() == t.ranks@.len()
    &&& forall|s: int|
        #![trigger t.ranks@[s]]
        0 <= s < t.ranks@.len() ==> t.ranks@[s]@.len() == m.atoms@.len()
    &&& forall|s: int|
        #![trigger t.vals@[s]]
        0 <= s < t.ranks@.len() ==> t.vals@[s]@.len() == m.items@.len() && forall|i: int|
            #![trigger t.vals@[s]@[i]]
            0 <= i < m.items@.len() ==> t.vals@[s]@[i] == reading(
                m.items@,
                t.ranks@[s]@,
                t.bits@[s],
                i,
            )
}

/// The form agrees with the formula in every state read.
spec fn agrees(m: Model, root: int, t: Table, f: Found) -> bool {
    forall|s: int|
        #![trigger t.ranks@[s]]
        0 <= s < t.ranks@.len() ==> reading(m.items@, t.ranks@[s]@, t.bits@[s], root)
            == form_reading(m.items@, f, t.ranks@[s]@, t.bits@[s])
}

/// Whether the form agrees with the formula in every state read.
fn fits(m: &Model, root: usize, t: &Table, f: Found) -> (r: bool)
    requires
        form_fits(*m, root as int, f),
        table_ok(*m, *t),
        root < m.items@.len(),
        m.bools@.len() <= MAX_BOOLS,
    ensures
        r == agrees(*m, root as int, *t, f),
{
    let mut s: usize = 0;
    while s < t.ranks.len()
        invariant
            form_fits(*m, root as int, f),
            table_ok(*m, *t),
            root < m.items@.len(),
            m.bools@.len() <= MAX_BOOLS,
            s <= t.ranks@.len(),
            forall|q: int|
                #![trigger t.ranks@[q]]
                0 <= q < s ==> reading(m.items@, t.ranks@[q]@, t.bits@[q], root as int)
                    == form_reading(m.items@, f, t.ranks@[q]@, t.bits@[q]),
        decreases t.ranks@.len() - s,
    {
        proof {
            let _ = t.vals@[s as int];
            let _ = t.ranks@[s as int];
        }
        if form_at(m, f, &t.ranks[s], t.bits[s], &t.vals[s], root) != t.vals[s][root] {
            return false;
        }
        s = s + 1;
    }
    true
}

/// A form that is looked for: a constant, a comparison of two atoms, a leaf, an atom, the lesser
/// or greater of two, or a part of the formula.
spec fn offered(m: Model, root: int, f: Found) -> bool {
    form_fits(m, root, f) && match f {
        Found::Rel(same, _, i, j) => i != j && (same ==> i < j),
        Found::Extreme(_, i, j) => m.signed is Some && i < j,
        Found::Part(p) => p != root && !(m.items@[p as int] is Const),
        _ => true,
    }
}

/// No form that is looked for agrees with the formula in every state read.
spec fn none_agrees(m: Model, root: int, t: Table) -> bool {
    forall|f: Found| offered(m, root, f) ==> !#[trigger] agrees(m, root, t, f)
}

/// The first form, in the order they are preferred, that agrees with the formula in every
/// state read.
fn find(m: &Model, root: usize, t: &Table) -> (r: Option<Found>)
    requires
        table_ok(*m, *t),
        root < m.items@.len(),
        m.items@.len() == m.term@.len(),
        m.bools@.len() <= MAX_BOOLS,
    ensures
        r matches Some(f) ==> form_fits(*m, root as int, f) && agrees(*m, root as int, *t, f),
        r is None ==> none_agrees(*m, root as int, *t),
{
    let k = m.atoms.len();
    if !m.term[root] {
        if fits(m, root, t, Found::Const(true)) {
            return Some(Found::Const(true));
        }
        if fits(m, root, t, Found::Const(false)) {
            return Some(Found::Const(false));
        }
        let mut i: usize = 0;
        while i < k
            invariant
                table_ok(*m, *t),
                root < m.items@.len(),
                m.bools@.len() <= MAX_BOOLS,
                k == m.atoms@.len(),
                !m.term@[root as int],
                forall|x: int, y: int, e: bool, v: bool|
                    0 <= x < i && 0 <= y < k && offered(
                        *m,
                        root as int,
                        Found::Rel(e, v, x as usize, y as usize),
                    ) ==> !#[trigger] agrees(
                        *m,
                        root as int,
                        *t,
                        Found::Rel(e, v, x as usize, y as usize),
                    ),
            decreases k - i,
        {
            let mut j: usize = 0;
            while j < k
                invariant
                    table_ok(*m, *t),
                    root < m.items@.len(),
                    m.bools@.len() <= MAX_BOOLS,
                    k == m.atoms@.len(),
                    i < k,
                    !m.term@[root as int],
                    forall|x: int, y: int, e: bool, v: bool|
                    0 <= x < i && 0 <= y < k && offered(
                        *m,
                        root as int,
                        Found::Rel(e, v, x as usize, y as usize),
                    ) ==> !#[trigger] agrees(
                        *m,
                        root as int,
                        *t,
                        Found::Rel(e, v, x as usize, y as usize),
                    ),
                    forall|x: int, y: int, e: bool, v: bool|
                    x == i && 0 <= y < j && offered(
                        *m,
                        root as int,
                        Found::Rel(e, v, x as usize, y as usize),
                    ) ==> !#[trigger] agrees(
                        *m,
                        root as int,
                        *t,
                        Found::Rel(e, v, x as usize, y as usize),
                    ),
                decreases k - j,
            {
                if i != j {
                    if fits(m, root, t, Found::Rel(false, true, i, j)) {
                        return Some(Found::Rel(false, true, i, j));
                    }
                    if fits(m, root, t, Found::Rel(false, false, i, j)) {
                        return Some(Found::Rel(false, false, i, j));
                    }
                    if i < j && fits(m, root, t, Found::Rel(true, false, i, j)) {
                        return Some(Found::Rel(true, false, i, j));
                    }
                    if i < j && fits(m, root, t, Found::Rel(true, true, i, j)) {
                        return Some(Found::Rel(true, true, i, j));
                    }
                }
                j = j + 1;
            }
            i = i + 1;
        }
        let mut b: usize = 0;
        while b < m.bools.len()
            invariant
                table_ok(*m, *t),
                root < m.items@.len(),
                m.bools@.len() <= MAX_BOOLS,
                !m.term@[root as int],
                forall|x: int, v: bool|
                    0 <= x < b ==> !#[trigger] agrees(
                        *m,
                        root as int,
                        *t,
                        Found::Leaf(x as usize, v),
                    ),
            decreases m.bools@.len() - b,
        {
            if fits(m, root, t, Found::Leaf(b, false)) {
                return Some(Found::Leaf(b, false));
            }
            if fits(m, root, t, Found::Leaf(b, true)) {
                return Some(Found::Leaf(b, true));
            }
            b = b + 1;
        }
    } else {
        // A term: always one atom (by rank), or the lesser or greater of two.
        let mut i: usize = 0;
        while i < k
            invariant
                table_ok(*m, *t),
                root < m.items@.len(),
                m.bools@.len() <= MAX_BOOLS,
                k == m.atoms@.len(),
                m.term@[root as int],
                forall|x: int|
                    0 <= x < i ==> !#[trigger] agrees(*m, root as int, *t, Found::Atom(x as usize)),
            decreases k - i,
        {
            if fits(m, root, t, Found::Atom(i)) {
                return Some(Found::Atom(i));
            }
            i = i + 1;
        }
        if m.signed.is_some() {
            let mut i: usize = 0;
            while i < k
                invariant
                    table_ok(*m, *t),
                    root < m.items@.len(),
                    m.bools@.len() <= MAX_BOOLS,
                    k == m.atoms@.len(),
                    m.term@[root as int],
                    forall|x: int, y: int, v: bool|
                        0 <= x < i && x < y < k ==> !#[trigger] agrees(
                            *m,
                            root as int,
                            *t,
                            Found::Extreme(v, x as usize, y as usize),
                        ),
                decreases k - i,
            {
                let mut j: usize = i + 1;
                while j < k
                    invariant
                        table_ok(*m, *t),
                        root < m.items@.len(),
                        m.bools@.len() <= MAX_BOOLS,
                        k == m.atoms@.len(),
                        i < k,
                        m.term@[root as int],
                        forall|x: int, y: int, v: bool|
                        0 <= x < i && x < y < k ==> !#[trigger] agrees(
                            *m,
                            root as int,
                            *t,
                            Found::Extreme(v, x as usize, y as usize),
                        ),
                        forall|x: int, y: int, v: bool|
                        x == i && x < y < j ==> !#[trigger] agrees(
                            *m,
                            root as int,
                            *t,
                            Found::Extreme(v, x as usize, y as usize),
                        ),
                    decreases k - j,
                {
                    if fits(m, root, t, Found::Extreme(false, i, j)) {
                        return Some(Found::Extreme(false, i, j));
                    }
                    if fits(m, root, t, Found::Extreme(true, i, j)) {
                        return Some(Found::Extreme(true, i, j));
                    }
                    j = j + 1;
                }
                i = i + 1;
            }
        }
    }
    proof {
        assert forall|f: Found|
            offered(*m, root as int, f) && !(f is Part) implies !#[trigger] agrees(
            *m,
            root as int,
            *t,
            f,
        ) by {
            match f {
                Found::Const(v) => {},
                Found::Rel(e, v, x, y) => {
                    assert(f == Found::Rel(e, v, x as int as usize, y as int as usize));
                },
                Found::Leaf(x, v) => {
                    assert(f == Found::Leaf(x as int as usize, v));
                },
                Found::Atom(x) => {
                    assert(f == Found::Atom(x as int as usize));
                },
                Found::Extreme(v, x, y) => {
                    assert(f == Found::Extreme(v, x as int as usize, y as int as usize));
                },
                Found::Part(_) => {},
            }
        }
    }
    // A part of the formula that always agrees with the whole (a redundant conjunct, a
    // disjunct that implies the rest, an arm always taken).
    let mut p: usize = 0;
    while p < m.items.len()
        invariant
            table_ok(*m, *t),
            root < m.items@.len(),
            m.items@.len() == m.term@.len(),
            m.bools@.len() <= MAX_BOOLS,
            forall|f: Found|
                offered(*m, root as int, f) && (f matches Found::Part(q) ==> q < p)
                    ==> !#[trigger] agrees(*m, root as int, *t, f),
        decreases m.items@.len() - p,
    {
        if p != root && m.term[p] == m.term[root] && !matches!(m.items[p], Item::Const(_)) {
            if fits(m, root, t, Found::Part(p)) {
                return Some(Found::Part(p));
            }
        }
        p = p + 1;
    }
    None
}

/// How many assignments the leaves have.
pub open spec fn leaf_states(k: nat) -> nat {
    if k == 0 {
        1
    } else if k == 1 {
        2
    } else {
        4
    }
}

/// The states numbered by `at`: each possible order with each assignment of the leaves.
#[verifier::spinoff_prover]
fn read(cx: &Context, m: &Model, orders: &Vec<Vec<u8>>, per: usize, at: &Vec<usize>) -> (t: Table)
    requires
        model_ok(cx, *m),
        per == leaf_states(m.bools@.len()),
        forall|p: int| 0 <= p < orders@.len() ==> (#[trigger] orders@[p])@.len() == m.atoms@.len(),
        forall|q: int| 0 <= q < at@.len() ==> #[trigger] at@[q] < orders@.len() * per,
    ensures
        table_ok(*m, t),
        t.ranks@.len() == at@.len(),
        forall|q: int|
            #![trigger t.ranks@[q]]
            0 <= q < at@.len() ==> t.ranks@[q]@ == orders@[at@[q] as int / per as int]@
                && t.bits@[q] == at@[q] as int % per as int,
{
    let mut t = Table { ranks: Vec::new(), bits: Vec::new(), vals: Vec::new() };
    let mut q: usize = 0;
    while q < at.len()
        invariant
            model_ok(cx, *m),
            per == leaf_states(m.bools@.len()),
            forall|p: int|
                0 <= p < orders@.len() ==> (#[trigger] orders@[p])@.len() == m.atoms@.len(),
            forall|q: int| 0 <= q < at@.len() ==> #[trigger] at@[q] < orders@.len() * per,
            q <= at@.len(),
            table_ok(*m, t),
            t.ranks@.len() == q,
            forall|x: int|
                #![trigger t.ranks@[x]]
                0 <= x < q ==> t.ranks@[x]@ == orders@[at@[x] as int / per as int]@
                    && t.bits@[x] == at@[x] as int % per as int,
        decreases at@.len() - q,
    {
        let s = at[q];
        proof {
            assert(at@[q as int] < orders@.len() * per);
            assert(s / per < orders@.len() && s % per < per) by (nonlinear_arith)
                requires
                    s < orders@.len() * per,
                    per > 0,
            ;
        }
        let o = s / per;
        let b: u8 = (s % per) as u8;
        let vals = eval(cx, m, &orders[o], b);
        let ghost t0 = t;
        t.ranks.push(copy_of(&orders[o]));
        t.bits.push(b);
        t.vals.push(vals);
        proof {
            assert forall|s: int|
                #![trigger t.vals@[s]]
                0 <= s < t.ranks@.len() implies t.vals@[s]@.len() == m.items@.len() && forall|
                i: int,
            |
                #![trigger t.vals@[s]@[i]]
                0 <= i < m.items@.len() ==> t.vals@[s]@[i] == reading(
                    m.items@,
                    t.ranks@[s]@,
                    t.bits@[s],
                    i,
                ) by {
                if s < q {
                    let _ = t0.vals@[s];
                    assert(t.vals@[s] == t0.vals@[s]);
                    assert(t.ranks@[s] == t0.ranks@[s]);
                } else {
                    assert forall|i: int|
                        #![trigger t.vals@[s]@[i]]
                        0 <= i < m.items@.len() implies t.vals@[s]@[i] == reading(
                        m.items@,
                        t.ranks@[s]@,
                        t.bits@[s],
                        i,
                    ) by {
                        let _ = vals@[i];
                    }
                }
            }
            assert forall|x: int| #![trigger t.ranks@[x]] 0 <= x < q + 1 implies t.ranks@[x]@
                == orders@[at@[x] as int / per as int]@ && t.bits@[x] == at@[x] as int
                % per as int && t.ranks@[x]@.len() == m.atoms@.len() by {
                if x < q {
                    assert(t.ranks@[x] == t0.ranks@[x]);
                }
            }
        }
        q = q + 1;
    }
    proof {
        assert forall|x: int| #![trigger t.ranks@[x]] 0 <= x < at@.len() implies t.ranks@[x]@
            == orders@[at@[x] as int / per as int]@ && t.bits@[x] == at@[x] as int
            % per as int by {
            assert(x < q);
        }
    }
    t
}

/// Some state describes every assignment at which what is known holds.
proof fn state_of(
    cx: &Context,
    m: Model,
    kn: Orders,
    orders: Seq<Vec<u8>>,
    env: Env,
) -> (s: int)
    requires
        cx.wf(),
        model_ok(cx, m),
        orders_fit(kn, m.atoms@.len() as int),
        orders_hold(cx, m, kn, env),
        forall|p: int| 0 <= p < orders.len() ==> (#[trigger] orders[p])@.len() == m.atoms@.len(),
        forall|r: Seq<u8>|
            ranks::preorder(r, m.atoms@.len()) && allowed(kn, r) ==> #[trigger] ranks::holds_rank(
                orders,
                r,
            ),
    ensures
        0 <= s < orders.len() * leaf_states(m.bools@.len()),
        describes(
            cx,
            m,
            orders[s / leaf_states(m.bools@.len()) as int]@,
            (s % leaf_states(m.bools@.len()) as int) as u8,
            env,
        ),
{
    let k = m.atoms@.len();
    let keys = Seq::new(k, |i: int| place(cx, m, i, env));
    let r = ranks::rank_of(keys);
    assert forall|i: int, j: int|
        #![trigger r[i], r[j]]
        0 <= i < r.len() && 0 <= j < r.len() implies (r[i] <= r[j] <==> place(cx, m, i, env)
        <= place(cx, m, j, env)) by {
        assert(keys[i] == place(cx, m, i, env));
        assert(keys[j] == place(cx, m, j, env));
    }
    assert(allowed(kn, r)) by {
        assert forall|p: int| #![trigger kn.le@[p]] 0 <= p < kn.le@.len() implies r[kn.le@[p].0 as int]
            <= r[kn.le@[p].1 as int] by {}
        assert forall|p: int| #![trigger kn.lt@[p]] 0 <= p < kn.lt@.len() implies r[kn.lt@[p].0 as int]
            < r[kn.lt@[p].1 as int] by {
            assert(r[kn.lt@[p].1 as int] <= r[kn.lt@[p].0 as int] <==> place(
                cx,
                m,
                kn.lt@[p].1 as int,
                env,
            ) <= place(cx, m, kn.lt@[p].0 as int, env));
        }
        assert forall|p: int| #![trigger kn.mono@[p]] 0 <= p < kn.mono@.len() implies r[kn.mono@[p].0 as int]
            > r[kn.mono@[p].1 as int] || r[kn.mono@[p].2 as int] <= r[kn.mono@[p].3 as int] by {
            assert(r[kn.mono@[p].0 as int] <= r[kn.mono@[p].1 as int] <==> place(
                cx,
                m,
                kn.mono@[p].0 as int,
                env,
            ) <= place(cx, m, kn.mono@[p].1 as int, env));
            assert(r[kn.mono@[p].2 as int] <= r[kn.mono@[p].3 as int] <==> place(
                cx,
                m,
                kn.mono@[p].2 as int,
                env,
            ) <= place(cx, m, kn.mono@[p].3 as int, env));
        }
    }
    assert(ranks::holds_rank(orders, r));
    let p = choose|p: int| 0 <= p < orders.len() && (#[trigger] orders[p])@ == r;
    let q = m.bools@.len();
    let per = leaf_states(q) as int;
    let b0: int = if q > 0 && set_at(cx, m.bools@[0], env) {
        1
    } else {
        0
    };
    let b1: int = if q > 1 && set_at(cx, m.bools@[1], env) {
        1
    } else {
        0
    };
    let b = b0 + 2 * b1;
    assert(0 <= b < per);
    let s = p * per + b;
    assert(s / per == p && s % per == b) by {
        vstd::arithmetic::div_mod::lemma_fundamental_div_mod_converse(s, per, p, b);
    }
    assert(s < orders.len() * per) by (nonlinear_arith)
        requires
            s == p * per + b,
            b < per,
            per > 0,
            p + 1 <= orders.len(),
    {
        assert((p + 1) * per <= orders.len() * per);
        assert((p + 1) * per == p * per + per);
    }
    assert(p * per >= 0) by (nonlinear_arith)
        requires
            p >= 0,
            per > 0,
    ;
    s
}

/// What the form is, at an assignment.
spec fn form_true(cx: &Context, m: Model, root: int, f: Found, env: Env) -> bool {
    let n = m.nodes@[root];
    match f {
        Found::Const(v) => set_at(cx, n, env) == v,
        Found::Rel(eq, strict, i, j) => set_at(cx, n, env) == (if eq {
            (cx.val(m.atoms@[i as int] as int, env) == cx.val(m.atoms@[j as int] as int, env))
                != strict
        } else {
            less(strict, place(cx, m, i as int, env), place(cx, m, j as int, env))
        }),
        Found::Leaf(k, neg) => set_at(cx, n, env) == (set_at(cx, m.bools@[k as int], env) != neg),
        Found::Atom(i) => cx.val(n as int, env) == cx.val(m.atoms@[i as int] as int, env),
        Found::Extreme(max, i, j) => cx.val(n as int, env) == (if (place(cx, m, i as int, env)
            < place(cx, m, j as int, env)) != max {
            cx.val(m.atoms@[i as int] as int, env)
        } else {
            cx.val(m.atoms@[j as int] as int, env)
        }),
        Found::Part(i) => cx.val(n as int, env) == cx.val(m.nodes@[i as int] as int, env),
    }
}

/// A form that agrees in the state that describes an assignment is right there.
proof fn lemma_form(cx: &Context, m: Model, root: int, f: Found, rank: Seq<u8>, b: u8, env: Env)
    requires
        cx.wf(),
        model_ok(cx, m),
        0 <= root < m.items@.len(),
        form_fits(m, root, f),
        describes(cx, m, rank, b, env),
        reading(m.items@, rank, b, root) == form_reading(m.items@, f, rank, b),
    ensures
        form_true(cx, m, root, f, env),
{
    lemma_reads(cx, m, rank, b, env, root);
    let n = m.nodes@[root];
    assert(item_ok(cx, m, root));
    assert(cx.ok_at(n as int));
    let s = m.signed == Some(true);
    match f {
        Found::Const(_) => {},
        Found::Rel(eq, strict, i, j) => {
            assert(rank[i as int] <= rank[j as int] <==> place(cx, m, i as int, env) <= place(
                cx,
                m,
                j as int,
                env,
            ));
            assert(rank[j as int] <= rank[i as int] <==> place(cx, m, j as int, env) <= place(
                cx,
                m,
                i as int,
                env,
            ));
            let x = m.atoms@[i as int];
            let y = m.atoms@[j as int];
            assert(cx.ok_at(x as int));
            assert(cx.ok_at(y as int));
            lemma_key_same(s, cx.val(x as int, env), cx.val(y as int, env));
        },
        Found::Leaf(k, neg) => {
            let _ = leaf_bit(b, k as int);
        },
        Found::Atom(i) => {
            lemma_takes(cx, m, rank, b, env, root, i as int);
        },
        Found::Extreme(max, i, j) => {
            assert(rank[j as int] <= rank[i as int] <==> place(cx, m, j as int, env) <= place(
                cx,
                m,
                i as int,
                env,
            ));
            if (rank[i as int] < rank[j as int]) != max {
                lemma_takes(cx, m, rank, b, env, root, i as int);
            } else {
                lemma_takes(cx, m, rank, b, env, root, j as int);
            }
        },
        Found::Part(i) => {
            lemma_reads(cx, m, rank, b, env, i as int);
            assert(item_ok(cx, m, i as int));
            let p = m.nodes@[i as int];
            assert(cx.ok_at(p as int));
            if m.term@[root] {
                lemma_terms(cx, m, rank, b, env, root, i as int);
            } else {
                assert(cx.val(n as int, env) =~= cx.val(p as int, env));
            }
        },
    }
}

/// A term of an atom's rank has its value.
proof fn lemma_takes(cx: &Context, m: Model, rank: Seq<u8>, b: u8, env: Env, root: int, i: int)
    requires
        cx.wf(),
        model_ok(cx, m),
        describes(cx, m, rank, b, env),
        takes_atom(cx, m, rank, b, env, root),
        0 <= i < m.atoms@.len(),
        reading(m.items@, rank, b, root) == rank[i],
    ensures
        cx.val(m.nodes@[root] as int, env) == cx.val(m.atoms@[i] as int, env),
{
    let a = choose|a: int|
        #![trigger rank[a]]
        0 <= a < rank.len() && rank[a] == reading(m.items@, rank, b, root) && cx.val(
            m.atoms@[a] as int,
            env,
        ) == cx.val(m.nodes@[root] as int, env);
    assert(rank[a] <= rank[i] <==> place(cx, m, a, env) <= place(cx, m, i, env));
    assert(rank[i] <= rank[a] <==> place(cx, m, i, env) <= place(cx, m, a, env));
    assert(cx.ok_at(m.atoms@[a] as int));
    assert(cx.ok_at(m.atoms@[i] as int));
    lemma_key_same(
        m.signed == Some(true),
        cx.val(m.atoms@[a] as int, env),
        cx.val(m.atoms@[i] as int, env),
    );
}

/// Whether two atoms of the model are related by structure (so a lone comparison of them may
/// be decided).
fn related(cx: &Context, m: &Model) -> bool
    requires
        cx.wf(),
        model_ok(cx, *m),
{
    let mut i: usize = 0;
    while i < m.atoms.len()
        invariant
            cx.wf(),
            model_ok(cx, *m),
        decreases m.atoms@.len() - i,
    {
        let n = m.atoms[i];
        if let Some((op, a, b)) = bin_of(cx, n) {
            match op {
                BinOp::And | BinOp::Or => {
                    if lists(&m.atoms, a) || lists(&m.atoms, b) {
                        return true;
                    }
                },
                BinOp::LShr | BinOp::URem | BinOp::UDiv | BinOp::AShr => {
                    if lists(&m.atoms, a) {
                        return true;
                    }
                    let mut j: usize = 0;
                    while j < m.atoms.len()
                        invariant
                            cx.wf(),
                            model_ok(cx, *m),
                        decreases m.atoms@.len() - j,
                    {
                        let o = m.atoms[j];
                        if o != n {
                            if let Some((op2, _, b2)) = bin_of(cx, o) {
                                if op2 == op && b2 == b {
                                    return true;
                                }
                            }
                        }
                        j = j + 1;
                    }
                },
                _ => {},
            }
        }
        i = i + 1;
    }
    false
}

/// The model of node `n` (1-bit, or a term select) and its item, if it fits.
fn model_of(cx: &Context, n: u32) -> (r: Option<(Model, usize)>)
    requires
        cx.wf(),
        n < cx.n(),
    ensures
        r matches Some((m, root)) ==> model_ok(cx, m) && root < m.items@.len()
            && m.nodes@[root as int] == n && (cx.w(n as int) > 1 ==> m.width == cx.w(n as int)),
{
    let w = cx.wid(n);
    if w == 1 {
        let mut m = Model::empty(0);
        assert(model_ok(cx, m));
        match m.boolean(cx, n) {
            Some(root) => Some((m, root)),
            None => None,
        }
    } else {
        match cx.node(n) {
            Node::Select(_, _, _) => {
                let mut m = Model::empty(w);
                assert(model_ok(cx, m));
                match m.value(cx, n) {
                    Some(root) => Some((m, root)),
                    None => None,
                }
            },
            _ => None,
        }
    }
}

/// Every `step`-th part of `count` states.
fn spaced(count: usize) -> (at: Vec<usize>)
    requires
        64 < count <= 12500,
    ensures
        at@.len() == 32,
        forall|q: int| 0 <= q < at@.len() ==> #[trigger] at@[q] < count,
{
    let mut at: Vec<usize> = Vec::new();
    while at.len() < 32
        invariant
            64 < count <= 12500,
            at@.len() <= 32,
            forall|q: int| 0 <= q < at@.len() ==> #[trigger] at@[q] < count,
        decreases 32 - at@.len(),
    {
        let i = at.len();
        assert(i * count <= 31 * count) by (nonlinear_arith)
            requires
                i <= 31,
        ;
        at.push(i * count / 32);
    }
    at
}

/// Every number below `count`.
fn every(count: usize) -> (at: Vec<usize>)
    ensures
        at@.len() == count,
        forall|q: int| 0 <= q < at@.len() ==> #[trigger] at@[q] == q,
{
    let mut at: Vec<usize> = Vec::new();
    while at.len() < count
        invariant
            at@.len() <= count,
            forall|q: int| 0 <= q < at@.len() ==> #[trigger] at@[q] == q,
        decreases count - at@.len(),
    {
        let i = at.len();
        at.push(i);
    }
    at
}

/// Several comparisons or selects of several atoms.
spec fn worth_deciding(m: Model) -> bool {
    m.atoms@.len() >= 2 && (m.comparisons >= 2 || m.selects > 0)
}

/// The atoms can stand in no order.
spec fn impossible(m: Model, kn: Orders) -> bool {
    forall|r: Seq<u8>| ranks::preorder(r, m.atoms@.len()) ==> !#[trigger] allowed(kn, r)
}

/// Some states that what is known of the orders allows, in which no form agrees with the formula.
spec fn undecided(m: Model, root: int, kn: Orders) -> bool {
    exists|t: Table| #[trigger]
        none_agrees(m, root, t) && table_ok(m, t) && forall|s: int|
            #![trigger t.ranks@[s]]
            0 <= s < t.ranks@.len() ==> allowed(kn, t.ranks@[s]@)
}

proof fn lemma_undecided(
    m: Model,
    root: int,
    kn: Orders,
    orders: Seq<Vec<u8>>,
    per: int,
    at: Seq<usize>,
    t: Table,
)
    requires
        none_agrees(m, root, t),
        table_ok(m, t),
        per > 0,
        t.ranks@.len() == at.len(),
        forall|p: int| 0 <= p < orders.len() ==> allowed(kn, (#[trigger] orders[p])@),
        forall|q: int| 0 <= q < at.len() ==> #[trigger] at[q] < orders.len() * per,
        forall|q: int|
            #![trigger t.ranks@[q]]
            0 <= q < at.len() ==> t.ranks@[q]@ == orders[at[q] as int / per]@,
    ensures
        undecided(m, root, kn),
{
    assert forall|s: int| #![trigger t.ranks@[s]] 0 <= s < t.ranks@.len() implies allowed(
        kn,
        t.ranks@[s]@,
    ) by {
        let q = at[s] as int;
        assert(0 <= q / per < orders.len()) by (nonlinear_arith)
            requires
                0 <= q < orders.len() * per,
                per > 0,
        ;
        assert(allowed(kn, orders[q / per]@));
    }
}

impl<'a> Runner<'a> {
    /// Makes the form of node `n`.
    fn make_form(&mut self, cx: &mut Context, m: &Model, root: usize, f: Found, Ghost(rel): Ghost<Reliance>) -> (out: Result<u32, Stop>)
        requires
            old(self).wf(old(cx)),
            model_ok(old(cx), *m),
            root < m.items@.len(),
            form_fits(*m, root as int, f),
            forall|env: Env|
                rel.admits(old(self).hyp@, env) ==> #[trigger] form_true(
                    old(cx),
                    *m,
                    root as int,
                    f,
                    env,
                ),
        ensures
            runner::went(final(self), final(cx), old(self), old(cx)),
            out matches Err(e) ==> final(self).refuses(final(cx), e),
            out matches Ok(e) ==> e < final(cx).n() && fin::equal_under(
                final(cx).tm(),
                final(self).hyp@,
                rel,
                m.nodes@[root as int] as int,
                e as int,
            ),
    {
        let ghost cx0 = *cx;
        let ghost h = self.hyp@;
        let ghost n = m.nodes@[root as int];
        let signed = m.signed == Some(true);
        proof {
            assert(item_ok(&cx0, *m, root as int));
            assert(cx0.ok_at(n as int));
        }
        match f {
            Found::Const(b) => {
                let v = BitVec::from_bool(b);
                let e = self.mk_const(cx, &v)?;
                proof {
                    assert forall|env: Env|
                        #![trigger term::value(cx.tm()[n as int], env)]
                        #![trigger term::value(cx.tm()[e as int], env)]
                        rel.admits(h, env) implies term::value(cx.tm()[n as int], env)
                        == term::value(cx.tm()[e as int], env) by {
                        assert(form_true(&cx0, *m, root as int, f, env));
                        assert(cx.val(e as int, env) == v@);
                        assert(cx0.val(n as int, env) =~= v@);
                    }
                }
                Ok(e)
            },
            Found::Rel(eq, strict, i, j) => {
                let op = if eq {
                    if strict {
                        CmpOp::Ne
                    } else {
                        CmpOp::Eq
                    }
                } else if signed {
                    if strict {
                        CmpOp::Slt
                    } else {
                        CmpOp::Sle
                    }
                } else if strict {
                    CmpOp::Ult
                } else {
                    CmpOp::Ule
                };
                let a = m.atoms[i];
                let b = m.atoms[j];
                let e = self.c_rel(cx, op, a, b)?;
                proof {
                    assert forall|env: Env|
                        #![trigger term::value(cx.tm()[n as int], env)]
                        #![trigger term::value(cx.tm()[e as int], env)]
                        rel.admits(h, env) implies term::value(cx.tm()[n as int], env)
                        == term::value(cx.tm()[e as int], env) by {
                        assert(form_true(&cx0, *m, root as int, f, env));
                        let _ = cx.val(e as int, env);
                        assert(cx0.val(n as int, env) =~= cx.val(e as int, env));
                    }
                }
                Ok(e)
            },
            Found::Leaf(k, neg) => {
                let l = m.bools[k];
                let e = if neg {
                    self.c_un(cx, UnOp::Not, l)?
                } else {
                    l
                };
                proof {
                    assert forall|env: Env|
                        #![trigger term::value(cx.tm()[n as int], env)]
                        #![trigger term::value(cx.tm()[e as int], env)]
                        rel.admits(h, env) implies term::value(cx.tm()[n as int], env)
                        == term::value(cx.tm()[e as int], env) by {
                        assert(form_true(&cx0, *m, root as int, f, env));
                        assert(cx0.ok_at(l as int));
                        let _ = cx.val(e as int, env);
                        assert(cx0.val(n as int, env) =~= cx.val(e as int, env));
                    }
                }
                Ok(e)
            },
            Found::Atom(i) => {
                let e = m.atoms[i];
                proof {
                    assert forall|env: Env|
                        #![trigger term::value(cx.tm()[n as int], env)]
                        #![trigger term::value(cx.tm()[e as int], env)]
                        rel.admits(h, env) implies term::value(cx.tm()[n as int], env)
                        == term::value(cx.tm()[e as int], env) by {
                        assert(form_true(&cx0, *m, root as int, f, env));
                    }
                }
                Ok(e)
            },
            Found::Part(i) => {
                let e = m.nodes[i];
                proof {
                    assert(item_ok(&cx0, *m, i as int));
                    assert forall|env: Env|
                        #![trigger term::value(cx.tm()[n as int], env)]
                        #![trigger term::value(cx.tm()[e as int], env)]
                        rel.admits(h, env) implies term::value(cx.tm()[n as int], env)
                        == term::value(cx.tm()[e as int], env) by {
                        assert(form_true(&cx0, *m, root as int, f, env));
                    }
                }
                Ok(e)
            },
            Found::Extreme(max, i, j) => {
                let a = m.atoms[i];
                let b = m.atoms[j];
                let op = if signed {
                    CmpOp::Slt
                } else {
                    CmpOp::Ult
                };
                let c = self.c_rel(cx, op, a, b)?;
                let ghost cx1 = *cx;
                let (t, o) = if max {
                    (b, a)
                } else {
                    (a, b)
                };
                proof {
                    assert(cx1.tm()[t as int] == cx0.tm()[t as int]);
                    assert(cx1.tm()[o as int] == cx0.tm()[o as int]);
                }
                let e = self.c_select(cx, c, t, o)?;
                proof {
                    assert forall|env: Env|
                        #![trigger term::value(cx.tm()[n as int], env)]
                        #![trigger term::value(cx.tm()[e as int], env)]
                        rel.admits(h, env) implies term::value(cx.tm()[n as int], env)
                        == term::value(cx.tm()[e as int], env) by {
                        assert(form_true(&cx0, *m, root as int, f, env));
                        let _ = cx1.val(c as int, env);
                        let _ = cx.val(e as int, env);
                    }
                    assert(cx.tm()[n as int] == cx0.tm()[n as int]);
                }
                Ok(e)
            },
        }
    }

    /// Decides the node `n` (1-bit, or a term select): the form it always equals, the atoms the
    /// form reads, and what that relies on.
    pub(crate) fn decide(&mut self, cx: &mut Context, n: u32) -> (out: Result<
        Option<(u32, Vec<u32>, Fin)>,
        Stop,
    >)
        requires
            old(self).wf(old(cx)),
            n < old(cx).n(),
        ensures
            runner::went(final(self), final(cx), old(self), old(cx)),
            out matches Err(e) ==> final(self).refuses(final(cx), e),
            out matches Ok(Some((e, atoms, fin))) ==> e < final(cx).n() && fin::equal_under(
                final(cx).tm(),
                final(self).hyp@,
                fin.rel,
                n as int,
                e as int,
            ),
    {
        match model_of(cx, n) {
            Some((m, root)) => self.decide_in(cx, n, m, root),
            None => Ok(None),
        }
    }

    /// [`decide`](Self::decide) by the model of `n`.
    fn decide_in(&mut self, cx: &mut Context, n: u32, m: Model, root: usize) -> (out: Result<
        Option<(u32, Vec<u32>, Fin)>,
        Stop,
    >)
        requires
            old(self).wf(old(cx)),
            n < old(cx).n(),
            model_ok(old(cx), m),
            root < m.items@.len(),
            m.nodes@[root as int] == n,
            old(cx).w(n as int) > 1 ==> m.width == old(cx).w(n as int),
        ensures
            runner::went(final(self), final(cx), old(self), old(cx)),
            out matches Err(e) ==> final(self).refuses(final(cx), e),
            out matches Ok(Some((e, atoms, fin))) ==> e < final(cx).n() && fin::equal_under(
                final(cx).tm(),
                final(self).hyp@,
                fin.rel,
                n as int,
                e as int,
            ),
            // A formula over several atoms is left only where no order of them is possible, or
            // no form agrees with it in the possible ones.
            out matches Ok(None) ==> worth_deciding(m) ==> exists|kn: Orders, rel: Reliance|
                #[trigger]
                orders_ok(old(cx), m, kn, final(self).hyp@, rel) && (impossible(m, kn)
                    || undecided(m, root as int, kn)),
    {
        // Worth deciding: several comparisons, or selects between terms (a lone comparison of
        // two atoms is the compares pass's, unless their order is known).
        if m.atoms.len() < 2 || (m.comparisons < 2 && m.selects == 0 && !related(cx, &m)) {
            return Ok(None);
        }
        proof {
            let _ = m.atoms@[0];
            assert(cx.ok_at(m.atoms@[0] as int));
        }
        let (kn, fin) = self.orders(cx, &m)?;
        let k = m.atoms.len();
        let orders = possible(&kn, k);
        // The states: each possible order with each assignment of the 1-bit leaves.
        let per: usize = if m.bools.len() == 0 {
            1
        } else if m.bools.len() == 1 {
            2
        } else {
            4
        };
        assert(orders@.len() * per <= 12500) by (nonlinear_arith)
            requires
                orders@.len() <= 3125,
                per <= 4,
        ;
        let count = orders.len() * per;
        let work: u64 = match (count as u64).checked_mul(m.items.len() as u64) {
            Some(x) => if x / 8 < PASS_STEP {
                x / 8 + 1
            } else {
                PASS_STEP
            },
            None => PASS_STEP,
        };
        self.charge(Counter::PassWork, work)?;
        assert(orders_ok(old(cx), m, kn, self.hyp@, fin.rel));
        if count == 0 {
            proof {
                assert(orders@.len() == 0) by (nonlinear_arith)
                    requires
                        orders@.len() * per == 0,
                        per > 0,
                ;
                assert forall|r: Seq<u8>| ranks::preorder(r, k as nat) implies !#[trigger] allowed(
                    kn,
                    r,
                ) by {
                    if allowed(kn, r) {
                        assert(ranks::holds_rank(orders@, r));
                    }
                }
                assert(impossible(m, kn));
            }
            // No order is possible: the facts contradict each other (infeasible assumptions).
            return Ok(None);
        }
        // Whatever the formula turns out to be, it agrees with it on every state: first on a
        // sample of them, which most formulas with no simpler form fail.
        if count > 64 {
            let at = spaced(count);
            let sample = read(cx, &m, &orders, per, &at);
            if find(&m, root, &sample).is_none() {
                proof {
                    lemma_undecided(m, root as int, kn, orders@, per as int, at@, sample);
                }
                return Ok(None);
            }
        }
        let at = every(count);
        let table = read(cx, &m, &orders, per, &at);
        let f = match find(&m, root, &table) {
            Some(f) => f,
            None => {
                proof {
                    lemma_undecided(m, root as int, kn, orders@, per as int, at@, table);
                }
                return Ok(None);
            },
        };
        let ghost h = self.hyp@;
        proof {
            assert forall|env: Env| fin.rel.admits(h, env) implies #[trigger] form_true(
                cx,
                m,
                root as int,
                f,
                env,
            ) by {
                assert(orders_hold(cx, m, kn, env));
                let s = state_of(cx, m, kn, orders@, env);
                assert(at@[s] == s);
                let _ = table.ranks@[s];
                assert(agrees(m, root as int, table, f));
                lemma_form(cx, m, root as int, f, table.ranks@[s]@, table.bits@[s], env);
            }
        }
        let e = self.make_form(cx, &m, root, f, Ghost(fin.rel))?;
        let mut atoms: Vec<u32> = m.atoms;
        let mut i: usize = 0;
        while i < m.bools.len()
            decreases m.bools@.len() - i,
        {
            atoms.push(m.bools[i]);
            i = i + 1;
        }
        Ok(Some((e, atoms, fin)))
    }
}


} // verus!
