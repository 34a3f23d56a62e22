//! Hash-consed expressions: an arena of nodes, each with lower-numbered operands, built through
//! constructors that fold constants and put operands in a canonical order.

use vstd::prelude::*;
use crate::term;
use crate::bitvec::{BitVec, MAX_WIDTH};
use crate::engine::results;
use crate::engine::results::Memo;
use crate::ops::{BinOp, CmpOp, UnOp};
use crate::term::{Env, Term};

verus! {

/// A handle to an expression of a [`Context`].
#[derive(Clone, Copy, Debug, PartialEq, Eq, Hash, Structural)]
pub struct Expr {
    /// The node's index.
    pub id: u32,
}

/// A node: an operator and the indices of its operands.
#[derive(Clone, Copy, Debug, PartialEq, Eq, Hash, Structural)]
pub enum Node {
    /// A constant (an index into the constants).
    Const(u32),
    /// A symbol, by its key.
    Sym(u64),
    /// A unary operator.
    Un(UnOp, u32),
    /// A binary operator.
    Bin(BinOp, u32, u32),
    /// A comparison.
    Cmp(CmpOp, u32, u32),
    /// Zero extension.
    Zext(u32),
    /// Sign extension.
    Sext(u32),
    /// Bits from an offset.
    Extract(u32, u16),
    /// High part, low part.
    Concat(u32, u32),
    /// Condition, then, else.
    Select(u32, u32, u32),
}

/// What is kept about a node beside its operator.
#[derive(Clone, Copy, Debug, PartialEq, Eq, Hash, Structural)]
pub struct Meta {
    /// The width.
    pub width: u16,
    /// The height (saturating).
    pub height: u32,
    /// The size as a tree (saturating).
    pub tree: u32,
    /// The least symbol key below the node.
    pub lead: u64,
    /// A hash of the structure.
    pub shash: u64,
}

/// Why a node was not made.
#[derive(Clone, Copy, Debug, PartialEq, Eq, Hash, Structural)]
pub enum Fail {
    /// The arena holds as many nodes as it may.
    Full,
    /// No more nodes may be made now.
    Quota,
}

/// Why a request to a context failed.
#[derive(Clone, Copy, Debug, PartialEq, Eq, Hash, Structural)]
pub enum Error {
    /// A handle that is not the context's.
    BadHandle,
    /// Operands whose widths do not fit.
    WidthMismatch,
    /// A width, or a range of bits, that cannot be.
    BadWidth,
    /// A constant that does not fit its width.
    DoesNotFit,
    /// The arena holds as many nodes as it may.
    ArenaFull,
}

/// A node as its users see it.
#[derive(Clone, Copy, Debug, PartialEq, Eq, Hash, Structural)]
pub enum NodeView {
    /// A constant.
    Const,
    /// A symbol, by its key.
    Sym(u64),
    /// A unary operator.
    Un(UnOp, Expr),
    /// A binary operator.
    Bin(BinOp, Expr, Expr),
    /// A comparison.
    Cmp(CmpOp, Expr, Expr),
    /// Zero extension.
    Zext(Expr),
    /// Sign extension.
    Sext(Expr),
    /// Bits from an offset.
    Extract(Expr, u16),
    /// High part, low part.
    Concat(Expr, Expr),
    /// Condition, then, else.
    Select(Expr, Expr, Expr),
}

/// Buckets of the table of nodes.
pub(crate) const BUCKETS: usize = 4096;

/// An arena of expressions.
pub struct Context {
    pub(crate) nodes: Vec<Node>,
    pub(crate) meta: Vec<Meta>,
    pub(crate) consts: Vec<BitVec>,
    /// Node indices by hash.
    pub(crate) table: Vec<Vec<u32>>,
    /// The most nodes.
    pub(crate) max_nodes: u32,
    /// How many more nodes may be made now.
    pub(crate) quota: u64,
    /// Results of engine calls, kept for later ones.
    pub(crate) memo: Memo,
    /// What each node means.
    pub(crate) terms: Ghost<Seq<Term>>,
}

/// A number, or the largest there is.
pub open spec fn sat(n: nat) -> nat {
    if n <= u32::MAX {
        n
    } else {
        u32::MAX as nat
    }
}

/// Whether every operand has an index below `n`.
pub open spec fn kids_below(node: Node, n: int) -> bool {
    match node {
        Node::Const(_) => true,
        Node::Sym(_) => true,
        Node::Un(_, a) => a < n,
        Node::Bin(_, a, b) => a < n && b < n,
        Node::Cmp(_, a, b) => a < n && b < n,
        Node::Zext(a) => a < n,
        Node::Sext(a) => a < n,
        Node::Extract(a, _) => a < n,
        Node::Concat(a, b) => a < n && b < n,
        Node::Select(a, b, c) => a < n && b < n && c < n,
    }
}

/// What a node of `w` bits over operands that mean `terms` means.
pub open spec fn node_term(node: Node, w: nat, terms: Seq<Term>, consts: Seq<BitVec>) -> Term {
    match node {
        Node::Const(k) => Term::Const(consts[k as int]@),
        Node::Sym(k) => Term::Sym(k as int, w),
        Node::Un(op, a) => Term::Un(op, Box::new(terms[a as int])),
        Node::Bin(op, a, b) => Term::Bin(
            op,
            Box::new(terms[a as int]),
            Box::new(terms[b as int]),
        ),
        Node::Cmp(op, a, b) => Term::Cmp(
            op,
            Box::new(terms[a as int]),
            Box::new(terms[b as int]),
        ),
        Node::Zext(a) => Term::Zext(Box::new(terms[a as int]), w),
        Node::Sext(a) => Term::Sext(Box::new(terms[a as int]), w),
        Node::Extract(a, lo) => Term::Extract(Box::new(terms[a as int]), lo as nat, w),
        Node::Concat(a, b) => Term::Concat(Box::new(terms[a as int]), Box::new(terms[b as int])),
        Node::Select(a, b, c) => Term::Select(
            Box::new(terms[a as int]),
            Box::new(terms[b as int]),
            Box::new(terms[c as int]),
        ),
    }
}

/// The operands of a node, in order.
pub open spec fn kids(node: Node) -> Seq<u32> {
    match node {
        Node::Const(_) => seq![],
        Node::Sym(_) => seq![],
        Node::Un(_, a) => seq![a],
        Node::Bin(_, a, b) => seq![a, b],
        Node::Cmp(_, a, b) => seq![a, b],
        Node::Zext(a) => seq![a],
        Node::Sext(a) => seq![a],
        Node::Extract(a, _) => seq![a],
        Node::Concat(a, b) => seq![a, b],
        Node::Select(a, b, c) => seq![a, b, c],
    }
}

impl Node {
    /// The operands, in order.
    pub fn children(&self) -> (r: Vec<u32>)
        ensures
            r@ == kids(*self),
    {
        match *self {
            Node::Const(_) => vec![],
            Node::Sym(_) => vec![],
            Node::Un(_, a) => vec![a],
            Node::Bin(_, a, b) => vec![a, b],
            Node::Cmp(_, a, b) => vec![a, b],
            Node::Zext(a) => vec![a],
            Node::Sext(a) => vec![a],
            Node::Extract(a, _) => vec![a],
            Node::Concat(a, b) => vec![a, b],
            Node::Select(a, b, c) => vec![a, b, c],
        }
    }

    /// A small number for the operator.
    pub(crate) fn tag(&self) -> (r: u64)
        ensures
            r < 100,
    {
        match *self {
            Node::Const(_) => 0,
            Node::Sym(_) => 1,
            Node::Un(op, _) => 10 + un_tag(op),
            Node::Bin(op, _, _) => 20 + bin_tag(op),
            Node::Cmp(op, _, _) => 40 + rel_tag(op),
            Node::Zext(_) => 50,
            Node::Sext(_) => 51,
            Node::Extract(_, _) => 52,
            Node::Concat(_, _) => 53,
            Node::Select(_, _, _) => 54,
        }
    }
}

fn un_tag(op: UnOp) -> (r: u64)
    ensures
        r < 10,
{
    match op {
        UnOp::Not => 0,
        UnOp::Neg => 1,
        UnOp::Popcnt => 2,
        UnOp::Clz => 3,
        UnOp::Ctz => 4,
        UnOp::Bswap => 5,
        UnOp::BitRev => 6,
    }
}

fn bin_tag(op: BinOp) -> (r: u64)
    ensures
        r < 20,
{
    match op {
        BinOp::Add => 0,
        BinOp::Sub => 1,
        BinOp::Mul => 2,
        BinOp::UDiv => 3,
        BinOp::URem => 4,
        BinOp::SDiv => 5,
        BinOp::SRem => 6,
        BinOp::And => 7,
        BinOp::Or => 8,
        BinOp::Xor => 9,
        BinOp::Shl => 10,
        BinOp::LShr => 11,
        BinOp::AShr => 12,
        BinOp::RotL => 13,
        BinOp::RotR => 14,
    }
}

fn rel_tag(op: CmpOp) -> (r: u64)
    ensures
        r < 10,
{
    match op {
        CmpOp::Eq => 0,
        CmpOp::Ne => 1,
        CmpOp::Ult => 2,
        CmpOp::Ule => 3,
        CmpOp::Slt => 4,
        CmpOp::Sle => 5,
    }
}

/// Mixes `v` into `h`.
pub(crate) fn combine(h: u64, v: u64) -> (r: u64) {
    let x: u64 = (h ^ v).wrapping_mul(0x9e37_79b9_7f4a_7c15);
    let y: u64 = (x ^ (x >> 29)).wrapping_mul(0xbf58_476d_1ce4_e5b9);
    (y ^ (y >> 32)).wrapping_add(h.wrapping_mul(31))
}

impl Context {
    /// The number of nodes.
    pub open(crate) spec fn n(&self) -> int {
        self.terms@.len() as int
    }

    /// What each node means.
    pub open(crate) spec fn tm(&self) -> Seq<Term> {
        self.terms@
    }

    /// The width of node `i`.
    pub open(crate) spec fn w(&self, i: int) -> nat {
        term::twidth(self.terms@[i])
    }

    /// The value of node `i` at `env`.
    pub open(crate) spec fn val(&self, i: int, env: Env) -> Seq<bool> {
        term::value(self.terms@[i], env)
    }

    /// Node `i` is what it means.
    pub open(crate) spec fn ok_at(&self, i: int) -> bool {
        let node = self.nodes@[i];
        let m = self.meta@[i];
        let t = self.terms@[i];
        &&& kids_below(node, i)
        &&& node matches Node::Const(k) ==> k < self.consts@.len()
        &&& t == node_term(node, m.width as nat, self.terms@, self.consts@)
        &&& term::tok(t)
        &&& m.width == term::twidth(t)
        &&& m.height == sat(term::theight(t))
        &&& m.tree == sat(term::tsize(t))
    }

    /// The arena is consistent.
    pub open(crate) spec fn wf(&self) -> bool {
        &&& self.nodes@.len() == self.terms@.len()
        &&& self.meta@.len() == self.terms@.len()
        &&& self.terms@.len() <= self.max_nodes
        &&& self.max_nodes < u32::MAX
        &&& self.consts@.len() <= self.terms@.len()
        &&& self.table@.len() == BUCKETS
        &&& results::memo_fits(self.memo, self.terms@)
        &&& forall|i: int| 0 <= i < self.n() ==> #[trigger] self.ok_at(i)
    }

    /// Every node of `old` is still there and means what it meant.
    pub open(crate) spec fn extends(&self, old: &Context) -> bool {
        &&& old.n() <= self.n()
        &&& forall|i: int| 0 <= i < old.n() ==> #[trigger] self.terms@[i] == old.terms@[i]
        &&& forall|i: int| 0 <= i < old.n() ==> #[trigger] self.nodes@[i] == old.nodes@[i]
        &&& self.max_nodes == old.max_nodes
    }

    /// As [`extends`](Self::extends), with the same results of engine calls kept.
    pub open(crate) spec fn grew(&self, old: &Context) -> bool {
        self.extends(old) && self.memo == old.memo
    }

    /// Every result of engine calls kept is right: it has the value of what it replaces wherever
    /// the constraints it relies on hold.
    pub open(crate) spec fn memo_ok(&self) -> bool {
        results::memo_right(self.memo, self.terms@)
    }

    /// As [`grew`](Self::grew), each new node taken from the quota.
    pub open(crate) spec fn built(&self, old: &Context) -> bool {
        &&& self.grew(old)
        &&& self.n() - old.n() == old.quota - self.quota
    }

    /// The most nodes.
    pub open(crate) spec fn limit(&self) -> int {
        self.max_nodes as int
    }

    /// Whether `k` more nodes may be made.
    pub open(crate) spec fn room(&self, k: int) -> bool {
        self.n() + k <= self.max_nodes && k <= self.quota
    }

    /// An empty arena of at most `max_nodes` nodes.
    pub fn with_max_nodes(max_nodes: u32) -> (r: Context)
        requires
            max_nodes < u32::MAX,
        ensures
            r.wf(),
            r.n() == 0,
            r.memo_ok(),
            r.limit() == max_nodes,
            r.nothing_kept(),
            forall|k: int| #[trigger] r.room(k) <==> k <= max_nodes,
    {
        let mut table: Vec<Vec<u32>> = Vec::new();
        let mut i: usize = 0;
        while i < BUCKETS
            invariant
                i <= BUCKETS,
                table@.len() == i,
            decreases BUCKETS - i,
        {
            table.push(Vec::new());
            i = i + 1;
        }
        let memo = Memo::new();
        proof {
            reveal(results::phase_ok);
        }
        Context {
            nodes: Vec::new(),
            meta: Vec::new(),
            consts: Vec::new(),
            table,
            max_nodes,
            quota: u64::MAX,
            memo,
            terms: Ghost(Seq::empty()),
        }
    }

    /// An empty arena.
    pub fn new() -> (r: Context)
        ensures
            r.wf(),
            r.n() == 0,
            r.memo_ok(),
            r.limit() == 0x4000_0000,
            r.nothing_kept(),
            forall|k: int| #[trigger] r.room(k) <==> k <= 0x4000_0000,
    {
        Context::with_max_nodes(0x4000_0000)
    }

    /// Drops the results kept from engine calls.
    pub fn forget_results(&mut self)
        requires
            old(self).wf(),
        ensures
            final(self).wf(),
            final(self).memo_ok(),
            final(self).extends(old(self)),
            final(self).n() == old(self).n(),
            final(self).nothing_kept(),
    {
        self.memo = Memo::new();
        proof {
            reveal(results::phase_ok);
            assert forall|i: int| 0 <= i < self.n() implies #[trigger] self.ok_at(i) by {
                assert(old(self).ok_at(i));
            }
        }
    }

    /// The number of nodes.
    pub fn len(&self) -> (r: usize)
        requires
            self.wf(),
        ensures
            r == self.n(),
    {
        self.nodes.len()
    }

    /// Node `i`.
    pub(crate) fn node(&self, i: u32) -> (r: Node)
        requires
            self.wf(),
            i < self.n(),
        ensures
            r == self.nodes@[i as int],
            self.ok_at(i as int),
    {
        assert(self.ok_at(i as int));
        self.nodes[i as usize]
    }

    /// The width of node `i`.
    pub(crate) fn wid(&self, i: u32) -> (r: u16)
        requires
            self.wf(),
            i < self.n(),
        ensures
            r == self.w(i as int),
            1 <= r <= MAX_WIDTH,
    {
        assert(self.ok_at(i as int));
        self.meta[i as usize].width
    }

    /// The value of node `i`, if it is a constant.
    pub(crate) fn const_val(&self, i: u32) -> (r: Option<BitVec>)
        requires
            self.wf(),
            i < self.n(),
        ensures
            r matches Some(v) ==> self.terms@[i as int] == Term::Const(v@) && v@.len() == self.w(
                i as int,
            ),
            r is Some <==> self.nodes@[i as int] is Const,
    {
        assert(self.ok_at(i as int));
        match self.nodes[i as usize] {
            Node::Const(k) => Some(self.consts[k as usize].dup()),
            _ => None,
        }
    }

    /// Whether node `i` is a constant.
    pub(crate) fn is_const(&self, i: u32) -> (r: bool)
        requires
            self.wf(),
            i < self.n(),
        ensures
            r <==> self.nodes@[i as int] is Const,
    {
        matches!(self.nodes[i as usize], Node::Const(_))
    }

    /// Whether node `a` comes before node `b` in the canonical order, which depends on the
    /// structure of the nodes alone.
    pub(crate) fn before(&self, a: u32, b: u32) -> (r: bool)
        requires
            self.wf(),
            a < self.n(),
            b < self.n(),
    {
        let x = self.meta[a as usize];
        let y = self.meta[b as usize];
        if x.lead != y.lead {
            return x.lead < y.lead;
        }
        if x.tree != y.tree {
            return x.tree < y.tree;
        }
        let s = self.nodes[a as usize].tag();
        let t = self.nodes[b as usize].tag();
        if s != t {
            return s < t;
        }
        if x.shash != y.shash {
            return x.shash < y.shash;
        }
        a < b
    }

    /// The bucket of a node.
    fn bucket(&self, node: &Node, h: u64) -> (r: usize)
        ensures
            r < BUCKETS,
    {
        (h % BUCKETS as u64) as usize
    }

    /// The node equal to `node` of `width` bits, if it is there.
    fn find(&self, node: &Node, width: u16, h: u64) -> (r: Option<u32>)
        requires
            self.wf(),
        ensures
            r matches Some(i) ==> i < self.n() && self.nodes@[i as int] == *node
                && self.meta@[i as int].width == width,
    {
        let b = self.bucket(node, h);
        let mut j: usize = 0;
        while j < self.table[b].len()
            invariant
                b < self.table@.len(),
                self.wf(),
            decreases self.table@[b as int]@.len() - j,
        {
            let i: u32 = self.table[b][j];
            if (i as usize) < self.nodes.len() && self.nodes[i as usize] == *node
                && self.meta[i as usize].width == width {
                return Some(i);
            }
            j = j + 1;
        }
        None
    }

    /// The hash of a constant.
    pub(crate) fn const_hash(&self, v: &BitVec) -> (r: u64) {
        let mut h: u64 = combine(0, v.len() as u64);
        let mut acc: u64 = 0;
        let mut i: usize = 0;
        while i < v.len()
            decreases v@.len() - i,
        {
            acc = acc.wrapping_mul(2).wrapping_add(
                if v.at(i) {
                    1
                } else {
                    0
                },
            );
            i = i + 1;
            if i % 64 == 0 {
                h = combine(h, acc);
                acc = 0;
            }
        }
        combine(h, acc)
    }

    /// The hash of a node's structure, and the least symbol below it.
    fn digest(&self, node: &Node, width: u16) -> (r: (u64, u64))
        requires
            self.wf(),
            kids_below(*node, self.n()),
            node matches Node::Const(k) ==> k < self.consts@.len(),
    {
        let h0 = combine(node.tag(), width as u64);
        match *node {
            Node::Const(k) => (self.const_hash(&self.consts[k as usize]), u64::MAX),
            Node::Sym(k) => (combine(h0, k), k),
            _ => {
                let ks = node.children();
                let mut h = h0;
                let mut lead: u64 = u64::MAX;
                let mut i: usize = 0;
                while i < ks.len()
                    invariant
                        self.wf(),
                        ks@ == kids(*node),
                        kids_below(*node, self.n()),
                    decreases ks.len() - i,
                {
                    assert(ks@[i as int] < self.n());
                    let m = self.meta[ks[i] as usize];
                    h = combine(h, m.shash);
                    if m.lead < lead {
                        lead = m.lead;
                    }
                    i = i + 1;
                }
                if let Node::Extract(_, lo) = *node {
                    h = combine(h, lo as u64);
                }
                (h, lead)
            },
        }
    }

    /// The height and the tree size of a node over its operands.
    fn sizes(&self, node: &Node, Ghost(t): Ghost<Term>, width: u16) -> (r: (u32, u32))
        requires
            self.wf(),
            kids_below(*node, self.n()),
            t == node_term(*node, width as nat, self.terms@, self.consts@),
        ensures
            r.0 == sat(term::theight(t)),
            r.1 == sat(term::tsize(t)),
    {
        match *node {
            Node::Const(_) => (0, 1),
            Node::Sym(_) => (0, 1),
            Node::Un(_, a) => {
                assert(self.ok_at(a as int));
                let x = self.meta[a as usize];
                (x.height.saturating_add(1), x.tree.saturating_add(1))
            },
            Node::Zext(a) => {
                assert(self.ok_at(a as int));
                let x = self.meta[a as usize];
                (x.height.saturating_add(1), x.tree.saturating_add(1))
            },
            Node::Sext(a) => {
                assert(self.ok_at(a as int));
                let x = self.meta[a as usize];
                (x.height.saturating_add(1), x.tree.saturating_add(1))
            },
            Node::Extract(a, _) => {
                assert(self.ok_at(a as int));
                let x = self.meta[a as usize];
                (x.height.saturating_add(1), x.tree.saturating_add(1))
            },
            Node::Bin(_, a, b) => {
                assert(self.ok_at(a as int));
                assert(self.ok_at(b as int));
                let x = self.meta[a as usize];
                let y = self.meta[b as usize];
                let h = if x.height >= y.height {
                    x.height
                } else {
                    y.height
                };
                (h.saturating_add(1), x.tree.saturating_add(y.tree).saturating_add(1))
            },
            Node::Cmp(_, a, b) => {
                assert(self.ok_at(a as int));
                assert(self.ok_at(b as int));
                let x = self.meta[a as usize];
                let y = self.meta[b as usize];
                let h = if x.height >= y.height {
                    x.height
                } else {
                    y.height
                };
                (h.saturating_add(1), x.tree.saturating_add(y.tree).saturating_add(1))
            },
            Node::Concat(a, b) => {
                assert(self.ok_at(a as int));
                assert(self.ok_at(b as int));
                let x = self.meta[a as usize];
                let y = self.meta[b as usize];
                let h = if x.height >= y.height {
                    x.height
                } else {
                    y.height
                };
                (h.saturating_add(1), x.tree.saturating_add(y.tree).saturating_add(1))
            },
            Node::Select(a, b, c) => {
                assert(self.ok_at(a as int));
                assert(self.ok_at(b as int));
                assert(self.ok_at(c as int));
                let x = self.meta[a as usize];
                let y = self.meta[b as usize];
                let z = self.meta[c as usize];
                let g = if y.height >= z.height {
                    y.height
                } else {
                    z.height
                };
                let h = if x.height >= g {
                    x.height
                } else {
                    g
                };
                (
                    h.saturating_add(1),
                    x.tree.saturating_add(y.tree).saturating_add(z.tree).saturating_add(1),
                )
            },
        }
    }

    /// The node `node` of `width` bits, made if it is not there.
    pub(crate) fn intern(&mut self, node: Node, width: u16) -> (r: Result<u32, Fail>)
        requires
            old(self).wf(),
            kids_below(node, old(self).n()),
            node matches Node::Const(k) ==> k < old(self).consts@.len(),
            term::tok(node_term(node, width as nat, old(self).terms@, old(self).consts@)),
            term::twidth(node_term(node, width as nat, old(self).terms@, old(self).consts@)) == width,
            old(self).consts@.len() <= old(self).n() || (node is Const && old(self).consts@.len()
                == old(self).n() + 1),
        ensures
            final(self).wf(),
            final(self).built(old(self)),
            final(self).consts@ == old(self).consts@,
            r matches Ok(x) ==> x < final(self).n() && final(self).terms@[x as int] == node_term(
                node,
                width as nat,
                old(self).terms@,
                old(self).consts@,
            ),
            r is Err ==> final(self).n() == old(self).n(),
            old(self).room(1) ==> r is Ok,
            final(self).n() <= old(self).n() + 1,
    {
        let ghost t = node_term(node, width as nat, self.terms@, self.consts@);
        let (h, lead) = self.digest(&node, width);
        if let Some(i) = self.find(&node, width, h) {
            assert(self.ok_at(i as int));
            return Ok(i);
        }
        if self.nodes.len() >= self.max_nodes as usize {
            return Err(Fail::Full);
        }
        if self.quota == 0 {
            return Err(Fail::Quota);
        }
        let (height, tree) = self.sizes(&node, Ghost(t), width);
        let id: u32 = self.nodes.len() as u32;
        let b = self.bucket(&node, h);
        self.quota = self.quota - 1;
        self.nodes.push(node);
        self.meta.push(Meta { width, height, tree, lead, shash: h });
        self.terms = Ghost(self.terms@.push(t));
        self.table[b].push(id);
        proof {
            assert forall|i: int| 0 <= i < self.n() implies #[trigger] self.ok_at(i) by {
                if i < old(self).n() {
                    assert(old(self).ok_at(i));
                }
            }
            results::lemma_memo_fits_grow(self.memo, old(self).terms@, self.terms@);
        }
        Ok(id)
    }
}

} // verus!
