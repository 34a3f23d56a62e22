//! Rules as data.

use vstd::prelude::*;
use crate::bitvec::MAX_WIDTH;
use crate::ops::{BinOp, CmpOpExt, UnOp};

verus! {

/// An index into a rule's nodes.
pub type NodeId = u32;

/// A width: a constant plus multiples of the width variables.
#[derive(Debug)]
pub struct WExpr {
    /// The constant.
    pub konst: i64,
    /// The multiple of each width variable.
    pub coefs: Vec<i64>,
}

/// The sum of `coefs[i] * ws[i]` for `i` below `n`.
pub open spec fn wsum(coefs: Seq<i64>, ws: Seq<u16>, n: int) -> int
    decreases n,
{
    if n <= 0 {
        0
    } else {
        wsum(coefs, ws, n - 1) + coefs[n - 1] * ws[n - 1]
    }
}

/// The largest coefficient or constant of a width.
pub const MAX_COEF: i64 = 0x10_0000;

/// The most width variables of a rule.
pub const MAX_VARS: usize = 8;

impl WExpr {
    /// The coefficients are small, and there is one for each of `n` variables.
    pub open spec fn fits(&self, n: nat) -> bool {
        &&& self.coefs@.len() == n
        &&& n <= MAX_VARS
        &&& -MAX_COEF <= self.konst <= MAX_COEF
        &&& forall|i: int| 0 <= i < n ==> -MAX_COEF <= #[trigger] self.coefs@[i] <= MAX_COEF
    }

    /// Its value at widths `ws`.
    pub open spec fn at(&self, ws: Seq<u16>) -> int {
        self.konst + wsum(self.coefs@, ws, self.coefs@.len() as int)
    }

    /// Its value at widths `ws`.
    pub fn eval(&self, ws: &Vec<u16>) -> (r: i64)
        requires
            self.fits(ws@.len()),
        ensures
            r == self.at(ws@),
    {
        let mut acc: i64 = self.konst;
        let mut i: usize = 0;
        while i < self.coefs.len()
            invariant
                i <= self.coefs.len(),
                self.fits(ws@.len()),
                acc == self.konst + wsum(self.coefs@, ws@, i as int),
                -(i + 1) * 0x10_0000 * 0x1_0000 <= acc <= (i + 1) * 0x10_0000 * 0x1_0000,
            decreases self.coefs.len() - i,
        {
            let c: i64 = self.coefs[i];
            let w: i64 = ws[i] as i64;
            assert(-0x10_0000 * 0x1_0000 <= c * w <= 0x10_0000 * 0x1_0000) by (nonlinear_arith)
                requires
                    -0x10_0000 <= c <= 0x10_0000,
                    0 <= w < 0x1_0000,
            ;
            acc = acc + c * w;
            i = i + 1;
        }
        acc
    }

    /// Its value at widths `ws`, if that is a width.
    pub fn width(&self, ws: &Vec<u16>) -> (r: Option<u16>)
        requires
            self.fits(ws@.len()),
        ensures
            r == (if 1 <= self.at(ws@) <= MAX_WIDTH {
                Some(self.at(ws@) as u16)
            } else {
                None
            }),
    {
        let v = self.eval(ws);
        if 1 <= v && v <= MAX_WIDTH as i64 {
            Some(v as u16)
        } else {
            None
        }
    }
}

/// How two widths of a `where` clause compare.
#[derive(Clone, Copy, Debug, PartialEq, Eq, Hash, Structural)]
pub enum WRel {
    /// Less.
    Lt,
    /// At most.
    Le,
    /// Equal.
    Eq,
}

/// A `where` constraint.
#[derive(Debug)]
pub struct Where {
    /// The left side.
    pub left: WExpr,
    /// How it compares.
    pub rel: WRel,
    /// The right side.
    pub right: WExpr,
}

/// What a parameter stands for.
#[derive(Clone, Copy, Debug, PartialEq, Eq, Hash, Structural)]
pub enum ParamKind {
    /// Any expression.
    Any,
    /// A constant.
    Const,
    /// A symbol.
    Sym,
    /// Anything but a constant.
    NonConst,
}

/// A parameter.
#[derive(Debug)]
pub struct Param {
    /// Its name.
    pub name: String,
    /// Its width.
    pub width: WExpr,
    /// What it stands for.
    pub kind: ParamKind,
}

/// A predicate about facts: monotone in how much is known.
#[derive(Clone, Copy, Debug, PartialEq, Eq, Hash, Structural)]
pub enum FactPred {
    /// A comparison is proved.
    Proves,
    /// The bits of a mask are clear.
    ZeroBits,
    /// The bits of a mask are set.
    OneBits,
    /// The value is not zero.
    NonZero,
    /// No bit is set in both.
    Disjoint,
}

/// A predicate about a constant.
#[derive(Clone, Copy, Debug, PartialEq, Eq, Hash, Structural)]
pub enum ConstPred {
    /// One bit set.
    IsPow2,
    /// Low bits set, at least one.
    IsLowMask,
    /// A run of set bits.
    IsShiftedMask,
}

/// A node of a pattern, a guard or a template.
#[derive(Debug)]
pub enum RNode {
    /// A parameter.
    Param(u16),
    /// A number, at the node's width.
    Lit(i64),
    /// All ones, at the node's width.
    Ones,
    /// The low bits set, as many as the width says.
    LowMask(WExpr),
    /// A width as a number.
    WidthVal(WExpr),
    /// A `let`.
    Let(u16),
    /// A unary operator.
    Un(UnOp, NodeId),
    /// A binary operator.
    Bin(BinOp, NodeId, NodeId),
    /// A comparison.
    Cmp(CmpOpExt, NodeId, NodeId),
    /// Zero extension to the node's width.
    Zext(NodeId),
    /// Sign extension to the node's width.
    Sext(NodeId),
    /// Bits from an offset, as many as the node's width.
    Extract(WExpr, NodeId),
    /// High part, low part.
    Concat(NodeId, NodeId),
    /// Condition, then, else.
    Select(NodeId, NodeId, NodeId),
    /// A truth value (guards).
    Bool(bool),
    /// Both hold (guards).
    And(NodeId, NodeId),
    /// Either holds (guards).
    Or(NodeId, NodeId),
    /// A fact (guards).
    Fact(FactPred, NodeId, Option<NodeId>),
    /// A predicate on a constant (guards).
    ConstP(ConstPred, NodeId),
}

/// A rule's content hash.
#[derive(Clone, Copy, Debug, PartialEq, Eq, Hash, Structural)]
pub struct RuleId {
    /// The first half.
    pub hi: u64,
    /// The second half.
    pub lo: u64,
}

/// Rewrite or identity.
#[derive(Clone, Copy, Debug, PartialEq, Eq, Hash, Structural)]
pub enum RuleKind {
    /// Left to right.
    Rewrite,
    /// Both ways.
    Identity,
}

/// A rule.
#[derive(Debug)]
pub struct Rule {
    /// `group::rule`.
    pub name: String,
    /// The content hash.
    pub id: RuleId,
    /// Rewrite or identity.
    pub kind: RuleKind,
    /// The names of the width variables.
    pub width_vars: Vec<String>,
    /// The constraints on the widths.
    pub wheres: Vec<Where>,
    /// The parameters.
    pub params: Vec<Param>,
    /// The nodes: operands before their users.
    pub nodes: Vec<RNode>,
    /// The width of each node (1 for what is a truth value).
    pub widths: Vec<WExpr>,
    /// The pattern.
    pub lhs: NodeId,
    /// The template.
    pub rhs: NodeId,
    /// The guard.
    pub guard: Option<NodeId>,
    /// The `let`s, in order: each a node.
    pub lets: Vec<NodeId>,
    /// Whether the template is smaller than the pattern in the termination order.
    pub decreasing: bool,
    /// Whether the rule holds for floats as values only.
    pub float_values: bool,
}

/// A named list of rules of a program.
#[derive(Debug)]
pub struct Group {
    /// Its name.
    pub name: String,
    /// Its rules, by index.
    pub rules: Vec<u32>,
}

/// Rules and their groups.
#[derive(Debug)]
pub struct RuleProgram {
    /// The rules.
    pub rules: Vec<Rule>,
    /// The groups.
    pub groups: Vec<Group>,
}

/// A rule that was checked, in a [`Ledger`].
#[derive(Debug)]
pub struct LedgerEntry {
    /// The rule's name.
    pub name: String,
    /// Its content hash.
    pub id: RuleId,
    /// Rewrite or identity.
    pub kind: RuleKind,
    /// What its check established, as text.
    pub evidence: String,
}

/// The rules that passed a check.
#[derive(Debug)]
pub struct Ledger {
    /// One per rule, by name.
    pub entries: Vec<LedgerEntry>,
}

impl Ledger {
    /// The ledger vouches for the rule of that name and content.
    pub open spec fn vouches(&self, name: Seq<char>, id: RuleId) -> bool {
        exists|i: int|
            #![trigger self.entries@[i]]
            0 <= i < self.entries@.len() && self.entries@[i].name@ == name && self.entries@[i].id
                == id
    }

    /// Whether the ledger vouches for the rule of that name and content.
    pub fn vouches_for(&self, name: &String, id: RuleId) -> (r: bool)
        ensures
            r == self.vouches(name@, id),
    {
        let mut i: usize = 0;
        while i < self.entries.len()
            invariant
                i <= self.entries.len(),
                forall|j: int|
                    #![trigger self.entries@[j]]
                    0 <= j < i ==> !(self.entries@[j].name@ == name@ && self.entries@[j].id == id),
            decreases self.entries.len() - i,
        {
            if self.entries[i].name == *name && self.entries[i].id == id {
                return true;
            }
            i = i + 1;
        }
        false
    }
}

} // verus!
