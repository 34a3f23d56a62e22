//! Which operators a pattern can match, at its root and at the root's operands.

use vstd::prelude::*;
use crate::expr;
use crate::expr::Node;
use crate::ops::{BinOp, CmpOp, UnOp};
use crate::rules::matcher;
use crate::rules::meaning;
use crate::rules::rule::{ParamKind, RNode, Rule};

verus! {

/// The place of a unary operator.
pub open spec fn un_place(op: UnOp) -> int {
    match op {
        UnOp::Not => 2,
        UnOp::Neg => 3,
        UnOp::Popcnt => 4,
        UnOp::Clz => 5,
        UnOp::Ctz => 6,
        UnOp::Bswap => 7,
        UnOp::BitRev => 8,
    }
}

/// The place of a binary operator.
pub open spec fn bin_place(op: BinOp) -> int {
    match op {
        BinOp::Add => 9,
        BinOp::Sub => 10,
        BinOp::Mul => 11,
        BinOp::UDiv => 12,
        BinOp::URem => 13,
        BinOp::SDiv => 14,
        BinOp::SRem => 15,
        BinOp::And => 16,
        BinOp::Or => 17,
        BinOp::Xor => 18,
        BinOp::Shl => 19,
        BinOp::LShr => 20,
        BinOp::AShr => 21,
        BinOp::RotL => 22,
        BinOp::RotR => 23,
    }
}

/// The place of a comparison.
pub open spec fn rel_place(op: CmpOp) -> int {
    match op {
        CmpOp::Eq => 24,
        CmpOp::Ne => 25,
        CmpOp::Ult => 26,
        CmpOp::Ule => 27,
        CmpOp::Slt => 28,
        CmpOp::Sle => 29,
    }
}

/// The place of a node's operator.
pub open spec fn node_place(node: Node) -> int {
    match node {
        Node::Const(_) => 0,
        Node::Sym(_) => 1,
        Node::Un(op, _) => un_place(op),
        Node::Bin(op, _, _) => bin_place(op),
        Node::Cmp(op, _, _) => rel_place(op),
        Node::Zext(_) => 30,
        Node::Sext(_) => 31,
        Node::Extract(_, _) => 32,
        Node::Concat(_, _) => 33,
        Node::Select(_, _, _) => 34,
    }
}

/// The place of a pattern node's operator, if it is one.
pub open spec fn pattern_place(node: RNode) -> Option<int> {
    match node {
        RNode::Un(op, _) => Some(un_place(op)),
        RNode::Bin(op, _, _) => Some(bin_place(op)),
        RNode::Cmp(op, _, _) => Some(rel_place(op.stored().0)),
        RNode::Zext(_) => Some(30),
        RNode::Sext(_) => Some(31),
        RNode::Extract(_, _) => Some(32),
        RNode::Concat(_, _) => Some(33),
        RNode::Select(_, _, _) => Some(34),
        _ => None,
    }
}

/// No parameter occurs in pattern node `k`.
pub open spec fn closed(r: Rule, k: int) -> bool
    decreases k,
{
    if k < 0 {
        false
    } else {
        match r.nodes@[k] {
            RNode::Lit(_) | RNode::Ones | RNode::LowMask(_) | RNode::WidthVal(_) => true,
            RNode::Un(_, a) => a < k && closed(r, a as int),
            RNode::Bin(_, a, b) => a < k && b < k && closed(r, a as int) && closed(r, b as int),
            RNode::Cmp(_, a, b) => a < k && b < k && closed(r, a as int) && closed(r, b as int),
            RNode::Zext(a) => a < k && closed(r, a as int),
            RNode::Sext(a) => a < k && closed(r, a as int),
            RNode::Extract(_, a) => a < k && closed(r, a as int),
            RNode::Concat(h, l) => h < k && l < k && closed(r, h as int) && closed(r, l as int),
            RNode::Select(c, t, f) => c < k && t < k && f < k && closed(r, c as int) && closed(
                r,
                t as int,
            ) && closed(r, f as int),
            _ => false,
        }
    }
}

/// Whether no parameter occurs in pattern node `k`.
pub(crate) fn closed_at(rule: &Rule, k: u32) -> (b: bool)
    requires
        meaning::rule_ok(*rule),
        k < rule.nodes@.len(),
    ensures
        b == closed(*rule, k as int),
    decreases k,
{
    proof {
        assert(meaning::node_ok(*rule, k as int));
    }
    match &rule.nodes[k as usize] {
        RNode::Param(_) => false,
        RNode::Lit(_) | RNode::Ones | RNode::LowMask(_) | RNode::WidthVal(_) => true,
        RNode::Un(_, a) => closed_at(rule, *a),
        RNode::Bin(_, a, b) => closed_at(rule, *a) && closed_at(rule, *b),
        RNode::Cmp(_, a, b) => closed_at(rule, *a) && closed_at(rule, *b),
        RNode::Zext(a) => closed_at(rule, *a),
        RNode::Sext(a) => closed_at(rule, *a),
        RNode::Extract(_, a) => closed_at(rule, *a),
        RNode::Concat(h, l) => closed_at(rule, *h) && closed_at(rule, *l),
        RNode::Select(c, t, f) => closed_at(rule, *c) && closed_at(rule, *t) && closed_at(
            rule,
            *f,
        ),
        _ => false,
    }
}

/// A parameter of this kind can stand for a node with the operator at place `o`.
pub open spec fn kind_fits(kind: ParamKind, o: int) -> bool {
    match kind {
        ParamKind::Any => true,
        ParamKind::Const => o == 0,
        ParamKind::Sym => o == 1,
        ParamKind::NonConst => o != 0,
    }
}

/// Pattern node `k` can match a node with the operator at place `o`: a constant where no
/// parameter occurs, what a parameter stands for, or the same operator.
pub open spec fn head(r: Rule, k: int, o: int) -> bool {
    if closed(r, k) {
        o == 0
    } else {
        match r.nodes@[k] {
            RNode::Param(i) => kind_fits(r.params@[i as int].kind, o),
            n => pattern_place(n) == Some(o),
        }
    }
}

/// The operands of a pattern node, in the order in which a node stores them.
pub open spec fn operands(node: RNode) -> Seq<u32> {
    match node {
        RNode::Un(_, a) => seq![a],
        RNode::Bin(_, a, b) => seq![a, b],
        RNode::Cmp(op, a, b) => if op.stored().1 {
            seq![b, a]
        } else {
            seq![a, b]
        },
        RNode::Zext(a) => seq![a],
        RNode::Sext(a) => seq![a],
        RNode::Extract(_, a) => seq![a],
        RNode::Concat(h, l) => seq![h, l],
        RNode::Select(c, t, f) => seq![c, t, f],
        _ => seq![],
    }
}

/// The operands of a pattern node match in either order.
pub open spec fn either_way(node: RNode) -> bool {
    match node {
        RNode::Bin(op, _, _) => matcher::commutes(op),
        RNode::Cmp(op, _, _) => op.stored().0 == CmpOp::Eq || op.stored().0 == CmpOp::Ne,
        _ => false,
    }
}

/// The places of the operators of a node's operands.
pub open spec fn kid_places(nodes: Seq<Node>, node: Node) -> Seq<int> {
    Seq::new(expr::kids(node).len(), |j: int| node_place(nodes[expr::kids(node)[j] as int]))
}

/// The first two places exchanged.
pub open spec fn swapped(ps: Seq<int>) -> Seq<int> {
    if ps.len() >= 2 {
        ps.update(0, ps[1]).update(1, ps[0])
    } else {
        ps
    }
}

/// Each of the pattern nodes `ks` can match the operator in its place.
pub open spec fn heads(r: Rule, ks: Seq<u32>, ps: Seq<int>) -> bool {
    &&& ks.len() <= ps.len()
    &&& forall|j: int|
        #![trigger ks[j]]
        0 <= j < ks.len() ==> head(r, ks[j] as int, ps[j])
}

/// The rule's pattern is rooted at an operator, and a parameter occurs in it.
pub open spec fn operator_rooted(r: Rule) -> bool {
    pattern_place(r.nodes@[r.lhs as int]) is Some && !closed(r, r.lhs as int)
}

/// The rule's pattern is rooted at the operator in place `o`.
pub open spec fn rooted(r: Rule, o: int) -> bool {
    pattern_place(r.nodes@[r.lhs as int]) == Some(o) && !closed(r, r.lhs as int)
}

/// By operators alone, the rule's pattern can match a node with the operator in place `o` and
/// operands with those in places `ps`.
pub open spec fn may_match(r: Rule, o: int, ps: Seq<int>) -> bool {
    let root = r.nodes@[r.lhs as int];
    rooted(r, o) && (heads(r, operands(root), ps) || (either_way(root) && heads(
        r,
        operands(root),
        swapped(ps),
    )))
}

} // verus!
