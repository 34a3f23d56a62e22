//! The rules every engine can link: identities that hold at every width, each proved.

use vstd::prelude::*;
use crate::algebra;
use crate::bits;
use crate::engine::builder;
use crate::engine::pass::linear;
use crate::modular;
use crate::ops;
use crate::rules::meaning;
use crate::rules::rule;
use crate::ops::{BinOp, CmpOpExt, UnOp};
use crate::rules::rule::{ConstPred, Group, Param, ParamKind, RNode, Rule, RuleId, RuleKind, RuleProgram, WExpr};

verus! {

/// The width variable itself.
fn whole() -> (r: WExpr)
    ensures
        r.fits(1),
        forall|ws: Seq<u16>| ws.len() == 1 ==> #[trigger] r.at(ws) == ws[0],
{
    let r = WExpr { konst: 0, coefs: vec![1] };
    proof {
        assert forall|ws: Seq<u16>| ws.len() == 1 implies #[trigger] r.at(ws) == ws[0] by {
            reveal_with_fuel(rule::wsum, 2);
            assert(r.coefs@.len() == 1 && r.coefs@[0] == 1);
            assert(1 * ws[0] == ws[0]) by (nonlinear_arith);
        }
    }
    r
}

/// One bit.
fn single() -> (r: WExpr)
    ensures
        r.fits(1),
        forall|ws: Seq<u16>| ws.len() == 1 ==> #[trigger] r.at(ws) == 1,
{
    let r = WExpr { konst: 1, coefs: vec![0] };
    proof {
        assert forall|ws: Seq<u16>| ws.len() == 1 implies #[trigger] r.at(ws) == 1 by {
            reveal_with_fuel(rule::wsum, 2);
            assert(r.coefs@.len() == 1 && r.coefs@[0] == 0);
            assert(0 * ws[0] == 0) by (nonlinear_arith);
        }
    }
    r
}

/// One bit more than the width variable.
fn wider() -> (r: WExpr)
    ensures
        r.fits(1),
        forall|ws: Seq<u16>| ws.len() == 1 ==> #[trigger] r.at(ws) == ws[0] + 1,
{
    let r = WExpr { konst: 1, coefs: vec![1] };
    proof {
        assert forall|ws: Seq<u16>| ws.len() == 1 implies #[trigger] r.at(ws) == ws[0] + 1 by {
            reveal_with_fuel(rule::wsum, 2);
            assert(r.coefs@.len() == 1 && r.coefs@[0] == 1);
            assert(1 * ws[0] == ws[0]) by (nonlinear_arith);
        }
    }
    r
}

/// The width of a node of an identity.
#[derive(Clone, Copy, Debug, PartialEq, Eq, Structural)]
enum Wide {
    /// That of the parameters.
    Whole,
    /// One bit.
    Single,
    /// One bit more than the parameters.
    More,
}

/// The width `k` where the parameters are `w` wide.
spec fn wide(k: Wide, w: int) -> int {
    match k {
        Wide::Whole => w,
        Wide::Single => 1,
        Wide::More => w + 1,
    }
}

/// Nodes over `n` parameters, operands before their users.
spec fn in_order(nodes: Seq<RNode>, n: int) -> bool {
    forall|k: int|
        0 <= k < nodes.len() ==> match #[trigger] nodes[k] {
            RNode::Param(i) => i < n,
            RNode::Lit(_) => true,
            RNode::Ones => true,
            RNode::Un(_, a) => a < k,
            RNode::Bin(_, a, b) => a < k && b < k,
            RNode::Cmp(_, a, b) => a < k && b < k,
            RNode::Zext(a) => a < k,
            RNode::Concat(a, b) => a < k && b < k,
            RNode::ConstP(_, a) => a < k,
            _ => false,
        }
}

/// An identity over `n` parameters of one width; `wides` says how wide its nodes are.
spec fn identity(r: Rule, n: int, nodes: Seq<RNode>, wides: Seq<Wide>, lhs: u32, rhs: u32, guard: Option<u32>) -> bool {
    &&& r.width_vars@.len() == 1
    &&& r.wheres@.len() == 0
    &&& r.params@.len() == n
    &&& r.nodes@ == nodes
    &&& r.widths@.len() == nodes.len()
    &&& r.lhs == lhs
    &&& r.rhs == rhs
    &&& r.guard == guard
    &&& r.lets@.len() == 0
    &&& forall|i: int, ws: Seq<u16>|
        0 <= i < n && ws.len() == 1 ==> #[trigger] r.params@[i].width.at(ws) == ws[0]
    &&& forall|k: int, ws: Seq<u16>|
        0 <= k < nodes.len() && ws.len() == 1 ==> #[trigger] r.widths@[k].at(ws) == wide(
            wides[k],
            ws[0] as int,
        )
}

/// The rule `lhs => rhs` over the parameters `x` and `y`, or `x` alone; under a guard `y` is a
/// constant.
fn identity_rule(
    name: &str,
    number: u64,
    two: bool,
    nodes: Vec<RNode>,
    wides: Vec<Wide>,
    lhs: u32,
    rhs: u32,
    guard: Option<u32>,
) -> (r: Rule)
    requires
        in_order(
            nodes@,
            if two {
                2
            } else {
                1
            },
        ),
        nodes@.len() <= 8,
        wides@.len() == nodes@.len(),
        lhs < nodes@.len(),
        rhs < nodes@.len(),
        guard matches Some(g) ==> g < nodes@.len(),
    ensures
        meaning::rule_ok(r),
        r.name@ == name@,
        identity(
            r,
            if two {
                2
            } else {
                1
            },
            nodes@,
            wides@,
            lhs,
            rhs,
            guard,
        ),
{
    let mut params: Vec<Param> = Vec::new();
    params.push(Param { name: "x".to_string(), width: whole(), kind: ParamKind::Any });
    if two {
        let kind = match guard {
            Some(_) => ParamKind::Const,
            None => ParamKind::Any,
        };
        params.push(Param { name: "y".to_string(), width: whole(), kind });
    }
    let mut widths: Vec<WExpr> = Vec::new();
    let mut k: usize = 0;
    while k < nodes.len()
        invariant
            k <= nodes@.len(),
            wides@.len() == nodes@.len(),
            widths@.len() == k,
            forall|j: int| 0 <= j < k ==> (#[trigger] widths@[j]).fits(1),
            forall|j: int, ws: Seq<u16>|
                0 <= j < k && ws.len() == 1 ==> #[trigger] widths@[j].at(ws) == wide(
                    wides@[j],
                    ws[0] as int,
                ),
        decreases nodes@.len() - k,
    {
        let w = match wides[k] {
            Wide::Whole => whole(),
            Wide::Single => single(),
            Wide::More => wider(),
        };
        widths.push(w);
        k = k + 1;
    }
    let r = Rule {
        name: name.to_string(),
        id: RuleId { hi: 0x636f_7265, lo: number },
        kind: RuleKind::Rewrite,
        width_vars: vec!["W".to_string()],
        wheres: Vec::new(),
        params,
        nodes,
        widths,
        lhs,
        rhs,
        guard,
        lets: Vec::new(),
        decreasing: true,
        float_values: false,
    };
    proof {
        assert forall|j: int| 0 <= j < r.nodes@.len() implies #[trigger] meaning::node_ok(r, j) by {
            let _ = r.nodes@[j];
            let _ = r.widths@[j];
        }
    }
    r
}

/// `op(x, ~x)` is a constant.
fn complement(name: &str, number: u64, op: BinOp) -> (r: Rule)
    requires
        op == BinOp::And || op == BinOp::Or || op == BinOp::Xor,
    ensures
        meaning::rule_ok(r),
        meaning::rule_sound(r),
{
    let v: i64 = if op == BinOp::And {
        0
    } else {
        -1
    };
    let nodes = vec![RNode::Param(0), RNode::Un(UnOp::Not, 0), RNode::Bin(op, 0, 1), RNode::Lit(v)];
    let r = identity_rule(name, number, false, nodes, vec![Wide::Whole; 4], 2, 3, None);
    proof {
        assert forall|ws: Seq<u16>, ps: Seq<Seq<bool>>|
            meaning::typed(r, ws) && meaning::wheres_hold(r, ws) && meaning::params_fit(
                r,
                ws,
                ps,
            ) implies #[trigger] meaning::sides_agree(r, ws, ps) by {
            reveal_with_fuel(meaning::rvalue, 4);
            let x = ps[0];
            let w = x.len();
            let _ = r.params@[0].width.at(ws);
            let _ = r.widths@[3].at(ws);
            algebra::lemma_zero_bits(w);
            algebra::lemma_ones_bits(w);
            assert(ops::bin_value(op, x, ops::un_value(UnOp::Not, x)) =~= bits::bits_of(v as int, w));
        }
    }
    r
}

/// `outer(x, inner(x, y)) => x`.
fn absorbs(name: &str, number: u64, outer: BinOp, inner: BinOp) -> (r: Rule)
    requires
        (outer == BinOp::And && inner == BinOp::Or) || (outer == BinOp::Or && inner == BinOp::And),
    ensures
        meaning::rule_ok(r),
        meaning::rule_sound(r),
{
    let nodes = vec![
        RNode::Param(0),
        RNode::Param(1),
        RNode::Bin(inner, 0, 1),
        RNode::Bin(outer, 0, 2),
    ];
    let r = identity_rule(name, number, true, nodes, vec![Wide::Whole; 4], 3, 0, None);
    proof {
        assert forall|ws: Seq<u16>, ps: Seq<Seq<bool>>|
            meaning::typed(r, ws) && meaning::wheres_hold(r, ws) && meaning::params_fit(
                r,
                ws,
                ps,
            ) implies #[trigger] meaning::sides_agree(r, ws, ps) by {
            reveal_with_fuel(meaning::rvalue, 4);
            let x = ps[0];
            let y = ps[1];
            let _ = r.params@[0].width.at(ws);
            let _ = r.params@[1].width.at(ws);
            assert(ops::bin_value(outer, x, ops::bin_value(inner, x, y)) =~= x);
        }
    }
    r
}

/// `op(x, y) == 0 => x == y`, and the same of `!=`.
fn difference(name: &str, number: u64, op: BinOp, rel: CmpOpExt) -> (r: Rule)
    requires
        op == BinOp::Xor || op == BinOp::Sub,
        rel == CmpOpExt::Eq || rel == CmpOpExt::Ne,
    ensures
        meaning::rule_ok(r),
        meaning::rule_sound(r),
{
    let nodes = vec![
        RNode::Param(0),
        RNode::Param(1),
        RNode::Bin(op, 0, 1),
        RNode::Lit(0),
        RNode::Cmp(rel, 2, 3),
        RNode::Cmp(rel, 0, 1),
    ];
    let wides = vec![
        Wide::Whole,
        Wide::Whole,
        Wide::Whole,
        Wide::Whole,
        Wide::Single,
        Wide::Single,
    ];
    let r = identity_rule(name, number, true, nodes, wides, 4, 5, None);
    proof {
        assert forall|ws: Seq<u16>, ps: Seq<Seq<bool>>|
            meaning::typed(r, ws) && meaning::wheres_hold(r, ws) && meaning::params_fit(
                r,
                ws,
                ps,
            ) implies #[trigger] meaning::sides_agree(r, ws, ps) by {
            reveal_with_fuel(meaning::rvalue, 4);
            let _ = r.params@[0].width.at(ws);
            let _ = r.params@[1].width.at(ws);
            let _ = r.widths@[3].at(ws);
            lemma_difference(op, ps[0], ps[1]);
        }
    }
    r
}

/// A difference is zero where the sides are equal.
proof fn lemma_difference(op: BinOp, x: Seq<bool>, y: Seq<bool>)
    requires
        op == BinOp::Xor || op == BinOp::Sub,
        x.len() == y.len(),
    ensures
        ops::bin_value(op, x, y) == bits::bits_of(0, x.len()) <==> x == y,
{
    let w = x.len();
    let d = ops::bin_value(op, x, y);
    algebra::lemma_zero_bits(w);
    algebra::lemma_self(x);
    if d == bits::zeros(w) {
        if op == BinOp::Xor {
            assert forall|i: int| 0 <= i < w implies x[i] == y[i] by {
                assert(d[i] == (x[i] != y[i]));
                assert(!d[i]);
            }
            assert(x =~= y);
        } else {
            bits::lemma_zeros_nat(w);
            bits::lemma_nat_bits_of(bits::nat_of(x) - bits::nat_of(y), w);
            bits::lemma_nat_bound(x);
            bits::lemma_nat_bound(y);
            let p = vstd::arithmetic::power2::pow2(w) as int;
            let t = bits::nat_of(x) - bits::nat_of(y);
            assert(t % p == 0);
            assert(t == 0) by (nonlinear_arith)
                requires
                    t % p == 0,
                    -p < t < p,
            ;
            bits::lemma_nat_injective(x, y);
        }
    }
}

/// `-(x - y) => y - x`.
fn neg_sub(name: &str, number: u64) -> (r: Rule)
    ensures
        meaning::rule_ok(r),
        meaning::rule_sound(r),
{
    let nodes = vec![
        RNode::Param(0),
        RNode::Param(1),
        RNode::Bin(BinOp::Sub, 0, 1),
        RNode::Un(UnOp::Neg, 2),
        RNode::Bin(BinOp::Sub, 1, 0),
    ];
    let r = identity_rule(name, number, true, nodes, vec![Wide::Whole; 5], 3, 4, None);
    proof {
        assert forall|ws: Seq<u16>, ps: Seq<Seq<bool>>|
            meaning::typed(r, ws) && meaning::wheres_hold(r, ws) && meaning::params_fit(
                r,
                ws,
                ps,
            ) implies #[trigger] meaning::sides_agree(r, ws, ps) by {
            reveal_with_fuel(meaning::rvalue, 4);
            let (x, y) = (ps[0], ps[1]);
            let _ = r.params@[0].width.at(ws);
            let _ = r.params@[1].width.at(ws);
            let w = x.len();
            let d = bits::nat_of(x) - bits::nat_of(y);
            let p = vstd::arithmetic::power2::pow2(w) as int;
            vstd::arithmetic::power2::lemma_pow2_pos(w);
            bits::lemma_nat_bits_of(d, w);
            assert((0 - d % p) % p == (0 - d) % p) by {
                vstd::arithmetic::div_mod::lemma_sub_mod_noop_right(0, d, p);
            }
            bits::lemma_bits_of_congruent(0 - d % p, 0 - d, w);
        }
    }
    r
}

/// `x * y => x << ctz(y)`, for a constant `y` that is a power of two.
fn mul_pow2(name: &str, number: u64) -> (r: Rule)
    ensures
        meaning::rule_ok(r),
        meaning::rule_sound(r),
{
    let nodes = vec![
        RNode::Param(0),
        RNode::Param(1),
        RNode::Bin(BinOp::Mul, 0, 1),
        RNode::Un(UnOp::Ctz, 1),
        RNode::Bin(BinOp::Shl, 0, 3),
        RNode::ConstP(ConstPred::IsPow2, 1),
    ];
    let wides = vec![
        Wide::Whole,
        Wide::Whole,
        Wide::Whole,
        Wide::Whole,
        Wide::Whole,
        Wide::Single,
    ];
    let r = identity_rule(name, number, true, nodes, wides, 2, 4, Some(5));
    proof {
        assert forall|ws: Seq<u16>, ps: Seq<Seq<bool>>|
            meaning::typed(r, ws) && meaning::wheres_hold(r, ws) && meaning::params_fit(
                r,
                ws,
                ps,
            ) implies #[trigger] meaning::sides_agree(r, ws, ps) by {
            reveal_with_fuel(meaning::rvalue, 4);
            let (x, y) = (ps[0], ps[1]);
            let _ = r.params@[0].width.at(ws);
            let _ = r.params@[1].width.at(ws);
            if meaning::guard_true(r, ws, ps) {
                assert(meaning::const_true(ConstPred::IsPow2, y));
                lemma_mul_pow2(x, y);
            }
        }
    }
    r
}

/// A product by a power of two is a shift.
proof fn lemma_mul_pow2(x: Seq<bool>, y: Seq<bool>)
    requires
        x.len() == y.len(),
        meaning::const_true(ConstPred::IsPow2, y),
    ensures
        ops::bin_value(BinOp::Mul, x, y) == ops::bin_value(
            BinOp::Shl,
            x,
            ops::un_value(UnOp::Ctz, y),
        ),
{
    let w = x.len();
    let z = choose|lo: int| meaning::is_run(y, lo, 1);
    lemma_zeros_below(y, z as nat);
    lemma_power(y, z);
    let k = ops::un_value(UnOp::Ctz, y);
    bits::lemma_nat_bits_of(z, w);
    linear::lemma_pow2_big(w);
    vstd::arithmetic::div_mod::lemma_small_mod(z as nat, vstd::arithmetic::power2::pow2(w));
    assert(bits::nat_of(k) == z);
    modular::lemma_eqm_shl(x, z as nat);
    modular::lemma_eqm_ops(x, y);
    modular::lemma_eqm_same(
        ops::bin_value(BinOp::Mul, x, y),
        ops::shl_bits(x, z as nat),
    );
}

/// A value with one bit set is a power of two.
proof fn lemma_power(y: Seq<bool>, z: int)
    requires
        meaning::is_run(y, z, 1),
    ensures
        bits::nat_of(y) == vstd::arithmetic::power2::pow2(z as nat),
    decreases y.len(),
{
    let d = y.drop_last();
    assert forall|i: int| 0 <= i < d.len() implies #[trigger] d[i] == (z <= i < z + 1) by {
        assert(d[i] == y[i]);
    }
    let _ = y[y.len() - 1];
    if z == y.len() - 1 {
        assert(d =~= bits::zeros(d.len()));
        bits::lemma_zeros_nat(d.len());
    } else {
        lemma_power(d, z);
    }
}

/// The zeros below the lowest set bit.
proof fn lemma_zeros_below(y: Seq<bool>, z: nat)
    requires
        z < y.len(),
        y[z as int],
        forall|i: int| 0 <= i < z ==> !#[trigger] y[i],
    ensures
        ops::trailing_zeros(y) == z,
    decreases z,
{
    if z > 0 {
        let t = y.skip(1);
        assert forall|i: int| 0 <= i < z - 1 implies !#[trigger] t[i] by {
            assert(t[i] == y[i + 1]);
        }
        lemma_zeros_below(t, (z - 1) as nat);
        let _ = y[0];
    }
}

/// `(x & y) + (x | y) => x + y`.
fn and_or_sum(name: &str, number: u64) -> (r: Rule)
    ensures
        meaning::rule_ok(r),
        meaning::rule_sound(r),
{
    let nodes = vec![
        RNode::Param(0),
        RNode::Param(1),
        RNode::Bin(BinOp::And, 0, 1),
        RNode::Bin(BinOp::Or, 0, 1),
        RNode::Bin(BinOp::Add, 2, 3),
        RNode::Bin(BinOp::Add, 0, 1),
    ];
    let r = identity_rule(name, number, true, nodes, vec![Wide::Whole; 6], 4, 5, None);
    proof {
        assert forall|ws: Seq<u16>, ps: Seq<Seq<bool>>|
            meaning::typed(r, ws) && meaning::wheres_hold(r, ws) && meaning::params_fit(
                r,
                ws,
                ps,
            ) implies #[trigger] meaning::sides_agree(r, ws, ps) by {
            reveal_with_fuel(meaning::rvalue, 4);
            let (x, y) = (ps[0], ps[1]);
            let _ = r.params@[0].width.at(ws);
            let _ = r.params@[1].width.at(ws);
            lemma_and_or(x, y);
        }
    }
    r
}

/// What both have and what either has, together, is the two together.
proof fn lemma_and_or(x: Seq<bool>, y: Seq<bool>)
    requires
        x.len() == y.len(),
    ensures
        bits::nat_of(ops::and_bits(x, y)) + bits::nat_of(ops::or_bits(x, y)) == bits::nat_of(x)
            + bits::nat_of(y),
    decreases x.len(),
{
    if x.len() > 0 {
        let (a, b) = (x.drop_last(), y.drop_last());
        lemma_and_or(a, b);
        assert(ops::and_bits(x, y).drop_last() =~= ops::and_bits(a, b));
        assert(ops::or_bits(x, y).drop_last() =~= ops::or_bits(a, b));
    }
}

/// `ones >>s y => ones`.
fn ashr_ones(name: &str, number: u64) -> (r: Rule)
    ensures
        meaning::rule_ok(r),
        meaning::rule_sound(r),
{
    let nodes = vec![RNode::Param(0), RNode::Ones, RNode::Bin(BinOp::AShr, 1, 0)];
    let r = identity_rule(name, number, false, nodes, vec![Wide::Whole; 3], 2, 1, None);
    proof {
        assert forall|ws: Seq<u16>, ps: Seq<Seq<bool>>|
            meaning::typed(r, ws) && meaning::wheres_hold(r, ws) && meaning::params_fit(
                r,
                ws,
                ps,
            ) implies #[trigger] meaning::sides_agree(r, ws, ps) by {
            reveal_with_fuel(meaning::rvalue, 3);
            let w = r.widths@[1].at(ws) as nat;
            assert(meaning::typed_at(r, 1, ws));
            let o = bits::ones(w);
            assert(ops::bin_value(BinOp::AShr, o, ps[0]) =~= o);
        }
    }
    r
}

/// `concat(0, x) => zext(x)`, for a zero of one bit.
fn zero_above(name: &str, number: u64) -> (r: Rule)
    ensures
        meaning::rule_ok(r),
        meaning::rule_sound(r),
{
    let nodes = vec![RNode::Param(0), RNode::Lit(0), RNode::Concat(1, 0), RNode::Zext(0)];
    let wides = vec![Wide::Whole, Wide::Single, Wide::More, Wide::More];
    let r = identity_rule(name, number, false, nodes, wides, 2, 3, None);
    proof {
        assert forall|ws: Seq<u16>, ps: Seq<Seq<bool>>|
            meaning::typed(r, ws) && meaning::wheres_hold(r, ws) && meaning::params_fit(
                r,
                ws,
                ps,
            ) implies #[trigger] meaning::sides_agree(r, ws, ps) by {
            reveal_with_fuel(meaning::rvalue, 3);
            let x = ps[0];
            let _ = r.params@[0].width.at(ws);
            let _ = r.widths@[1].at(ws);
            let _ = r.widths@[3].at(ws);
            algebra::lemma_zero_bits(1);
            assert(x + bits::zeros(1) =~= ops::zext_bits(x, x.len() + 1));
        }
    }
    r
}

/// The names of the groups.
pub fn group_names() -> (r: Vec<String>)
    ensures
        is_core(r@),
{
    vec![
        "core.bitwise".to_string(),
        "core.arith".to_string(),
        "core.compare".to_string(),
        "core.casts".to_string(),
        "core.shift".to_string(),
    ]
}

/// The names are those of the groups.
pub open spec fn is_core(names: Seq<String>) -> bool {
    &&& names.len() == 5
    &&& names[0]@ == "core.bitwise"@
    &&& names[1]@ == "core.arith"@
    &&& names[2]@ == "core.compare"@
    &&& names[3]@ == "core.casts"@
    &&& names[4]@ == "core.shift"@
}

/// The names of the groups are told apart by one letter.
pub proof fn lemma_core_names()
    ensures
        "core.bitwise"@[6] == 'i',
        "core.arith"@[6] == 'r',
        "core.compare"@[6] == 'o',
        "core.casts"@[6] == 'a',
        "core.shift"@[6] == 'h',
{
    reveal_strlit("core.bitwise");
    reveal_strlit("core.arith");
    reveal_strlit("core.compare");
    reveal_strlit("core.casts");
    reveal_strlit("core.shift");
}

/// The groups are those of the built-in rules.
pub open spec fn core_groups(gs: Seq<Group>) -> bool {
    &&& gs.len() == 5
    &&& gs[0].name@ == "core.bitwise"@
    &&& gs[1].name@ == "core.arith"@
    &&& gs[2].name@ == "core.compare"@
    &&& gs[3].name@ == "core.casts"@
    &&& gs[4].name@ == "core.shift"@
}

/// How many built-in rules there are.
pub const CORE_RULES: usize = 14;

/// The built-in rules and their groups.
pub fn builtin_program() -> (r: RuleProgram)
    ensures
        builder::program_ok(r),
        r.rules@.len() == CORE_RULES,
        core_groups(r.groups@),
        forall|i: int| 0 <= i < r.rules@.len() ==> meaning::rule_sound(#[trigger] r.rules@[i]),
{
    let rules = vec![
        absorbs("core.bitwise::and_absorbs", 1, BinOp::And, BinOp::Or),
        absorbs("core.bitwise::or_absorbs", 2, BinOp::Or, BinOp::And),
        complement("core.bitwise::and_complement", 3, BinOp::And),
        complement("core.bitwise::or_complement", 4, BinOp::Or),
        complement("core.bitwise::xor_complement", 5, BinOp::Xor),
        neg_sub("core.arith::neg_sub", 6),
        mul_pow2("core.arith::mul_pow2", 13),
        and_or_sum("core.arith::and_or_sum", 14),
        difference("core.compare::xor_is_zero", 7, BinOp::Xor, CmpOpExt::Eq),
        difference("core.compare::xor_is_not_zero", 8, BinOp::Xor, CmpOpExt::Ne),
        difference("core.compare::sub_is_zero", 9, BinOp::Sub, CmpOpExt::Eq),
        difference("core.compare::sub_is_not_zero", 10, BinOp::Sub, CmpOpExt::Ne),
        zero_above("core.casts::zero_above", 11),
        ashr_ones("core.shift::ashr_ones", 12),
    ];
    let groups = vec![
        Group { name: "core.bitwise".to_string(), rules: vec![0, 1, 2, 3, 4] },
        Group { name: "core.arith".to_string(), rules: vec![5, 6, 7] },
        Group { name: "core.compare".to_string(), rules: vec![8, 9, 10, 11] },
        Group { name: "core.casts".to_string(), rules: vec![12] },
        Group { name: "core.shift".to_string(), rules: vec![13] },
    ];
    RuleProgram { rules, groups }
}

} // verus!
