//! The dispatch net: candidate rules for a node by its operator, prefiltered by the operators
//! of its operands.

use vstd::prelude::*;
use crate::rules::meaning;
use crate::expr;
use crate::expr::{Context, Node};
use crate::ops::{BinOp, CmpOp, UnOp};
use crate::rules::heads;
use crate::rules::heads::closed_at;
use crate::rules::rule::{ParamKind, RNode, Rule};

verus! {

/// The operators there are.
pub const OPERATORS: usize = 35;

/// Every operator.
pub const ANY: u64 = 0xffff_ffff_ffff_ffff;

fn un_index(op: UnOp) -> (r: usize)
    ensures
        r == heads::un_place(op),
        r < OPERATORS,
{
    match op {
        UnOp::Not => 2,
        UnOp::Neg => 3,
        UnOp::Popcnt => 4,
        UnOp::Clz => 5,
        UnOp::Ctz => 6,
        UnOp::Bswap => 7,
        UnOp::BitRev => 8,
    }
}

fn bin_index(op: BinOp) -> (r: usize)
    ensures
        r == heads::bin_place(op),
        r < OPERATORS,
{
    match op {
        BinOp::Add => 9,
        BinOp::Sub => 10,
        BinOp::Mul => 11,
        BinOp::UDiv => 12,
        BinOp::URem => 13,
        BinOp::SDiv => 14,
        BinOp::SRem => 15,
        BinOp::And => 16,
        BinOp::Or => 17,
        BinOp::Xor => 18,
        BinOp::Shl => 19,
        BinOp::LShr => 20,
        BinOp::AShr => 21,
        BinOp::RotL => 22,
        BinOp::RotR => 23,
    }
}

fn rel_index(op: CmpOp) -> (r: usize)
    ensures
        r == heads::rel_place(op),
        r < OPERATORS,
{
    match op {
        CmpOp::Eq => 24,
        CmpOp::Ne => 25,
        CmpOp::Ult => 26,
        CmpOp::Ule => 27,
        CmpOp::Slt => 28,
        CmpOp::Sle => 29,
    }
}

/// The place of a node's operator.
fn index_of(node: &Node) -> (r: usize)
    ensures
        r == heads::node_place(*node),
        r < OPERATORS,
{
    match node {
        Node::Const(_) => 0,
        Node::Sym(_) => 1,
        Node::Un(op, _) => un_index(*op),
        Node::Bin(op, _, _) => bin_index(*op),
        Node::Cmp(op, _, _) => rel_index(*op),
        Node::Zext(_) => 30,
        Node::Sext(_) => 31,
        Node::Extract(..) => 32,
        Node::Concat(..) => 33,
        Node::Select(..) => 34,
    }
}

/// The place of a pattern node's operator, if it is one.
fn pattern_index(node: &RNode) -> (r: Option<usize>)
    ensures
        r matches Some(i) ==> i < OPERATORS && heads::pattern_place(*node) == Some(i as int),
        r is None ==> heads::pattern_place(*node) is None,
{
    match node {
        RNode::Un(op, _) => Some(un_index(*op)),
        RNode::Bin(op, _, _) => Some(bin_index(*op)),
        RNode::Cmp(op, _, _) => Some(rel_index(op.canonical().0)),
        RNode::Zext(_) => Some(30),
        RNode::Sext(_) => Some(31),
        RNode::Extract(..) => Some(32),
        RNode::Concat(..) => Some(33),
        RNode::Select(..) => Some(34),
        _ => None,
    }
}

/// One operator as a set.
fn bit(i: usize) -> (r: u64)
    requires
        i < OPERATORS,
    ensures
        r == 1u64 << (i as u64),
{
    1u64 << (i as u64)
}

/// The set of the operators that pattern node `k` can match.
pub open spec fn mask_of(r: Rule, k: int, m: u64) -> bool {
    forall|o: u64| 0 <= o < OPERATORS ==> (m & (#[trigger] (1u64 << o)) != 0 <==> heads::head(r, k, o as int))
}

proof fn lemma_bits(i: u64, o: u64)
    requires
        i < 64,
        o < 64,
    ensures
        (1u64 << i) & (1u64 << o) != 0 <==> i == o,
        0xffff_ffff_ffff_ffffu64 & (1u64 << o) != 0,
        (0xffff_ffff_ffff_ffffu64 ^ 1) & (1u64 << o) != 0 <==> o != 0,
        0 & (1u64 << o) == 0,
{
    assert((1u64 << i) & (1u64 << o) != 0 <==> i == o) by (bit_vector)
        requires
            i < 64,
            o < 64,
    ;
    assert(0xffff_ffff_ffff_ffffu64 & (1u64 << o) != 0) by (bit_vector)
        requires
            o < 64,
    ;
    assert((0xffff_ffff_ffff_ffffu64 ^ 1) & (1u64 << o) != 0 <==> o != 0) by (bit_vector)
        requires
            o < 64,
    ;
    assert(0 & (1u64 << o) == 0) by (bit_vector);
}

/// The operators a pattern node can match.
fn mask(rule: &Rule, k: u32) -> (r: u64)
    requires
        meaning::rule_ok(*rule),
        k < rule.nodes@.len(),
    ensures
        mask_of(*rule, k as int, r),
{
    let r = if closed_at(rule, k) {
        bit(0)
    } else {
        proof {
            assert(meaning::node_ok(*rule, k as int));
        }
        match &rule.nodes[k as usize] {
            RNode::Param(i) => match rule.params[*i as usize].kind {
                ParamKind::Any => ANY,
                ParamKind::Const => bit(0),
                ParamKind::Sym => bit(1),
                ParamKind::NonConst => ANY ^ 1,
            },
            node => match pattern_index(node) {
                Some(i) => bit(i),
                None => 0,
            },
        }
    };
    proof {
        assert forall|o: u64| 0 <= o < OPERATORS implies (r & (#[trigger] (1u64 << o)) != 0 <==> heads::head(
            *rule,
            k as int,
            o as int,
        )) by {
            lemma_bits(0, o);
            lemma_bits(1, o);
            if let Some(i) = heads::pattern_place(rule.nodes@[k as int]) {
                if 0 <= i < OPERATORS {
                    lemma_bits(i as u64, o);
                }
            }
        }
    }
    r
}

/// A rule where its root's operator is.
#[derive(Debug)]
pub struct Entry {
    /// The rule.
    pub rule: u32,
    /// Allowed operators of each operand of the pattern's root, in stored order.
    pub masks: Vec<u64>,
    /// The operands may appear in either order (commutative root).
    pub either: bool,
}

/// Candidate lists per operator, in priority order.
#[derive(Debug)]
pub struct DispatchNet {
    /// By operator.
    pub by_op: Vec<Vec<Entry>>,
}

/// Every operand's operator is allowed.
pub open spec fn allowed(masks: Seq<u64>, kids: Seq<u64>) -> bool {
    &&& masks.len() <= kids.len()
    &&& forall|k: int|
        #![trigger masks[k]]
        0 <= k < masks.len() ==> masks[k] & kids[k] != 0
}

/// The operands exchanged.
pub open spec fn exchanged(kids: Seq<u64>) -> Seq<u64> {
    if kids.len() >= 2 {
        kids.update(0, kids[1]).update(1, kids[0])
    } else {
        kids
    }
}

/// Whether an entry may match at operands with these operators.
pub open spec fn passes(e: Entry, kids: Seq<u64>) -> bool {
    allowed(e.masks@, kids) || (e.either && allowed(e.masks@, exchanged(kids)))
}

/// Those of the first `n` listed rules that are rooted at `o`, in order.
pub open spec fn rooted_of(rules: Seq<Rule>, order: Seq<u32>, n: int, o: int) -> Seq<u32>
    decreases n,
{
    if n <= 0 {
        seq![]
    } else if heads::rooted(rules[order[n - 1] as int], o) {
        rooted_of(rules, order, n - 1, o).push(order[n - 1])
    } else {
        rooted_of(rules, order, n - 1, o)
    }
}

/// Those of the first `n` listed rules that may match, in order.
pub open spec fn chosen(
    rules: Seq<Rule>,
    order: Seq<u32>,
    n: int,
    o: int,
    ps: Seq<int>,
) -> Seq<u32>
    decreases n,
{
    if n <= 0 {
        seq![]
    } else if heads::may_match(rules[order[n - 1] as int], o, ps) {
        chosen(rules, order, n - 1, o, ps).push(order[n - 1])
    } else {
        chosen(rules, order, n - 1, o, ps)
    }
}

/// The net is a pure prefilter: a listed rule is among the candidates exactly if it may match by
/// operators alone, which is so wherever a match of its pattern is found.
pub proof fn law_dropped_rules_cannot_match(
    rules: Seq<Rule>,
    order: Seq<u32>,
    n: int,
    o: int,
    ps: Seq<int>,
    i: int,
)
    requires
        0 <= i < n <= order.len(),
    ensures
        chosen(rules, order, n, o, ps).contains(order[i]) <==> heads::may_match(
            rules[order[i] as int],
            o,
            ps,
        ),
    decreases n,
{
    let before = chosen(rules, order, n - 1, o, ps);
    let now = chosen(rules, order, n, o, ps);
    let fits = heads::may_match(rules[order[i] as int], o, ps);
    lemma_chosen_fit(rules, order, n, o, ps);
    if now.contains(order[i]) {
        let j = choose|j: int| 0 <= j < now.len() && now[j] == order[i];
        assert(heads::may_match(rules[now[j] as int], o, ps));
    }
    if fits && i < n - 1 {
        law_dropped_rules_cannot_match(rules, order, n - 1, o, ps, i);
        let j = choose|j: int| 0 <= j < before.len() && before[j] == order[i];
        assert(now[j] == order[i]);
    } else if fits {
        assert(now[before.len() as int] == order[i]);
    }
}

proof fn lemma_chosen_fit(rules: Seq<Rule>, order: Seq<u32>, n: int, o: int, ps: Seq<int>)
    ensures
        forall|j: int|
            #![trigger chosen(rules, order, n, o, ps)[j]]
            0 <= j < chosen(rules, order, n, o, ps).len() ==> heads::may_match(
                rules[chosen(rules, order, n, o, ps)[j] as int],
                o,
                ps,
            ),
    decreases n,
{
    if n > 0 {
        lemma_chosen_fit(rules, order, n - 1, o, ps);
        let before = chosen(rules, order, n - 1, o, ps);
        assert forall|j: int|
            #![trigger chosen(rules, order, n, o, ps)[j]]
            0 <= j < chosen(rules, order, n, o, ps).len() implies heads::may_match(
            rules[chosen(rules, order, n, o, ps)[j] as int],
            o,
            ps,
        ) by {
            if j < before.len() {
                assert(chosen(rules, order, n, o, ps)[j] == before[j]);
            }
        }
    }
}

/// The entry holds what the root of the rule's pattern asks of its operands.
pub open spec fn entry_of(e: Entry, r: Rule) -> bool {
    let root = r.nodes@[r.lhs as int];
    &&& e.masks@.len() == heads::operands(root).len()
    &&& forall|j: int|
        #![trigger e.masks@[j]]
        0 <= j < e.masks@.len() ==> mask_of(r, heads::operands(root)[j] as int, e.masks@[j])
    &&& e.either == heads::either_way(root)
}

/// The entries are those of the first `n` listed rules that are rooted at `o`.
pub open spec fn listed(
    es: Seq<Entry>,
    rules: Seq<Rule>,
    order: Seq<u32>,
    n: int,
    o: int,
) -> bool {
    let which = rooted_of(rules, order, n, o);
    &&& es.len() == which.len()
    &&& forall|j: int|
        #![trigger es[j]]
        0 <= j < es.len() ==> es[j].rule == which[j] && entry_of(es[j], rules[es[j].rule as int])
}

/// The net lists `rules[i]` for the `i` of `order`, in that order.
pub open spec fn net_of(net: DispatchNet, rules: Seq<Rule>, order: Seq<u32>) -> bool {
    &&& net.by_op@.len() == OPERATORS
    &&& forall|o: int|
        #![trigger net.by_op@[o]]
        0 <= o < OPERATORS ==> listed(net.by_op@[o]@, rules, order, order.len() as int, o)
}

/// The rules of the first `m` entries that pass, in order.
spec fn passing(es: Seq<Entry>, ops: Seq<u64>, m: int) -> Seq<u32>
    decreases m,
{
    if m <= 0 {
        seq![]
    } else if passes(es[m - 1], ops) {
        passing(es, ops, m - 1).push(es[m - 1].rule)
    } else {
        passing(es, ops, m - 1)
    }
}

/// The operators at `ps`, each as a set.
spec fn sets_of(ops: Seq<u64>, ps: Seq<int>) -> bool {
    &&& ops.len() == ps.len()
    &&& forall|j: int|
        #![trigger ops[j]]
        #![trigger ps[j]]
        0 <= j < ps.len() ==> 0 <= ps[j] < OPERATORS && ops[j] == 1u64 << (ps[j] as u64)
}

proof fn lemma_allowed(r: Rule, ks: Seq<u32>, masks: Seq<u64>, ops: Seq<u64>, ps: Seq<int>)
    requires
        masks.len() == ks.len(),
        forall|j: int|
            #![trigger masks[j]]
            0 <= j < masks.len() ==> mask_of(r, ks[j] as int, masks[j]),
        sets_of(ops, ps),
    ensures
        allowed(masks, ops) == heads::heads(r, ks, ps),
{
    if masks.len() <= ops.len() {
        assert forall|j: int| 0 <= j < masks.len() implies (#[trigger] masks[j] & ops[j] != 0)
            == heads::head(r, ks[j] as int, ps[j]) by {
            let o = ps[j] as u64;
            assert(ops[j] == 1u64 << o);
            assert(mask_of(r, ks[j] as int, masks[j]));
        }
        assert(heads::heads(r, ks, ps) ==> allowed(masks, ops)) by {
            if heads::heads(r, ks, ps) {
                assert forall|j: int| 0 <= j < masks.len() implies #[trigger] masks[j] & ops[j]
                    != 0 by {
                    let _ = ks[j];
                }
            }
        }
        assert(allowed(masks, ops) ==> heads::heads(r, ks, ps)) by {
            if allowed(masks, ops) {
                assert forall|j: int| #![trigger ks[j]] 0 <= j < ks.len() implies heads::head(
                    r,
                    ks[j] as int,
                    ps[j],
                ) by {
                    let _ = masks[j];
                }
            }
        }
    }
}

proof fn lemma_passes(r: Rule, e: Entry, o: int, ops: Seq<u64>, ps: Seq<int>)
    requires
        entry_of(e, r),
        heads::rooted(r, o),
        sets_of(ops, ps),
    ensures
        passes(e, ops) == heads::may_match(r, o, ps),
{
    let root = r.nodes@[r.lhs as int];
    lemma_allowed(r, heads::operands(root), e.masks@, ops, ps);
    assert(sets_of(exchanged(ops), heads::swapped(ps)));
    lemma_allowed(r, heads::operands(root), e.masks@, exchanged(ops), heads::swapped(ps));
}

proof fn lemma_chosen(
    es: Seq<Entry>,
    rules: Seq<Rule>,
    order: Seq<u32>,
    n: int,
    o: int,
    ops: Seq<u64>,
    ps: Seq<int>,
)
    requires
        0 <= n,
        sets_of(ops, ps),
        rooted_of(rules, order, n, o).len() <= es.len(),
        forall|j: int|
            #![trigger es[j]]
            0 <= j < rooted_of(rules, order, n, o).len() ==> es[j].rule == rooted_of(
                rules,
                order,
                n,
                o,
            )[j] && entry_of(es[j], rules[es[j].rule as int]),
    ensures
        passing(es, ops, rooted_of(rules, order, n, o).len() as int) == chosen(
            rules,
            order,
            n,
            o,
            ps,
        ),
    decreases n,
{
    if n > 0 {
        let before = rooted_of(rules, order, n - 1, o);
        let now = rooted_of(rules, order, n, o);
        assert forall|j: int|
            #![trigger es[j]]
            0 <= j < before.len() implies es[j].rule == before[j] && entry_of(
            es[j],
            rules[es[j].rule as int],
        ) by {
            assert(now[j] == before[j]);
        }
        lemma_chosen(es, rules, order, n - 1, o, ops, ps);
        let r = rules[order[n - 1] as int];
        if heads::rooted(r, o) {
            let e = es[before.len() as int];
            assert(e.rule == now[before.len() as int]);
            lemma_passes(r, e, o, ops, ps);
        }
    }
}

impl DispatchNet {
    /// There is a list for every operator, of rules that are there.
    pub open spec fn wf(&self, rules: nat) -> bool {
        &&& self.by_op@.len() == OPERATORS
        &&& forall|o: int, i: int|
            #![trigger self.by_op@[o]@[i]]
            0 <= o < OPERATORS && 0 <= i < self.by_op@[o]@.len() ==> self.by_op@[o]@[i].rule < rules
    }

    /// A net over `rules[i]` for the given indices, in that (priority) order.
    pub(crate) fn new(rules: &Vec<Rule>, order: &Vec<u32>) -> (r: DispatchNet)
        requires
            forall|i: int| 0 <= i < rules@.len() ==> meaning::rule_ok(#[trigger] rules@[i]),
            forall|i: int| 0 <= i < order@.len() ==> #[trigger] order@[i] < rules@.len(),
        ensures
            r.wf(rules@.len()),
            net_of(r, rules@, order@),
    {
        let mut by_op: Vec<Vec<Entry>> = Vec::with_capacity(OPERATORS);
        let mut o: usize = 0;
        while o < OPERATORS
            invariant
                o <= OPERATORS,
                by_op@.len() == o,
                forall|j: int| 0 <= j < o ==> (#[trigger] by_op@[j])@.len() == 0,
            decreases OPERATORS - o,
        {
            by_op.push(Vec::new());
            o = o + 1;
        }
        let mut k: usize = 0;
        while k < order.len()
            invariant
                forall|i: int| 0 <= i < rules@.len() ==> meaning::rule_ok(#[trigger] rules@[i]),
                forall|i: int| 0 <= i < order@.len() ==> #[trigger] order@[i] < rules@.len(),
                k <= order@.len(),
                by_op@.len() == OPERATORS,
                forall|o: int, i: int|
                    #![trigger by_op@[o]@[i]]
                    0 <= o < OPERATORS && 0 <= i < by_op@[o]@.len() ==> by_op@[o]@[i].rule
                        < rules@.len(),
                forall|o: int|
                    #![trigger by_op@[o]]
                    0 <= o < OPERATORS ==> listed(by_op@[o]@, rules@, order@, k as int, o),
            decreases order@.len() - k,
        {
            let ghost before = by_op@;
            let ri = order[k];
            let rule = &rules[ri as usize];
            assert(meaning::rule_ok(rules@[ri as int]));
            proof {
                assert(meaning::node_ok(*rule, rule.lhs as int));
            }
            let root = &rule.nodes[rule.lhs as usize];
            // A pattern rooted at a parameter or constant has nothing to index.
            if let Some(at) = pattern_index(root) {
                if !closed_at(rule, rule.lhs) {
                    let (masks, either) = match root {
                        RNode::Un(_, a) => (vec![mask(rule, *a)], false),
                        RNode::Bin(op, a, b) => (
                            vec![mask(rule, *a), mask(rule, *b)],
                            *op == BinOp::And || *op == BinOp::Or || *op == BinOp::Xor || *op
                                == BinOp::Add || *op == BinOp::Mul,
                        ),
                        RNode::Cmp(op, a, b) => {
                            let (s, swap) = op.canonical();
                            let either = s == CmpOp::Eq || s == CmpOp::Ne;
                            if swap {
                                (vec![mask(rule, *b), mask(rule, *a)], either)
                            } else {
                                (vec![mask(rule, *a), mask(rule, *b)], either)
                            }
                        },
                        RNode::Zext(a) => (vec![mask(rule, *a)], false),
                        RNode::Sext(a) => (vec![mask(rule, *a)], false),
                        RNode::Extract(_, a) => (vec![mask(rule, *a)], false),
                        RNode::Concat(h, l) => (vec![mask(rule, *h), mask(rule, *l)], false),
                        RNode::Select(c, t, f) => (
                            vec![mask(rule, *c), mask(rule, *t), mask(rule, *f)],
                            false,
                        ),
                        _ => (Vec::new(), false),
                    };
                    assert(masks@.len() == heads::operands(*root).len());
                    let e = Entry { rule: ri, masks, either };
                    assert(entry_of(e, rules@[ri as int]));
                    by_op[at].push(e);
                }
            }
            proof {
                assert forall|o: int| #![trigger by_op@[o]] 0 <= o < OPERATORS implies listed(
                    by_op@[o]@,
                    rules@,
                    order@,
                    k + 1,
                    o,
                ) by {
                    assert(listed(before[o]@, rules@, order@, k as int, o));
                    let es = by_op@[o]@;
                    let was = before[o]@;
                    if heads::rooted(*rule, o) {
                        assert forall|j: int| #![trigger es[j]] 0 <= j < es.len() implies es[j].rule
                            == rooted_of(rules@, order@, k + 1, o)[j] && entry_of(
                            es[j],
                            rules@[es[j].rule as int],
                        ) by {
                            if j < was.len() {
                                assert(es[j] == was[j]);
                            }
                        }
                    } else {
                        assert(es == was);
                    }
                }
            }
            k = k + 1;
        }
        DispatchNet { by_op }
    }

    /// The candidate rules for node `n`, in priority order: just those that by operators alone
    /// may match there.
    pub(crate) fn candidates(&self, cx: &Context, n: u32) -> (r: Vec<u32>)
        requires
            cx.wf(),
            n < cx.n(),
            exists|k: nat| self.wf(k),
        ensures
            forall|k: nat| #[trigger]
                self.wf(k) ==> forall|i: int| 0 <= i < r@.len() ==> #[trigger] r@[i] < k,
            forall|rules: Seq<Rule>, order: Seq<u32>| #[trigger]
                net_of(*self, rules, order) ==> r@ == chosen(
                    rules,
                    order,
                    order.len() as int,
                    heads::node_place(cx.nodes@[n as int]),
                    heads::kid_places(cx.nodes@, cx.nodes@[n as int]),
                ),
    {
        let node = cx.node(n);
        proof {
            assert(cx.ok_at(n as int));
        }
        let kids = node.children();
        let ghost ps = heads::kid_places(cx.nodes@, node);
        let mut ops: Vec<u64> = Vec::with_capacity(3);
        let mut i: usize = 0;
        while i < kids.len()
            invariant
                cx.wf(),
                i <= kids@.len(),
                ops@.len() == i,
                forall|j: int|
                    #![trigger ops@[j]]
                    0 <= j < i ==> 0 <= ps[j] < OPERATORS && ops@[j] == 1u64 << (ps[j] as u64),
                kids@ == expr::kids(node),
                ps == heads::kid_places(cx.nodes@, node),
                forall|j: int| 0 <= j < kids@.len() ==> #[trigger] kids@[j] < cx.n(),
            decreases kids@.len() - i,
        {
            let c = kids[i];
            let kid = cx.node(c);
            ops.push(bit(index_of(&kid)));
            i = i + 1;
        }
        let mut turned: Vec<u64> = ops.clone();
        assert(turned@ =~= ops@);
        if turned.len() >= 2 {
            turned.set(0, ops[1]);
            turned.set(1, ops[0]);
        }
        let ghost some = choose|k: nat| self.wf(k);
        let at = index_of(&node);
        let entries = &self.by_op[at];
        let mut r: Vec<u32> = Vec::new();
        i = 0;
        while i < entries.len()
            invariant
                self.wf(some),
                at < OPERATORS,
                *entries == self.by_op@[at as int],
                turned@ == exchanged(ops@),
                r@ == passing(entries@, ops@, i as int),
                i <= entries@.len(),
                forall|k: nat| #[trigger]
                    self.wf(k) ==> forall|j: int| 0 <= j < r@.len() ==> #[trigger] r@[j] < k,
            decreases entries@.len() - i,
        {
            let e = &entries[i];
            if fits(&e.masks, &ops) || (e.either && fits(&e.masks, &turned)) {
                proof {
                    assert(self.by_op@[at as int]@[i as int].rule == e.rule);
                }
                r.push(e.rule);
            }
            i = i + 1;
        }
        proof {
            assert(sets_of(ops@, ps));
            assert forall|rules: Seq<Rule>, order: Seq<u32>| #[trigger]
                net_of(*self, rules, order) implies r@ == chosen(
                rules,
                order,
                order.len() as int,
                at as int,
                ps,
            ) by {
                assert(listed(entries@, rules, order, order.len() as int, at as int));
                lemma_chosen(entries@, rules, order, order.len() as int, at as int, ops@, ps);
            }
        }
        r
    }
}

/// Whether every operand's operator is allowed.
fn fits(masks: &Vec<u64>, kids: &Vec<u64>) -> (b: bool)
    ensures
        b == allowed(masks@, kids@),
{
    if masks.len() > kids.len() {
        return false;
    }
    let mut k: usize = 0;
    while k < masks.len()
        invariant
            masks@.len() <= kids@.len(),
            k <= masks@.len(),
            forall|j: int| #![trigger masks@[j]] 0 <= j < k ==> masks@[j] & kids@[j] != 0,
        decreases masks@.len() - k,
    {
        if masks[k] & kids[k] == 0 {
            return false;
        }
        k = k + 1;
    }
    true
}

} // verus!
