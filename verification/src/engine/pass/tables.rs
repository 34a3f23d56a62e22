//! Truth tables of three variables, and a smallest expression for each.

use vstd::prelude::*;
use crate::ops::BinOp;

verus! {

/// Entry `i` of a truth table.
pub open spec fn bit8(t: u8, i: u8) -> bool {
    (t >> i) & 1 == 1
}

/// Variable `k` in combination `i`: bit `k` of `i`.
pub open spec fn ibit(i: u8, k: u8) -> bool {
    if k == 0 {
        i % 2 == 1
    } else if k == 1 {
        (i / 2) % 2 == 1
    } else {
        (i / 4) % 2 == 1
    }
}

/// The combination of three values.
pub open spec fn comb(a: bool, b: bool, c: bool) -> u8 {
    ((if a {
        1int
    } else {
        0int
    }) + (if b {
        2int
    } else {
        0int
    }) + (if c {
        4int
    } else {
        0int
    })) as u8
}

pub proof fn lemma_comb(a: bool, b: bool, c: bool)
    ensures
        comb(a, b, c) < 8,
        ibit(comb(a, b, c), 0) == a,
        ibit(comb(a, b, c), 1) == b,
        ibit(comb(a, b, c), 2) == c,
{
}

pub proof fn lemma_bit8_ops(f: u8, g: u8, i: u8)
    requires
        i < 8,
    ensures
        bit8(!f, i) == !bit8(f, i),
        bit8(f & g, i) == (bit8(f, i) && bit8(g, i)),
        bit8(f | g, i) == (bit8(f, i) || bit8(g, i)),
        bit8(f ^ g, i) == (bit8(f, i) != bit8(g, i)),
{
    assert((!f >> i) & 1 == 1 <==> !((f >> i) & 1 == 1)) by (bit_vector)
        requires
            i < 8,
    ;
    assert(((f & g) >> i) & 1 == 1 <==> ((f >> i) & 1 == 1 && (g >> i) & 1 == 1)) by (bit_vector);
    assert(((f | g) >> i) & 1 == 1 <==> ((f >> i) & 1 == 1 || (g >> i) & 1 == 1)) by (bit_vector);
    assert(((f ^ g) >> i) & 1 == 1 <==> (((f >> i) & 1 == 1) != ((g >> i) & 1 == 1))) by (bit_vector);
}

pub proof fn lemma_bit8_set(t: u8, i: u8, j: u8)
    requires
        i < 8,
        j < 8,
    ensures
        bit8(t | (1u8 << i), j) == (j == i || bit8(t, j)),
        !bit8(0, j),
        bit8(0xFF, j),
{
    assert(((t | (1u8 << i)) >> j) & 1 == 1 <==> (j == i || (t >> j) & 1 == 1)) by (bit_vector)
        requires
            i < 8,
            j < 8,
    ;
    assert((0u8 >> j) & 1 != 1) by (bit_vector);
    assert((0xFFu8 >> j) & 1 == 1) by (bit_vector)
        requires
            j < 8,
    ;
}

/// The truth table of variable `k`.
pub open spec fn var_table(k: u8) -> u8 {
    if k == 0 {
        0xAA
    } else if k == 1 {
        0xCC
    } else {
        0xF0
    }
}

pub proof fn lemma_var_table(k: u8, i: u8)
    requires
        k < 3,
        i < 8,
    ensures
        bit8(var_table(k), i) == ibit(i, k),
{
    assert((0xAAu8 >> i) & 1 == 1 <==> i % 2 == 1) by (bit_vector)
        requires
            i < 8,
    ;
    assert((0xCCu8 >> i) & 1 == 1 <==> (i / 2) % 2 == 1) by (bit_vector)
        requires
            i < 8,
    ;
    assert((0xF0u8 >> i) & 1 == 1 <==> (i / 4) % 2 == 1) by (bit_vector)
        requires
            i < 8,
    ;
}

/// A bitwise expression of three variables.
pub enum Bx {
    /// A variable.
    Var(u8),
    /// No bits.
    Zero,
    /// All bits.
    Ones,
    /// Complement.
    Not(Box<Bx>),
    /// And, or, xor.
    Bin(BinOp, Box<Bx>, Box<Bx>),
}

/// And, or or xor of two bits.
pub open spec fn bop(op: BinOp, x: bool, y: bool) -> bool {
    match op {
        BinOp::And => x && y,
        BinOp::Or => x || y,
        _ => x != y,
    }
}

/// Whether the operator is and, or or xor.
pub open spec fn is_bop(op: BinOp) -> bool {
    op == BinOp::And || op == BinOp::Or || op == BinOp::Xor
}

/// The truth table of an expression.
pub open spec fn table_of(e: Bx) -> u8
    decreases e,
{
    match e {
        Bx::Var(k) => var_table(k),
        Bx::Zero => 0,
        Bx::Ones => 0xFF,
        Bx::Not(a) => !table_of(*a),
        Bx::Bin(op, a, b) => table_bin(op, table_of(*a), table_of(*b)),
    }
}

/// And, or or xor of two tables.
pub open spec fn table_bin(op: BinOp, x: u8, y: u8) -> u8 {
    match op {
        BinOp::And => x & y,
        BinOp::Or => x | y,
        _ => x ^ y,
    }
}

/// The operators of an expression.
pub open spec fn size_of(e: Bx) -> nat
    decreases e,
{
    match e {
        Bx::Not(a) => 1 + size_of(*a),
        Bx::Bin(_, a, b) => 1 + size_of(*a) + size_of(*b),
        _ => 0,
    }
}

/// The variables and operators are those of this module.
pub open spec fn proper(e: Bx) -> bool
    decreases e,
{
    match e {
        Bx::Var(k) => k < 3,
        Bx::Not(a) => proper(*a),
        Bx::Bin(op, a, b) => is_bop(op) && proper(*a) && proper(*b),
        _ => true,
    }
}

/// A node of a template: its operands are nodes before it.
#[derive(Clone, Copy, Debug, PartialEq, Eq, Structural)]
pub enum T {
    /// A variable.
    Var(u8),
    /// No bits.
    Zero,
    /// All bits.
    Ones,
    /// Complement.
    Not(usize),
    /// And, or, xor.
    Bin(BinOp, usize, usize),
}

/// The expression at node `k` of a template.
pub open spec fn meaning(t: Seq<T>, k: nat) -> Bx
    decreases k,
{
    if k >= t.len() {
        Bx::Zero
    } else {
        match t[k as int] {
            T::Var(v) => Bx::Var(v),
            T::Zero => Bx::Zero,
            T::Ones => Bx::Ones,
            T::Not(a) => if a < k {
                Bx::Not(Box::new(meaning(t, a as nat)))
            } else {
                Bx::Zero
            },
            T::Bin(op, a, b) => if a < k && b < k {
                Bx::Bin(op, Box::new(meaning(t, a as nat)), Box::new(meaning(t, b as nat)))
            } else {
                Bx::Zero
            },
        }
    }
}

/// Every operand is a node before its user, and every variable and operator is proper.
pub open spec fn template_ok(t: Seq<T>) -> bool {
    forall|k: int|
        #![trigger t[k]]
        0 <= k < t.len() ==> match t[k] {
            T::Var(v) => v < 3,
            T::Not(a) => a < k,
            T::Bin(op, a, b) => a < k && b < k && is_bop(op),
            _ => true,
        }
}

/// What an expression says in one combination.
pub open spec fn says(e: Bx, i: u8) -> bool
    decreases e,
{
    match e {
        Bx::Var(k) => ibit(i, k),
        Bx::Zero => false,
        Bx::Ones => true,
        Bx::Not(a) => !says(*a, i),
        Bx::Bin(op, a, b) => bop(op, says(*a, i), says(*b, i)),
    }
}

/// The truth table of an expression lists what it says.
pub proof fn lemma_says(e: Bx, i: u8)
    requires
        i < 8,
        proper(e),
    ensures
        bit8(table_of(e), i) == says(e, i),
    decreases e,
{
    lemma_bit8_set(0, 0, i);
    match e {
        Bx::Var(k) => {
            lemma_var_table(k, i);
        },
        Bx::Not(a) => {
            lemma_says(*a, i);
            lemma_bit8_ops(table_of(*a), 0, i);
        },
        Bx::Bin(op, a, b) => {
            lemma_says(*a, i);
            lemma_says(*b, i);
            lemma_bit8_ops(table_of(*a), table_of(*b), i);
        },
        _ => {},
    }
}

/// Adding nodes at the end of a template keeps what its nodes mean.
pub proof fn lemma_meaning_more(t: Seq<T>, u: Seq<T>, k: nat)
    requires
        k < t.len(),
        t.len() <= u.len(),
        forall|i: int| 0 <= i < t.len() ==> #[trigger] u[i] == t[i],
    ensures
        meaning(u, k) == meaning(t, k),
    decreases k,
{
    assert(u[k as int] == t[k as int]);
    match t[k as int] {
        T::Not(a) => {
            if a < k {
                lemma_meaning_more(t, u, a as nat);
            }
        },
        T::Bin(_, a, b) => {
            if a < k && b < k {
                lemma_meaning_more(t, u, a as nat);
                lemma_meaning_more(t, u, b as nat);
            }
        },
        _ => {},
    }
}

/// A node moved behind other nodes.
pub open spec fn shifted(x: T, off: nat) -> T {
    match x {
        T::Not(a) => T::Not((a + off) as usize),
        T::Bin(op, a, b) => T::Bin(op, (a + off) as usize, (b + off) as usize),
        _ => x,
    }
}

/// A template behind other nodes means the same.
pub proof fn lemma_meaning_shift(t: Seq<T>, u: Seq<T>, off: nat, k: nat)
    requires
        k < t.len(),
        template_ok(t),
        t.len() + off <= u.len(),
        u.len() <= usize::MAX,
        forall|i: int|
            #![trigger t[i]]
            0 <= i < t.len() ==> u[i + off] == shifted(t[i], off),
    ensures
        meaning(u, k + off) == meaning(t, k),
    decreases k,
{
    assert(u[(k + off) as int] == shifted(t[k as int], off));
    match t[k as int] {
        T::Not(a) => {
            lemma_meaning_shift(t, u, off, a as nat);
        },
        T::Bin(_, a, b) => {
            lemma_meaning_shift(t, u, off, a as nat);
            lemma_meaning_shift(t, u, off, b as nat);
        },
        _ => {},
    }
}

/// A template means a proper expression.
pub proof fn lemma_proper(t: Seq<T>, k: nat)
    requires
        k < t.len(),
        template_ok(t),
    ensures
        proper(meaning(t, k)),
    decreases k,
{
    let _ = t[k as int];
    match t[k as int] {
        T::Not(a) => {
            lemma_proper(t, a as nat);
        },
        T::Bin(_, a, b) => {
            lemma_proper(t, a as nat);
            lemma_proper(t, b as nat);
        },
        _ => {},
    }
}

/// A template and its size in operators.
#[derive(Debug)]
pub struct MinForm {
    /// The nodes; the last is the root.
    pub nodes: Vec<T>,
    /// The operators.
    pub size: usize,
}

/// The expression of a template.
pub open spec fn root_of(t: Seq<T>) -> Bx {
    meaning(t, (t.len() - 1) as nat)
}

/// A template is a form of table `tt`, of the size it says.
pub open spec fn form_ok(f: MinForm, tt: u8) -> bool {
    &&& 1 <= f.nodes@.len() <= 2 * f.size + 1
    &&& template_ok(f.nodes@)
    &&& table_of(root_of(f.nodes@)) == tt
    &&& size_of(root_of(f.nodes@)) == f.size
}

/// For every truth table, a template of the smallest size.
#[derive(Debug)]
pub struct MinForms {
    /// By table.
    pub forms: Vec<Option<MinForm>>,
}

/// Every form found is one of its table.
pub open spec fn forms_ok(forms: Seq<Option<MinForm>>) -> bool {
    &&& forms.len() == 256
    &&& forall|v: int|
        0 <= v < 256 ==> (#[trigger] forms[v] matches Some(f) ==> form_ok(f, v as u8))
}

/// Every expression of fewer than `size` operators has its table found, at no more.
pub open spec fn found_below(forms: Seq<Option<MinForm>>, size: nat) -> bool {
    forall|e: Bx|
        #![trigger table_of(e)]
        proper(e) && size_of(e) < size ==> forms[table_of(e) as int] is Some
            && forms[table_of(e) as int]->0.size <= size_of(e)
}

impl MinForms {
    /// Every form is one of its table.
    pub open spec fn wf(self) -> bool {
        forms_ok(self.forms@)
    }

    /// No expression of a table is smaller than the form found for it.
    pub open spec fn smallest(self) -> bool {
        forall|e: Bx|
            #![trigger table_of(e)]
            proper(e) ==> (self.forms@[table_of(e) as int] matches Some(f) ==> f.size <= size_of(
                e,
            ))
    }

    /// Every table has a form, of at most six operators.
    pub open spec fn full(self) -> bool {
        forall|t: int|
            #![trigger self.forms@[t]]
            0 <= t < 256 ==> self.forms@[t] is Some && self.forms@[t]->0.size <= 6
    }

    /// The form of table `tt`, if it was found.
    pub fn get(&self, tt: u8) -> (r: Option<&MinForm>)
        requires
            self.wf(),
        ensures
            r matches Some(f) ==> form_ok(*f, tt),
            r is Some == self.forms@[tt as int] is Some,
    {
        let _ = self.forms[tt as usize].is_some();
        match &self.forms[tt as usize] {
            Some(f) => Some(f),
            None => None,
        }
    }
}

/// A template of one node.
fn leaf(t: T) -> (r: MinForm)
    requires
        !(t is Not) && !(t is Bin),
        t matches T::Var(v) ==> v < 3,
    ensures
        form_ok(r, table_of(root_of(seq![t]))),
        r.size == 0,
        r.nodes@ == seq![t],
{
    let r = MinForm { nodes: vec![t], size: 0 };
    assert(r.nodes@ =~= seq![t]);
    r
}

/// The complement of a template.
fn not_form(f: &MinForm, Ghost(tt): Ghost<u8>) -> (r: MinForm)
    requires
        form_ok(*f, tt),
        f.size < 1000,
    ensures
        form_ok(r, !tt),
        r.size == f.size + 1,
{
    let mut nodes = f.nodes.clone();
    let ghost t = f.nodes@;
    assert(nodes@ =~= t);
    nodes.push(T::Not(f.nodes.len() - 1));
    proof {
        lemma_meaning_more(t, nodes@, (t.len() - 1) as nat);
        assert forall|k: int| #![trigger nodes@[k]] 0 <= k < nodes@.len() implies match nodes@[k] {
            T::Var(v) => v < 3,
            T::Not(a) => a < k,
            T::Bin(op, a, b) => a < k && b < k && is_bop(op),
            _ => true,
        } by {
            if k < t.len() {
                let _ = t[k];
            }
        }
    }
    MinForm { nodes, size: f.size + 1 }
}

/// Two templates under an operator.
fn bin_form(op: BinOp, f: &MinForm, g: &MinForm, Ghost(x): Ghost<u8>, Ghost(y): Ghost<u8>) -> (r: MinForm)
    requires
        is_bop(op),
        form_ok(*f, x),
        form_ok(*g, y),
        f.size < 1000,
        g.size < 1000,
    ensures
        form_ok(r, table_bin(op, x, y)),
        r.size == f.size + g.size + 1,
{
    let ghost t = f.nodes@;
    let ghost u = g.nodes@;
    let off = f.nodes.len();
    let mut nodes = f.nodes.clone();
    assert(nodes@ =~= t);
    let mut i: usize = 0;
    while i < g.nodes.len()
        invariant
            i <= g.nodes.len(),
            t == f.nodes@,
            u == g.nodes@,
            off == t.len(),
            off + g.nodes.len() < 10000,
            template_ok(t),
            template_ok(u),
            nodes@.len() == off + i,
            forall|k: int| 0 <= k < t.len() ==> #[trigger] nodes@[k] == t[k],
            forall|k: int|
                #![trigger u[k]]
                0 <= k < i ==> nodes@[k + off] == shifted(u[k], off as nat),
        decreases g.nodes.len() - i,
    {
        let x = g.nodes[i];
        assert(u[i as int] == x);
        let y = match x {
            T::Not(a) => T::Not(a + off),
            T::Bin(o, a, b) => T::Bin(o, a + off, b + off),
            _ => x,
        };
        nodes.push(y);
        i = i + 1;
    }
    let ghost both = nodes@;
    let last = nodes.len() - 1;
    nodes.push(T::Bin(op, off - 1, last));
    proof {
        lemma_meaning_more(t, nodes@, (t.len() - 1) as nat);
        lemma_meaning_shift(u, nodes@, off as nat, (u.len() - 1) as nat);
        assert forall|k: int| #![trigger nodes@[k]] 0 <= k < nodes@.len() implies match nodes@[k] {
            T::Var(v) => v < 3,
            T::Not(a) => a < k,
            T::Bin(op, a, b) => a < k && b < k && is_bop(op),
            _ => true,
        } by {
            if k < t.len() {
                let _ = t[k];
            } else if k < both.len() {
                let _ = u[k - off];
                assert(nodes@[(k - off) + off] == shifted(u[k - off], off as nat));
            }
        }
    }
    MinForm { nodes, size: f.size + g.size + 1 }
}

/// The largest size searched.
pub const MAX_SIZE: usize = 12;

/// Table `v` has a form.
pub open spec fn covered(
    best: Seq<Option<MinForm>>,
    next: Seq<Option<MinForm>>,
    v: u8,
) -> bool {
    best[v as int] is Some || next[v as int] is Some
}

/// The complement of table `f` has been considered at `size`.
pub open spec fn not_tried(
    best: Seq<Option<MinForm>>,
    next: Seq<Option<MinForm>>,
    size: int,
    f: int,
) -> bool {
    best[f] is Some && best[f]->0.size + 1 == size ==> covered(best, next, !(f as u8))
}

/// The operators on tables `f` and `g` have been considered at `size`.
pub open spec fn pair_tried(
    best: Seq<Option<MinForm>>,
    next: Seq<Option<MinForm>>,
    size: int,
    f: int,
    g: int,
) -> bool {
    best[f] is Some && best[g] is Some && best[f]->0.size + best[g]->0.size + 1 == size ==> {
        &&& covered(best, next, f as u8 & g as u8)
        &&& covered(best, next, f as u8 | g as u8)
        &&& covered(best, next, f as u8 ^ g as u8)
    }
}

/// The forms found in a round are of tables that had none, and of the round's size.
pub open spec fn round_ok(
    best: Seq<Option<MinForm>>,
    next: Seq<Option<MinForm>>,
    size: int,
) -> bool {
    &&& next.len() == 256
    &&& forall|v: int|
        #![trigger next[v]]
        0 <= v < 256 && next[v] is Some ==> best[v] is None && form_ok(next[v]->0, v as u8)
            && next[v]->0.size == size
}

/// Every form is smaller than `size`.
pub open spec fn all_below(best: Seq<Option<MinForm>>, size: int) -> bool {
    forall|v: int| 0 <= v < 256 ==> (#[trigger] best[v] matches Some(f) ==> f.size < size)
}

proof fn lemma_table_commutes(x: u8, y: u8)
    ensures
        x & y == y & x,
        x | y == y | x,
        x ^ y == y ^ x,
{
    assert(x & y == y & x && x | y == y | x && x ^ y == y ^ x) by (bit_vector);
}

/// A round finds every table of its size.
proof fn lemma_round(
    best: Seq<Option<MinForm>>,
    next: Seq<Option<MinForm>>,
    size: nat,
    e: Bx,
)
    requires
        size >= 1,
        forms_ok(best),
        found_below(best, size),
        all_below(best, size as int),
        round_ok(best, next, size as int),
        forall|f: int| 0 <= f < 256 ==> #[trigger] not_tried(best, next, size as int, f),
        forall|f: int, g: int|
            0 <= f <= g < 256 ==> #[trigger] pair_tried(best, next, size as int, f, g),
        proper(e),
        size_of(e) == size,
    ensures
        covered(best, next, table_of(e)),
{
    match e {
        Bx::Not(a) => {
            let ta = table_of(*a);
            assert(best[ta as int] is Some && best[ta as int]->0.size <= size_of(*a));
            let f = best[ta as int]->0;
            assert(form_ok(f, ta));
            if f.size + 1 == size {
                assert(not_tried(best, next, size as int, ta as int));
            } else {
                let r = root_of(f.nodes@);
                lemma_proper(f.nodes@, (f.nodes@.len() - 1) as nat);
                let e2 = Bx::Not(Box::new(r));
                assert(proper(e2) && size_of(e2) == f.size + 1);
                assert(table_of(e2) == !ta);
            }
        },
        Bx::Bin(op, a, b) => {
            let ta = table_of(*a);
            let tb = table_of(*b);
            let f = best[ta as int]->0;
            let g = best[tb as int]->0;
            assert(best[ta as int] is Some && f.size <= size_of(*a));
            assert(best[tb as int] is Some && g.size <= size_of(*b));
            assert(form_ok(f, ta));
            assert(form_ok(g, tb));
            lemma_table_commutes(ta, tb);
            if f.size + g.size + 1 == size {
                if ta <= tb {
                    assert(pair_tried(best, next, size as int, ta as int, tb as int));
                } else {
                    assert(pair_tried(best, next, size as int, tb as int, ta as int));
                }
            } else {
                let r = root_of(f.nodes@);
                let s = root_of(g.nodes@);
                lemma_proper(f.nodes@, (f.nodes@.len() - 1) as nat);
                lemma_proper(g.nodes@, (g.nodes@.len() - 1) as nat);
                let e2 = Bx::Bin(op, Box::new(r), Box::new(s));
                assert(proper(e2) && size_of(e2) == f.size + g.size + 1);
                assert(table_of(e2) == table_bin(op, ta, tb));
            }
        },
        _ => {},
    }
}

/// Keeps a candidate for table `v` if it has no form yet.
fn offer(best: &Vec<Option<MinForm>>, next: &mut Vec<Option<MinForm>>, v: u8, f: MinForm, Ghost(size): Ghost<int>)
    requires
        best@.len() == 256,
        round_ok(best@, old(next)@, size),
        form_ok(f, v),
        f.size == size,
    ensures
        round_ok(best@, final(next)@, size),
        covered(best@, final(next)@, v),
        forall|u: u8| covered(best@, old(next)@, u) ==> #[trigger] covered(best@, final(next)@, u),
{
    let i = v as usize;
    if best[i].is_none() && next[i].is_none() {
        let ghost before = next@;
        next.set(i, Some(f));
        proof {
            assert forall|u: u8| covered(best@, before, u) implies #[trigger] covered(
                best@,
                next@,
                u,
            ) by {}
            assert forall|q: int| #![trigger next@[q]] 0 <= q < 256 && next@[q] is Some implies best@[q] is None
                && form_ok(next@[q]->0, q as u8) && next@[q]->0.size == size by {
                if q != i {
                    assert(next@[q] == before[q]);
                }
            }
        }
    }
}

/// One round: every table with a form of `size` operators over smaller forms gets one.
fn round(best: &Vec<Option<MinForm>>, size: usize) -> (next: Vec<Option<MinForm>>)
    requires
        forms_ok(best@),
        all_below(best@, size as int),
        1 <= size <= MAX_SIZE,
    ensures
        round_ok(best@, next@, size as int),
        forall|f: int| 0 <= f < 256 ==> #[trigger] not_tried(best@, next@, size as int, f),
        forall|f: int, g: int|
            0 <= f <= g < 256 ==> #[trigger] pair_tried(best@, next@, size as int, f, g),
{
    let mut next: Vec<Option<MinForm>> = Vec::with_capacity(256);
    let mut k: usize = 0;
    while k < 256
        invariant
            k <= 256,
            next@.len() == k,
            forall|v: int| 0 <= v < k ==> #[trigger] next@[v] is None,
        decreases 256 - k,
    {
        next.push(None);
        k = k + 1;
    }
    let mut f: usize = 0;
    while f < 256
        invariant
            f <= 256,
            forms_ok(best@),
            all_below(best@, size as int),
            1 <= size <= MAX_SIZE,
            round_ok(best@, next@, size as int),
            forall|x: int| 0 <= x < f ==> #[trigger] not_tried(best@, next@, size as int, x),
            forall|x: int, y: int|
                0 <= x < f && x <= y < 256 ==> #[trigger] pair_tried(best@, next@, size as int, x, y),
        decreases 256 - f,
    {
        let ghost before = next@;
        if let Some(a) = &best[f] {
            assert(form_ok(*a, f as u8));
            if a.size + 1 == size {
                let c = not_form(a, Ghost(f as u8));
                offer(best, &mut next, !(f as u8), c, Ghost(size as int));
            }
            proof {
                assert(not_tried(best@, next@, size as int, f as int));
                assert forall|x: int| 0 <= x < f implies #[trigger] not_tried(
                    best@,
                    next@,
                    size as int,
                    x,
                ) by {
                    assert(not_tried(best@, before, size as int, x));
                }
                assert forall|x: int, y: int| 0 <= x < f && x <= y < 256 implies #[trigger] pair_tried(
                    best@,
                    next@,
                    size as int,
                    x,
                    y,
                ) by {
                    assert(pair_tried(best@, before, size as int, x, y));
                }
            }
            let mut g: usize = f;
            while g < 256
                invariant
                    f <= g <= 256,
                    f < 256,
                    forms_ok(best@),
                    all_below(best@, size as int),
                    1 <= size <= MAX_SIZE,
                    best@[f as int] == Some(*a),
                    form_ok(*a, f as u8),
                    a.size < size,
                    round_ok(best@, next@, size as int),
                    forall|x: int| 0 <= x <= f ==> #[trigger] not_tried(best@, next@, size as int, x),
                    forall|x: int, y: int|
                        0 <= x < f && x <= y < 256 ==> #[trigger] pair_tried(
                            best@,
                            next@,
                            size as int,
                            x,
                            y,
                        ),
                    forall|y: int|
                        f <= y < g ==> #[trigger] pair_tried(best@, next@, size as int, f as int, y),
                decreases 256 - g,
            {
                let ghost mid = next@;
                if let Some(b) = &best[g] {
                    assert(form_ok(*b, g as u8));
                    assert(b.size < size);
                    if a.size + b.size + 1 == size {
                        let x = f as u8;
                        let y = g as u8;
                        let c = bin_form(BinOp::And, a, b, Ghost(x), Ghost(y));
                        offer(best, &mut next, x & y, c, Ghost(size as int));
                        let ghost n1 = next@;
                        let c = bin_form(BinOp::Or, a, b, Ghost(x), Ghost(y));
                        offer(best, &mut next, x | y, c, Ghost(size as int));
                        let ghost n2 = next@;
                        let c = bin_form(BinOp::Xor, a, b, Ghost(x), Ghost(y));
                        offer(best, &mut next, x ^ y, c, Ghost(size as int));
                        proof {
                            assert(covered(best@, n1, x & y));
                            assert(covered(best@, n2, x & y));
                            assert(covered(best@, n2, x | y));
                            assert forall|u: u8| covered(best@, mid, u) implies #[trigger] covered(
                                best@,
                                next@,
                                u,
                            ) by {
                                assert(covered(best@, n1, u));
                                assert(covered(best@, n2, u));
                            }
                        }
                    }
                }
                proof {
                    assert(pair_tried(best@, next@, size as int, f as int, g as int));
                    assert forall|x: int| 0 <= x <= f implies #[trigger] not_tried(
                        best@,
                        next@,
                        size as int,
                        x,
                    ) by {
                        assert(not_tried(best@, mid, size as int, x));
                    }
                    assert forall|x: int, y: int| 0 <= x < f && x <= y
                        < 256 implies #[trigger] pair_tried(best@, next@, size as int, x, y) by {
                        assert(pair_tried(best@, mid, size as int, x, y));
                    }
                    assert forall|y: int| f <= y < g + 1 implies #[trigger] pair_tried(
                        best@,
                        next@,
                        size as int,
                        f as int,
                        y,
                    ) by {
                        if y < g {
                            assert(pair_tried(best@, mid, size as int, f as int, y));
                        }
                    }
                }
                g = g + 1;
            }
        }
        f = f + 1;
    }
    next
}

/// A function of the first two variables, by the table of its four combinations.
pub open spec fn two(n: u8) -> Bx {
    let x = Box::new(Bx::Var(0));
    let y = Box::new(Bx::Var(1));
    if n == 0 {
        Bx::Zero
    } else if n == 1 {
        Bx::Not(Box::new(Bx::Bin(BinOp::Or, x, y)))
    } else if n == 2 {
        Bx::Bin(BinOp::And, x, Box::new(Bx::Not(y)))
    } else if n == 3 {
        Bx::Not(y)
    } else if n == 4 {
        Bx::Bin(BinOp::And, y, Box::new(Bx::Not(x)))
    } else if n == 5 {
        Bx::Not(x)
    } else if n == 6 {
        Bx::Bin(BinOp::Xor, x, y)
    } else if n == 7 {
        Bx::Not(Box::new(Bx::Bin(BinOp::And, x, y)))
    } else if n == 8 {
        Bx::Bin(BinOp::And, x, y)
    } else if n == 9 {
        Bx::Not(Box::new(Bx::Bin(BinOp::Xor, x, y)))
    } else if n == 10 {
        Bx::Var(0)
    } else if n == 11 {
        Bx::Bin(BinOp::Or, x, Box::new(Bx::Not(y)))
    } else if n == 12 {
        Bx::Var(1)
    } else if n == 13 {
        Bx::Bin(BinOp::Or, y, Box::new(Bx::Not(x)))
    } else if n == 14 {
        Bx::Bin(BinOp::Or, x, y)
    } else {
        Bx::Ones
    }
}

proof fn lemma_two(n: u8)
    requires
        n < 16,
    ensures
        proper(two(n)),
        size_of(two(n)) <= 2,
        table_of(two(n)) == n | (n << 4),
{
    reveal_with_fuel(proper, 4);
    reveal_with_fuel(size_of, 4);
    reveal_with_fuel(table_of, 4);
    assert(!(0xAAu8 | 0xCCu8) == 1u8 | (1u8 << 4) && 0xAAu8 & !0xCCu8 == 2u8 | (2u8 << 4) && !0xCCu8
        == 3u8 | (3u8 << 4) && 0xCCu8 & !0xAAu8 == 4u8 | (4u8 << 4) && !0xAAu8 == 5u8 | (5u8 << 4)
        && 0xAAu8 ^ 0xCCu8 == 6u8 | (6u8 << 4) && !(0xAAu8 & 0xCCu8) == 7u8 | (7u8 << 4) && 0xAAu8
        & 0xCCu8 == 8u8 | (8u8 << 4) && !(0xAAu8 ^ 0xCCu8) == 9u8 | (9u8 << 4) && 0xAAu8 == 10u8 | (
    10u8 << 4) && 0xAAu8 | !0xCCu8 == 11u8 | (11u8 << 4) && 0xCCu8 == 12u8 | (12u8 << 4) && 0xCCu8
        | !0xAAu8 == 13u8 | (13u8 << 4) && 0xAAu8 | 0xCCu8 == 14u8 | (14u8 << 4) && 0xFFu8 == 15u8 | (
    15u8 << 4) && 0u8 == 0u8 | (0u8 << 4)) by (bit_vector);
}

/// A small expression of a table: where the third variable is clear, one function of the first
/// two, changed where it is set by another.
pub open spec fn small(t: u8) -> Bx {
    Bx::Bin(
        BinOp::Xor,
        Box::new(two(t & 0xF)),
        Box::new(
            Bx::Bin(BinOp::And, Box::new(Bx::Var(2)), Box::new(two((t >> 4) ^ (t & 0xF)))),
        ),
    )
}

proof fn lemma_small(t: u8)
    ensures
        proper(small(t)),
        size_of(small(t)) <= 6,
        table_of(small(t)) == t,
{
    reveal_with_fuel(proper, 3);
    reveal_with_fuel(size_of, 3);
    reveal_with_fuel(table_of, 3);
    let a = t & 0xF;
    let b = (t >> 4) ^ (t & 0xF);
    assert(t & 0xF < 16 && (t >> 4) ^ (t & 0xF) < 16) by (bit_vector);
    lemma_two(a);
    lemma_two(b);
    assert((a | (a << 4)) ^ (0xF0u8 & (b | (b << 4))) == t) by (bit_vector)
        requires
            a == t & 0xF,
            b == (t >> 4) ^ (t & 0xF),
    ;
}

/// Breadth-first search over expression sizes: every function of size `c` is `~f` with `f` of
/// size `c - 1`, or `f op g` with sizes that add up to `c - 1`. Ties keep the first found (a
/// fixed enumeration order), so the table is deterministic. No expression of a table is smaller
/// than the form found for it.
pub fn search() -> (r: MinForms)
    ensures
        r.wf(),
        r.smallest(),
        r.full(),
{
    let mut best: Vec<Option<MinForm>> = Vec::with_capacity(256);
    let mut k: usize = 0;
    while k < 256
        invariant
            k <= 256,
            best@.len() == k,
            forall|v: int|
                #![trigger best@[v]]
                0 <= v < k ==> (best@[v] is Some ==> form_ok(best@[v]->0, v as u8)
                    && best@[v]->0.size == 0) && (v == 0 || v == 0xFF || v == 0xAA || v == 0xCC || v
                    == 0xF0 ==> best@[v] is Some),
        decreases 256 - k,
    {
        let f = if k == 0 {
            Some(leaf(T::Zero))
        } else if k == 0xFF {
            Some(leaf(T::Ones))
        } else if k == 0xAA {
            Some(leaf(T::Var(0)))
        } else if k == 0xCC {
            Some(leaf(T::Var(1)))
        } else if k == 0xF0 {
            Some(leaf(T::Var(2)))
        } else {
            None
        };
        best.push(f);
        k = k + 1;
    }
    proof {
        assert forall|v: int| 0 <= v < 256 implies (#[trigger] best@[v] matches Some(f)
            ==> form_ok(f, v as u8)) by {}
        assert forall|e: Bx| #![trigger table_of(e)] proper(e) && size_of(e)
            < 1 implies best@[table_of(e) as int] is Some && best@[table_of(e) as int]->0.size
            <= size_of(e) by {
            let _ = best@[table_of(e) as int];
        }
    }
    let mut size: usize = 1;
    let mut missing = true;
    while missing && size <= MAX_SIZE
        invariant
            1 <= size <= MAX_SIZE + 1,
            forms_ok(best@),
            found_below(best@, size as nat),
            all_below(best@, size as int),
            !missing ==> forall|q: int| 0 <= q < 256 ==> #[trigger] best@[q] is Some,
        decreases MAX_SIZE + 1 - size,
    {
        let ghost before = best@;
        let mut next = round(&best, size);
        proof {
            assert forall|e: Bx| proper(e) && size_of(e) == size implies covered(
                before,
                next@,
                #[trigger] table_of(e),
            ) by {
                lemma_round(before, next@, size as nat, e);
            }
        }
        let ghost found = next@;
        missing = false;
        let mut v: usize = 0;
        while v < 256
            invariant
                v <= 256,
                1 <= size <= MAX_SIZE,
                best@.len() == 256,
                next@.len() == 256,
                forms_ok(before),
                round_ok(before, found, size as int),
                all_below(before, size as int),
                forall|q: int| v <= q < 256 ==> #[trigger] best@[q] == before[q],
                forall|q: int| v <= q < 256 ==> #[trigger] next@[q] == found[q],
                forall|q: int|
                    #![trigger best@[q]]
                    0 <= q < v ==> best@[q] == (if found[q] is Some {
                        found[q]
                    } else {
                        before[q]
                    }),
                !missing ==> forall|q: int| 0 <= q < v ==> #[trigger] best@[q] is Some,
            decreases 256 - v,
        {
            let mut slot: Option<MinForm> = None;
            std::mem::swap(&mut slot, &mut next[v]);
            if slot.is_some() {
                best.set(v, slot);
            } else if best[v].is_none() {
                missing = true;
            }
            v = v + 1;
        }
        proof {
            assert forall|q: int| 0 <= q < 256 implies (#[trigger] best@[q] matches Some(f)
                ==> form_ok(f, q as u8)) by {
                let _ = found[q];
                let _ = before[q];
            }
            assert forall|q: int| 0 <= q < 256 implies (#[trigger] best@[q] matches Some(f)
                ==> f.size < size + 1) by {
                let _ = found[q];
                let _ = before[q];
            }
            assert forall|e: Bx| #![trigger table_of(e)] proper(e) && size_of(e) < size
                + 1 implies best@[table_of(e) as int] is Some && best@[table_of(e) as int]->0.size
                <= size_of(e) by {
                let t = table_of(e) as int;
                let _ = best@[t];
                let _ = found[t];
                let _ = before[t];
                if size_of(e) == size {
                    assert(covered(before, found, table_of(e)));
                }
            }
        }
        size = size + 1;
    }
    proof {
        assert forall|e: Bx| #![trigger table_of(e)] proper(e) implies (best@[table_of(
            e,
        ) as int] matches Some(f) ==> f.size <= size_of(e)) by {
            let _ = best@[table_of(e) as int];
        }
        assert forall|t: int| #![trigger best@[t]] 0 <= t < 256 implies best@[t] is Some
            && best@[t]->0.size <= 6 by {
            lemma_small(t as u8);
            let e = small(t as u8);
            assert(table_of(e) == t as u8);
        }
    }
    MinForms { forms: best }
}

/// No bitwise expression of three variables is smaller than the form kept for its truth table,
/// and the form says what the expression says in every combination of the variables.
pub proof fn law_minimum_forms(forms: MinForms, e: Bx, i: u8)
    requires
        forms.wf(),
        forms.smallest(),
        forms.full(),
        proper(e),
        i < 8,
    ensures
        ({
            let f = forms.forms@[table_of(e) as int]->0;
            size_of(root_of(f.nodes@)) <= size_of(e) && says(root_of(f.nodes@), i) == says(e, i)
        }),
{
    let f = forms.forms@[table_of(e) as int]->0;
    assert(form_ok(f, table_of(e)));
    lemma_proper(f.nodes@, (f.nodes@.len() - 1) as nat);
    lemma_says(e, i);
    lemma_says(root_of(f.nodes@), i);
}

} // verus!
