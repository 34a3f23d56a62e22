//! The bitwise pass: a pure bitwise function (`& | ^ ~`, with `0` and all-ones) of at most
//! three atoms is determined by its 8-entry truth table, and is replaced by a minimum-size
//! expression for that table when that is smaller.
//!
//! Bitwise functions act on each bit position independently, so the truth table over single
//! bits determines the function at every width: the table is exact, not an approximation.

use vstd::prelude::*;
use crate::expr;
use crate::engine::runner;
use crate::engine::fin;
use crate::dfs;
use crate::ops;
use crate::term;
use crate::engine::pass::xor;
use crate::engine::pass::tables;
use crate::bits;
use crate::bitvec::{BitVec, Width, MAX_WIDTH};
use crate::dfs::expand;
use crate::engine::budget::Counter;
use crate::engine::fin::{Fin, Step, Stop};
use crate::engine::pass::tables::{Bx, MinForm, T};
use crate::engine::pass::xor::Vals;
use crate::engine::runner::Runner;
use crate::engine::stats::{bump, PassKind};
use crate::expr::{Context, Node};
use crate::ops::{BinOp, UnOp};
use crate::term::{Env, Term};

verus! {

broadcast use {crate::term::lemma_value_len, vstd::std_specs::hash::group_hash_axioms};

/// A node's bitwise description: its atoms (at most three) and its truth table over them.
#[derive(Debug)]
pub struct Info {
    /// The atoms.
    pub atoms: Vec<u32>,
    /// The truth table.
    pub tt: u8,
}

/// The value of atom `k` at bit `b`, or false when there is none.
pub open spec fn atom_bit(atoms: Seq<u32>, vals: Vals, k: int, b: int) -> bool {
    k < atoms.len() && vals(atoms[k])[b]
}

/// The combination of the atoms' values at bit `b`.
pub open spec fn comb_at(atoms: Seq<u32>, vals: Vals, b: int) -> u8 {
    tables::comb(
        atom_bit(atoms, vals, 0, b),
        atom_bit(atoms, vals, 1, b),
        atom_bit(atoms, vals, 2, b),
    )
}

/// A description is one of node `i`.
pub open spec fn info_ok(atoms: Seq<u32>, tt: u8, terms: Seq<Term>, i: int) -> bool {
    &&& atoms.len() <= 3
    &&& forall|k: int|
        #![trigger atoms[k]]
        0 <= k < atoms.len() ==> atoms[k] < terms.len() && term::twidth(terms[atoms[k] as int])
            == term::twidth(terms[i]) && term::tok(terms[atoms[k] as int])
    &&& forall|env: Env, b: int|
        #![trigger term::value(terms[i], env)[b]]
        0 <= b < term::twidth(terms[i]) ==> term::value(terms[i], env)[b] == tables::bit8(
            tt,
            comb_at(atoms, xor::env_vals(terms, env), b),
        )
}

/// Every description kept is right.
#[verifier::opaque]
pub open spec fn infos_ok(m: Map<u32, Info>, terms: Seq<Term>) -> bool {
    forall|i: u32| #[trigger]
        m.contains_key(i) ==> i < terms.len() && info_ok(
            m[i].atoms@,
            m[i].tt,
            terms,
            i as int,
        )
}

/// The nodes described.
pub open spec fn described(m: Map<u32, Info>) -> spec_fn(u32) -> bool {
    |i: u32| m.contains_key(i)
}

/// Descriptions stay right as the arena grows.
pub proof fn lemma_infos_grow(m: Map<u32, Info>, terms: Seq<Term>, more: Seq<Term>)
    requires
        infos_ok(m, terms),
        terms.len() <= more.len(),
        forall|i: int| 0 <= i < terms.len() ==> #[trigger] more[i] == terms[i],
    ensures
        infos_ok(m, more),
{
    reveal(infos_ok);
    assert forall|i: u32| #[trigger] m.contains_key(i) implies i < more.len() && info_ok(
        m[i].atoms@,
        m[i].tt,
        more,
        i as int,
    ) by {
        assert(more[i as int] == terms[i as int]);
        let atoms = m[i].atoms@;
        assert forall|k: int| #![trigger atoms[k]] 0 <= k < atoms.len() implies atoms[k]
            < more.len() && term::twidth(more[atoms[k] as int]) == term::twidth(more[i as int]) && term::tok(
            more[atoms[k] as int],
        ) by {
            assert(more[atoms[k] as int] == terms[atoms[k] as int]);
        }
        assert forall|env: Env, b: int|
            #![trigger term::value(more[i as int], env)[b]]
            0 <= b < term::twidth(more[i as int]) implies term::value(more[i as int], env)[b] == tables::bit8(
            m[i].tt,
            comb_at(atoms, xor::env_vals(more, env), b),
        ) by {
            let _ = term::value(terms[i as int], env)[b];
            assert forall|k: int| 0 <= k < 3 implies #[trigger] atom_bit(
                atoms,
                xor::env_vals(more, env),
                k,
                b,
            ) == atom_bit(atoms, xor::env_vals(terms, env), k, b) by {
                if k < atoms.len() {
                    assert(more[atoms[k] as int] == terms[atoms[k] as int]);
                }
            }
            assert(atom_bit(atoms, xor::env_vals(more, env), 0, b) == atom_bit(
                atoms,
                xor::env_vals(terms, env),
                0,
                b,
            ));
            assert(atom_bit(atoms, xor::env_vals(more, env), 1, b) == atom_bit(
                atoms,
                xor::env_vals(terms, env),
                1,
                b,
            ));
            assert(atom_bit(atoms, xor::env_vals(more, env), 2, b) == atom_bit(
                atoms,
                xor::env_vals(terms, env),
                2,
                b,
            ));
        }
    }
}

/// Bit `k` of a combination.
fn bit_in(i: u8, k: usize) -> (r: bool)
    requires
        k < 3,
    ensures
        r == tables::ibit(i, k as u8),
{
    if k == 0 {
        i % 2 == 1
    } else if k == 1 {
        (i / 2) % 2 == 1
    } else {
        (i / 4) % 2 == 1
    }
}

/// The combination of three values.
fn combine3(a: bool, b: bool, c: bool) -> (r: u8)
    ensures
        r == tables::comb(a, b, c),
        r < 8,
{
    let x: u8 = if a {
        1
    } else {
        0
    };
    let y: u8 = if b {
        2
    } else {
        0
    };
    let z: u8 = if c {
        4
    } else {
        0
    };
    x + y + z
}

/// Where `a` is in `v`.
fn position(v: &Vec<u32>, a: u32) -> (r: Option<usize>)
    ensures
        r matches Some(p) ==> p < v@.len() && v@[p as int] == a,
        r is None ==> !v@.contains(a),
{
    let mut i: usize = 0;
    while i < v.len()
        invariant
            i <= v.len(),
            forall|j: int| 0 <= j < i ==> v@[j] != a,
        decreases v.len() - i,
    {
        if v[i] == a {
            return Some(i);
        }
        i = i + 1;
    }
    None
}

/// Re-expresses truth table `tt` over atoms `from` as a table over `to` (a superset).
pub(crate) fn remap(tt: u8, from: &Vec<u32>, to: &Vec<u32>) -> (r: u8)
    requires
        from@.len() <= 3,
        to@.len() <= 3,
        forall|k: int| 0 <= k < from@.len() ==> to@.contains(#[trigger] from@[k]),
    ensures
        forall|vals: Vals, b: int|
            #![trigger comb_at(to@, vals, b)]
            tables::bit8(r, comb_at(to@, vals, b)) == tables::bit8(tt, comb_at(from@, vals, b)),
{
    let p0: Option<usize> = if from.len() > 0 {
        assert(to@.contains(from@[0]));
        position(to, from[0])
    } else {
        None
    };
    let p1: Option<usize> = if from.len() > 1 {
        assert(to@.contains(from@[1]));
        position(to, from[1])
    } else {
        None
    };
    let p2: Option<usize> = if from.len() > 2 {
        assert(to@.contains(from@[2]));
        position(to, from[2])
    } else {
        None
    };
    let mut out: u8 = 0;
    let mut i: u8 = 0;
    proof {
        assert forall|j: u8| j < 8 implies !#[trigger] tables::bit8(0, j) by {
            tables::lemma_bit8_set(0, 0, j);
        }
    }
    while i < 8
        invariant
            i <= 8,
            p0 matches Some(p) ==> p < 3,
            p1 matches Some(p) ==> p < 3,
            p2 matches Some(p) ==> p < 3,
            forall|j: u8|
                #![trigger tables::bit8(out, j)]
                j < 8 ==> tables::bit8(out, j) == (j < i && tables::bit8(
                    tt,
                    tables::comb(placed(p0, j), placed(p1, j), placed(p2, j)),
                )),
        decreases 8 - i,
    {
        let a = match p0 {
            Some(p) => bit_in(i, p),
            None => false,
        };
        let b = match p1 {
            Some(p) => bit_in(i, p),
            None => false,
        };
        let c = match p2 {
            Some(p) => bit_in(i, p),
            None => false,
        };
        let j = combine3(a, b, c);
        let ghost before = out;
        if (tt >> j) & 1 == 1 {
            out = out | (1u8 << i);
            proof {
                assert forall|q: u8| #![trigger tables::bit8(out, q)] q < 8 implies tables::bit8(out, q) == (q == i
                    || tables::bit8(before, q)) by {
                    tables::lemma_bit8_set(before, i, q);
                }
            }
        }
        i = i + 1;
    }
    proof {
        assert forall|vals: Vals, b: int|
            #![trigger comb_at(to@, vals, b)]
            tables::bit8(out, comb_at(to@, vals, b)) == tables::bit8(tt, comb_at(from@, vals, b)) by {
            let x = atom_bit(to@, vals, 0, b);
            let y = atom_bit(to@, vals, 1, b);
            let z = atom_bit(to@, vals, 2, b);
            tables::lemma_comb(x, y, z);
            let c = comb_at(to@, vals, b);
            assert(placed(p0, c) == atom_bit(from@, vals, 0, b));
            assert(placed(p1, c) == atom_bit(from@, vals, 1, b));
            assert(placed(p2, c) == atom_bit(from@, vals, 2, b));
        }
    }
    out
}

/// The value that a position has in combination `i`.
pub open spec fn placed(p: Option<usize>, i: u8) -> bool {
    match p {
        Some(q) => tables::ibit(i, q as u8),
        None => false,
    }
}

/// Combination `i` with variable `k` flipped.
pub open spec fn flipped(i: u8, k: int) -> u8 {
    tables::comb(
        if k == 0 {
            !tables::ibit(i, 0)
        } else {
            tables::ibit(i, 0)
        },
        if k == 1 {
            !tables::ibit(i, 1)
        } else {
            tables::ibit(i, 1)
        },
        if k == 2 {
            !tables::ibit(i, 2)
        } else {
            tables::ibit(i, 2)
        },
    )
}

/// Combination `i` over the variables that are left, with variable `k` put back as 0.
pub open spec fn without(i: u8, k: int) -> u8 {
    if k == 0 {
        tables::comb(false, tables::ibit(i, 0), tables::ibit(i, 1))
    } else if k == 1 {
        tables::comb(tables::ibit(i, 0), false, tables::ibit(i, 1))
    } else {
        tables::comb(tables::ibit(i, 0), tables::ibit(i, 1), false)
    }
}

/// Whether a table depends on variable `k`.
fn depends(tt: u8, k: usize) -> (r: bool)
    requires
        k < 3,
    ensures
        !r ==> forall|i: u8|
            i < 8 ==> #[trigger] tables::bit8(tt, i) == tables::bit8(tt, flipped(i, k as int)),
{
    let mut i: u8 = 0;
    while i < 8
        invariant
            i <= 8,
            k < 3,
            forall|j: u8| j < i ==> #[trigger] tables::bit8(tt, j) == tables::bit8(tt, flipped(j, k as int)),
        decreases 8 - i,
    {
        let a = bit_in(i, 0);
        let b = bit_in(i, 1);
        let c = bit_in(i, 2);
        let j = combine3(
            if k == 0 {
                !a
            } else {
                a
            },
            if k == 1 {
                !b
            } else {
                b
            },
            if k == 2 {
                !c
            } else {
                c
            },
        );
        if ((tt >> i) & 1 == 1) != ((tt >> j) & 1 == 1) {
            return true;
        }
        i = i + 1;
    }
    false
}

/// The table over the other variables, of one that does not depend on variable `k`.
fn dropped(tt: u8, k: usize) -> (r: u8)
    requires
        k < 3,
    ensures
        forall|i: u8| i < 8 ==> #[trigger] tables::bit8(r, i) == tables::bit8(tt, without(i, k as int)),
{
    let mut out: u8 = 0;
    let mut i: u8 = 0;
    proof {
        assert forall|j: u8| j < 8 implies !#[trigger] tables::bit8(0, j) by {
            tables::lemma_bit8_set(0, 0, j);
        }
    }
    while i < 8
        invariant
            i <= 8,
            k < 3,
            forall|j: u8|
                #![trigger tables::bit8(out, j)]
                j < 8 ==> tables::bit8(out, j) == (j < i && tables::bit8(tt, without(j, k as int))),
        decreases 8 - i,
    {
        let a = bit_in(i, 0);
        let b = bit_in(i, 1);
        let j = if k == 0 {
            combine3(false, a, b)
        } else if k == 1 {
            combine3(a, false, b)
        } else {
            combine3(a, b, false)
        };
        let ghost before = out;
        if (tt >> j) & 1 == 1 {
            out = out | (1u8 << i);
            proof {
                assert forall|q: u8| #![trigger tables::bit8(out, q)] q < 8 implies tables::bit8(out, q) == (q == i
                    || tables::bit8(before, q)) by {
                    tables::lemma_bit8_set(before, i, q);
                }
            }
        }
        i = i + 1;
    }
    out
}

/// Drops the atoms a table does not depend on.
fn prune(info: Info) -> (r: Info)
    requires
        info.atoms@.len() <= 3,
    ensures
        r.atoms@.len() <= info.atoms@.len(),
        forall|k: int| 0 <= k < r.atoms@.len() ==> info.atoms@.contains(#[trigger] r.atoms@[k]),
        forall|vals: Vals, b: int|
            #![trigger comb_at(info.atoms@, vals, b)]
            #![trigger comb_at(r.atoms@, vals, b)]
            tables::bit8(r.tt, comb_at(r.atoms@, vals, b)) == tables::bit8(
                info.tt,
                comb_at(info.atoms@, vals, b),
            ),
{
    let ghost atoms0 = info.atoms@;
    let ghost tt0 = info.tt;
    let mut atoms = info.atoms;
    let mut tt = info.tt;
    let mut k: usize = atoms.len();
    while k > 0
        invariant
            k <= atoms@.len() <= atoms0.len() <= 3,
            forall|q: int| 0 <= q < atoms@.len() ==> atoms0.contains(#[trigger] atoms@[q]),
            forall|vals: Vals, b: int|
                #![trigger comb_at(atoms0, vals, b)]
                #![trigger comb_at(atoms@, vals, b)]
                tables::bit8(tt, comb_at(atoms@, vals, b)) == tables::bit8(tt0, comb_at(atoms0, vals, b)),
        decreases k,
    {
        k = k - 1;
        if !depends(tt, k) {
            let ghost before = atoms@;
            let ghost t1 = tt;
            tt = dropped(tt, k);
            let _ = atoms.remove(k);
            proof {
                assert forall|q: int| 0 <= q < atoms@.len() implies atoms0.contains(
                    #[trigger] atoms@[q],
                ) by {
                    if q < k {
                        assert(atoms@[q] == before[q]);
                    } else {
                        assert(atoms@[q] == before[q + 1]);
                    }
                }
                assert forall|vals: Vals, b: int|
                    #![trigger comb_at(atoms0, vals, b)]
                    #![trigger comb_at(atoms@, vals, b)]
                    tables::bit8(tt, comb_at(atoms@, vals, b)) == tables::bit8(tt0, comb_at(atoms0, vals, b)) by {
                    let x = atom_bit(before, vals, 0, b);
                    let y = atom_bit(before, vals, 1, b);
                    let z = atom_bit(before, vals, 2, b);
                    let c = comb_at(before, vals, b);
                    tables::lemma_comb(x, y, z);
                    assert(tables::bit8(t1, c) == tables::bit8(tt0, comb_at(atoms0, vals, b)));
                    let d = comb_at(atoms@, vals, b);
                    tables::lemma_comb(
                        atom_bit(atoms@, vals, 0, b),
                        atom_bit(atoms@, vals, 1, b),
                        atom_bit(atoms@, vals, 2, b),
                    );
                    assert(tables::bit8(tt, d) == tables::bit8(t1, without(d, k as int)));
                    assert(tables::bit8(t1, c) == tables::bit8(t1, flipped(c, k as int)));
                    if k == 0 {
                        assert(without(d, 0) == tables::comb(false, y, z));
                        assert(c == tables::comb(x, y, z));
                        assert(flipped(c, 0) == tables::comb(!x, y, z));
                    } else if k == 1 {
                        assert(without(d, 1) == tables::comb(x, false, z));
                        assert(flipped(c, 1) == tables::comb(x, !y, z));
                    } else {
                        assert(without(d, 2) == tables::comb(x, y, false));
                        assert(flipped(c, 2) == tables::comb(x, y, !z));
                    }
                }
            }
        }
    }
    Info { atoms, tt }
}

/// The union of two lists of atoms in increasing order, if it has at most three.
fn union(a: &Vec<u32>, b: &Vec<u32>) -> (r: Option<Vec<u32>>)
    ensures
        r matches Some(u) ==> u@.len() <= 3 && (forall|k: int|
            0 <= k < a@.len() ==> u@.contains(#[trigger] a@[k])) && (forall|k: int|
            0 <= k < b@.len() ==> u@.contains(#[trigger] b@[k])) && (forall|k: int|
            0 <= k < u@.len() ==> a@.contains(#[trigger] u@[k]) || b@.contains(u@[k])),
{
    let mut u: Vec<u32> = Vec::new();
    let mut i: usize = 0;
    let mut j: usize = 0;
    while i < a.len() || j < b.len()
        invariant
            i <= a.len(),
            j <= b.len(),
            forall|k: int| 0 <= k < i ==> u@.contains(#[trigger] a@[k]),
            forall|k: int| 0 <= k < j ==> u@.contains(#[trigger] b@[k]),
            forall|k: int| 0 <= k < u@.len() ==> a@.contains(#[trigger] u@[k]) || b@.contains(u@[k]),
        decreases a.len() - i + b.len() - j,
    {
        let left = i < a.len() && (j >= b.len() || a[i] <= b[j]);
        let x: u32 = if left {
            a[i]
        } else {
            b[j]
        };
        let ghost u0 = u@;
        if position(&u, x).is_none() {
            u.push(x);
        }
        proof {
            assert forall|y: u32| u0.contains(y) implies #[trigger] u@.contains(y) by {
                let q = choose|q: int| 0 <= q < u0.len() && u0[q] == y;
                assert(u@[q] == y);
            }
            assert(u@.contains(x)) by {
                if u@.len() > u0.len() {
                    assert(u@[u0.len() as int] == x);
                }
            }
            if left {
                assert(a@[i as int] == x);
            } else {
                assert(b@[j as int] == x);
            }
        }
        if left {
            i = i + 1;
        } else {
            j = j + 1;
        }
    }
    if u.len() > 3 {
        None
    } else {
        Some(u)
    }
}

/// Whether the node's operator is bitwise.
pub open spec fn is_bitwise_op(node: Node) -> bool {
    match node {
        Node::Un(op, _) => op == UnOp::Not,
        Node::Bin(op, _, _) => tables::is_bop(op),
        _ => false,
    }
}

/// Whether the node's operator is bitwise.
fn bitwise_op(node: &Node) -> (r: bool)
    ensures
        r == is_bitwise_op(*node),
{
    match node {
        Node::Un(UnOp::Not, _) => true,
        Node::Bin(BinOp::And, _, _) => true,
        Node::Bin(BinOp::Or, _, _) => true,
        Node::Bin(BinOp::Xor, _, _) => true,
        _ => false,
    }
}

/// The description of a node as an atom, or as the constant 0 or all ones.
fn leaf_info(cx: &Context, i: u32) -> (r: Info)
    requires
        cx.wf(),
        i < cx.n(),
    ensures
        info_ok(r.atoms@, r.tt, cx.tm(), i as int),
{
    let ghost tm = cx.tm();
    proof {
        assert(cx.ok_at(i as int));
    }
    if let Some(v) = cx.const_val(i) {
        if v.is_zero() {
            let r = Info { atoms: Vec::new(), tt: 0 };
            proof {
                assert forall|env: Env, b: int|
                    #![trigger term::value(tm[i as int], env)[b]]
                    0 <= b < term::twidth(tm[i as int]) implies term::value(tm[i as int], env)[b] == tables::bit8(
                    0,
                    comb_at(r.atoms@, xor::env_vals(tm, env), b),
                ) by {
                    tables::lemma_bit8_set(0, 0, comb_at(r.atoms@, xor::env_vals(tm, env), b));
                    assert(term::value(tm[i as int], env) == bits::zeros(term::twidth(tm[i as int])));
                }
            }
            return r;
        }
        if v.is_ones() {
            let r = Info { atoms: Vec::new(), tt: 0xFF };
            proof {
                assert forall|env: Env, b: int|
                    #![trigger term::value(tm[i as int], env)[b]]
                    0 <= b < term::twidth(tm[i as int]) implies term::value(tm[i as int], env)[b] == tables::bit8(
                    0xFF,
                    comb_at(r.atoms@, xor::env_vals(tm, env), b),
                ) by {
                    tables::lemma_bit8_set(0, 0, comb_at(r.atoms@, xor::env_vals(tm, env), b));
                    assert(term::value(tm[i as int], env) == bits::ones(term::twidth(tm[i as int])));
                }
            }
            return r;
        }
    }
    let r = Info { atoms: vec![i], tt: 0xAA };
    proof {
        assert forall|env: Env, b: int|
            #![trigger term::value(tm[i as int], env)[b]]
            0 <= b < term::twidth(tm[i as int]) implies term::value(tm[i as int], env)[b] == tables::bit8(
            0xAA,
            comb_at(r.atoms@, xor::env_vals(tm, env), b),
        ) by {
            let vals = xor::env_vals(tm, env);
            let x = atom_bit(r.atoms@, vals, 0, b);
            tables::lemma_comb(x, atom_bit(r.atoms@, vals, 1, b), atom_bit(r.atoms@, vals, 2, b));
            tables::lemma_var_table(0, comb_at(r.atoms@, vals, b));
        }
    }
    r
}

/// The description of an operator over described operands.
fn join(cx: &Context, i: u32, node: &Node, f: &Info, g: &Info) -> (r: Option<Info>)
    requires
        cx.wf(),
        i < cx.n(),
        *node == cx.nodes@[i as int],
        *node matches Node::Bin(op, a, b) && tables::is_bop(op) && info_ok(f.atoms@, f.tt, cx.tm(), a as int)
            && info_ok(g.atoms@, g.tt, cx.tm(), b as int),
    ensures
        r matches Some(x) ==> info_ok(x.atoms@, x.tt, cx.tm(), i as int),
{
    let ghost tm = cx.tm();
    let (op, a, b) = match *node {
        Node::Bin(op, a, b) => (op, a, b),
        _ => {
            return None;
        },
    };
    proof {
        assert(cx.ok_at(i as int));
        assert(cx.ok_at(a as int));
        assert(cx.ok_at(b as int));
    }
    let u = match union(&f.atoms, &g.atoms) {
        Some(u) => u,
        None => {
            return None;
        },
    };
    let s = remap(f.tt, &f.atoms, &u);
    let t = remap(g.tt, &g.atoms, &u);
    let tt = match op {
        BinOp::And => s & t,
        BinOp::Or => s | t,
        _ => s ^ t,
    };
    let ghost uv = u@;
    let r = prune(Info { atoms: u, tt });
    proof {
        assert forall|k: int| #![trigger r.atoms@[k]] 0 <= k < r.atoms@.len() implies r.atoms@[k]
            < tm.len() && term::twidth(tm[r.atoms@[k] as int]) == term::twidth(tm[i as int]) && term::tok(
            tm[r.atoms@[k] as int],
        ) by {
            let q = choose|q: int| 0 <= q < uv.len() && uv[q] == r.atoms@[k];
            if f.atoms@.contains(uv[q]) {
                let p = choose|p: int| 0 <= p < f.atoms@.len() && f.atoms@[p] == uv[q];
                let _ = f.atoms@[p];
            } else {
                assert(g.atoms@.contains(uv[q]));
                let p = choose|p: int| 0 <= p < g.atoms@.len() && g.atoms@[p] == uv[q];
                let _ = g.atoms@[p];
            }
        }
        assert forall|env: Env, bb: int|
            #![trigger term::value(tm[i as int], env)[bb]]
            0 <= bb < term::twidth(tm[i as int]) implies term::value(tm[i as int], env)[bb] == tables::bit8(
            r.tt,
            comb_at(r.atoms@, xor::env_vals(tm, env), bb),
        ) by {
            let vals = xor::env_vals(tm, env);
            let x = term::value(tm[a as int], env);
            let y = term::value(tm[b as int], env);
            assert(x[bb] == tables::bit8(f.tt, comb_at(f.atoms@, vals, bb)));
            assert(y[bb] == tables::bit8(g.tt, comb_at(g.atoms@, vals, bb)));
            let c = comb_at(uv, vals, bb);
            tables::lemma_comb(
                atom_bit(uv, vals, 0, bb),
                atom_bit(uv, vals, 1, bb),
                atom_bit(uv, vals, 2, bb),
            );
            tables::lemma_bit8_ops(s, t, c);
            assert(tables::bit8(r.tt, comb_at(r.atoms@, vals, bb)) == tables::bit8(tt, c));
        }
    }
    Some(r)
}

/// The complement of a described node.
fn complement(cx: &Context, i: u32, a: u32, f: &Info) -> (r: Info)
    requires
        cx.wf(),
        i < cx.n(),
        cx.nodes@[i as int] == Node::Un(UnOp::Not, a),
        info_ok(f.atoms@, f.tt, cx.tm(), a as int),
    ensures
        info_ok(r.atoms@, r.tt, cx.tm(), i as int),
{
    let ghost tm = cx.tm();
    proof {
        assert(cx.ok_at(i as int));
        assert(cx.ok_at(a as int));
    }
    let atoms = f.atoms.clone();
    assert(atoms@ =~= f.atoms@);
    let r = Info { atoms, tt: !f.tt };
    proof {
        assert forall|env: Env, bb: int|
            #![trigger term::value(tm[i as int], env)[bb]]
            0 <= bb < term::twidth(tm[i as int]) implies term::value(tm[i as int], env)[bb] == tables::bit8(
            r.tt,
            comb_at(r.atoms@, xor::env_vals(tm, env), bb),
        ) by {
            let vals = xor::env_vals(tm, env);
            assert(term::value(tm[a as int], env)[bb] == tables::bit8(f.tt, comb_at(f.atoms@, vals, bb)));
            tables::lemma_comb(
                atom_bit(f.atoms@, vals, 0, bb),
                atom_bit(f.atoms@, vals, 1, bb),
                atom_bit(f.atoms@, vals, 2, bb),
            );
            tables::lemma_bit8_ops(f.tt, 0, comb_at(f.atoms@, vals, bb));
        }
    }
    r
}

/// Atoms in the context's order, independent of indices.
fn canonical(cx: &Context, atoms: &Vec<u32>) -> (r: Vec<u32>)
    requires
        cx.wf(),
        atoms@.len() <= 3,
        runner::listed(atoms@, cx.n() as int),
    ensures
        r@.len() == atoms@.len(),
        forall|k: int| 0 <= k < atoms@.len() ==> r@.contains(#[trigger] atoms@[k]),
        forall|k: int| 0 <= k < r@.len() ==> atoms@.contains(#[trigger] r@[k]),
{
    let mut r: Vec<u32> = Vec::new();
    let mut i: usize = 0;
    while i < atoms.len()
        invariant
            cx.wf(),
            runner::listed(atoms@, cx.n() as int),
            i <= atoms.len(),
            r@.len() == i,
            forall|k: int| 0 <= k < i ==> r@.contains(#[trigger] atoms@[k]),
            forall|k: int| 0 <= k < r@.len() ==> atoms@.contains(#[trigger] r@[k]),
        decreases atoms.len() - i,
    {
        let a = atoms[i];
        let mut j: usize = 0;
        while j < r.len() && !cx.before(a, r[j])
            invariant
                cx.wf(),
                runner::listed(atoms@, cx.n() as int),
                a < cx.n(),
                j <= r.len(),
                forall|k: int| 0 <= k < r@.len() ==> atoms@.contains(#[trigger] r@[k]),
            decreases r.len() - j,
        {
            assert(atoms@.contains(r@[j as int]));
            j = j + 1;
            proof {
                if j < r.len() {
                    assert(atoms@.contains(r@[j as int]));
                }
            }
        }
        let ghost r0 = r@;
        r.insert(j, a);
        proof {
            assert(r@[j as int] == a);
            assert forall|x: u32| r0.contains(x) implies #[trigger] r@.contains(x) by {
                let q = choose|q: int| 0 <= q < r0.len() && r0[q] == x;
                if q < j {
                    assert(r@[q] == x);
                } else {
                    assert(r@[q + 1] == x);
                }
            }
            assert forall|k: int| 0 <= k < r@.len() implies atoms@.contains(#[trigger] r@[k]) by {
                if k < j {
                    assert(r@[k] == r0[k]);
                } else if k == j {
                    assert(atoms@[i as int] == a);
                } else {
                    assert(r@[k] == r0[k - 1]);
                }
            }
        }
        i = i + 1;
    }
    r
}

/// Node `x` has at every bit what `e` says of the atoms.
pub open spec fn conveys(terms: Seq<Term>, x: u32, e: Bx, atoms: Seq<u32>, w: nat) -> bool {
    &&& x < terms.len()
    &&& term::twidth(terms[x as int]) == w
    &&& term::tok(terms[x as int])
    &&& forall|env: Env, b: int|
        #![trigger term::value(terms[x as int], env)[b]]
        0 <= b < w ==> term::value(terms[x as int], env)[b] == tables::says(
            e,
            comb_at(atoms, xor::env_vals(terms, env), b),
        )
}

/// The atoms are nodes of width `w`.
pub open spec fn atoms_at(terms: Seq<Term>, atoms: Seq<u32>, w: nat) -> bool {
    forall|k: int|
        #![trigger atoms[k]]
        0 <= k < atoms.len() ==> atoms[k] < terms.len() && term::twidth(terms[atoms[k] as int]) == w
            && term::tok(terms[atoms[k] as int])
}

/// What atoms say does not change as the arena grows.
proof fn lemma_comb_grow(terms: Seq<Term>, more: Seq<Term>, atoms: Seq<u32>, w: nat, env: Env, b: int)
    requires
        atoms_at(terms, atoms, w),
        forall|i: int| 0 <= i < terms.len() ==> #[trigger] more[i] == terms[i],
    ensures
        comb_at(atoms, xor::env_vals(more, env), b) == comb_at(atoms, xor::env_vals(terms, env), b),
{
    assert forall|k: int| 0 <= k < 3 implies #[trigger] atom_bit(atoms, xor::env_vals(more, env), k, b)
        == atom_bit(atoms, xor::env_vals(terms, env), k, b) by {
        if k < atoms.len() {
            assert(more[atoms[k] as int] == terms[atoms[k] as int]);
        }
    }
    let u = xor::env_vals(more, env);
    let v = xor::env_vals(terms, env);
    assert(atom_bit(atoms, u, 0, b) == atom_bit(atoms, v, 0, b));
    assert(atom_bit(atoms, u, 1, b) == atom_bit(atoms, v, 1, b));
    assert(atom_bit(atoms, u, 2, b) == atom_bit(atoms, v, 2, b));
}

/// A node goes on conveying an expression as the arena grows.
proof fn lemma_conveys_grow(
    terms: Seq<Term>,
    more: Seq<Term>,
    x: u32,
    e: Bx,
    atoms: Seq<u32>,
    w: nat,
)
    requires
        conveys(terms, x, e, atoms, w),
        atoms_at(terms, atoms, w),
        terms.len() <= more.len(),
        forall|i: int| 0 <= i < terms.len() ==> #[trigger] more[i] == terms[i],
    ensures
        conveys(more, x, e, atoms, w),
{
    assert(more[x as int] == terms[x as int]);
    assert forall|env: Env, b: int|
        #![trigger term::value(more[x as int], env)[b]]
        0 <= b < w implies term::value(more[x as int], env)[b] == tables::says(
        e,
        comb_at(atoms, xor::env_vals(more, env), b),
    ) by {
        lemma_comb_grow(terms, more, atoms, w, env, b);
        let _ = term::value(terms[x as int], env)[b];
    }
}

/// Every node built so far conveys its part of the template.
pub open spec fn built_ok(
    terms: Seq<Term>,
    built: Seq<u32>,
    t: Seq<T>,
    atoms: Seq<u32>,
    w: nat,
) -> bool {
    forall|k: int|
        #![trigger built[k]]
        0 <= k < built.len() ==> conveys(terms, built[k], tables::meaning(t, k as nat), atoms, w)
}

impl<'a> Runner<'a> {
    /// The description of `root`, computing (iteratively) and caching those below it.
    fn info_of(&mut self, cx: &Context, root: u32) -> (out: Result<Info, Stop>)
        requires
            old(self).wf(cx),
            root < cx.n(),
        ensures
            runner::went(final(self), cx, old(self), cx),
            out matches Err(e) ==> final(self).refuses(cx, e),
            out matches Ok(r) ==> info_ok(r.atoms@, r.tt, cx.tm(), root as int),
    {
        let mut stack: Vec<(u32, bool)> = vec![(root, false)];
        while stack.len() > 0
            invariant
                runner::went(self, cx, old(self), cx),
                root < cx.n(),
                dfs::staying(stack@, cx.n()),
                dfs::waiting(stack@, described(self.infos@), cx.nodes@),
                self.infos@.contains_key(root) || (stack@.len() > 0 && stack@[0].0 == root),
            decreases dfs::freight(stack@),
        {
            let ghost stack0 = stack@;
            let ghost done0 = described(self.infos@);
            let top = match stack.pop() {
                Some(t) => t,
                None => {
                    return Ok(leaf_info(cx, root));
                },
            };
            let (i, expanded) = top;
            assert(stack0.last() == top);
            assert(stack@ =~= stack0.drop_last());
            proof {
                dfs::lemma_freight_push(stack@, top);
                assert(stack0 =~= stack@.push(top));
                dfs::lemma_heft_pos(i as nat);
            }
            if self.infos.contains_key(&i) {
                proof {
                    dfs::lemma_wait_done(stack0, done0, done0, cx.nodes@);
                }
                continue;
            }
            let node = cx.node(i);
            let f = if !bitwise_op(&node) {
                leaf_info(cx, i)
            } else if !expanded {
                let kept = &self.infos;
                let is_done = |c: u32| -> (b: bool)
                    ensures
                        b == kept@.contains_key(c),
                {
                    kept.contains_key(&c)
                };
                expand(cx, &mut stack, i, is_done, Ghost(stack0), Ghost(done0));
                continue;
            } else {
                self.charge(Counter::PassWork, 1)?;
                proof {
                    dfs::lemma_wait_top(stack0, done0, cx.nodes@);
                    assert forall|j: int| 0 <= j < expr::kids(cx.nodes@[i as int]).len() implies
                    self.infos@.contains_key(#[trigger] expr::kids(cx.nodes@[i as int])[j]) by {
                        assert(done0(expr::kids(cx.nodes@[i as int])[j]));
                    }
                }
                match self.info_at(cx, i) {
                    Some(f) => f,
                    None => {
                        let c = self.stats.passes.entry(PassKind::Bitwise);
                        c.atomized = bump(c.atomized);
                        leaf_info(cx, i)
                    },
                }
            };
            proof {
                reveal(infos_ok);
            }
            self.infos.insert(i, f);
            proof {
                dfs::lemma_wait_done(stack0, done0, described(self.infos@), cx.nodes@);
            }
        }
        proof {
            reveal(infos_ok);
        }
        match self.infos.get(&root) {
            Some(f) => {
                let atoms = f.atoms.clone();
                assert(atoms@ =~= f.atoms@);
                Ok(Info { atoms, tt: f.tt })
            },
            None => Ok(leaf_info(cx, root)),
        }
    }

    /// The description of a bitwise node from those of its operands: none when there would be
    /// more than three atoms.
    fn info_at(&self, cx: &Context, i: u32) -> (r: Option<Info>)
        requires
            self.wf(cx),
            i < cx.n(),
            is_bitwise_op(cx.nodes@[i as int]),
            forall|j: int|
                0 <= j < expr::kids(cx.nodes@[i as int]).len() ==> self.infos@.contains_key(
                    #[trigger] expr::kids(cx.nodes@[i as int])[j],
                ),
        ensures
            r matches Some(f) ==> info_ok(f.atoms@, f.tt, cx.tm(), i as int),
    {
        let node = cx.node(i);
        proof {
            reveal(infos_ok);
        }
        match node {
            Node::Un(UnOp::Not, a) => {
                assert(expr::kids(cx.nodes@[i as int])[0] == a);
                match self.infos.get(&a) {
                    Some(f) => Some(complement(cx, i, a, f)),
                    None => None,
                }
            },
            Node::Bin(_, a, b) => {
                assert(expr::kids(cx.nodes@[i as int])[0] == a);
                assert(expr::kids(cx.nodes@[i as int])[1] == b);
                match (self.infos.get(&a), self.infos.get(&b)) {
                    (Some(f), Some(g)) => join(cx, i, &node, f, g),
                    _ => None,
                }
            },
            _ => None,
        }
    }

    /// Builds the minimum form of `form` over `atoms` (in the order the table's variables use).
    pub(crate) fn bitwise_emit(
        &mut self,
        cx: &mut Context,
        form: &MinForm,
        tt: u8,
        atoms: &Vec<u32>,
        w: u16,
    ) -> (out: Result<u32, Stop>)
        requires
            old(self).wf(old(cx)),
            tables::form_ok(*form, tt),
            atoms@.len() <= 3,
            1 <= w <= MAX_WIDTH,
            atoms_at(old(cx).tm(), atoms@, w as nat),
        ensures
            runner::went(final(self), final(cx), old(self), old(cx)),
            out matches Err(e) ==> final(self).refuses(final(cx), e),
            out matches Ok(e) ==> conveys(
                final(cx).tm(),
                e,
                tables::root_of(form.nodes@),
                atoms@,
                w as nat,
            ),
    {
        let ghost t = form.nodes@;
        let mut built: Vec<u32> = Vec::with_capacity(form.nodes.len());
        let mut k: usize = 0;
        while k < form.nodes.len()
            invariant
                runner::went(self, cx, old(self), old(cx)),
                t == form.nodes@,
                tables::template_ok(t),
                k <= t.len(),
                built@.len() == k,
                atoms@.len() <= 3,
                1 <= w <= MAX_WIDTH,
                atoms_at(cx.tm(), atoms@, w as nat),
                built_ok(cx.tm(), built@, t, atoms@, w as nat),
            decreases form.nodes.len() - k,
        {
            self.charge(Counter::PassWork, 1)?;
            let ghost cx0 = *cx;
            let ghost e = tables::meaning(t, k as nat);
            assert(t[k as int] == form.nodes@[k as int]);
            let id: u32 = match &form.nodes[k] {
                T::Var(v) => {
                    let v: usize = *v as usize;
                    if v < atoms.len() {
                        let a = atoms[v];
                        proof {
                            assert forall|env: Env, b: int|
                                #![trigger term::value(cx.tm()[a as int], env)[b]]
                                0 <= b < w implies term::value(cx.tm()[a as int], env)[b] == tables::says(
                                e,
                                comb_at(atoms@, xor::env_vals(cx.tm(), env), b),
                            ) by {
                                let vals = xor::env_vals(cx.tm(), env);
                                tables::lemma_comb(
                                    atom_bit(atoms@, vals, 0, b),
                                    atom_bit(atoms@, vals, 1, b),
                                    atom_bit(atoms@, vals, 2, b),
                                );
                                assert(term::value(cx.tm()[a as int], env)[b] == atom_bit(
                                    atoms@,
                                    vals,
                                    v as int,
                                    b,
                                ));
                            }
                        }
                        a
                    } else {
                        let x = self.mk_const(cx, &BitVec::zero(Width { bits: w }))?;
                        proof {
                            assert forall|env: Env, b: int|
                                #![trigger term::value(cx.tm()[x as int], env)[b]]
                                0 <= b < w implies term::value(cx.tm()[x as int], env)[b] == tables::says(
                                e,
                                comb_at(atoms@, xor::env_vals(cx.tm(), env), b),
                            ) by {
                                let vals = xor::env_vals(cx.tm(), env);
                                tables::lemma_comb(
                                    atom_bit(atoms@, vals, 0, b),
                                    atom_bit(atoms@, vals, 1, b),
                                    atom_bit(atoms@, vals, 2, b),
                                );
                                assert(!atom_bit(atoms@, vals, v as int, b));
                                assert(cx.val(x as int, env) == bits::zeros(w as nat));
                            }
                        }
                        x
                    }
                },
                T::Zero => {
                    let x = self.mk_const(cx, &BitVec::zero(Width { bits: w }))?;
                    proof {
                        assert forall|env: Env, b: int|
                            #![trigger term::value(cx.tm()[x as int], env)[b]]
                            0 <= b < w implies term::value(cx.tm()[x as int], env)[b] == tables::says(
                            e,
                            comb_at(atoms@, xor::env_vals(cx.tm(), env), b),
                        ) by {
                            assert(cx.val(x as int, env) == bits::zeros(w as nat));
                        }
                    }
                    x
                },
                T::Ones => {
                    let x = self.mk_const(cx, &BitVec::ones(Width { bits: w }))?;
                    proof {
                        assert forall|env: Env, b: int|
                            #![trigger term::value(cx.tm()[x as int], env)[b]]
                            0 <= b < w implies term::value(cx.tm()[x as int], env)[b] == tables::says(
                            e,
                            comb_at(atoms@, xor::env_vals(cx.tm(), env), b),
                        ) by {
                            assert(cx.val(x as int, env) == bits::ones(w as nat));
                        }
                    }
                    x
                },
                T::Not(a) => {
                    let ia: usize = *a;
                    let y = built[ia];
                    let x = self.c_un(cx, UnOp::Not, y)?;
                    proof {
                        lemma_same_comb(&cx0, cx, atoms@, w as nat);
                        assert forall|env: Env, b: int|
                            #![trigger term::value(cx.tm()[x as int], env)[b]]
                            0 <= b < w implies term::value(cx.tm()[x as int], env)[b] == tables::says(
                            e,
                            comb_at(atoms@, xor::env_vals(cx.tm(), env), b),
                        ) by {
                            lemma_comb_grow(cx0.tm(), cx.tm(), atoms@, w as nat, env, b);
                            assert(cx.val(x as int, env) == ops::un_value(
                                UnOp::Not,
                                cx0.val(y as int, env),
                            ));
                            let _ = term::value(cx0.tm()[y as int], env)[b];
                        }
                    }
                    x
                },
                T::Bin(op, a, b) => {
                    let ia: usize = *a;
                    let ib: usize = *b;
                    let y = built[ia];
                    let z = built[ib];
                    let ghost o = *op;
                    let x = self.c_bin(cx, *op, y, z)?;
                    proof {
                        lemma_same_comb(&cx0, cx, atoms@, w as nat);
                        assert forall|env: Env, b: int|
                            #![trigger term::value(cx.tm()[x as int], env)[b]]
                            0 <= b < w implies term::value(cx.tm()[x as int], env)[b] == tables::says(
                            e,
                            comb_at(atoms@, xor::env_vals(cx.tm(), env), b),
                        ) by {
                            lemma_comb_grow(cx0.tm(), cx.tm(), atoms@, w as nat, env, b);
                            assert(cx.val(x as int, env) == ops::bin_value(
                                o,
                                cx0.val(y as int, env),
                                cx0.val(z as int, env),
                            ));
                            let _ = term::value(cx0.tm()[y as int], env)[b];
                            let _ = term::value(cx0.tm()[z as int], env)[b];
                        }
                    }
                    x
                },
            };
            proof {
                lemma_same_comb(&cx0, cx, atoms@, w as nat);
                assert(cx.ok_at(id as int));
                assert(conveys(cx.tm(), id, e, atoms@, w as nat));
                let prior = built@;
                assert forall|j: int| #![trigger prior[j]] 0 <= j < prior.len() implies conveys(
                    cx.tm(),
                    prior[j],
                    tables::meaning(t, j as nat),
                    atoms@,
                    w as nat,
                ) by {
                    lemma_conveys_grow(
                        cx0.tm(),
                        cx.tm(),
                        prior[j],
                        tables::meaning(t, j as nat),
                        atoms@,
                        w as nat,
                    );
                }
            }
            built.push(id);
            k = k + 1;
        }
        self.checked()?;
        Ok(built[built.len() - 1])
    }

    /// The bitwise pass at `n`.
    pub(crate) fn bitwise_step(&mut self, cx: &mut Context, n: u32) -> (out: Result<Step, Stop>)
        requires
            old(self).wf(old(cx)),
            n < old(cx).n(),
        ensures
            runner::went(final(self), final(cx), old(self), old(cx)),
            out matches Err(e) ==> final(self).refuses(final(cx), e),
            out matches Ok(s) ==> fin::step_keeps(s, final(cx).tm(), final(self).hyp@, n as int),
            old(self).refuses_all() ==> !(out matches Ok(Step::To(_, _))),
            !is_bitwise_op(old(cx).nodes@[n as int]) ==> out matches Ok(Step::Normal(_)),
    {
        let node = cx.node(n);
        if !bitwise_op(&node) {
            return Ok(Step::Normal(Fin::full()));
        }
        let info = self.info_of(cx, n)?;
        if info.atoms.len() == 1 && info.atoms[0] == n {
            return Ok(Step::Normal(Fin::full()));
        }
        let w = cx.wid(n);
        let ghost tm = cx.tm();
        proof {
            assert(cx.ok_at(n as int));
            assert forall|k: int| 0 <= k < info.atoms@.len() implies #[trigger] info.atoms@[k]
                < cx.n() by {}
        }
        let canon = canonical(cx, &info.atoms);
        let tt = remap(info.tt, &info.atoms, &canon);
        proof {
            assert(atoms_at(tm, canon@, w as nat)) by {
                assert forall|k: int| #![trigger canon@[k]] 0 <= k < canon@.len() implies canon@[k]
                    < tm.len() && term::twidth(tm[canon@[k] as int]) == w && term::tok(
                    tm[canon@[k] as int],
                ) by {
                    let q = choose|q: int|
                        0 <= q < info.atoms@.len() && info.atoms@[q] == canon@[k];
                    let _ = info.atoms@[q];
                }
            }
        }
        // A constant needs a width: when the function ignores every atom, use the node's.
        let forms = self.forms;
        let form = match forms.get(tt) {
            Some(f) => f,
            None => {
                return Ok(Step::Normal(Fin::full()));
            },
        };
        // Upper bound on new nodes: the template's operators and constants.
        let estimate = made_by(form);
        if let Some(f) = self.worth_building(cx, n, &info.atoms, estimate)? {
            let c = self.stats.passes.entry(PassKind::Bitwise);
            c.rejected_cost = bump(c.rejected_cost);
            return Ok(Step::Normal(Fin::full().and(f)));
        }
        let before: u32 = cx.len() as u32;
        let ghost cx0 = *cx;
        let e = self.bitwise_emit(cx, form, tt, &canon, w)?;
        proof {
            lemma_same_comb(&cx0, cx, canon@, w as nat);
            assert forall|env: Env|
                #![trigger term::value(cx.tm()[n as int], env)]
                #![trigger term::value(cx.tm()[e as int], env)]
                true implies term::value(cx.tm()[n as int], env) == term::value(cx.tm()[e as int], env) by {
                let x = term::value(cx.tm()[n as int], env);
                let y = term::value(cx.tm()[e as int], env);
                assert(cx.tm()[n as int] == tm[n as int]);
                assert(cx.ok_at(n as int));
                assert(cx.ok_at(e as int));
                assert forall|b: int| 0 <= b < w implies #[trigger] x[b] == y[b] by {
                    let vals = xor::env_vals(tm, env);
                    let _ = term::value(tm[n as int], env)[b];
                    lemma_comb_grow(tm, cx.tm(), canon@, w as nat, env, b);
                    let c = comb_at(canon@, vals, b);
                    tables::lemma_comb(
                        atom_bit(canon@, vals, 0, b),
                        atom_bit(canon@, vals, 1, b),
                        atom_bit(canon@, vals, 2, b),
                    );
                    tables::lemma_proper(form.nodes@, (form.nodes@.len() - 1) as nat);
                    tables::lemma_says(tables::root_of(form.nodes@), c);
                    let _ = term::value(cx.tm()[e as int], env)[b];
                }
                assert(x =~= y);
            }
        }
        self.finish(cx, PassKind::Bitwise, n, e, before, &info.atoms, Fin::full())
    }
}

/// Atoms stay what they are as the arena grows.
proof fn lemma_same_comb(cx0: &Context, cx1: &Context, atoms: Seq<u32>, w: nat)
    requires
        atoms_at(cx0.tm(), atoms, w),
        cx0.wf(),
        cx1.wf(),
        cx1.grew(cx0),
    ensures
        atoms_at(cx1.tm(), atoms, w),
        forall|i: int| 0 <= i < cx0.n() ==> #[trigger] cx1.tm()[i] == cx0.tm()[i],
{
    assert forall|k: int| #![trigger atoms[k]] 0 <= k < atoms.len() implies atoms[k]
        < cx1.tm().len() && term::twidth(cx1.tm()[atoms[k] as int]) == w && term::tok(
        cx1.tm()[atoms[k] as int],
    ) by {
        assert(cx1.tm()[atoms[k] as int] == cx0.tm()[atoms[k] as int]);
    }
}

/// The nodes a template makes besides its variables.
pub(crate) fn made_by(form: &MinForm) -> (r: u32)
    ensures
        r <= form.nodes@.len(),
{
    let mut r: u32 = 0;
    let mut k: usize = 0;
    while k < form.nodes.len()
        invariant
            k <= form.nodes.len(),
            r <= k,
        decreases form.nodes.len() - k,
    {
        let var = match &form.nodes[k] {
            T::Var(_) => true,
            _ => false,
        };
        if !var && r < u32::MAX {
            r = r + 1;
        }
        k = k + 1;
    }
    r
}

} // verus!
