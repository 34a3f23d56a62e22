//! Linear maps over GF(2) (called by the xor pass): an expression built from one atom `x` by
//! `^`, `~`, masks, shifts and rotations by constants, byte swaps and bit reversals is
//! `M*x ^ c` over GF(2), and `M` is, uniquely, the xor of rotations of `x` masked by its
//! diagonals: the sum over `k` of `rotl(x, k) & d_k`. That form is emitted, each term as the
//! rotation, shift or mask it is, when it is smaller: an involution such as
//! `y ^ (y >>u 5) ^ (y >>u 7)` with `y = x ^ (x >>u 5) ^ (x >>u 7)` is `x`, and rotations
//! composed with xors of themselves cancel. What is emitted is read back, and is taken only if
//! it is the same map.

use vstd::prelude::*;
use crate::bits;
use crate::ops;
use crate::term;
use crate::engine::fin;
use crate::engine::runner;
use crate::bitvec::BitVec;
use crate::engine::budget::Counter;
use crate::engine::fin::{Fin, Step, Stop};
use crate::engine::runner::Runner;
use crate::engine::stats::PassKind;
use crate::expr::{Context, Node};
use crate::ops::{BinOp, UnOp};
use crate::term::{Env, Term};

verus! {

broadcast use crate::term::lemma_value_len;

/// The most nodes of the expression.
pub const MAX_NODES: usize = 64;

/// The widest values read.
const MAX_BITS: u16 = 128;

/// The xor of the bits of `s` that `r` selects.
pub open spec fn parity(r: Seq<bool>, s: Seq<bool>) -> bool
    decreases r.len(),
{
    if r.len() == 0 {
        false
    } else {
        parity(r.drop_last(), s) != (r.last() && s[r.len() - 1])
    }
}

/// Xors of selections.
proof fn lemma_parity_xor(a: Seq<bool>, b: Seq<bool>, s: Seq<bool>)
    requires
        a.len() == b.len(),
    ensures
        parity(ops::xor_bits(a, b), s) == (parity(a, s) != parity(b, s)),
    decreases a.len(),
{
    let x = ops::xor_bits(a, b);
    if a.len() > 0 {
        assert(x.drop_last() =~= ops::xor_bits(a.drop_last(), b.drop_last()));
        lemma_parity_xor(a.drop_last(), b.drop_last(), s);
    }
}

/// Nothing selected.
proof fn lemma_parity_zero(w: nat, s: Seq<bool>)
    ensures
        !parity(bits::zeros(w), s),
    decreases w,
{
    if w > 0 {
        assert(bits::zeros(w).drop_last() =~= bits::zeros((w - 1) as nat));
        lemma_parity_zero((w - 1) as nat, s);
    }
}

/// One bit selected.
proof fn lemma_parity_unit(r: Seq<bool>, j: int, s: Seq<bool>)
    requires
        0 <= j < r.len(),
        forall|i: int| 0 <= i < r.len() ==> #[trigger] r[i] == (i == j),
    ensures
        parity(r, s) == s[j],
    decreases r.len(),
{
    let d = r.drop_last();
    let n = r.len() - 1;
    let _ = r[n];
    if j == n {
        assert(d =~= bits::zeros(d.len()));
        lemma_parity_zero(d.len(), s);
    } else {
        assert forall|i: int| 0 <= i < d.len() implies #[trigger] d[i] == (i == j) by {
            assert(d[i] == r[i]);
        }
        lemma_parity_unit(d, j, s);
    }
}

/// A map: which bits each bit is the xor of, and what is added.
pub struct Affine {
    /// For each bit, the bits it reads.
    pub rows: Vec<BitVec>,
    /// What is added.
    pub konst: BitVec,
}

/// Bit `i` of a map at `s`.
pub open spec fn bit_at(m: Affine, s: Seq<bool>, i: int) -> bool {
    m.konst@[i] != parity(m.rows@[i]@, s)
}

/// A map of `w` bits.
pub open spec fn fits(m: Affine, w: nat) -> bool {
    &&& m.rows@.len() == w
    &&& m.konst@.len() == w
    &&& forall|i: int| #![trigger m.rows@[i]] 0 <= i < w ==> m.rows@[i]@.len() == w
}

/// Node `n` is the map at node `x`.
pub open(crate) spec fn reads(m: Affine, cx: &Context, n: u32, x: u32) -> bool {
    &&& fits(m, cx.w(n as int))
    &&& forall|env: Env, i: int|
        #![trigger cx.val(n as int, env)[i]]
        0 <= i < cx.w(n as int) ==> cx.val(n as int, env)[i] == bit_at(m, cx.val(x as int, env), i)
}

/// The identity.
fn identity(w: usize) -> (m: Affine)
    ensures
        fits(m, w as nat),
        forall|s: Seq<bool>, i: int| 0 <= i < w ==> #[trigger] bit_at(m, s, i) == s[i],
{
    let mut rows: Vec<BitVec> = Vec::with_capacity(w);
    let mut i: usize = 0;
    while i < w
        invariant
            i <= w,
            rows@.len() == i,
            forall|j: int| #![trigger rows@[j]] 0 <= j < i ==> unit_row(rows@[j]@, j, w as nat),
        decreases w - i,
    {
        rows.push(unit(w, i));
        i = i + 1;
    }
    let m = Affine { rows, konst: BitVec::fill(w, false) };
    proof {
        assert forall|s: Seq<bool>, i: int| 0 <= i < w implies #[trigger] bit_at(m, s, i) == s[i] by {
            let _ = m.rows@[i];
            lemma_parity_unit(m.rows@[i]@, i, s);
        }
    }
    m
}

/// Only bit `j` is set.
spec fn unit_row(r: Seq<bool>, j: int, w: nat) -> bool {
    r.len() == w && forall|i: int| 0 <= i < w ==> #[trigger] r[i] == (i == j)
}

/// Only bit `j` set.
fn unit(w: usize, j: usize) -> (r: BitVec)
    ensures
        unit_row(r@, j as int, w as nat),
{
    let mut v: Vec<bool> = Vec::with_capacity(w);
    let mut i: usize = 0;
    while i < w
        invariant
            i <= w,
            v@.len() == i,
            forall|k: int| 0 <= k < i ==> #[trigger] v@[k] == (k == j),
        decreases w - i,
    {
        v.push(i == j);
        i = i + 1;
    }
    BitVec::from_bools(v)
}

/// The constant `k`.
fn constant(k: &BitVec) -> (m: Affine)
    ensures
        fits(m, k@.len()),
        forall|s: Seq<bool>, i: int| 0 <= i < k@.len() ==> #[trigger] bit_at(m, s, i) == k@[i],
{
    let w: usize = k.len();
    let mut rows: Vec<BitVec> = Vec::with_capacity(w);
    let mut i: usize = 0;
    while i < w
        invariant
            i <= w,
            rows@.len() == i,
            forall|j: int| #![trigger rows@[j]] 0 <= j < i ==> rows@[j]@ == bits::zeros(w as nat),
        decreases w - i,
    {
        let z = BitVec::fill(w, false);
        assert(z@ =~= bits::zeros(w as nat));
        rows.push(z);
        i = i + 1;
    }
    let m = Affine { rows, konst: k.dup() };
    proof {
        assert forall|s: Seq<bool>, i: int| 0 <= i < k@.len() implies #[trigger] bit_at(m, s, i)
            == k@[i] by {
            let _ = m.rows@[i];
            lemma_parity_zero(w as nat, s);
        }
    }
    m
}

/// The xor of two maps.
fn joined(a: &Affine, b: &Affine, Ghost(w): Ghost<nat>) -> (m: Affine)
    requires
        fits(*a, w),
        fits(*b, w),
    ensures
        fits(m, w),
        forall|s: Seq<bool>, i: int|
            0 <= i < w ==> #[trigger] bit_at(m, s, i) == (bit_at(*a, s, i) != bit_at(*b, s, i)),
{
    let mut rows: Vec<BitVec> = Vec::with_capacity(a.rows.len());
    let mut i: usize = 0;
    while i < a.rows.len()
        invariant
            fits(*a, w),
            fits(*b, w),
            i <= a.rows@.len(),
            rows@.len() == i,
            forall|j: int|
                #![trigger rows@[j]]
                0 <= j < i ==> rows@[j]@ == ops::xor_bits(a.rows@[j]@, b.rows@[j]@),
        decreases a.rows@.len() - i,
    {
        proof {
            let _ = a.rows@[i as int];
            let _ = b.rows@[i as int];
        }
        rows.push(a.rows[i].xor(&b.rows[i]));
        i = i + 1;
    }
    let m = Affine { rows, konst: a.konst.xor(&b.konst) };
    proof {
        assert forall|k: int| #![trigger m.rows@[k]] 0 <= k < w implies m.rows@[k]@.len() == w by {
            let _ = a.rows@[k];
        }
        assert forall|s: Seq<bool>, i: int| 0 <= i < w implies #[trigger] bit_at(m, s, i) == (bit_at(
            *a,
            s,
            i,
        ) != bit_at(*b, s, i)) by {
            let _ = m.rows@[i];
            let _ = a.rows@[i];
            let _ = b.rows@[i];
            lemma_parity_xor(a.rows@[i]@, b.rows@[i]@, s);
        }
    }
    m
}

/// Where a bit of a result comes from.
#[derive(Clone, Copy, Debug, PartialEq, Eq, Structural)]
pub enum Source {
    /// A bit of the operand.
    Bit(usize),
    /// A constant.
    Is(bool),
}

/// The bit that `f` says, of `s`.
pub open spec fn said(f: Source, s: Seq<bool>) -> bool {
    match f {
        Source::Bit(j) => s[j as int],
        Source::Is(b) => b,
    }
}

/// Every source is a bit.
pub open spec fn sources_ok(fs: Seq<Source>, w: nat) -> bool {
    &&& fs.len() == w
    &&& forall|i: int| 0 <= i < w ==> (#[trigger] fs[i] matches Source::Bit(j) ==> j < w)
}

/// The row and the constant of a bit that comes from `f`.
spec fn row_of(a: Affine, f: Source, row: Seq<bool>, k: bool, w: nat) -> bool {
    match f {
        Source::Bit(j) => row == a.rows@[j as int]@ && k == a.konst@[j as int],
        Source::Is(b) => row == bits::zeros(w) && k == b,
    }
}

/// A map's bits rearranged.
fn moved(a: &Affine, fs: &Vec<Source>, Ghost(w): Ghost<nat>) -> (m: Affine)
    requires
        fits(*a, w),
        sources_ok(fs@, w),
    ensures
        fits(m, w),
        forall|s: Seq<bool>, i: int|
            0 <= i < w ==> #[trigger] bit_at(m, s, i) == (match fs@[i] {
                Source::Bit(j) => bit_at(*a, s, j as int),
                Source::Is(b) => b,
            }),
{
    let n: usize = fs.len();
    let mut rows: Vec<BitVec> = Vec::with_capacity(n);
    let mut konst: Vec<bool> = Vec::with_capacity(n);
    let mut i: usize = 0;
    while i < n
        invariant
            fits(*a, w),
            sources_ok(fs@, w),
            n == w,
            i <= n,
            rows@.len() == i,
            konst@.len() == i,
            forall|j: int|
                #![trigger rows@[j]]
                0 <= j < i ==> row_of(*a, fs@[j], rows@[j]@, konst@[j], w),
        decreases n - i,
    {
        let ghost r0 = rows@;
        let ghost k0 = konst@;
        proof {
            let _ = fs@[i as int];
        }
        match fs[i] {
            Source::Bit(j) => {
                rows.push(a.rows[j].dup());
                konst.push(a.konst.at(j));
            },
            Source::Is(b) => {
                let z = BitVec::fill(n, false);
                assert(z@ =~= bits::zeros(w));
                rows.push(z);
                konst.push(b);
            },
        }
        proof {
            assert(row_of(*a, fs@[i as int], rows@[i as int]@, konst@[i as int], w));
            assert forall|j: int| #![trigger rows@[j]] 0 <= j < i + 1 implies row_of(
                *a,
                fs@[j],
                rows@[j]@,
                konst@[j],
                w,
            ) by {
                if j < i {
                    assert(rows@[j] == r0[j] && konst@[j] == k0[j]);
                }
            }
        }
        i = i + 1;
    }
    let m = Affine { rows, konst: BitVec::from_bools(konst) };
    proof {
        assert forall|k: int| #![trigger m.rows@[k]] 0 <= k < w implies m.rows@[k]@.len() == w by {
            let _ = fs@[k];
            if let Source::Bit(j) = fs@[k] {
                let _ = a.rows@[j as int];
            }
        }
        assert forall|s: Seq<bool>, i: int| 0 <= i < w implies #[trigger] bit_at(m, s, i) == (
        match fs@[i] {
            Source::Bit(j) => bit_at(*a, s, j as int),
            Source::Is(b) => b,
        }) by {
            let _ = m.rows@[i];
            lemma_parity_zero(w, s);
        }
    }
    m
}

/// Where the bits of a node come from in its operand `a`, if it rearranges them.
fn sources(cx: &Context, n: u32) -> (r: Option<(u32, Vec<Source>)>)
    requires
        cx.wf(),
        n < cx.n(),
    ensures
        r matches Some((a, fs)) ==> a < n && cx.w(a as int) == cx.w(n as int) && sources_ok(
            fs@,
            cx.w(n as int),
        ) && forall|env: Env, i: int|
            #![trigger cx.val(n as int, env)[i]]
            0 <= i < cx.w(n as int) ==> cx.val(n as int, env)[i] == said(
                fs@[i],
                cx.val(a as int, env),
            ),
{
    let w: usize = cx.wid(n) as usize;
    proof {
        assert(cx.ok_at(n as int));
    }
    let node = cx.node(n);
    let (a, k, op): (u32, Option<BitVec>, Option<BinOp>) = match node {
        Node::Un(op, a) => {
            if op != UnOp::Bswap && op != UnOp::BitRev {
                return None;
            }
            (a, None, None)
        },
        Node::Bin(op, a, b) => {
            proof {
                assert(cx.ok_at(a as int));
                assert(cx.ok_at(b as int));
            }
            match (cx.const_val(a), cx.const_val(b)) {
                (None, Some(k)) => (a, Some(k), Some(op)),
                (Some(k), None) => {
                    if op != BinOp::And && op != BinOp::Or {
                        return None;
                    }
                    (b, Some(k), Some(op))
                },
                _ => {
                    return None;
                },
            }
        },
        _ => {
            return None;
        },
    };
    let mut fs: Vec<Source> = Vec::with_capacity(w);
    let mut i: usize = 0;
    while i < w
        invariant
            cx.wf(),
            n < cx.n(),
            cx.ok_at(n as int),
            cx.ok_at(a as int),
            node == cx.nodes@[n as int],
            a < n,
            i <= w,
            w == cx.w(n as int),
            1 <= w <= 512,
            cx.w(a as int) == w,
            match node {
                Node::Un(op, x) => x == a && (op == UnOp::Bswap || op == UnOp::BitRev),
                Node::Bin(o, x, y) => op == Some(o) && (k matches Some(v) && v@.len() == w && ((a == x
                    && cx.tm()[y as int] == Term::Const(v@)) || ((o == BinOp::And || o == BinOp::Or)
                    && a == y && cx.tm()[x as int] == Term::Const(v@)))),
                _ => false,
            },
            fs@.len() == i,
            forall|j: int| 0 <= j < i ==> (#[trigger] fs@[j] matches Source::Bit(q) ==> q < w),
            forall|env: Env, j: int|
                #![trigger cx.val(n as int, env)[j]]
                0 <= j < i ==> cx.val(n as int, env)[j] == said(fs@[j], cx.val(a as int, env)),
        decreases w - i,
    {
        let ghost f0 = fs@;
        let f = match node {
            Node::Un(op, _) => if op == UnOp::BitRev {
                Source::Bit(w - 1 - i)
            } else {
                proof {
                    assert(cx.w(n as int) % 8 == 0);
                    assert((w / 8 - 1 - i / 8) * 8 + i % 8 < w);
                }
                Source::Bit((w / 8 - 1 - i / 8) * 8 + i % 8)
            },
            Node::Bin(op, _, _) => match &k {
                Some(v) => {
                    match op {
                        BinOp::And => if v.at(i) {
                            Source::Bit(i)
                        } else {
                            Source::Is(false)
                        },
                        BinOp::Or => if v.at(i) {
                            Source::Is(true)
                        } else {
                            Source::Bit(i)
                        },
                        BinOp::Shl => {
                            let s: usize = v.amount(w);
                            if i >= s {
                                Source::Bit(i - s)
                            } else {
                                Source::Is(false)
                            }
                        },
                        BinOp::LShr => {
                            let s: usize = v.amount(w);
                            if i + s < w {
                                Source::Bit(i + s)
                            } else {
                                Source::Is(false)
                            }
                        },
                        BinOp::AShr => {
                            let s: usize = v.amount(w);
                            if i + s < w {
                                Source::Bit(i + s)
                            } else {
                                Source::Bit(w - 1)
                            }
                        },
                        BinOp::RotL => {
                            let s: usize = v.modulo(w);
                            proof {
                                lemma_back(i as int, bits::nat_of(v@) as int, w as int);
                            }
                            Source::Bit((i + w - s) % w)
                        },
                        BinOp::RotR => {
                            let s: usize = v.modulo(w);
                            proof {
                                lemma_forth(i as int, bits::nat_of(v@) as int, w as int);
                            }
                            Source::Bit((i + s) % w)
                        },
                        _ => {
                            return None;
                        },
                    }
                },
                None => {
                    return None;
                },
            },
            _ => {
                return None;
            },
        };
        fs.push(f);
        proof {
            assert forall|env: Env, j: int|
                #![trigger cx.val(n as int, env)[j]]
                0 <= j < i + 1 implies cx.val(n as int, env)[j] == said(
                fs@[j],
                cx.val(a as int, env),
            ) by {
                if j < i {
                    assert(fs@[j] == f0[j]);
                } else {
                    assert(fs@[j] == f);
                    if let Node::Bin(o, x, y) = node {
                        let v = k->Some_0;
                        if a == x {
                            assert(cx.val(y as int, env) == v@);
                        } else {
                            assert(cx.val(x as int, env) == v@);
                        }
                    }
                }
            }
        }
        i = i + 1;
    }
    Some((a, fs))
}

/// A left rotation reads `n` bits back.
proof fn lemma_back(i: int, n: int, w: int)
    requires
        0 <= i < w,
        n >= 0,
    ensures
        (i - n) % w == (i + w - n % w) % w,
        0 <= (i + w - n % w) % w < w,
{
    vstd::arithmetic::div_mod::lemma_mod_bound(n, w);
    vstd::arithmetic::div_mod::lemma_mod_bound(i + w - n % w, w);
    vstd::arithmetic::div_mod::lemma_sub_mod_noop_right(i, n, w);
    vstd::arithmetic::div_mod::lemma_mod_add_multiples_vanish(i - n % w, w);
}

/// A right rotation reads `n` bits on.
proof fn lemma_forth(i: int, n: int, w: int)
    requires
        0 <= i < w,
        n >= 0,
    ensures
        (i - (w - n % w)) % w == (i + n % w) % w,
        0 <= (i + n % w) % w < w,
{
    vstd::arithmetic::div_mod::lemma_mod_bound(n, w);
    vstd::arithmetic::div_mod::lemma_mod_bound(i + n % w, w);
    vstd::arithmetic::div_mod::lemma_mod_sub_multiples_vanish(i + n % w, w);
}

/// Copies a map.
fn copied(a: &Affine, Ghost(w): Ghost<nat>) -> (m: Affine)
    requires
        fits(*a, w),
    ensures
        fits(m, w),
        forall|s: Seq<bool>, i: int| 0 <= i < w ==> #[trigger] bit_at(m, s, i) == bit_at(*a, s, i),
{
    let mut fs: Vec<Source> = Vec::with_capacity(a.rows.len());
    let mut i: usize = 0;
    while i < a.rows.len()
        invariant
            i <= a.rows@.len(),
            fs@.len() == i,
            forall|j: int| 0 <= j < i ==> #[trigger] fs@[j] == Source::Bit(j as usize),
        decreases a.rows@.len() - i,
    {
        fs.push(Source::Bit(i));
        i = i + 1;
    }
    moved(a, &fs, Ghost(w))
}

/// A map found.
pub struct Mapped {
    /// Of this node.
    pub n: u32,
    /// The map.
    pub m: Affine,
}

/// The maps found are right.
spec fn mapped_ok(memo: Seq<Mapped>, cx: &Context, x: u32) -> bool {
    forall|k: int|
        #![trigger memo[k]]
        0 <= k < memo.len() ==> memo[k].n < cx.n() && reads(memo[k].m, cx, memo[k].n, x)
}

/// The map that node `n` is of node `x`, if it is one.
fn map_of(cx: &Context, n: u32, x: u32, memo: &mut Vec<Mapped>) -> (r: Option<Affine>)
    requires
        cx.wf(),
        n < cx.n(),
        x < cx.n(),
        mapped_ok(old(memo)@, cx, x),
    ensures
        mapped_ok(final(memo)@, cx, x),
        r matches Some(m) ==> reads(m, cx, n, x),
    decreases n,
{
    let w: usize = cx.wid(n) as usize;
    proof {
        assert(cx.ok_at(n as int));
    }
    let mut k: usize = 0;
    while k < memo.len()
        invariant
            k <= memo@.len(),
            memo@ == old(memo)@,
            mapped_ok(memo@, cx, x),
            w == cx.w(n as int),
        decreases memo@.len() - k,
    {
        if memo[k].n == n {
            proof {
                let _ = memo@[k as int];
            }
            let m = copied(&memo[k].m, Ghost(w as nat));
            return Some(m);
        }
        k = k + 1;
    }
    if n == x {
        return Some(identity(w));
    }
    if memo.len() > 2 * MAX_NODES {
        return None;
    }
    if let Some(v) = cx.const_val(n) {
        return Some(constant(&v));
    }
    let m = match sources(cx, n) {
        Some((a, fs)) => {
            let ma = map_of(cx, a, x, memo)?;
            let m = moved(&ma, &fs, Ghost(w as nat));
            proof {
                assert forall|env: Env, i: int|
                    #![trigger cx.val(n as int, env)[i]]
                    0 <= i < w implies cx.val(n as int, env)[i] == bit_at(
                    m,
                    cx.val(x as int, env),
                    i,
                ) by {
                    let _ = fs@[i];
                    if let Source::Bit(j) = fs@[i] {
                        let _ = cx.val(a as int, env)[j as int];
                    }
                }
            }
            m
        },
        None => match cx.node(n) {
            Node::Bin(BinOp::Xor, a, b) => {
                let ma = map_of(cx, a, x, memo)?;
                let mb = map_of(cx, b, x, memo)?;
                let m = joined(&ma, &mb, Ghost(w as nat));
                proof {
                    assert forall|env: Env, i: int|
                        #![trigger cx.val(n as int, env)[i]]
                        0 <= i < w implies cx.val(n as int, env)[i] == bit_at(
                        m,
                        cx.val(x as int, env),
                        i,
                    ) by {
                        let _ = cx.val(a as int, env)[i];
                        let _ = cx.val(b as int, env)[i];
                    }
                }
                m
            },
            Node::Un(UnOp::Not, a) => {
                let ma = map_of(cx, a, x, memo)?;
                let ones = constant(&BitVec::fill(w, true));
                let m = joined(&ma, &ones, Ghost(w as nat));
                proof {
                    assert forall|env: Env, i: int|
                        #![trigger cx.val(n as int, env)[i]]
                        0 <= i < w implies cx.val(n as int, env)[i] == bit_at(
                        m,
                        cx.val(x as int, env),
                        i,
                    ) by {
                        let _ = cx.val(a as int, env)[i];
                        assert(bit_at(ones, cx.val(x as int, env), i));
                    }
                }
                m
            },
            _ => {
                return None;
            },
        },
    };
    let ghost m0 = memo@;
    let c = copied(&m, Ghost(w as nat));
    memo.push(Mapped { n, m: c });
    proof {
        assert forall|k: int| #![trigger memo@[k]] 0 <= k < memo@.len() implies memo@[k].n < cx.n()
            && reads(memo@[k].m, cx, memo@[k].n, x) by {
            if k < m0.len() {
                assert(memo@[k] == m0[k]);
            }
        }
    }
    Some(m)
}

/// Whether two maps are one.
fn same_map(a: &Affine, b: &Affine, Ghost(w): Ghost<nat>) -> (r: bool)
    requires
        fits(*a, w),
        fits(*b, w),
    ensures
        r ==> forall|s: Seq<bool>, i: int|
            0 <= i < w ==> #[trigger] bit_at(*a, s, i) == bit_at(*b, s, i),
{
    if !a.konst.same(&b.konst) {
        return false;
    }
    let mut i: usize = 0;
    while i < a.rows.len()
        invariant
            fits(*a, w),
            fits(*b, w),
            i <= a.rows@.len(),
            forall|j: int| #![trigger a.rows@[j]] 0 <= j < i ==> a.rows@[j]@ == b.rows@[j]@,
        decreases a.rows@.len() - i,
    {
        if !a.rows[i].same(&b.rows[i]) {
            return false;
        }
        i = i + 1;
    }
    proof {
        assert forall|s: Seq<bool>, i: int| 0 <= i < w implies #[trigger] bit_at(*a, s, i) == bit_at(
            *b,
            s,
            i,
        ) by {
            let _ = a.rows@[i];
        }
    }
    true
}

/// The diagonals of a map: for each rotation, the bits that read the bit it brings, where there
/// are any.
fn diagonals(m: &Affine, w: usize) -> (r: Vec<(usize, BitVec)>)
    requires
        fits(*m, w as nat),
        0 < w <= 512,
    ensures
        r@.len() <= w,
        forall|i: int| #![trigger r@[i]] 0 <= i < r@.len() ==> r@[i].0 < w && r@[i].1@.len() == w,
{
    let mut r: Vec<(usize, BitVec)> = Vec::new();
    let mut k: usize = 0;
    while k < w
        invariant
            fits(*m, w as nat),
            0 < w <= 512,
            k <= w,
            r@.len() <= k,
            forall|i: int|
                #![trigger r@[i]]
                0 <= i < r@.len() ==> r@[i].0 < w && r@[i].1@.len() == w,
        decreases w - k,
    {
        let mut d: Vec<bool> = Vec::with_capacity(w);
        let mut i: usize = 0;
        while i < w
            invariant
                fits(*m, w as nat),
                0 < w <= 512,
                k < w,
                i <= w,
                d@.len() == i,
            decreases w - i,
        {
            proof {
                let _ = m.rows@[i as int];
                vstd::arithmetic::div_mod::lemma_mod_bound((i + w - k) as int, w as int);
            }
            d.push(m.rows[i].at((i + w - k) % w));
            i = i + 1;
        }
        let d = BitVec::from_bools(d);
        if !d.is_zero() {
            r.push((k, d));
        }
        k = k + 1;
    }
    r
}

/// Whether a node is linear over GF(2) at one width, and whether it moves bits (masks and counts
/// are checked later).
fn linear_node(cx: &Context, n: u32) -> (r: Option<bool>)
    requires
        cx.wf(),
        n < cx.n(),
{
    match cx.node(n) {
        Node::Un(op, _) => match op {
            UnOp::Not => Some(false),
            UnOp::Bswap | UnOp::BitRev => Some(true),
            _ => None,
        },
        Node::Bin(op, _, _) => match op {
            BinOp::Xor | BinOp::And | BinOp::Or => Some(false),
            BinOp::Shl | BinOp::LShr | BinOp::AShr | BinOp::RotL | BinOp::RotR => Some(true),
            _ => None,
        },
        _ => None,
    }
}

/// Whether a list holds `x`.
fn has(v: &Vec<u32>, x: u32) -> (r: bool)
    ensures
        r == v@.contains(x),
{
    let mut i: usize = 0;
    while i < v.len()
        invariant
            i <= v@.len(),
            forall|j: int| 0 <= j < i ==> v@[j] != x,
        decreases v@.len() - i,
    {
        if v[i] == x {
            return true;
        }
        i = i + 1;
    }
    false
}

/// What is below a node.
struct Region {
    /// The one atom.
    atom: Option<u32>,
    /// The nodes met.
    seen: Vec<u32>,
    /// How many of them are linear.
    count: usize,
    /// Whether one moves bits.
    moves: bool,
}

/// Reads the linear nodes below `n`: false where there are two atoms, too many nodes, or a
/// count that is not a constant.
fn survey(cx: &Context, n: u32, w: u16, r: &mut Region) -> (ok: bool)
    requires
        cx.wf(),
        n < cx.n(),
        old(r).count <= MAX_NODES,
        old(r).atom matches Some(x) ==> x < cx.n(),
    ensures
        final(r).count <= MAX_NODES,
        final(r).atom matches Some(x) ==> x < cx.n(),
    decreases n,
{
    if has(&r.seen, n) {
        return true;
    }
    r.seen.push(n);
    if cx.is_const(n) {
        return true;
    }
    proof {
        assert(cx.ok_at(n as int));
    }
    match linear_node(cx, n) {
        Some(moves) => {
            if cx.wid(n) != w {
                return at_atom(n, r, Ghost(cx.n()));
            }
            if moves {
                r.moves = true;
            }
            if r.count >= MAX_NODES {
                return false;
            }
            r.count = r.count + 1;
            match cx.node(n) {
                Node::Un(_, a) => survey(cx, a, w, r),
                Node::Bin(_, a, b) => {
                    if moves {
                        // Counts are part of their operation.
                        cx.is_const(b) && survey(cx, a, w, r)
                    } else {
                        survey(cx, a, w, r) && survey(cx, b, w, r)
                    }
                },
                _ => false,
            }
        },
        None => at_atom(n, r, Ghost(cx.n())),
    }
}

/// The atom is `n`, if none other is.
fn at_atom(n: u32, r: &mut Region, Ghost(len): Ghost<int>) -> (ok: bool)
    requires
        old(r).count <= MAX_NODES,
        n < len,
        old(r).atom matches Some(x) ==> x < len,
    ensures
        final(r).count == old(r).count,
        final(r).atom matches Some(x) ==> x < len,
{
    match r.atom {
        None => {
            r.atom = Some(n);
            true
        },
        Some(a) => a == n,
    }
}

impl<'a> Runner<'a> {
    /// One term of the diagonal form: `rotl(x, k) & d`.
    fn gf2_term(&mut self, cx: &mut Context, x: u32, k: usize, d: &BitVec) -> (out: Result<u32, Stop>)
        requires
            old(self).wf(old(cx)),
            x < old(cx).n(),
            d@.len() == old(cx).w(x as int),
            k < d@.len(),
        ensures
            runner::went(final(self), final(cx), old(self), old(cx)),
            out matches Err(e) ==> final(self).refuses(final(cx), e),
            out matches Ok(e) ==> e < final(cx).n() && final(cx).w(e as int) == d@.len(),
    {
        let w: usize = d.len();
        let ghost cx0 = *cx;
        proof {
            assert(cx.ok_at(x as int));
        }
        let shl = BitVec::fill(w, true).shl(k);
        let (op, by, mask) = if k == 0 {
            if d.is_ones() {
                return Ok(x);
            }
            (BinOp::And, 0usize, true)
        } else if d.same(&shl) {
            (BinOp::Shl, k, false)
        } else if d.same(&shl.not()) {
            (BinOp::LShr, w - k, false)
        } else {
            (BinOp::RotL, k, !d.is_ones())
        };
        let moved = if op == BinOp::And {
            x
        } else {
            let c = self.mk_const(cx, &BitVec::from_u64(w, by as u64))?;
            let ghost cx1 = *cx;
            proof {
                assert(cx1.tm()[x as int] == cx0.tm()[x as int]);
                assert(cx1.ok_at(c as int));
            }
            self.c_bin(cx, op, x, c)?
        };
        if !mask {
            return Ok(moved);
        }
        let ghost cx2 = *cx;
        let m = self.mk_const(cx, d)?;
        proof {
            assert(cx.tm()[moved as int] == cx2.tm()[moved as int]);
            assert(cx2.ok_at(moved as int));
        }
        self.c_bin(cx, BinOp::And, moved, m)
    }

    /// The diagonal form of a map of `x`.
    fn gf2_emit(
        &mut self,
        cx: &mut Context,
        x: u32,
        terms: &Vec<(usize, BitVec)>,
        c: &BitVec,
    ) -> (out: Result<u32, Stop>)
        requires
            old(self).wf(old(cx)),
            x < old(cx).n(),
            c@.len() == old(cx).w(x as int),
            forall|i: int|
                #![trigger terms@[i]]
                0 <= i < terms@.len() ==> terms@[i].0 < c@.len() && terms@[i].1@.len() == c@.len(),
        ensures
            runner::went(final(self), final(cx), old(self), old(cx)),
            out matches Err(e) ==> final(self).refuses(final(cx), e),
            out matches Ok(e) ==> e < final(cx).n() && final(cx).w(e as int) == c@.len(),
    {
        let ghost cx0 = *cx;
        proof {
            assert(cx.ok_at(x as int));
        }
        let mut acc: Option<u32> = None;
        let mut i: usize = 0;
        while i < terms.len()
            invariant
                runner::went(self, cx, old(self), old(cx)),
                cx0 == *old(cx),
                x < cx0.n(),
                c@.len() == cx0.w(x as int),
                i <= terms@.len(),
                forall|j: int|
                    #![trigger terms@[j]]
                    0 <= j < terms@.len() ==> terms@[j].0 < c@.len() && terms@[j].1@.len()
                        == c@.len(),
                acc matches Some(a) ==> a < cx.n() && cx.w(a as int) == c@.len(),
            decreases terms@.len() - i,
        {
            let ghost cx1 = *cx;
            proof {
                let _ = terms@[i as int];
                assert(cx1.tm()[x as int] == cx0.tm()[x as int]);
            }
            let t = self.gf2_term(cx, x, terms[i].0, &terms[i].1)?;
            acc = match acc {
                None => Some(t),
                Some(a) => {
                    proof {
                        assert(cx.tm()[a as int] == cx1.tm()[a as int]);
                        assert(cx.ok_at(a as int));
                        assert(cx.ok_at(t as int));
                    }
                    Some(self.c_bin(cx, BinOp::Xor, a, t)?)
                },
            };
            i = i + 1;
        }
        match acc {
            None => self.mk_const(cx, c),
            Some(a) => {
                if c.is_zero() {
                    return Ok(a);
                }
                let ghost cx1 = *cx;
                let k = self.mk_const(cx, c)?;
                proof {
                    assert(cx.tm()[a as int] == cx1.tm()[a as int]);
                    assert(cx.ok_at(a as int));
                }
                self.c_bin(cx, BinOp::Xor, a, k)
            },
        }
    }

    /// The xor pass's linear reading of `n`, if it applies.
    pub(crate) fn gf2_step(&mut self, cx: &mut Context, n: u32) -> (out: Result<Option<Step>, Stop>)
        requires
            old(self).wf(old(cx)),
            n < old(cx).n(),
        ensures
            runner::went(final(self), final(cx), old(self), old(cx)),
            out matches Err(e) ==> final(self).refuses(final(cx), e),
            out matches Ok(Some(s)) ==> fin::step_keeps(
                s,
                final(cx).tm(),
                final(self).hyp@,
                n as int,
            ),
            old(self).refuses_all() ==> !(out matches Ok(Some(Step::To(_, _)))),
    {
        let w = cx.wid(n);
        if w > MAX_BITS || w < 2 || linear_node(cx, n).is_none() {
            return Ok(None);
        }
        let mut region = Region { atom: None, seen: Vec::new(), count: 0, moves: false };
        if !survey(cx, n, w, &mut region) {
            return Ok(None);
        }
        let x = match region.atom {
            Some(x) => x,
            None => {
                return Ok(None);
            },
        };
        // A form of one term costs 4 nodes, and replacing `n` frees at most the region's
        // operators and their constant operands: too small a region never pays.
        if !region.moves || 2 * region.count <= 4 || cx.wid(x) != w {
            return Ok(None);
        }
        self.charge(Counter::PassWork, region.count as u64 * 4)?;
        proof {
            assert(cx.ok_at(n as int));
            assert(cx.ok_at(x as int));
        }
        let mut memo: Vec<Mapped> = Vec::new();
        let map = match map_of(cx, n, x, &mut memo) {
            Some(m) => m,
            None => {
                return Ok(None);
            },
        };
        let terms = diagonals(&map, w as usize);
        // Each term is at most a rotation or shift with its count, a mask; an xor joins each.
        let extra: u32 = if map.konst.is_zero() {
            0
        } else {
            2
        };
        let estimate: u32 = terms.len() as u32 * 4 + extra;
        if estimate >= 2 * region.count as u32 {
            return Ok(None);
        }
        let atoms: Vec<u32> = vec![x];
        if let Some(f) = self.worth_building(cx, n, &atoms, estimate)? {
            return Ok(Some(Step::Normal(f)));
        }
        let before: u32 = cx.len() as u32;
        let ghost cx0 = *cx;
        let ghost h = self.hyp@;
        let e = self.gf2_emit(cx, x, &terms, &map.konst)?;
        proof {
            assert(cx.tm()[n as int] == cx0.tm()[n as int]);
            assert(cx.tm()[x as int] == cx0.tm()[x as int]);
            assert(cx.ok_at(n as int));
            assert(cx.ok_at(e as int));
        }
        // What was emitted is read back.
        let mut again: Vec<Mapped> = Vec::new();
        let back = match map_of(cx, e, x, &mut again) {
            Some(m) => m,
            None => {
                self.discard(cx, before);
                return Ok(None);
            },
        };
        if !same_map(&map, &back, Ghost(w as nat)) {
            self.discard(cx, before);
            return Ok(None);
        }
        let fin = Fin::full();
        proof {
            assert forall|env: Env|
                #![trigger term::value(cx.tm()[n as int], env)]
                #![trigger term::value(cx.tm()[e as int], env)]
                fin.rel.admits(h, env) implies term::value(cx.tm()[n as int], env) == term::value(
                cx.tm()[e as int],
                env,
            ) by {
                let s = cx0.val(n as int, env);
                let t = cx.val(e as int, env);
                let v = cx0.val(x as int, env);
                assert forall|i: int| 0 <= i < w implies s[i] == t[i] by {
                    assert(cx0.val(n as int, env)[i] == bit_at(map, v, i));
                    assert(cx.val(e as int, env)[i] == bit_at(back, cx.val(x as int, env), i));
                    assert(cx.val(x as int, env) == v);
                    assert(bit_at(map, v, i) == bit_at(back, v, i));
                }
                assert(s =~= t);
            }
        }
        let step = self.finish(cx, PassKind::Xor, n, e, before, &atoms, fin)?;
        Ok(Some(step))
    }
}

} // verus!
