//! Expressions as hosts make and read them.

use vstd::prelude::*;
use crate::term;
use crate::reach;
use crate::ops;
use crate::expr;
use crate::bits;
use crate::bitvec::{BitVec, Width, MAX_WIDTH};
use crate::expr::{Context, Error, Expr, Fail, Node, NodeView};
use crate::ops::{BinOp, CmpOpExt, UnOp};
use crate::term::{Env, Term};

verus! {

broadcast use {crate::term::lemma_value_len, vstd::std_specs::hash::group_hash_axioms};

/// The value of a symbol in a list of assignments: that of the first entry for its key.
pub open spec fn entry_of(a: Seq<(u64, BitVec)>, key: int) -> Option<Seq<bool>>
    decreases a.len(),
{
    if a.len() == 0 {
        None
    } else if a[0].0 == key {
        Some(a[0].1@)
    } else {
        entry_of(a.skip(1), key)
    }
}

/// The assignment that a list says: bits that no entry gives are clear.
pub open spec fn env_of(a: Seq<(u64, BitVec)>) -> Env {
    |key: int, i: int|
        match entry_of(a, key) {
            Some(v) => 0 <= i < v.len() && v[i],
            None => false,
        }
}

/// The value of symbol `key` of `w` bits.
fn assigned(a: &Vec<(u64, BitVec)>, key: u64, w: usize) -> (r: BitVec)
    ensures
        r@ == Seq::new(w as nat, |i: int| env_of(a@)(key as int, i)),
{
    let mut k: usize = 0;
    assert(a@.skip(0) =~= a@);
    while k < a.len()
        invariant
            k <= a@.len(),
            entry_of(a@, key as int) == entry_of(a@.skip(k as int), key as int),
        decreases a@.len() - k,
    {
        assert(a@.skip(k as int).skip(1) =~= a@.skip(k + 1));
        assert(a@.skip(k as int)[0] == a@[k as int]);
        if a[k].0 == key {
            let r = if a[k].1.len() >= w {
                a[k].1.extract(0, w)
            } else {
                a[k].1.zext(w)
            };
            assert(r@ =~= Seq::new(w as nat, |i: int| env_of(a@)(key as int, i)));
            return r;
        }
        k = k + 1;
    }
    assert(a@.skip(k as int) =~= Seq::<(u64, BitVec)>::empty());
    let r = BitVec::fill(w, false);
    assert(r@ =~= Seq::new(w as nat, |i: int| env_of(a@)(key as int, i)));
    r
}

/// Node `x` of one arena is a copy of node `j` of another.
pub open spec fn copy_of(src: Seq<Term>, dst: Seq<Term>, j: int, x: int) -> bool {
    &&& 0 <= x < dst.len()
    &&& term::twidth(dst[x]) == term::twidth(src[j])
    &&& forall|env: Env|
        #![trigger term::value(src[j], env)]
        term::value(dst[x], env) == term::value(src[j], env)
}

/// Every marked node so far is copied.
pub open spec fn copied(map: Seq<u32>, m: Seq<bool>, src: Seq<Term>, dst: Seq<Term>) -> bool {
    forall|j: int|
        #![trigger map[j]]
        0 <= j < map.len() && m[j] ==> copy_of(src, dst, j, map[j] as int)
}

/// What a failure to make a node is to a host.
fn failed(x: Result<u32, Fail>) -> (r: Result<Expr, Error>)
    ensures
        x matches Ok(i) ==> r == Ok::<Expr, Error>(Expr { id: i }),
        x is Err ==> r == Err::<Expr, Error>(Error::ArenaFull),
{
    match x {
        Ok(id) => Ok(Expr { id }),
        Err(_) => Err(Error::ArenaFull),
    }
}

/// A view of a node as its users see it says what the node is.
pub open spec fn seen(v: NodeView, node: Node) -> bool {
    match node {
        Node::Const(_) => v == NodeView::Const,
        Node::Sym(k) => v == NodeView::Sym(k),
        Node::Un(op, a) => v == NodeView::Un(op, Expr { id: a }),
        Node::Bin(op, a, b) => v == NodeView::Bin(op, Expr { id: a }, Expr { id: b }),
        Node::Cmp(op, a, b) => v == NodeView::Cmp(op, Expr { id: a }, Expr { id: b }),
        Node::Zext(a) => v == NodeView::Zext(Expr { id: a }),
        Node::Sext(a) => v == NodeView::Sext(Expr { id: a }),
        Node::Extract(a, lo) => v == NodeView::Extract(Expr { id: a }, lo),
        Node::Concat(h, l) => v == NodeView::Concat(Expr { id: h }, Expr { id: l }),
        Node::Select(c, t, f) => v == NodeView::Select(
            Expr { id: c },
            Expr { id: t },
            Expr { id: f },
        ),
    }
}

impl Context {
    /// The handle is one of the arena.
    pub open(crate) spec fn has(&self, e: Expr) -> bool {
        e.id < self.n()
    }

    /// The value of `e` at `env`.
    pub open(crate) spec fn value(&self, e: Expr, env: Env) -> Seq<bool> {
        self.val(e.id as int, env)
    }

    /// The width of `e`.
    pub open(crate) spec fn width_of(&self, e: Expr) -> nat {
        self.w(e.id as int)
    }

    /// Node `e` is there, of this width.
    pub open(crate) spec fn made(&self, e: Expr, w: nat) -> bool {
        self.has(e) && self.width_of(e) == w
    }

    /// The number of nodes.
    pub open(crate) spec fn count(&self) -> int {
        self.n()
    }

    /// Lets the host make nodes.
    fn unbound(&mut self)
        requires
            old(self).wf(),
        ensures
            final(self).wf(),
            final(self).grew(old(self)),
            final(self).n() == old(self).n(),
            final(self).terms == old(self).terms,
            final(self).consts == old(self).consts,
            final(self).quota == u64::MAX,
    {
        self.quota = u64::MAX;
        proof {
            assert forall|i: int| 0 <= i < self.n() implies #[trigger] self.ok_at(i) by {
                assert(old(self).ok_at(i));
            }
        }
    }

    /// Whether `e` is a handle of the arena.
    pub fn contains(&self, e: Expr) -> (r: bool)
        requires
            self.wf(),
        ensures
            r == self.has(e),
    {
        (e.id as usize) < self.len()
    }

    /// The width of `e`.
    pub fn width(&self, e: Expr) -> (r: Result<Width, Error>)
        requires
            self.wf(),
        ensures
            r is Ok <==> self.has(e),
            r matches Ok(w) ==> w.n() == self.width_of(e) && w.ok(),
            r matches Err(x) ==> x == Error::BadHandle,
    {
        if !self.contains(e) {
            return Err(Error::BadHandle);
        }
        Ok(Width { bits: self.wid(e.id) })
    }

    /// The node of `e`.
    pub fn view(&self, e: Expr) -> (r: Result<NodeView, Error>)
        requires
            self.wf(),
        ensures
            r is Ok <==> self.has(e),
            r matches Ok(v) ==> self.sees(e, v),
            r matches Err(x) ==> x == Error::BadHandle,
    {
        if !self.contains(e) {
            return Err(Error::BadHandle);
        }
        Ok(
            match self.node(e.id) {
                Node::Const(_) => NodeView::Const,
                Node::Sym(k) => NodeView::Sym(k),
                Node::Un(op, a) => NodeView::Un(op, Expr { id: a }),
                Node::Bin(op, a, b) => NodeView::Bin(op, Expr { id: a }, Expr { id: b }),
                Node::Cmp(op, a, b) => NodeView::Cmp(op, Expr { id: a }, Expr { id: b }),
                Node::Zext(a) => NodeView::Zext(Expr { id: a }),
                Node::Sext(a) => NodeView::Sext(Expr { id: a }),
                Node::Extract(a, lo) => NodeView::Extract(Expr { id: a }, lo),
                Node::Concat(h, l) => NodeView::Concat(Expr { id: h }, Expr { id: l }),
                Node::Select(c, t, f) => NodeView::Select(
                    Expr { id: c },
                    Expr { id: t },
                    Expr { id: f },
                ),
            },
        )
    }

    /// The view is of the node of `e`.
    pub open(crate) spec fn sees(&self, e: Expr, v: NodeView) -> bool {
        seen(v, self.nodes@[e.id as int])
    }

    /// The value of `e`, if it is a constant.
    pub fn as_const(&self, e: Expr) -> (r: Result<Option<BitVec>, Error>)
        requires
            self.wf(),
        ensures
            r is Ok <==> self.has(e),
            r matches Err(x) ==> x == Error::BadHandle,
            r matches Ok(Some(v)) ==> forall|env: Env| #[trigger] self.value(e, env) == v@,
            r matches Ok(o) ==> (o is Some <==> self.constant_at(e)),
    {
        if !self.contains(e) {
            return Err(Error::BadHandle);
        }
        Ok(self.const_val(e.id))
    }

    /// `e` is a constant.
    pub open(crate) spec fn constant_at(&self, e: Expr) -> bool {
        self.nodes@[e.id as int] is Const
    }

    /// The value of `e` at an assignment; symbols without an entry, and bits beyond one, are 0.
    pub fn eval(&self, e: Expr, a: &Vec<(u64, BitVec)>) -> (r: Result<BitVec, Error>)
        requires
            self.wf(),
        ensures
            r is Ok <==> self.has(e),
            r matches Ok(v) ==> v@ == self.value(e, env_of(a@)),
            r matches Err(x) ==> x == Error::BadHandle,
    {
        if !self.contains(e) {
            return Err(Error::BadHandle);
        }
        let root: u32 = e.id;
        let ghost env = env_of(a@);
        let ghost all = reach::reach(self.nodes@, root as int);
        let m = self.marks(root);
        proof {
            reach::lemma_reach_top(self.nodes@, root as int);
        }
        let mut vals: Vec<Option<BitVec>> = Vec::with_capacity(m.len());
        let mut i: usize = 0;
        while i < m.len()
            invariant
                self.wf(),
                root < self.n(),
                env == env_of(a@),
                all == reach::reach(self.nodes@, root as int),
                m@.len() == root + 1,
                forall|j: int| 0 <= j <= root ==> #[trigger] m@[j] == all.contains(j),
                i <= m@.len(),
                vals@.len() == i,
                forall|j: int|
                    #![trigger vals@[j]]
                    0 <= j < i && m@[j] ==> vals@[j] is Some && vals@[j]->0@ == self.val(j, env),
            decreases m@.len() - i,
        {
            if !m[i] {
                vals.push(None);
                i = i + 1;
                continue;
            }
            let node = self.node(i as u32);
            let v = match node {
                Node::Sym(k) => {
                    let w: usize = self.wid(i as u32) as usize;
                    let v = assigned(a, k, w);
                    assert(v@ =~= self.val(i as int, env));
                    v
                },
                _ => {
                    let cs = node.children();
                    let mut ks: Vec<BitVec> = Vec::with_capacity(3);
                    let mut k: usize = 0;
                    while k < cs.len()
                        invariant
                            self.wf(),
                            root < self.n(),
                            i <= root,
                            all == reach::reach(self.nodes@, root as int),
                            m@.len() == root + 1,
                            m@[i as int],
                            forall|j: int| 0 <= j <= root ==> #[trigger] m@[j] == all.contains(j),
                            vals@.len() == i,
                            forall|j: int|
                                #![trigger vals@[j]]
                                0 <= j < i && m@[j] ==> vals@[j] is Some && vals@[j]->0@
                                    == self.val(j, env),
                            cs@ == expr::kids(self.nodes@[i as int]),
                            forall|q: int| 0 <= q < cs@.len() ==> #[trigger] cs@[q] < i,
                            k <= cs@.len(),
                            ks@.len() == k,
                            forall|j: int|
                                #![trigger ks@[j]]
                                0 <= j < k ==> ks@[j]@ == self.val(cs@[j] as int, env),
                        decreases cs@.len() - k,
                    {
                        let c = cs[k];
                        proof {
                            assert(expr::kids(self.nodes@[i as int])[k as int] == c);
                            reach::lemma_reach_kid(self.nodes@, root as int, i as int, c as int);
                            assert(m@[c as int]);
                        }
                        match &vals[c as usize] {
                            Some(x) => {
                                ks.push(x.dup());
                            },
                            None => {
                                return Err(Error::BadHandle);
                            },
                        }
                        k = k + 1;
                    }
                    self.node_value(i as u32, &ks, Ghost(env))
                },
            };
            vals.push(Some(v));
            i = i + 1;
        }
        match &vals[root as usize] {
            Some(x) => Ok(x.dup()),
            None => Err(Error::BadHandle),
        }
    }

    /// The symbol with key `key`, of `w` bits.
    pub fn symbol(&mut self, key: u64, w: Width) -> (r: Result<Expr, Error>)
        requires
            old(self).wf(),
            w.ok(),
        ensures
            final(self).wf(),
            final(self).grew(old(self)),
            r matches Ok(e) ==> final(self).made(e, w.n()) && forall|env: Env|
                #[trigger] final(self).value(e, env) == Seq::new(w.n(), |i: int| env(key as int, i)),
            old(self).count() < old(self).limit() ==> r is Ok,
            r matches Err(x) ==> x == Error::ArenaFull,
    {
        self.unbound();
        let x = self.intern(Node::Sym(key), w.bits);
        failed(x)
    }

    /// A constant.
    pub fn constant(&mut self, v: &BitVec) -> (r: Result<Expr, Error>)
        requires
            old(self).wf(),
        ensures
            final(self).wf(),
            final(self).grew(old(self)),
            r matches Ok(e) ==> final(self).made(e, v@.len()) && forall|env: Env|
                #[trigger] final(self).value(e, env) == v@,
            1 <= v@.len() <= MAX_WIDTH && old(self).count() < old(self).limit() ==> r is Ok,
            r matches Err(x) ==> x == (if 1 <= v@.len() <= MAX_WIDTH {
                Error::ArenaFull
            } else {
                Error::BadWidth
            }),
    {
        if v.len() < 1 || v.len() > MAX_WIDTH as usize {
            return Err(Error::BadWidth);
        }
        self.unbound();
        let x = self.mk_const(v);
        failed(x)
    }

    /// The constant `v` of `w` bits (it must fit).
    pub fn constant_u64(&mut self, w: Width, v: u64) -> (r: Result<Expr, Error>)
        requires
            old(self).wf(),
            w.ok(),
        ensures
            final(self).wf(),
            final(self).grew(old(self)),
            r matches Ok(e) ==> final(self).made(e, w.n()) && forall|env: Env|
                bits::nat_of(#[trigger] final(self).value(e, env)) == v,
            v < vstd::arithmetic::power2::pow2(w.n()) && old(self).count() < old(self).limit()
                ==> r is Ok,
            r matches Err(x) ==> x == (if v < vstd::arithmetic::power2::pow2(w.n()) {
                Error::ArenaFull
            } else {
                Error::DoesNotFit
            }),
    {
        let x = BitVec::wrapping_from_u64(w, v);
        proof {
            bits::lemma_nat_bits_of(v as int, w.n());
            vstd::arithmetic::power2::lemma_pow2_pos(w.n());
            if v < vstd::arithmetic::power2::pow2(w.n()) {
                vstd::arithmetic::div_mod::lemma_small_mod(
                    v as nat,
                    vstd::arithmetic::power2::pow2(w.n()),
                );
            } else {
                bits::lemma_nat_bound(x@);
            }
        }
        match x.to_u64() {
            Some(y) => {
                if y != v {
                    return Err(Error::DoesNotFit);
                }
            },
            None => {
                return Err(Error::DoesNotFit);
            },
        }
        self.constant(&x)
    }

    /// A unary operator.
    pub fn un(&mut self, op: UnOp, a: Expr) -> (r: Result<Expr, Error>)
        requires
            old(self).wf(),
        ensures
            final(self).wf(),
            final(self).grew(old(self)),
            r matches Ok(e) ==> final(self).made(e, old(self).width_of(a)) && forall|env: Env|
                #[trigger] final(self).value(e, env) == ops::un_value(op, old(self).value(a, env)),
            old(self).has(a) && (op == UnOp::Bswap ==> old(self).width_of(a) % 8 == 0) && old(self).count() + 1 <= old(self).limit() ==> r is Ok,
            r is Ok ==> old(self).has(a) && (op == UnOp::Bswap ==> old(self).width_of(a) % 8 == 0),
            r matches Err(x) ==> x == (if !(old(self).has(a)) {
                Error::BadHandle
            } else if !((op == UnOp::Bswap ==> old(self).width_of(a) % 8 == 0)) {
                Error::BadWidth
            } else {
                Error::ArenaFull
            }),
    {
        if !(self.contains(a)) {
            return Err(Error::BadHandle);
        }
        if !(op != UnOp::Bswap || self.wid(a.id) % 8 == 0) {
            return Err(Error::BadWidth);
        }
        self.unbound();
        let x = self.c_un(op, a.id);
        failed(x)
    }

    /// A binary operator.
    pub fn bin(&mut self, op: BinOp, a: Expr, b: Expr) -> (r: Result<Expr, Error>)
        requires
            old(self).wf(),
        ensures
            final(self).wf(),
            final(self).grew(old(self)),
            r matches Ok(e) ==> final(self).made(e, old(self).width_of(a)) && forall|env: Env|
                #[trigger] final(self).value(e, env) == ops::bin_value(op, old(self).value(a, env), old(self).value(b, env)),
            old(self).has(a) && old(self).has(b) && old(self).width_of(a) == old(self).width_of(b) && old(self).count() + 2 <= old(self).limit() ==> r is Ok,
            r is Ok ==> old(self).has(a) && old(self).has(b) && old(self).width_of(a) == old(self).width_of(b),
            r matches Err(x) ==> x == (if !(old(self).has(a)) {
                Error::BadHandle
            } else if !(old(self).has(b)) {
                Error::BadHandle
            } else if !(old(self).width_of(a) == old(self).width_of(b)) {
                Error::WidthMismatch
            } else {
                Error::ArenaFull
            }),
    {
        if !(self.contains(a)) {
            return Err(Error::BadHandle);
        }
        if !(self.contains(b)) {
            return Err(Error::BadHandle);
        }
        if !(self.wid(a.id) == self.wid(b.id)) {
            return Err(Error::WidthMismatch);
        }
        self.unbound();
        let x = self.c_bin(op, a.id, b.id);
        failed(x)
    }

    /// A comparison (1-bit result).
    pub fn compare(&mut self, op: CmpOpExt, a: Expr, b: Expr) -> (r: Result<Expr, Error>)
        requires
            old(self).wf(),
        ensures
            final(self).wf(),
            final(self).grew(old(self)),
            r matches Ok(e) ==> final(self).made(e, 1) && forall|env: Env|
                #[trigger] final(self).value(e, env) == ops::bool_bits(ops::holds_ext(op, old(self).value(a, env), old(self).value(b, env))),
            old(self).has(a) && old(self).has(b) && old(self).width_of(a) == old(self).width_of(b) && old(self).count() + 1 <= old(self).limit() ==> r is Ok,
            r is Ok ==> old(self).has(a) && old(self).has(b) && old(self).width_of(a) == old(self).width_of(b),
            r matches Err(x) ==> x == (if !(old(self).has(a)) {
                Error::BadHandle
            } else if !(old(self).has(b)) {
                Error::BadHandle
            } else if !(old(self).width_of(a) == old(self).width_of(b)) {
                Error::WidthMismatch
            } else {
                Error::ArenaFull
            }),
    {
        if !(self.contains(a)) {
            return Err(Error::BadHandle);
        }
        if !(self.contains(b)) {
            return Err(Error::BadHandle);
        }
        if !(self.wid(a.id) == self.wid(b.id)) {
            return Err(Error::WidthMismatch);
        }
        self.unbound();
        let (s, swap) = op.canonical();
        let x = if swap {
            self.c_rel(s, b.id, a.id)
        } else {
            self.c_rel(s, a.id, b.id)
        };
        proof {
            if let Ok(i) = x {
                assert forall|env: Env| #[trigger] self.val(i as int, env) == ops::bool_bits(
                    ops::holds_ext(
                        op,
                        old(self).val(a.id as int, env),
                        old(self).val(b.id as int, env),
                    ),
                ) by {
                    assert(ops::holds_ext(
                        op,
                        old(self).val(a.id as int, env),
                        old(self).val(b.id as int, env),
                    ) == ops::holds_ext(
                        op,
                        old(self).val(a.id as int, env),
                        old(self).val(b.id as int, env),
                    ));
                }
            }
        }
        failed(x)
    }

    /// Zero extension to `w` bits.
    pub fn zext(&mut self, a: Expr, w: Width) -> (r: Result<Expr, Error>)
        requires
            old(self).wf(),
            w.ok(),
        ensures
            final(self).wf(),
            final(self).grew(old(self)),
            r matches Ok(e) ==> final(self).made(e, w.n()) && forall|env: Env|
                #[trigger] final(self).value(e, env) == ops::zext_bits(old(self).value(a, env), w.n()),
            old(self).has(a) && old(self).width_of(a) <= w.n() && old(self).count() + 1 <= old(self).limit() ==> r is Ok,
            r is Ok ==> old(self).has(a) && old(self).width_of(a) <= w.n(),
            r matches Err(x) ==> x == (if !(old(self).has(a)) {
                Error::BadHandle
            } else if !(old(self).width_of(a) <= w.n()) {
                Error::BadWidth
            } else {
                Error::ArenaFull
            }),
    {
        if !(self.contains(a)) {
            return Err(Error::BadHandle);
        }
        if !(self.wid(a.id) <= w.bits) {
            return Err(Error::BadWidth);
        }
        self.unbound();
        let x = self.c_zext(a.id, w.bits);
        failed(x)
    }

    /// Sign extension to `w` bits.
    pub fn sext(&mut self, a: Expr, w: Width) -> (r: Result<Expr, Error>)
        requires
            old(self).wf(),
            w.ok(),
        ensures
            final(self).wf(),
            final(self).grew(old(self)),
            r matches Ok(e) ==> final(self).made(e, w.n()) && forall|env: Env|
                #[trigger] final(self).value(e, env) == ops::sext_bits(old(self).value(a, env), w.n()),
            old(self).has(a) && old(self).width_of(a) <= w.n() && old(self).count() + 1 <= old(self).limit() ==> r is Ok,
            r is Ok ==> old(self).has(a) && old(self).width_of(a) <= w.n(),
            r matches Err(x) ==> x == (if !(old(self).has(a)) {
                Error::BadHandle
            } else if !(old(self).width_of(a) <= w.n()) {
                Error::BadWidth
            } else {
                Error::ArenaFull
            }),
    {
        if !(self.contains(a)) {
            return Err(Error::BadHandle);
        }
        if !(self.wid(a.id) <= w.bits) {
            return Err(Error::BadWidth);
        }
        self.unbound();
        let x = self.c_sext(a.id, w.bits);
        failed(x)
    }

    /// Bits `[lo, lo + w)`.
    pub fn extract(&mut self, a: Expr, lo: u16, w: Width) -> (r: Result<Expr, Error>)
        requires
            old(self).wf(),
            w.ok(),
        ensures
            final(self).wf(),
            final(self).grew(old(self)),
            r matches Ok(e) ==> final(self).made(e, w.n()) && forall|env: Env|
                #[trigger] final(self).value(e, env) == old(self).value(a, env).subrange(lo as int, lo + w.n()),
            old(self).has(a) && lo + w.n() <= old(self).width_of(a) && old(self).count() + 1 <= old(self).limit() ==> r is Ok,
            r is Ok ==> old(self).has(a) && lo + w.n() <= old(self).width_of(a),
            r matches Err(x) ==> x == (if !(old(self).has(a)) {
                Error::BadHandle
            } else if !(lo + w.n() <= old(self).width_of(a)) {
                Error::BadWidth
            } else {
                Error::ArenaFull
            }),
    {
        if !(self.contains(a)) {
            return Err(Error::BadHandle);
        }
        if !(lo as u32 + w.bits as u32 <= self.wid(a.id) as u32) {
            return Err(Error::BadWidth);
        }
        self.unbound();
        let x = self.c_extract(a.id, lo, w.bits);
        failed(x)
    }

    /// `hi` in the high bits, `lo` in the low bits.
    pub fn concat(&mut self, hi: Expr, lo: Expr) -> (r: Result<Expr, Error>)
        requires
            old(self).wf(),
        ensures
            final(self).wf(),
            final(self).grew(old(self)),
            r matches Ok(e) ==> final(self).made(e, (old(self).width_of(hi) + old(self).width_of(lo)) as nat) && forall|env: Env|
                #[trigger] final(self).value(e, env) == old(self).value(lo, env) + old(self).value(hi, env),
            old(self).has(hi) && old(self).has(lo) && old(self).width_of(hi) + old(self).width_of(lo) <= MAX_WIDTH && old(self).count() + 1 <= old(self).limit() ==> r is Ok,
            r is Ok ==> old(self).has(hi) && old(self).has(lo) && old(self).width_of(hi) + old(self).width_of(lo) <= MAX_WIDTH,
            r matches Err(x) ==> x == (if !(old(self).has(hi)) {
                Error::BadHandle
            } else if !(old(self).has(lo)) {
                Error::BadHandle
            } else if !(old(self).width_of(hi) + old(self).width_of(lo) <= MAX_WIDTH) {
                Error::BadWidth
            } else {
                Error::ArenaFull
            }),
    {
        if !(self.contains(hi)) {
            return Err(Error::BadHandle);
        }
        if !(self.contains(lo)) {
            return Err(Error::BadHandle);
        }
        if !(self.wid(hi.id) as u32 + self.wid(lo.id) as u32 <= MAX_WIDTH as u32) {
            return Err(Error::BadWidth);
        }
        self.unbound();
        let x = self.c_concat(hi.id, lo.id);
        failed(x)
    }

    /// `cond ? yes : no`.
    pub fn select(&mut self, cond: Expr, yes: Expr, no: Expr) -> (r: Result<Expr, Error>)
        requires
            old(self).wf(),
        ensures
            final(self).wf(),
            final(self).grew(old(self)),
            r matches Ok(e) ==> final(self).made(e, old(self).width_of(yes)) && forall|env: Env|
                #[trigger] final(self).value(e, env) == (if old(self).value(cond, env)[0] { old(self).value(yes, env) } else { old(self).value(no, env) }),
            old(self).has(cond) && old(self).has(yes) && old(self).has(no) && old(self).width_of(cond) == 1 && old(self).width_of(yes) == old(self).width_of(no) && old(self).count() + 1 <= old(self).limit() ==> r is Ok,
            r is Ok ==> old(self).has(cond) && old(self).has(yes) && old(self).has(no) && old(self).width_of(cond) == 1 && old(self).width_of(yes) == old(self).width_of(no),
            r matches Err(x) ==> x == (if !(old(self).has(cond)) {
                Error::BadHandle
            } else if !(old(self).has(yes)) {
                Error::BadHandle
            } else if !(old(self).has(no)) {
                Error::BadHandle
            } else if !(old(self).width_of(cond) == 1 && old(self).width_of(yes) == old(self).width_of(no)) {
                Error::WidthMismatch
            } else {
                Error::ArenaFull
            }),
    {
        if !(self.contains(cond)) {
            return Err(Error::BadHandle);
        }
        if !(self.contains(yes)) {
            return Err(Error::BadHandle);
        }
        if !(self.contains(no)) {
            return Err(Error::BadHandle);
        }
        if !(self.wid(cond.id) == 1 && self.wid(yes.id) == self.wid(no.id)) {
            return Err(Error::WidthMismatch);
        }
        self.unbound();
        let x = self.c_select(cond.id, yes.id, no.id);
        failed(x)
    }

    /// The copy in `self` of node `root` of `src`: same symbols, same value everywhere.
    pub fn import(&mut self, src: &Context, root: Expr) -> (r: Result<Expr, Error>)
        requires
            old(self).wf(),
            src.wf(),
        ensures
            final(self).wf(),
            final(self).grew(old(self)),
            r matches Ok(e) ==> src.has(root) && final(self).made(e, src.width_of(root)) && forall|
                env: Env,
            | #[trigger]
                final(self).value(e, env) == src.value(root, env),
            !src.has(root) ==> r == Err::<Expr, Error>(Error::BadHandle),
            src.has(root) ==> (r matches Err(x) ==> x == Error::ArenaFull),
            final(self).count() <= old(self).count() + 2 * src.count(),
            src.has(root) && old(self).count() + 2 * src.count() <= old(self).limit() ==> r is Ok,
    {
        if !src.contains(root) {
            return Err(Error::BadHandle);
        }
        self.unbound();
        let m = src.marks(root.id);
        let ghost all = reach::reach(src.nodes@, root.id as int);
        proof {
            reach::lemma_reach_top(src.nodes@, root.id as int);
        }
        let mut map: Vec<u32> = Vec::with_capacity(m.len());
        let mut i: usize = 0;
        while i < m.len()
            invariant
                self.wf(),
                self.grew(old(self)),
                src.wf(),
                root.id < src.n(),
                all == reach::reach(src.nodes@, root.id as int),
                m@.len() == root.id + 1,
                forall|j: int| 0 <= j <= root.id ==> #[trigger] m@[j] == all.contains(j),
                i <= m@.len(),
                map@.len() == i,
                self.n() <= old(self).n() + 2 * i,
                self.n() + self.quota == old(self).n() + u64::MAX,
                copied(map@, m@, src.tm(), self.tm()),
            decreases m@.len() - i,
        {
            if !m[i] {
                map.push(0);
                proof {
                    assert(copied(map@, m@, src.tm(), self.tm()));
                }
                i = i + 1;
                continue;
            }
            let node = src.node(i as u32);
            let w = src.wid(i as u32);
            proof {
                assert(src.ok_at(i as int));
                let ks = expr::kids(node);
                assert forall|q: int| 0 <= q < ks.len() implies m@[#[trigger] ks[q] as int] by {
                    assert(reach::feeds(src.nodes@, ks[q] as int, i as int));
                    reach::lemma_reach_kid(src.nodes@, root.id as int, i as int, ks[q] as int);
                }
                if ks.len() > 0 {
                    assert(src.ok_at(ks[0] as int));
                    let _ = map@[ks[0] as int];
                    assert(m@[ks[0] as int]);
                }
                if ks.len() > 1 {
                    assert(src.ok_at(ks[1] as int));
                    let _ = map@[ks[1] as int];
                    assert(m@[ks[1] as int]);
                }
                if ks.len() > 2 {
                    assert(src.ok_at(ks[2] as int));
                    let _ = map@[ks[2] as int];
                    assert(m@[ks[2] as int]);
                }
            }
            let ghost tm0 = self.tm();
            let made = match node {
                Node::Const(k) => {
                    let v = src.consts[k as usize].dup();
                    self.mk_const(&v)
                },
                Node::Sym(k) => self.intern(Node::Sym(k), w),
                Node::Un(op, a) => self.c_un(op, map[a as usize]),
                Node::Bin(op, a, b) => self.c_bin(op, map[a as usize], map[b as usize]),
                Node::Cmp(op, a, b) => self.c_rel(op, map[a as usize], map[b as usize]),
                Node::Zext(a) => self.c_zext(map[a as usize], w),
                Node::Sext(a) => self.c_sext(map[a as usize], w),
                Node::Extract(a, lo) => self.c_extract(map[a as usize], lo, w),
                Node::Concat(h, l) => self.c_concat(map[h as usize], map[l as usize]),
                Node::Select(c, t, f) => self.c_select(
                    map[c as usize],
                    map[t as usize],
                    map[f as usize],
                ),
            };
            let x = match made {
                Ok(x) => x,
                Err(_) => {
                    return Err(Error::ArenaFull);
                },
            };
            let ghost map0 = map@;
            map.push(x);
            proof {
                assert forall|j: int| #![trigger map@[j]] 0 <= j < map@.len() && m@[j] implies copy_of(
                    src.tm(),
                    self.tm(),
                    j,
                    map@[j] as int,
                ) by {
                    if j < i {
                        assert(map@[j] == map0[j]);
                        assert(copy_of(src.tm(), tm0, j, map0[j] as int));
                        assert(self.tm()[map0[j] as int] == tm0[map0[j] as int]);
                    } else {
                        assert forall|env: Env|
                            #![trigger term::value(src.tm()[j], env)]
                            term::value(self.tm()[x as int], env) == term::value(src.tm()[j], env) by {
                            assert(self.val(x as int, env) == term::value(self.tm()[x as int], env));
                            assert(j == i);
                            let ks = expr::kids(node);
                            assert(src.ok_at(i as int));
                            if ks.len() > 0 {
                                assert(copy_of(src.tm(), tm0, ks[0] as int, map0[ks[0] as int] as int));
                                let _ = term::value(src.tm()[ks[0] as int], env);
                            }
                            if ks.len() > 1 {
                                assert(copy_of(src.tm(), tm0, ks[1] as int, map0[ks[1] as int] as int));
                                let _ = term::value(src.tm()[ks[1] as int], env);
                            }
                            if ks.len() > 2 {
                                assert(copy_of(src.tm(), tm0, ks[2] as int, map0[ks[2] as int] as int));
                                let _ = term::value(src.tm()[ks[2] as int], env);
                            }
                        }
                    }
                }
            }
            i = i + 1;
        }
        let e = map[root.id as usize];
        proof {
            assert(m@[root.id as int]);
            assert forall|env: Env| #[trigger] self.val(e as int, env) == src.val(
                root.id as int,
                env,
            ) by {
                let _ = term::value(src.tm()[root.id as int], env);
            }
        }
        Ok(Expr { id: e })
    }

    /// The low `w` bits.
    pub fn trunc(&mut self, a: Expr, w: Width) -> (r: Result<Expr, Error>)
        requires
            old(self).wf(),
            w.ok(),
        ensures
            final(self).wf(),
            final(self).grew(old(self)),
            r matches Ok(e) ==> final(self).made(e, w.n()) && forall|env: Env|
                #[trigger] final(self).value(e, env) == old(self).value(a, env).subrange(0, w.n() as int),
            old(self).has(a) && w.n() <= old(self).width_of(a) && old(self).count() + 1 <= old(self).limit()
                ==> r is Ok,
            r is Ok ==> old(self).has(a) && w.n() <= old(self).width_of(a),
    {
        self.extract(a, 0, w)
    }
}

} // verus!
