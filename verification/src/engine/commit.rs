//! The commit rule of the normal-form passes: a candidate replaces a node when it needs fewer
//! nodes than replacing the node frees, weighed against the nodes the call's roots use.

use vstd::prelude::*;
use crate::expr;
use crate::engine::runner;
use crate::dfs;
use crate::engine::budget::{Counter, Exhausted};
use crate::engine::fin::{Fin, Stop};
use crate::engine::runner::{lists, Runner, Scratch};
use crate::engine::pass::scratch::{Counts, Live, Marks};
use crate::engine::strategy::Sharing;
use crate::expr::{Context, Node};

verus! {

broadcast use crate::dfs::lemma_load_push;

/// The number of nodes, as an index.
fn arena_len(cx: &Context) -> (r: u32)
    requires
        cx.wf(),
    ensures
        r == cx.n(),
{
    cx.len() as u32
}

/// Adding an index to the end of a queue adds its weight.
proof fn lemma_queue_push(q: Seq<u32>, head: int, c: u32)
    requires
        0 <= head <= q.len(),
    ensures
        dfs::load(q.push(c).skip(head)) == dfs::load(q.skip(head)) + dfs::heft(c as nat),
{
    assert(q.push(c).skip(head) =~= q.skip(head).push(c));
}

/// How often `c` is an operand of `node`.
pub open spec fn times_used(node: Node, c: u32) -> nat {
    let k = expr::kids(node);
    (if k.len() > 0 && k[0] == c {
        1nat
    } else {
        0nat
    }) + (if k.len() > 1 && k[1] == c {
        1nat
    } else {
        0nat
    }) + (if k.len() > 2 && k[2] == c {
        1nat
    } else {
        0nat
    })
}

/// How often the nodes `d` use `c`.
pub open spec fn used_by(nodes: Seq<Node>, d: Seq<u32>, c: u32) -> nat
    decreases d.len(),
{
    if d.len() == 0 {
        0
    } else {
        used_by(nodes, d.drop_last(), c) + times_used(nodes[d.last() as int], c)
    }
}

/// In decreasing order.
pub open spec fn falling(d: Seq<u32>) -> bool {
    forall|i: int, j: int| #![trigger d[i], d[j]] 0 <= i < j < d.len() ==> d[i] > d[j]
}

/// Replacing `n` frees the nodes `d`: `n` itself, then nodes all of whose uses come from those
/// before them.
pub open spec fn frees(
    nodes: Seq<Node>,
    n: u32,
    d: Seq<u32>,
    uses: spec_fn(u32) -> Option<u32>,
) -> bool {
    &&& falling(d)
    &&& d.len() >= 1 && d[0] == n
    &&& forall|j: int|
        #![trigger d[j]]
        1 <= j < d.len() ==> uses(d[j]) is Some && uses(d[j])->0 <= used_by(
            nodes,
            d.take(j),
            d[j],
        )
}

/// Node `i` is there without building anything: an atom, or a node that is kept.
pub open spec fn at_hand(i: u32, atoms: Seq<u32>, kept: spec_fn(u32) -> bool) -> bool {
    atoms.contains(i) || kept(i)
}

/// `e` is made of the nodes `s`, over atoms and kept nodes.
pub open spec fn made_of(
    nodes: Seq<Node>,
    e: u32,
    s: Seq<u32>,
    atoms: Seq<u32>,
    kept: spec_fn(u32) -> bool,
) -> bool {
    &&& s.no_duplicates()
    &&& s.contains(e) || at_hand(e, atoms, kept)
    &&& forall|k: int, j: int|
        #![trigger expr::kids(nodes[s[k] as int])[j]]
        0 <= k < s.len() && 0 <= j < expr::kids(nodes[s[k] as int]).len() ==> s.contains(
            expr::kids(nodes[s[k] as int])[j],
        ) || at_hand(expr::kids(nodes[s[k] as int])[j], atoms, kept)
}

/// Replacing `n` by `e` makes the DAG strictly smaller: `e` is made of fewer nodes, beside atoms
/// and nodes that are kept, than the replacement frees.
pub open spec fn smaller(
    nodes: Seq<Node>,
    n: u32,
    e: u32,
    atoms: Seq<u32>,
    kept: spec_fn(u32) -> bool,
    uses: spec_fn(u32) -> Option<u32>,
) -> bool {
    exists|s: Seq<u32>, d: Seq<u32>|
        #![trigger made_of(nodes, e, s, atoms, kept), frees(nodes, n, d, uses)]
        made_of(nodes, e, s, atoms, kept) && frees(nodes, n, d, uses) && s.len() < d.len() && (
        forall|j: int| 0 <= j < d.len() ==> !kept(#[trigger] d[j]) && !s.contains(d[j]))
}

/// Every operand of the nodes `t` is among them, or an atom.
pub open spec fn closed_over(nodes: Seq<Node>, t: Seq<u32>, atoms: Seq<u32>) -> bool {
    forall|k: int, j: int|
        #![trigger expr::kids(nodes[t[k] as int])[j]]
        0 <= k < t.len() && 0 <= j < expr::kids(nodes[t[k] as int]).len() ==> t.contains(
            expr::kids(nodes[t[k] as int])[j],
        ) || atoms.contains(expr::kids(nodes[t[k] as int])[j])
}

/// The nodes `t` are all that `e` is made of above the atoms, or more.
pub open spec fn holds_all(nodes: Seq<Node>, e: u32, t: Seq<u32>, atoms: Seq<u32>) -> bool {
    (t.contains(e) || atoms.contains(e)) && closed_over(nodes, t, atoms)
}

/// The nodes of `a` are among those of `b`.
pub open spec fn among(a: Seq<u32>, b: Seq<u32>) -> bool {
    forall|k: int| 0 <= k < a.len() ==> b.contains(#[trigger] a[k])
}

/// As [`frees`], each of them but the first used by one before it.
pub open spec fn frees_used(
    nodes: Seq<Node>,
    n: u32,
    d: Seq<u32>,
    uses: spec_fn(u32) -> Option<u32>,
) -> bool {
    frees(nodes, n, d, uses) && forall|j: int|
        #![trigger d[j]]
        1 <= j < d.len() ==> used_by(nodes, d.take(j), d[j]) >= 1
}

/// Replacing `n` by `e` is plainly worth it, whatever is outside: `e` is made, above the atoms, of
/// fewer nodes `t` than there are nodes `d` among those `u` of `n` that only `n`, and those of `d`
/// before them, use, and that `e` is not made of.
pub open spec fn gains(
    nodes: Seq<Node>,
    n: u32,
    e: u32,
    atoms: Seq<u32>,
    t: Seq<u32>,
    u: Seq<u32>,
    d: Seq<u32>,
    most: int,
) -> bool {
    &&& holds_all(nodes, e, t, atoms)
    &&& t.len() <= most
    &&& t.len() < u32::MAX
    &&& u.contains(n)
    &&& u.no_duplicates()
    &&& closed_over(nodes, u, atoms)
    &&& u.len() < most
    &&& falling(d)
    &&& d.len() >= 1
    &&& d[0] == n
    &&& forall|j: int|
        #![trigger d[j]]
        1 <= j < d.len() ==> 1 <= used_by(nodes, d.take(j), d[j]) && used_by(nodes, u, d[j])
            <= used_by(nodes, d.take(j), d[j])
    &&& forall|j: int|
        #![trigger d[j]]
        0 <= j < d.len() ==> !t.contains(d[j]) && (j > 0 ==> !atoms.contains(d[j]))
    &&& t.len() < d.len()
}

/// A count of uses: there where there are some, and no higher.
pub open spec fn counts_as(x: Option<u32>, n: nat) -> bool {
    (n > 0 ==> x is Some) && (x matches Some(v) ==> v <= n)
}

/// A count of uses is no lower (up to the greatest there is).
pub open spec fn counts_up(x: Option<u32>, n: nat) -> bool {
    n > 0 ==> (x matches Some(v) && (v >= n || v == u32::MAX))
}

/// The nodes `rs` are the region of `n`: those that it is made of above the atoms, unless it is cut
/// off; and their uses in it are counted.
pub open spec fn region_told(
    nodes: Seq<Node>,
    n: u32,
    rs: Seq<u32>,
    atoms: Seq<u32>,
    region: Marks,
    local: Counts,
    most: int,
) -> bool {
    &&& rs.no_duplicates()
    &&& rs.contains(n)
    &&& forall|i: u32| #[trigger] region.has(i) == rs.contains(i)
    &&& forall|t: Seq<u32>| #[trigger]
        closed_over(nodes, t, atoms) && t.contains(n) ==> among(rs, t)
    &&& rs.len() >= most || (closed_over(nodes, rs, atoms) && forall|c: u32|
        !atoms.contains(c) ==> counts_as(#[trigger] local.at(c), used_by(nodes, rs, c)))
}

/// The operands of the nodes `rs` are among them, atoms, or still to come.
pub open spec fn spread(nodes: Seq<Node>, rs: Seq<u32>, atoms: Seq<u32>, rest: Seq<u32>) -> bool {
    forall|k: int, j: int|
        #![trigger expr::kids(nodes[rs[k] as int])[j]]
        0 <= k < rs.len() && 0 <= j < expr::kids(nodes[rs[k] as int]).len() ==> rs.contains(
            expr::kids(nodes[rs[k] as int])[j],
        ) || atoms.contains(expr::kids(nodes[rs[k] as int])[j]) || rest.contains(
            expr::kids(nodes[rs[k] as int])[j],
        )
}

/// Their uses are counted.
pub open spec fn tallied(nodes: Seq<Node>, rs: Seq<u32>, atoms: Seq<u32>, local: Counts) -> bool {
    forall|c: u32|
        !atoms.contains(c) ==> counts_as(#[trigger] local.at(c), used_by(nodes, rs, c))
}

/// The nodes reached so far are different, marked, and among all that hold those of `n`.
pub open spec fn grown(
    nodes: Seq<Node>,
    n: u32,
    rs: Seq<u32>,
    atoms: Seq<u32>,
    queue: Seq<u32>,
    region: Marks,
) -> bool {
    &&& rs.no_duplicates()
    &&& forall|i: u32| #[trigger] region.has(i) == rs.contains(i)
    &&& forall|t: Seq<u32>| #[trigger]
        closed_over(nodes, t, atoms) && t.contains(n) ==> among(rs, t) && among(queue, t)
}

proof fn lemma_spread_skip(
    nodes: Seq<Node>,
    rs: Seq<u32>,
    atoms: Seq<u32>,
    queue: Seq<u32>,
    head: int,
)
    requires
        spread(nodes, rs, atoms, queue.skip(head)),
        0 <= head < queue.len(),
        rs.contains(queue[head]),
    ensures
        spread(nodes, rs, atoms, queue.skip(head + 1)),
{
    assert forall|k: int, j: int|
        #![trigger expr::kids(nodes[rs[k] as int])[j]]
        0 <= k < rs.len() && 0 <= j < expr::kids(nodes[rs[k] as int]).len() implies rs.contains(
        expr::kids(nodes[rs[k] as int])[j],
    ) || atoms.contains(expr::kids(nodes[rs[k] as int])[j]) || queue.skip(head + 1).contains(
        expr::kids(nodes[rs[k] as int])[j],
    ) by {
        let c = expr::kids(nodes[rs[k] as int])[j];
        if queue.skip(head).contains(c) {
            let q = choose|q: int| 0 <= q < queue.skip(head).len() && queue.skip(head)[q] == c;
            if q > 0 {
                assert(queue.skip(head + 1)[q - 1] == c);
            }
        }
    }
}

proof fn lemma_spread_next(
    nodes: Seq<Node>,
    rs: Seq<u32>,
    atoms: Seq<u32>,
    queue: Seq<u32>,
    more: Seq<u32>,
    head: int,
    i: u32,
)
    requires
        spread(nodes, rs, atoms, queue.skip(head)),
        0 <= head < queue.len(),
        queue[head] == i,
        among(queue.skip(head + 1), more.skip(head + 1)),
        forall|q: int|
            0 <= q < expr::kids(nodes[i as int]).len() ==> atoms.contains(
                #[trigger] expr::kids(nodes[i as int])[q],
            ) || more.skip(head + 1).contains(expr::kids(nodes[i as int])[q]),
    ensures
        spread(nodes, rs.push(i), atoms, more.skip(head + 1)),
{
    let now = rs.push(i);
    assert(now[rs.len() as int] == i);
    assert forall|k: int, j: int|
        #![trigger expr::kids(nodes[now[k] as int])[j]]
        0 <= k < now.len() && 0 <= j < expr::kids(nodes[now[k] as int]).len() implies now.contains(
        expr::kids(nodes[now[k] as int])[j],
    ) || atoms.contains(expr::kids(nodes[now[k] as int])[j]) || more.skip(head + 1).contains(
        expr::kids(nodes[now[k] as int])[j],
    ) by {
        let c = expr::kids(nodes[now[k] as int])[j];
        if k < rs.len() {
            assert(now[k] == rs[k]);
            assert(expr::kids(nodes[rs[k] as int])[j] == c);
            if rs.contains(c) {
                let q = choose|q: int| 0 <= q < rs.len() && rs[q] == c;
                assert(now[q] == c);
            } else if !atoms.contains(c) {
                let q = choose|q: int| 0 <= q < queue.skip(head).len() && queue.skip(head)[q] == c;
                if q > 0 {
                    assert(queue.skip(head + 1)[q - 1] == c);
                }
            }
        }
    }
}

proof fn lemma_grown(
    nodes: Seq<Node>,
    n: u32,
    rs: Seq<u32>,
    atoms: Seq<u32>,
    queue: Seq<u32>,
    region: Marks,
    now: Marks,
    i: u32,
    head: int,
)
    requires
        grown(nodes, n, rs, atoms, queue, region),
        0 <= head < queue.len(),
        queue[head] == i,
        !region.has(i),
        forall|k: u32| #[trigger] now.has(k) == (k == i || region.has(k)),
    ensures
        grown(nodes, n, rs.push(i), atoms, queue, now),
{
    let more = rs.push(i);
    assert(more[rs.len() as int] == i);
    assert(!rs.contains(i));
    assert(more.no_duplicates()) by {
        assert forall|a: int, b: int| 0 <= a < more.len() && 0 <= b < more.len() && a != b implies more[a]
            != more[b] by {
            if a < rs.len() {
                assert(rs.contains(rs[a]));
            }
            if b < rs.len() {
                assert(rs.contains(rs[b]));
            }
        }
    }
    assert forall|x: u32| #[trigger] now.has(x) == more.contains(x) by {
        assert(region.has(x) == rs.contains(x));
        if rs.contains(x) {
            let q = choose|q: int| 0 <= q < rs.len() && rs[q] == x;
            assert(more[q] == x);
        }
        if more.contains(x) && x != i {
            let q = choose|q: int| 0 <= q < more.len() && more[q] == x;
            assert(rs[q] == x);
        }
    }
    assert forall|t: Seq<u32>| #[trigger] closed_over(nodes, t, atoms) && t.contains(n) implies among(
        more,
        t,
    ) && among(queue, t) by {
        assert(t.contains(queue[head]));
    }
}

proof fn lemma_grown_push(
    nodes: Seq<Node>,
    n: u32,
    rs: Seq<u32>,
    atoms: Seq<u32>,
    queue: Seq<u32>,
    more: Seq<u32>,
    region: Marks,
    i: u32,
    c: u32,
    j: int,
)
    requires
        grown(nodes, n, rs, atoms, queue, region),
        rs.len() > 0,
        rs.last() == i,
        0 <= j < expr::kids(nodes[i as int]).len(),
        expr::kids(nodes[i as int])[j] == c,
        more == queue || (more == queue.push(c) && !atoms.contains(c)),
    ensures
        grown(nodes, n, rs, atoms, more, region),
{
    assert forall|t: Seq<u32>| #[trigger] closed_over(nodes, t, atoms) && t.contains(n) implies among(
        rs,
        t,
    ) && among(more, t) by {
        assert(t.contains(rs[rs.len() - 1]));
        let k = choose|k: int| 0 <= k < t.len() && t[k] == i;
        assert(expr::kids(nodes[t[k] as int])[j] == c);
        assert forall|q: int| 0 <= q < more.len() implies t.contains(#[trigger] more[q]) by {
            if q < queue.len() {
                assert(more[q] == queue[q]);
            }
        }
    }
}

/// What is made, to be made, and reused is among the nodes `t`.
pub open spec fn needs_within(
    t: Seq<u32>,
    atoms: Seq<u32>,
    s: Seq<u32>,
    stack: Seq<u32>,
    kept: Marks,
) -> bool {
    &&& among(s, t)
    &&& forall|k: int|
        0 <= k < stack.len() ==> t.contains(#[trigger] stack[k]) || atoms.contains(stack[k])
    &&& forall|i: u32| #[trigger] kept.has(i) ==> t.contains(i)
}

/// Removing a node removes its uses.
proof fn lemma_used_remove(nodes: Seq<Node>, b: Seq<u32>, i: int, c: u32)
    requires
        0 <= i < b.len(),
    ensures
        used_by(nodes, b, c) == used_by(nodes, b.remove(i), c) + times_used(nodes[b[i] as int], c),
    decreases b.len(),
{
    let r = b.remove(i);
    if i == b.len() - 1 {
        assert(r =~= b.drop_last());
    } else {
        lemma_used_remove(nodes, b.drop_last(), i, c);
        assert(r.drop_last() =~= b.drop_last().remove(i));
        assert(r.last() == b.last());
    }
}

/// More nodes use no less.
proof fn lemma_used_among(nodes: Seq<Node>, a: Seq<u32>, b: Seq<u32>, c: u32)
    requires
        a.no_duplicates(),
        among(a, b),
    ensures
        used_by(nodes, a, c) <= used_by(nodes, b, c),
    decreases a.len(),
{
    if a.len() > 0 {
        let x = a.last();
        assert(b.contains(a[a.len() - 1]));
        let i = choose|i: int| 0 <= i < b.len() && b[i] == x;
        let r = b.remove(i);
        lemma_used_remove(nodes, b, i, c);
        let h = a.drop_last();
        assert(among(h, r)) by {
            assert forall|k: int| 0 <= k < h.len() implies r.contains(#[trigger] h[k]) by {
                assert(h[k] == a[k]);
                let q = choose|q: int| 0 <= q < b.len() && b[q] == a[k];
                assert(a[k] != a[a.len() - 1]);
                if q < i {
                    assert(r[q] == a[k]);
                } else {
                    assert(r[q - 1] == a[k]);
                }
            }
        }
        lemma_used_among(nodes, h, r, c);
    }
}

/// Different nodes that are among others are no more than those.
proof fn lemma_among_len(a: Seq<u32>, b: Seq<u32>)
    requires
        a.no_duplicates(),
        among(a, b),
    ensures
        a.len() <= b.len(),
{
    a.unique_seq_to_set();
    b.lemma_cardinality_of_set();
    assert(a.to_set().subset_of(b.to_set())) by {
        assert forall|x: u32| a.to_set().contains(x) implies b.to_set().contains(x) by {
            let k = choose|k: int| 0 <= k < a.len() && a[k] == x;
            assert(b.contains(a[k]));
        }
    }
    vstd::set_lib::lemma_len_subset(a.to_set(), b.to_set());
}

proof fn lemma_falling_apart(d: Seq<u32>)
    requires
        falling(d),
    ensures
        d.no_duplicates(),
{
    assert forall|i: int, j: int| 0 <= i < d.len() && 0 <= j < d.len() && i != j implies d[i]
        != d[j] by {
        let _ = (d[i], d[j]);
    }
}

/// A node that is used is used by some node.
proof fn lemma_user(nodes: Seq<Node>, d: Seq<u32>, c: u32)
    requires
        used_by(nodes, d, c) >= 1,
    ensures
        exists|k: int, j: int|
            0 <= k < d.len() && 0 <= j < expr::kids(nodes[d[k] as int]).len() && (
            #[trigger] expr::kids(nodes[d[k] as int])[j]) == c,
    decreases d.len(),
{
    if times_used(nodes[d.last() as int], c) >= 1 {
        let ks = expr::kids(nodes[d[d.len() - 1] as int]);
        if ks.len() > 0 && ks[0] == c {
            assert(expr::kids(nodes[d[d.len() - 1] as int])[0] == c);
        } else if ks.len() > 1 && ks[1] == c {
            assert(expr::kids(nodes[d[d.len() - 1] as int])[1] == c);
        } else {
            assert(expr::kids(nodes[d[d.len() - 1] as int])[2] == c);
        }
    } else {
        let h = d.drop_last();
        lemma_user(nodes, h, c);
        let (k, j) = choose|k: int, j: int|
            0 <= k < h.len() && 0 <= j < expr::kids(nodes[h[k] as int]).len() && (
            #[trigger] expr::kids(nodes[h[k] as int])[j]) == c;
        assert(expr::kids(nodes[d[k] as int])[j] == c);
    }
}

/// Whatever stops being used is found.
proof fn lemma_all_found(
    nodes: Seq<Node>,
    n: u32,
    d: Seq<u32>,
    e: Seq<u32>,
    uses: spec_fn(u32) -> Option<u32>,
    region: Marks,
    stays: spec_fn(u32) -> bool,
)
    requires
        falling(d),
        d.len() >= 1,
        d[0] == n,
        forall|c: u32|
            #![trigger used_by(nodes, d, c)]
            region.has(c) && used_by(nodes, d, c) >= 1 && !d.contains(c) ==> stays(c) || uses(
                c,
            ) is None || used_by(nodes, d, c) < uses(c)->0,
        frees_used(nodes, n, e, uses),
        forall|j: int| 0 <= j < e.len() ==> region.has(#[trigger] e[j]) && !stays(e[j]),
    ensures
        e.len() <= d.len(),
{
    assert forall|j: int| 0 <= j <= e.len() implies #[trigger] among(e.take(j), d) by {
        lemma_found(nodes, n, d, e, uses, region, stays, j);
    }
    assert(among(e.take(e.len() as int), d));
    assert(e.take(e.len() as int) =~= e);
    lemma_falling_apart(e);
    lemma_among_len(e, d);
}

proof fn lemma_found(
    nodes: Seq<Node>,
    n: u32,
    d: Seq<u32>,
    e: Seq<u32>,
    uses: spec_fn(u32) -> Option<u32>,
    region: Marks,
    stays: spec_fn(u32) -> bool,
    j: int,
)
    requires
        falling(d),
        d.len() >= 1,
        d[0] == n,
        forall|c: u32|
            #![trigger used_by(nodes, d, c)]
            region.has(c) && used_by(nodes, d, c) >= 1 && !d.contains(c) ==> stays(c) || uses(
                c,
            ) is None || used_by(nodes, d, c) < uses(c)->0,
        frees_used(nodes, n, e, uses),
        forall|j: int| 0 <= j < e.len() ==> region.has(#[trigger] e[j]) && !stays(e[j]),
        0 <= j <= e.len(),
    ensures
        among(e.take(j), d),
    decreases j,
{
    if j > 0 {
        let h = e.take(j - 1);
        lemma_found(nodes, n, d, e, uses, region, stays, j - 1);
        let c = e[j - 1];
        if j == 1 {
            assert(d[0] == c);
        } else {
            lemma_falling_apart(e);
            assert(h.no_duplicates());
            lemma_used_among(nodes, h, d, c);
            assert(used_by(nodes, d, c) >= 1);
        }
        assert(d.contains(c));
        assert forall|k: int| 0 <= k < e.take(j).len() implies d.contains(#[trigger] e.take(j)[k]) by {
            if k < j - 1 {
                assert(h[k] == e.take(j)[k]);
            }
        }
    }
}

/// The uses kept up to date.
pub open spec fn live_uses(l: Live) -> spec_fn(u32) -> Option<u32> {
    |i: u32| l.uses_of(i)
}

/// The uses counted.
pub open spec fn counted_uses(c: Counts) -> spec_fn(u32) -> Option<u32> {
    |i: u32| c.at(i)
}

/// The nodes marked.
pub open spec fn marked(m: Marks) -> spec_fn(u32) -> bool {
    |i: u32| m.has(i)
}

/// Every listed node is marked.
pub open spec fn held(v: Seq<u32>, m: Marks) -> bool {
    forall|k: int| 0 <= k < v.len() ==> m.has(#[trigger] v[k])
}

/// A constant in the place of a node that is none.
pub open spec fn pinned(nodes: Seq<Node>, n: u32, e: u32) -> bool {
    nodes[e as int] is Const && !(nodes[n as int] is Const)
}

impl<'a> Runner<'a> {
    /// Records that node `n` is no longer used in this phase run (it was replaced): its edges
    /// stop counting as uses of its operands, and an operand that no counted node uses any
    /// more (and that is no root of the call) goes the same way. A node used again later is
    /// counted again (see [`refresh_uses`](Self::refresh_uses)).
    pub(crate) fn retire(&mut self, cx: &Context, n: u32)
        requires
            old(self).wf(cx),
            n < cx.n(),
        ensures
            runner::went(final(self), cx, old(self), cx),
            final(self).meter == old(self).meter,
            final(self).scratch == old(self).scratch,
            final(self).stats == old(self).stats,
            final(self).dead.has(n),
            forall|i: u32| old(self).dead.has(i) ==> #[trigger] final(self).dead.has(i),
    {
        let mut stack: Vec<u32> = vec![n];
        while stack.len() > 0
            invariant
                runner::went(self, cx, old(self), cx),
                self.meter == old(self).meter,
                self.scratch == old(self).scratch,
                self.stats == old(self).stats,
                runner::listed(stack@, cx.n()),
                self.dead.has(n) || stack@ == seq![n],
                forall|i: u32| old(self).dead.has(i) ==> #[trigger] self.dead.has(i),
            decreases dfs::load(stack@),
        {
            let ghost stack0 = stack@;
            let i: u32 = match stack.pop() {
                Some(i) => i,
                None => {
                    return ;
                },
            };
            assert(i == stack0.last());
            proof {
                dfs::lemma_heft_pos(i as nat);
            }
            if !self.dead.insert(i) {
                continue;
            }
            self.dead_log.push(i);
            if !self.live.uncount(i) {
                continue;
            }
            if !self.uses_on {
                continue;
            }
            let ch = cx.node(i).children();
            let mut orphans: Vec<u32> = Vec::new();
            let mut j: usize = 0;
            while j < ch.len()
                invariant
                    j <= ch.len(),
                    runner::went(self, cx, old(self), cx),
                    self.meter == old(self).meter,
                    self.scratch == old(self).scratch,
                    self.stats == old(self).stats,
                    cx.ok_at(i as int),
                    ch@ == expr::kids(cx.nodes@[i as int]),
                    orphans@.len() <= j,
                    runner::listed(orphans@, i as int),
                    self.dead.has(n),
                    forall|i: u32| old(self).dead.has(i) ==> #[trigger] self.dead.has(i),
                decreases ch.len() - j,
            {
                let c = ch[j];
                assert(expr::kids(cx.nodes@[i as int])[j as int] < i);
                if self.live.dec(c) == Some(0) {
                    orphans.push(c);
                }
                j = j + 1;
            }
            let ghost base = dfs::load(stack@);
            let mut k: usize = 0;
            while k < orphans.len()
                invariant
                    k <= orphans.len(),
                    orphans.len() <= 3,
                    runner::went(self, cx, old(self), cx),
                    self.meter == old(self).meter,
                    self.scratch == old(self).scratch,
                    self.stats == old(self).stats,
                    i < cx.n(),
                    runner::listed(orphans@, i as int),
                    runner::listed(stack@, cx.n()),
                    4 * (dfs::load(stack@) - base) <= k * dfs::heft(i as nat),
                    self.dead.has(n),
                    forall|i: u32| old(self).dead.has(i) ==> #[trigger] self.dead.has(i),
                decreases orphans.len() - k,
            {
                let c = orphans[k];
                proof {
                    dfs::lemma_heft_mono(c as nat, i as nat);
                }
                if self.live.counted(c) && !lists(&self.live_roots, c) {
                    stack.push(c);
                }
                assert((k + 1) * dfs::heft(i as nat) == k * dfs::heft(i as nat) + dfs::heft(i as nat)) by (nonlinear_arith);
                k = k + 1;
            }
            assert(k * dfs::heft(i as nat) <= 3 * dfs::heft(i as nat)) by (nonlinear_arith)
                requires
                    k <= 3,
            ;
        }
    }

    /// Marks the nodes a rejected candidate built (arena index at least `before`) as unused, so
    /// they do not count as uses of their operands.
    pub(crate) fn discard(&mut self, cx: &Context, before: u32)
        requires
            old(self).wf(cx),
        ensures
            runner::went(final(self), cx, old(self), cx),
            final(self).meter == old(self).meter,
            final(self).scratch == old(self).scratch,
            final(self).stats == old(self).stats,
            forall|i: u32| before <= i < cx.n() ==> #[trigger] final(self).dead.has(i),
    {
        let len = arena_len(cx);
        let mut i: u32 = before;
        while i < len
            invariant
                len == cx.n(),
                before <= i,
                runner::went(self, cx, old(self), cx),
                self.meter == old(self).meter,
                self.scratch == old(self).scratch,
                self.stats == old(self).stats,
                forall|k: u32| before <= k < i && k < len ==> #[trigger] self.dead.has(k),
            decreases len - i,
        {
            self.retire(cx, i);
            i = i + 1;
        }
    }

    /// Charges `n` units of pass work as `n` charges of one would: on failure, what was left is
    /// spent.
    fn charge_each(&mut self, n: u64) -> (r: Result<(), Stop>)
        requires
            old(self).meter.spent.within(old(self).meter.limit),
        ensures
            final(self).metered(old(self)),
            final(self).meter.spent.within(final(self).meter.limit),
            final(self).meter.spent.rewrites == old(self).meter.spent.rewrites,
            r matches Err(Stop::Exhausted(e)) ==> (e == Exhausted::Deadline
                && final(self).meter.expired) || (e == Exhausted::PassWork
                && final(self).meter.spent.pass_work == final(self).meter.limit.pass_work),
    {
        if self.charge(Counter::PassWork, n).is_err() {
            let mut k: u64 = 0;
            while k < n
                invariant
                    self.metered(old(self)),
                    self.meter.spent.within(self.meter.limit),
                    self.meter.spent.rewrites == old(self).meter.spent.rewrites,
                decreases n - k,
            {
                self.charge(Counter::PassWork, 1)?;
                k = k + 1;
            }
        }
        Ok(())
    }

    /// Whether the other roots' part holds in this phase run, counting it first if it is for
    /// another root: no node the other roots reach was retired in the run.
    fn others_hold(&mut self, cx: &Context) -> (r: bool)
        requires
            old(self).wf(cx),
        ensures
            runner::went(final(self), cx, old(self), cx),
            final(self).meter == old(self).meter,
            final(self).scratch == old(self).scratch,
    {
        let same = match self.live.others.active {
            Some(k) => k == self.active,
            None => false,
        };
        if !same {
            self.live.recount(self.active);
            let mut stack: Vec<u32> = Vec::new();
            let mut k: usize = 0;
            while k < self.live_roots.len()
                invariant
                    k <= self.live_roots.len(),
                    runner::went(self, cx, old(self), cx),
                    self.meter == old(self).meter,
                    self.scratch == old(self).scratch,
                    runner::listed(stack@, cx.n()),
                decreases self.live_roots.len() - k,
            {
                if k != self.active {
                    let c = self.live_roots[k];
                    assert(self.live_roots@[k as int] < cx.n());
                    stack.push(c);
                }
                k = k + 1;
            }
            while stack.len() > 0
                invariant
                    runner::went(self, cx, old(self), cx),
                    self.meter == old(self).meter,
                    self.scratch == old(self).scratch,
                    runner::listed(stack@, cx.n()),
                decreases dfs::load(stack@),
            {
                let ghost stack0 = stack@;
                let i: u32 = match stack.pop() {
                    Some(i) => i,
                    None => {
                        break;
                    },
                };
                assert(i == stack0.last());
                proof {
                    dfs::lemma_heft_pos(i as nat);
                }
                if !self.live.reach(i) {
                    continue;
                }
                let ch = cx.node(i).children();
                let ghost base = dfs::load(stack@);
                let mut j: usize = 0;
                while j < ch.len()
                    invariant
                        j <= ch.len(),
                        ch.len() <= 3,
                        runner::went(self, cx, old(self), cx),
                        self.meter == old(self).meter,
                        self.scratch == old(self).scratch,
                        cx.ok_at(i as int),
                        i < cx.n(),
                        ch@ == expr::kids(cx.nodes@[i as int]),
                        runner::listed(stack@, cx.n()),
                        4 * (dfs::load(stack@) - base) <= j * dfs::heft(i as nat),
                    decreases ch.len() - j,
                {
                    let c = ch[j];
                    assert(expr::kids(cx.nodes@[i as int])[j as int] < i);
                    proof {
                        dfs::lemma_heft_mono(c as nat, i as nat);
                    }
                    self.live.reached_use(c);
                    stack.push(c);
                    assert((j + 1) * dfs::heft(i as nat) == j * dfs::heft(i as nat) + dfs::heft(i as nat)) by (nonlinear_arith);
                    j = j + 1;
                }
                assert(j * dfs::heft(i as nat) <= 3 * dfs::heft(i as nat)) by (nonlinear_arith)
                    requires
                        j <= 3,
                ;
            }
        }
        let mut d: usize = 0;
        while d < self.dead_log.len()
            invariant
                d <= self.dead_log.len(),
                runner::went(self, cx, old(self), cx),
                self.meter == old(self).meter,
                self.scratch == old(self).scratch,
            decreases self.dead_log.len() - d,
        {
            let x = self.dead_log[d];
            if self.live.reaches(x) {
                return false;
            }
            d = d + 1;
        }
        true
    }

    /// Use counts (parent edges) of the live DAG: counted once per phase run over the current
    /// version of every root of the call (nodes only replaced ones reach are not live), then kept
    /// up to date as nodes are created (counted) and replaced (uncounted, see
    /// [`retire`](Self::retire)). A node a counted node uses is counted too, so one replaced and
    /// then used again is live again.
    ///
    /// The roots other than the active one do not change while it is processed: their part is
    /// counted once per root and stands in every phase run in which none of the nodes they reach
    /// was retired (a count from scratch skips retired nodes, and what only they reach).
    fn refresh_uses(&mut self, cx: &Context) -> (r: Result<(), Stop>)
        requires
            old(self).wf(cx),
        ensures
            runner::went(final(self), cx, old(self), cx),
            r matches Err(e) ==> final(self).refuses(cx, e),
            final(self).scratch == (Scratch { seen: final(self).scratch.seen, ..old(self).scratch }),
            r is Ok ==> final(self).uses_on && final(self).uses_upto == cx.n(),
    {
        if !self.uses_on {
            self.live.clear();
            self.scratch.seen.begin(cx.len());
            let others = self.others_hold(cx);
            let mut stack: Vec<u32> = Vec::new();
            if others {
                let nodes = self.live.others.nodes;
                if let Err(e) = self.charge_each(nodes as u64) {
                    self.live.clear();
                    return Err(e);
                }
                // (Off when the other roots reach nothing: then it adds nothing.)
                self.live.set_base(nodes > 0);
                if self.active < self.live_roots.len() {
                    let c = self.live_roots[self.active];
                    assert(self.live_roots@[self.active as int] < cx.n());
                    stack.push(c);
                }
            } else {
                let mut k: usize = 0;
                while k < self.live_roots.len()
                    invariant
                        k <= self.live_roots.len(),
                        runner::went(self, cx, old(self), cx),
                        self.scratch == (Scratch { seen: self.scratch.seen, ..old(self).scratch }),
                        runner::listed(stack@, cx.n()),
                    decreases self.live_roots.len() - k,
                {
                    let c = self.live_roots[k];
                    assert(self.live_roots@[k as int] < cx.n());
                    stack.push(c);
                    k = k + 1;
                }
            }
            while stack.len() > 0
                invariant
                    runner::went(self, cx, old(self), cx),
                    self.scratch == (Scratch { seen: self.scratch.seen, ..old(self).scratch }),
                    runner::listed(stack@, cx.n()),
                decreases dfs::load(stack@),
            {
                let ghost stack0 = stack@;
                let i: u32 = match stack.pop() {
                    Some(i) => i,
                    None => {
                        break;
                    },
                };
                assert(i == stack0.last());
                proof {
                    dfs::lemma_heft_pos(i as nat);
                }
                if (others && self.live.reaches(i)) || !self.scratch.seen.insert(i)
                    || self.dead.contains(i) {
                    continue;
                }
                if let Err(e) = self.charge(Counter::PassWork, 1) {
                    // Nothing counted yet (`uses_on` is still off): keep the counted set
                    // consistent.
                    self.live.clear();
                    return Err(e);
                }
                let ch = cx.node(i).children();
                let ghost base = dfs::load(stack@);
                let mut j: usize = 0;
                while j < ch.len()
                    invariant
                        j <= ch.len(),
                        ch.len() <= 3,
                        runner::went(self, cx, old(self), cx),
                        self.scratch == (Scratch { seen: self.scratch.seen, ..old(self).scratch }),
                        cx.ok_at(i as int),
                        i < cx.n(),
                        ch@ == expr::kids(cx.nodes@[i as int]),
                        runner::listed(stack@, cx.n()),
                        4 * (dfs::load(stack@) - base) <= j * dfs::heft(i as nat),
                    decreases ch.len() - j,
                {
                    let c = ch[j];
                    assert(expr::kids(cx.nodes@[i as int])[j as int] < i);
                    proof {
                        dfs::lemma_heft_mono(c as nat, i as nat);
                    }
                    self.live.tally(c);
                    stack.push(c);
                    assert((j + 1) * dfs::heft(i as nat) == j * dfs::heft(i as nat) + dfs::heft(i as nat)) by (nonlinear_arith);
                    j = j + 1;
                }
                assert(j * dfs::heft(i as nat) <= 3 * dfs::heft(i as nat)) by (nonlinear_arith)
                    requires
                        j <= 3,
                ;
                self.live.count(i);
            }
            self.uses_on = true;
            self.uses_upto = self.phase_start;
        }
        let len = arena_len(cx);
        let from: u32 = if self.uses_upto < len {
            self.uses_upto
        } else {
            len
        };
        self.charge(Counter::PassWork, (len - from) as u64)?;
        let mut stack: Vec<u32> = Vec::new();
        let mut k: u32 = len;
        while k > from
            invariant
                len == cx.n(),
                k <= len,
                self.uses_on,
                runner::went(self, cx, old(self), cx),
                self.scratch == (Scratch { seen: self.scratch.seen, ..old(self).scratch }),
                runner::listed(stack@, cx.n()),
            decreases k,
        {
            k = k - 1;
            if !self.dead.contains(k) && !self.live.counted(k) {
                stack.push(k);
            }
        }
        while stack.len() > 0
            invariant
                self.uses_on,
                runner::went(self, cx, old(self), cx),
                self.scratch == (Scratch { seen: self.scratch.seen, ..old(self).scratch }),
                runner::listed(stack@, cx.n()),
            decreases dfs::load(stack@),
        {
            let ghost stack0 = stack@;
            let i: u32 = match stack.pop() {
                Some(i) => i,
                None => {
                    break;
                },
            };
            assert(i == stack0.last());
            proof {
                dfs::lemma_heft_pos(i as nat);
            }
            if !self.live.count(i) {
                continue;
            }
            self.dead.remove(i);
            self.charge(Counter::PassWork, 1)?;
            let ch = cx.node(i).children();
            let ghost base = dfs::load(stack@);
            let mut j: usize = 0;
            while j < ch.len()
                invariant
                    j <= ch.len(),
                    ch.len() <= 3,
                    self.uses_on,
                    runner::went(self, cx, old(self), cx),
                    self.scratch == (Scratch { seen: self.scratch.seen, ..old(self).scratch }),
                    cx.ok_at(i as int),
                    i < cx.n(),
                    ch@ == expr::kids(cx.nodes@[i as int]),
                    runner::listed(stack@, cx.n()),
                    4 * (dfs::load(stack@) - base) <= j * dfs::heft(i as nat),
                decreases ch.len() - j,
            {
                let c = ch[j];
                assert(expr::kids(cx.nodes@[i as int])[j as int] < i);
                proof {
                    dfs::lemma_heft_mono(c as nat, i as nat);
                }
                self.live.tally(c);
                if !self.live.counted(c) {
                    stack.push(c);
                }
                assert((j + 1) * dfs::heft(i as nat) == j * dfs::heft(i as nat) + dfs::heft(i as nat)) by (nonlinear_arith);
                j = j + 1;
            }
            assert(j * dfs::heft(i as nat) <= 3 * dfs::heft(i as nat)) by (nonlinear_arith)
                requires
                    j <= 3,
            ;
        }
        self.uses_upto = len;
        Ok(())
    }
}

impl<'a> Runner<'a> {
    /// The uses the commit rule weighs.
    pub open(crate) spec fn weighed(&self, shared: bool) -> spec_fn(u32) -> Option<u32> {
        if shared {
            live_uses(self.live)
        } else {
            counted_uses(self.scratch.local)
        }
    }

    /// The uses the commit rule weighs under the strategy's policy.
    pub open(crate) spec fn weighs(&self) -> spec_fn(u32) -> Option<u32> {
        self.weighed(self.sharing == Sharing::Roots)
    }

    /// The region nodes the last candidate reuses.
    pub open(crate) spec fn keeps(&self) -> spec_fn(u32) -> bool {
        marked(self.scratch.kept)
    }

    /// The region of `n`: the nodes reachable from it without entering `atoms`, at most
    /// `max_region` of them (the ones nearest `n`), left as `scratch.region` (and the atoms as
    /// `scratch.atoms`). Also counts in `scratch.local` each region node's uses from region
    /// nodes, and lists in `scratch.zeros` the region nodes no live node uses (see
    /// [`dying_in`](Self::dying_in)).
    fn region(&mut self, cx: &Context, n: u32, atoms: &Vec<u32>) -> (r: Result<(), Stop>)
        requires
            old(self).wf(cx),
            n < cx.n(),
        ensures
            runner::went(final(self), cx, old(self), cx),
            r matches Err(e) ==> final(self).refuses(cx, e),
            r is Ok ==> final(self).scratch.region.has(n) && runner::listed(final(self).scratch.zeros@, n + 1)
                && held(final(self).scratch.zeros@, final(self).scratch.region)
                && (forall|i: u32| #[trigger] final(self).scratch.region.has(i) ==> i <= n) && (
            forall|i: u32| #[trigger] final(self).scratch.atoms.has(i) == atoms@.contains(i)),
            final(self).uses_on == old(self).uses_on,
            final(self).max_region == old(self).max_region,
            r is Ok ==> exists|rs: Seq<u32>| #[trigger]
                region_told(
                    cx.nodes@,
                    n,
                    rs,
                    atoms@,
                    final(self).scratch.region,
                    final(self).scratch.local,
                    final(self).max_region as int,
                ),
    {
        self.scratch.atoms.begin(cx.len());
        let mut a: usize = 0;
        while a < atoms.len()
            invariant
                a <= atoms.len(),
                runner::went(self, cx, old(self), cx),
                forall|i: u32| #[trigger] self.scratch.atoms.has(i) == atoms@.take(a as int).contains(i),
                self.uses_on == old(self).uses_on,
            decreases atoms.len() - a,
        {
            let ghost before = *self;
            self.scratch.atoms.insert(atoms[a]);
            proof {
                let t = atoms@.take(a as int);
                let u = atoms@.take(a + 1);
                assert(u =~= t.push(atoms@[a as int]));
                assert forall|i: u32| #[trigger] self.scratch.atoms.has(i) == u.contains(i) by {
                    assert(before.scratch.atoms.has(i) == t.contains(i));
                    if t.contains(i) {
                        let q = choose|q: int| 0 <= q < t.len() && t[q] == i;
                        assert(u[q] == i);
                    }
                    if i == atoms@[a as int] {
                        assert(u[a as int] == i);
                    }
                    if u.contains(i) && i != atoms@[a as int] {
                        let q = choose|q: int| 0 <= q < u.len() && u[q] == i;
                        assert(t[q] == i);
                    }
                }
            }
            a = a + 1;
        }
        assert(atoms@.take(a as int) =~= atoms@);
        self.scratch.region.begin(cx.len());
        self.scratch.local.begin(cx.len());
        self.scratch.zeros.clear();
        let mut queue: Vec<u32> = vec![n];
        let mut head: usize = 0;
        let mut size: u32 = 0;
        let ghost mut rs: Seq<u32> = Seq::empty();
        proof {
            assert(queue@[0] == n);
        }
        while head < queue.len()
            invariant_except_break
                size < self.max_region || size == 0,
                spread(cx.nodes@, rs, atoms@, queue@.skip(head as int)),
                tallied(cx.nodes@, rs, atoms@, self.scratch.local),
            invariant
                self.max_region == old(self).max_region,
                size <= rs.len(),
                grown(cx.nodes@, n, rs, atoms@, queue@, self.scratch.region),
                rs.contains(n) || (head == 0 && queue@ == seq![n]),
                runner::went(self, cx, old(self), cx),
                head <= queue.len(),
                n < cx.n(),
                runner::listed(queue@, n + 1),
                runner::listed(self.scratch.zeros@, n + 1),
                held(self.scratch.zeros@, self.scratch.region),
                self.scratch.region.has(n) || (head == 0 && queue@ == seq![n]),
                forall|i: u32| #[trigger] self.scratch.region.has(i) ==> i <= n,
                forall|i: u32| #[trigger] self.scratch.atoms.has(i) == atoms@.contains(i),
                self.uses_on == old(self).uses_on,
            ensures
                self.max_region == old(self).max_region,
                region_told(
                    cx.nodes@,
                    n,
                    rs,
                    atoms@,
                    self.scratch.region,
                    self.scratch.local,
                    self.max_region as int,
                ),
                runner::went(self, cx, old(self), cx),
                runner::listed(self.scratch.zeros@, n + 1),
                held(self.scratch.zeros@, self.scratch.region),
                self.scratch.region.has(n),
                forall|i: u32| #[trigger] self.scratch.region.has(i) ==> i <= n,
                forall|i: u32| #[trigger] self.scratch.atoms.has(i) == atoms@.contains(i),
                self.uses_on == old(self).uses_on,
            decreases dfs::load(queue@.skip(head as int)),
        {
            let i = queue[head];
            proof {
                dfs::lemma_load_front(queue@.skip(head as int));
                assert(queue@.skip(head as int).skip(1) =~= queue@.skip(head + 1));
                dfs::lemma_heft_pos(i as nat);
                assert(queue@[head as int] <= n);
            }
            let ghost rs0 = rs;
            let ghost queue0 = queue@;
            let ghost region0 = self.scratch.region;
            head = head + 1;
            if !self.scratch.region.insert(i) {
                proof {
                    lemma_spread_skip(cx.nodes@, rs, atoms@, queue0, head - 1);
                    assert forall|x: u32| #[trigger]
                        self.scratch.region.has(x) == rs.contains(x) by {
                        assert(region0.has(x) == rs.contains(x));
                    }
                }
                continue;
            }
            proof {
                rs = rs0.push(i);
                lemma_grown(
                    cx.nodes@,
                    n,
                    rs0,
                    atoms@,
                    queue0,
                    region0,
                    self.scratch.region,
                    i,
                    head - 1,
                );
            }
            self.charge(Counter::PassWork, 1)?;
            if self.uses_on && self.live.uses(i) == Some(0) {
                self.scratch.zeros.push(i);
            }
            size = size.saturating_add(1);
            let ch = cx.node(i).children();
            if size >= self.max_region {
                // The node the cap stopped at uses region nodes too.
                let mut j: usize = 0;
                while j < ch.len()
                    invariant
                        j <= ch.len(),
                        runner::went(self, cx, old(self), cx),
                        runner::listed(self.scratch.zeros@, n + 1),
                held(self.scratch.zeros@, self.scratch.region),
                        self.scratch.region.has(n),
                        forall|i: u32| #[trigger] self.scratch.region.has(i) ==> i <= n,
                        forall|i: u32| #[trigger] self.scratch.atoms.has(i) == atoms@.contains(i),
                        self.uses_on == old(self).uses_on,
                        self.max_region == old(self).max_region,
                        grown(cx.nodes@, n, rs, atoms@, queue@, self.scratch.region),
                    decreases ch.len() - j,
                {
                    if self.scratch.region.contains(ch[j]) {
                        self.scratch.local.tally(ch[j]);
                    }
                    j = j + 1;
                }
                proof {
                    assert(rs.contains(n)) by {
                        assert(self.scratch.region.has(n));
                    }
                }
                break;
            }
            // Every operand's use is counted, whether or not the operand joins the region: only
            // region nodes' counts are read.
            let ghost base = dfs::load(queue@.skip(head as int));
            let mut j: usize = 0;
            while j < ch.len()
                invariant
                    j <= ch.len(),
                    ch.len() <= 3,
                    runner::went(self, cx, old(self), cx),
                    cx.ok_at(i as int),
                    i <= n < cx.n(),
                    ch@ == expr::kids(cx.nodes@[i as int]),
                    head <= queue.len(),
                    runner::listed(queue@, n + 1),
                    runner::listed(self.scratch.zeros@, n + 1),
                held(self.scratch.zeros@, self.scratch.region),
                    self.scratch.region.has(n),
                    forall|i: u32| #[trigger] self.scratch.region.has(i) ==> i <= n,
                    forall|i: u32| #[trigger] self.scratch.atoms.has(i) == atoms@.contains(i),
                    4 * (dfs::load(queue@.skip(head as int)) - base) <= j * dfs::heft(i as nat),
                    size < self.max_region,
                    self.uses_on == old(self).uses_on,
                    self.max_region == old(self).max_region,
                    rs == rs0.push(i),
                    grown(cx.nodes@, n, rs, atoms@, queue@, self.scratch.region),
                    queue0.skip(head as int).len() <= queue@.skip(head as int).len(),
                    among(queue0.skip(head as int), queue@.skip(head as int)),
                    forall|q: int|
                        0 <= q < j ==> atoms@.contains(#[trigger] ch@[q]) || queue@.skip(
                            head as int,
                        ).contains(ch@[q]),
                    forall|c: u32|
                        !atoms@.contains(c) ==> counts_as(
                            #[trigger] self.scratch.local.at(c),
                            used_by(cx.nodes@, rs0, c) + times_in(ch@.take(j as int), c),
                        ),
                decreases ch.len() - j,
            {
                let c = ch[j];
                assert(expr::kids(cx.nodes@[i as int])[j as int] < i);
                let ghost local0 = self.scratch.local;
                let ghost q0 = queue@;
                if !self.scratch.atoms.contains(c) {
                    proof {
                        dfs::lemma_heft_mono(c as nat, i as nat);
                        lemma_queue_push(queue@, head as int, c);
                    }
                    self.scratch.local.tally(c);
                    queue.push(c);
                }
                proof {
                    lemma_grown_push(cx.nodes@, n, rs, atoms@, q0, queue@, self.scratch.region, i, c, j as int);
                    let was = q0.skip(head as int);
                    let now = queue@.skip(head as int);
                    assert(queue@ == q0 || queue@ == q0.push(c));
                    assert forall|x: u32| was.contains(x) implies now.contains(x) by {
                        let k = choose|k: int| 0 <= k < was.len() && was[k] == x;
                        assert(now[k] == x);
                    }
                    assert(among(queue0.skip(head as int), now));
                    assert(atoms@.contains(c) || now.contains(c)) by {
                        if !atoms@.contains(c) {
                            assert(now[now.len() - 1] == c);
                        }
                    }
                    assert(ch@.take(j + 1) =~= ch@.take(j as int).push(c));
                    assert forall|x: u32| !atoms@.contains(x) implies counts_as(
                        #[trigger] self.scratch.local.at(x),
                        used_by(cx.nodes@, rs0, x) + times_in(ch@.take(j + 1), x),
                    ) by {
                        lemma_times_push(ch@.take(j as int), c, x);
                        let _ = local0.at(x);
                    }
                }
                assert((j + 1) * dfs::heft(i as nat) == j * dfs::heft(i as nat) + dfs::heft(i as nat)) by (nonlinear_arith);
                j = j + 1;
            }
            assert(j * dfs::heft(i as nat) <= 3 * dfs::heft(i as nat)) by (nonlinear_arith)
                requires
                    j <= 3,
            ;
            proof {
                assert(ch@.take(j as int) =~= ch@);
                assert(rs.drop_last() =~= rs0);
                assert forall|c: u32| !atoms@.contains(c) implies counts_as(
                    #[trigger] self.scratch.local.at(c),
                    used_by(cx.nodes@, rs, c),
                ) by {
                    lemma_times_used(cx.nodes@[i as int], c);
                }
                lemma_spread_next(cx.nodes@, rs0, atoms@, queue0, queue@, head - 1, i);
                assert(rs.contains(n)) by {
                    assert(self.scratch.region.has(n));
                }
            }
        }
        proof {
            assert(region_told(
                cx.nodes@,
                n,
                rs,
                atoms@,
                self.scratch.region,
                self.scratch.local,
                self.max_region as int,
            ));
        }
        Ok(())
    }

    /// How many nodes of the region of `n` (left by [`region`](Self::region)) stop being used
    /// when `n` is replaced, counting at most `limit`: `n`, and every node all of whose uses come
    /// from nodes that stop being used; with `kept`, nodes in `scratch.kept` (reused by the
    /// replacement) stay. A truncated region gives a lower bound.
    ///
    /// With `shared` off, uses from outside the region are ignored: the count a context-free
    /// decision would make, used to tell whether a rejection depended on sharing.
    ///
    /// Operands have lower indices than their users, so taking the nodes that may stop being used
    /// highest index first decides each after all its users. A node may stop being used only if
    /// one of its users does, or if nothing uses it (only nodes `region` listed in `zeros`:
    /// counting the uses since only adds; a region node's uses from the region are never none).
    fn dying_in(
        &mut self,
        cx: &Context,
        n: u32,
        kept: bool,
        limit: u32,
        shared: bool,
    ) -> (r: Result<u32, Stop>)
        requires
            old(self).wf(cx),
            n < cx.n(),
            runner::listed(old(self).scratch.zeros@, n + 1),
            kept ==> !old(self).scratch.kept.has(n),
            held(old(self).scratch.zeros@, old(self).scratch.region),
            old(self).scratch.region.has(n),
        ensures
            runner::went(final(self), cx, old(self), cx),
            r matches Err(e) ==> final(self).refuses(cx, e),
            final(self).scratch.region == old(self).scratch.region,
            final(self).scratch.kept == old(self).scratch.kept,
            final(self).scratch.atoms == old(self).scratch.atoms,
            final(self).scratch.zeros == old(self).scratch.zeros,
            final(self).scratch.local == old(self).scratch.local,
            r matches Ok(count) ==> exists|d: Seq<u32>| #[trigger]
                frees(cx.nodes@, n, d, final(self).weighed(shared)) && d.len() == count && (forall|j: int|
                    0 <= j < d.len() ==> final(self).scratch.region.has(#[trigger] d[j])) && (kept ==> forall|j: int|
                    0 <= j < d.len() ==> !final(self).scratch.kept.has(#[trigger] d[j])),
            // All of them are counted, up to the limit.
            r matches Ok(count) ==> count < limit ==> forall|d: Seq<u32>| #[trigger]
                frees_used(cx.nodes@, n, d, final(self).weighed(shared)) && (forall|j: int|
                    0 <= j < d.len() ==> final(self).scratch.region.has(#[trigger] d[j]) && !(kept
                        && final(self).scratch.kept.has(d[j]))) ==> d.len() <= count,
            final(self).max_region == old(self).max_region,
    {
        if shared {
            self.refresh_uses(cx)?;
        }
        let ghost at_start = *self;
        self.scratch.dying.begin(cx.len());
        self.scratch.heap.clear();
        self.scratch.heap.push(n);
        if shared {
            let mut z: usize = 0;
            while z < self.scratch.zeros.len()
                invariant
                    z <= self.scratch.zeros.len(),
                    n < cx.n(),
                    runner::went(self, cx, old(self), cx),
                    runner::listed(self.scratch.zeros@, n + 1),
                    self.scratch.heap.has(n),
                    forall|i: u32| #[trigger] self.scratch.heap.has(i) ==> i <= n,
                    held(self.scratch.zeros@, self.scratch.region),
                    self.scratch.region.has(n),
                    forall|i: u32| #[trigger] self.scratch.heap.has(i) ==> self.scratch.region.has(
                        i,
                    ),
                    forall|i: u32| self.scratch.dying.at(i) is None,
                    self.scratch.region == old(self).scratch.region,
                    self.scratch.kept == old(self).scratch.kept,
                    self.scratch.atoms == old(self).scratch.atoms,
                    self.scratch.zeros == old(self).scratch.zeros,
                    self.scratch.local == old(self).scratch.local,
                    self.live == at_start.live,
                decreases self.scratch.zeros.len() - z,
            {
                let c = self.scratch.zeros[z];
                assert(self.scratch.zeros@[z as int] <= n);
                self.scratch.heap.push(c);
                z = z + 1;
            }
        }
        let ghost uses = self.weighed(shared);
        let ghost stays = |c: u32| kept && old(self).scratch.kept.has(c);
        let ghost mut d: Seq<u32> = Seq::empty();
        let ghost mut bound: int = n + 1;
        let mut count: u32 = 0;
        loop
            invariant
                runner::went(self, cx, old(self), cx),
                n < cx.n(),
                d.len() == count,
                count == 0 || count < limit,
                0 <= bound <= n + 1,
                uses == self.weighed(shared),
                self.live == at_start.live,
                self.scratch.region == old(self).scratch.region,
                self.scratch.kept == old(self).scratch.kept,
                self.scratch.atoms == old(self).scratch.atoms,
                self.scratch.zeros == old(self).scratch.zeros,
                self.scratch.local == old(self).scratch.local,
                forall|i: u32| #[trigger] self.scratch.heap.has(i) ==> i < bound,
                forall|i: u32| #[trigger] self.scratch.heap.has(i) ==> self.scratch.region.has(i),
                forall|j: int| 0 <= j < d.len() ==> #[trigger] d[j] >= bound,
                count == 0 ==> bound == n + 1 && self.scratch.heap.has(n),
                count > 0 ==> frees(cx.nodes@, n, d, uses),
                falling(d),
                kept ==> !self.scratch.kept.has(n),
                forall|j: int| 0 <= j < d.len() ==> self.scratch.region.has(#[trigger] d[j]),
                kept ==> forall|j: int|
                    0 <= j < d.len() ==> !self.scratch.kept.has(#[trigger] d[j]),
                forall|c: u32|
                    #![trigger self.scratch.dying.at(c)]
                    self.scratch.dying.at(c) is Some ==> self.scratch.dying.at(c)->0 <= used_by(
                        cx.nodes@,
                        d,
                        c,
                    ),
                self.max_region == old(self).max_region,
                stays == (|c: u32| kept && old(self).scratch.kept.has(c)),
                forall|c: u32|
                    #![trigger used_by(cx.nodes@, d, c)]
                    self.scratch.region.has(c) ==> counts_up(
                        self.scratch.dying.at(c),
                        used_by(cx.nodes@, d, c),
                    ) && (used_by(cx.nodes@, d, c) >= 1 && c < bound ==> self.scratch.heap.has(c)),
                forall|c: u32|
                    #![trigger used_by(cx.nodes@, d, c)]
                    self.scratch.region.has(c) && c >= bound && used_by(cx.nodes@, d, c) >= 1
                        && !d.contains(c) ==> stays(c) || uses(c) is None || used_by(
                        cx.nodes@,
                        d,
                        c,
                    ) < uses(c)->0,
            decreases bound,
        {
            let ghost heap0 = self.scratch.heap;
            let ghost bound0 = bound;
            let top = self.scratch.heap.pop();
            let i: u32 = match top {
                Some(i) => i,
                None => {
                    assert(count > 0);
                    proof {
                        assert forall|c: u32|
                            #![trigger used_by(cx.nodes@, d, c)]
                            self.scratch.region.has(c) && used_by(cx.nodes@, d, c) >= 1
                                && !d.contains(c) implies stays(c) || uses(c) is None || used_by(
                            cx.nodes@,
                            d,
                            c,
                        ) < uses(c)->0 by {
                            if c < bound {
                                assert(heap0.has(c));
                            }
                        }
                        assert forall|e: Seq<u32>| #[trigger]
                            frees_used(cx.nodes@, n, e, uses) && (forall|j: int|
                                0 <= j < e.len() ==> self.scratch.region.has(#[trigger] e[j]) && !(
                                kept && self.scratch.kept.has(e[j]))) implies e.len() <= count by {
                            lemma_all_found(
                                cx.nodes@,
                                n,
                                d,
                                e,
                                uses,
                                self.scratch.region,
                                stays,
                            );
                        }
                    }
                    return Ok(count);
                },
            };
            proof {
                bound = i as int;
                assert forall|c: u32| #![trigger used_by(cx.nodes@, d, c)] i < c < bound0 && self.scratch.region.has(c) implies used_by(
                    cx.nodes@,
                    d,
                    c,
                ) == 0 by {
                    if used_by(cx.nodes@, d, c) >= 1 {
                        assert(heap0.has(c));
                    }
                }
            }
            if kept && self.scratch.kept.contains(i) {
                assert(count > 0);
                assert(stays(i));
                continue;
            }
            let have: u32 = match self.scratch.dying.get(i) {
                Some(x) => x,
                None => 0,
            };
            let want: Option<u32> = if shared {
                self.live.uses(i)
            } else {
                self.scratch.local.get(i)
            };
            assert(want == uses(i));
            let dies = i == n || match want {
                Some(u) => have >= u,
                None => false,
            };
            if !dies {
                assert(count > 0);
                continue;
            }
            let ghost d0 = d;
            proof {
                d = d.push(i);
                assert(d.drop_last() =~= d0);
                assert forall|j: int| #![trigger d[j]] 1 <= j < d.len() implies uses(d[j]) is Some
                    && uses(d[j])->0 <= used_by(cx.nodes@, d.take(j), d[j]) by {
                    if j < d0.len() {
                        assert(d[j] == d0[j]);
                        assert(d.take(j) =~= d0.take(j));
                    } else {
                        assert(d.take(j) =~= d0);
                    }
                }
            }
            count = count + 1;
            if count >= limit {
                assert(frees(cx.nodes@, n, d, self.weighed(shared)));
                return Ok(count);
            }
            let ch = cx.node(i).children();
            let ghost node = cx.nodes@[i as int];
            let ghost heap1 = self.scratch.heap;
            proof {
                assert(expr::kids(node).take(0) =~= Seq::<u32>::empty());
            }
            let mut j: usize = 0;
            while j < ch.len()
                invariant
                    j <= ch.len(),
                    ch.len() <= 3,
                    runner::went(self, cx, old(self), cx),
                    cx.ok_at(i as int),
                    i <= n < cx.n(),
                    bound == i,
                    node == cx.nodes@[i as int],
                    ch@ == expr::kids(node),
                    d == d0.push(i),
                    uses == self.weighed(shared),
                    self.live == at_start.live,
                    self.scratch.region == old(self).scratch.region,
                    self.scratch.kept == old(self).scratch.kept,
                    self.scratch.atoms == old(self).scratch.atoms,
                    self.scratch.zeros == old(self).scratch.zeros,
                    self.scratch.local == old(self).scratch.local,
                    forall|i: u32| #[trigger] self.scratch.heap.has(i) ==> i < bound,
                    forall|i: u32| #[trigger] self.scratch.heap.has(i) ==> self.scratch.region.has(
                        i,
                    ),
                    forall|c: u32|
                        #![trigger self.scratch.dying.at(c)]
                        self.scratch.dying.at(c) is Some ==> self.scratch.dying.at(c)->0
                            <= used_by(cx.nodes@, d0, c) + times_in(expr::kids(node).take(j as int), c),
                    self.max_region == old(self).max_region,
                    forall|c: u32|
                        #![trigger used_by(cx.nodes@, d0, c)]
                        self.scratch.region.has(c) ==> counts_up(
                            self.scratch.dying.at(c),
                            used_by(cx.nodes@, d0, c) + times_in(
                                expr::kids(node).take(j as int),
                                c,
                            ),
                        ),
                    forall|c: u32| #[trigger] heap1.has(c) ==> self.scratch.heap.has(c),
                    forall|q: int|
                        0 <= q < j && self.scratch.region.has(#[trigger] expr::kids(node)[q])
                            ==> self.scratch.heap.has(expr::kids(node)[q]),
                decreases ch.len() - j,
            {
                let c = ch[j];
                let ghost before = *self;
                assert(expr::kids(node)[j as int] < i);
                if self.scratch.region.contains(c) {
                    self.scratch.dying.tally(c);
                    self.scratch.heap.push(c);
                }
                proof {
                    let k = expr::kids(node);
                    assert forall|x: u32|
                        #![trigger self.scratch.dying.at(x)]
                        self.scratch.dying.at(x) is Some implies self.scratch.dying.at(x)->0
                        <= used_by(cx.nodes@, d0, x) + times_in(k.take(j + 1), x) by {
                        assert(k.take(j + 1) =~= k.take(j as int).push(c));
                        lemma_times_push(k.take(j as int), c, x);
                        let _ = before.scratch.dying.at(x);
                    }
                    assert forall|x: u32|
                        #![trigger used_by(cx.nodes@, d0, x)]
                        self.scratch.region.has(x) implies counts_up(
                        self.scratch.dying.at(x),
                        used_by(cx.nodes@, d0, x) + times_in(k.take(j + 1), x),
                    ) by {
                        assert(k.take(j + 1) =~= k.take(j as int).push(c));
                        lemma_times_push(k.take(j as int), c, x);
                        let _ = before.scratch.dying.at(x);
                        let _ = self.scratch.dying.at(x);
                    }
                }
                j = j + 1;
            }
            proof {
                assert(expr::kids(node).take(j as int) =~= expr::kids(node));
                assert forall|c: u32|
                    #![trigger self.scratch.dying.at(c)]
                    self.scratch.dying.at(c) is Some implies self.scratch.dying.at(c)->0
                    <= used_by(cx.nodes@, d, c) by {
                    lemma_times_used(node, c);
                    assert(d.drop_last() =~= d0);
                }
                assert(d.drop_last() =~= d0);
                assert(d.last() == i);
                assert(d[d0.len() as int] == i);
                assert forall|c: u32|
                    #![trigger used_by(cx.nodes@, d, c)]
                    self.scratch.region.has(c) implies counts_up(
                    self.scratch.dying.at(c),
                    used_by(cx.nodes@, d, c),
                ) && (used_by(cx.nodes@, d, c) >= 1 && c < bound ==> self.scratch.heap.has(c)) by {
                    lemma_times_used(node, c);
                    let _ = used_by(cx.nodes@, d0, c);
                    if used_by(cx.nodes@, d, c) >= 1 && c < bound {
                        if used_by(cx.nodes@, d0, c) >= 1 {
                            assert(heap0.has(c));
                            assert(heap1.has(c));
                        } else {
                            let ks = expr::kids(node);
                            if ks.len() > 0 && ks[0] == c {
                                assert(self.scratch.heap.has(ks[0]));
                            } else if ks.len() > 1 && ks[1] == c {
                                assert(self.scratch.heap.has(ks[1]));
                            } else {
                                assert(self.scratch.heap.has(ks[2]));
                            }
                        }
                    }
                }
                assert forall|c: u32|
                    #![trigger used_by(cx.nodes@, d, c)]
                    self.scratch.region.has(c) && c >= bound && used_by(cx.nodes@, d, c) >= 1
                        && !d.contains(c) implies stays(c) || uses(c) is None || used_by(
                    cx.nodes@,
                    d,
                    c,
                ) < uses(c)->0 by {
                    assert(c > i);
                    assert(times_used(node, c) == 0);
                    assert(used_by(cx.nodes@, d, c) == used_by(cx.nodes@, d0, c));
                    if d0.contains(c) {
                        let q = choose|q: int| 0 <= q < d0.len() && d0[q] == c;
                        assert(d[q] == c);
                    }
                }
            }
        }
    }

    /// The nodes candidate `e` needs that are neither atoms nor in the region (`scratch.atoms`
    /// and `scratch.region`, of the node it replaces), leaving the region nodes it reuses in
    /// `scratch.kept`; none if more than `max_region`. Counted against the structure, not the
    /// arena, so the decision never depends on which nodes happen to exist already.
    fn needed(&mut self, cx: &Context, e: u32, Ghost(atoms): Ghost<Seq<u32>>) -> (r: Result<
        Option<u32>,
        Stop,
    >)
        requires
            old(self).wf(cx),
            e < cx.n(),
            forall|i: u32| #[trigger] old(self).scratch.atoms.has(i) == atoms.contains(i),
        ensures
            runner::went(final(self), cx, old(self), cx),
            r matches Err(e) ==> final(self).refuses(cx, e),
            final(self).scratch.region == old(self).scratch.region,
            final(self).scratch.atoms == old(self).scratch.atoms,
            final(self).scratch.zeros == old(self).scratch.zeros,
            final(self).scratch.local == old(self).scratch.local,
            forall|i: u32| #[trigger]
                final(self).scratch.kept.has(i) ==> final(self).scratch.region.has(i),
            r matches Ok(Some(new)) ==> exists|s: Seq<u32>| #[trigger]
                made_of(cx.nodes@, e, s, atoms, final(self).keeps())
                    && s.len() == new && forall|k: int|
                    0 <= k < s.len() ==> !final(self).scratch.region.has(#[trigger] s[k]),
            // An atom is there.
            atoms.contains(e) ==> (r is Err || r == Ok::<Option<u32>, Stop>(Some(0))) && forall|
                i: u32,
            | !#[trigger] final(self).scratch.kept.has(i),
            final(self).max_region == old(self).max_region,
            // No more than it is made of are needed or reused.
            forall|t: Seq<u32>| #[trigger]
                holds_all(cx.nodes@, e, t, atoms) ==> (r matches Ok(Some(new)) ==> new <= t.len())
                    && (r == Ok::<Option<u32>, Stop>(None) ==> t.len() > final(self).max_region)
                    && forall|i: u32| #[trigger] final(self).scratch.kept.has(i) ==> t.contains(i),
    {
        self.scratch.seen.begin(cx.len());
        self.scratch.kept.begin(cx.len());
        let mut stack: Vec<u32> = vec![e];
        let mut new: u32 = 0;
        let ghost mut s: Seq<u32> = Seq::empty();
        assert(stack@[0] == e);
        while stack.len() > 0
            invariant
                runner::went(self, cx, old(self), cx),
                e < cx.n(),
                runner::listed(stack@, cx.n()),
                self.scratch.region == old(self).scratch.region,
                self.scratch.atoms == old(self).scratch.atoms,
                self.scratch.zeros == old(self).scratch.zeros,
                self.scratch.local == old(self).scratch.local,
                s.len() == new,
                new <= self.max_region,
                forall|i: u32| #[trigger] self.scratch.atoms.has(i) == atoms.contains(i),
                forall|i: u32| #[trigger]
                    self.scratch.kept.has(i) ==> self.scratch.region.has(i),
                s.no_duplicates(),
                forall|k: int| 0 <= k < s.len() ==> self.scratch.seen.has(#[trigger] s[k]),
                forall|k: int| 0 <= k < s.len() ==> !self.scratch.region.has(#[trigger] s[k]),
                forall|i: u32| #[trigger]
                    self.scratch.seen.has(i) ==> s.contains(i) || at_hand(
                        i,
                        atoms,
                        self.keeps(),
                    ),
                self.scratch.seen.has(e) || stack@.contains(e),
                self.max_region == old(self).max_region,
                forall|t: Seq<u32>| #[trigger]
                    holds_all(cx.nodes@, e, t, atoms) ==> needs_within(
                        t,
                        atoms,
                        s,
                        stack@,
                        self.scratch.kept,
                    ),
                atoms.contains(e) ==> new == 0 && (forall|i: u32|
                    !#[trigger] self.scratch.kept.has(i)) && (stack@.len() == 0 || stack@ =~= seq![
                    e,
                ]),
                forall|k: int, j: int|
                    #![trigger expr::kids(cx.nodes@[s[k] as int])[j]]
                    0 <= k < s.len() && 0 <= j < expr::kids(cx.nodes@[s[k] as int]).len()
                        ==> self.scratch.seen.has(expr::kids(cx.nodes@[s[k] as int])[j])
                        || stack@.contains(expr::kids(cx.nodes@[s[k] as int])[j]),
            decreases dfs::load(stack@),
        {
            let ghost stack0 = stack@;
            let ghost before = *self;
            let i: u32 = match stack.pop() {
                Some(i) => i,
                None => {
                    return Ok(None);
                },
            };
            assert(i == stack0.last());
            proof {
                dfs::lemma_heft_pos(i as nat);
                assert forall|x: u32| stack0.contains(x) implies x == i || stack@.contains(x) by {
                    let q = choose|q: int| 0 <= q < stack0.len() && stack0[q] == x;
                    if q < stack@.len() {
                        assert(stack@[q] == x);
                    }
                }
            }
            let fresh = self.scratch.seen.insert(i);
            proof {
                assert forall|t: Seq<u32>| #[trigger] holds_all(cx.nodes@, e, t, atoms) implies needs_within(
                    t,
                    atoms,
                    s,
                    stack@,
                    self.scratch.kept,
                ) && (t.contains(i) || atoms.contains(i)) by {
                    assert(needs_within(t, atoms, s, stack0, before.scratch.kept));
                    let _ = stack0[stack0.len() - 1];
                    assert forall|k: int| 0 <= k < stack@.len() implies t.contains(
                        #[trigger] stack@[k],
                    ) || atoms.contains(stack@[k]) by {
                        assert(stack@[k] == stack0[k]);
                    }
                }
            }
            if !fresh || self.scratch.atoms.contains(i) {
                continue;
            }
            self.charge(Counter::PassWork, 1)?;
            if self.scratch.region.contains(i) {
                self.scratch.kept.insert(i);
                proof {
                    assert forall|t: Seq<u32>| #[trigger]
                        holds_all(cx.nodes@, e, t, atoms) implies needs_within(
                        t,
                        atoms,
                        s,
                        stack@,
                        self.scratch.kept,
                    ) by {
                        assert forall|x: u32| #[trigger] self.scratch.kept.has(x) implies t.contains(
                            x,
                        ) by {
                            if x != i {
                                assert(before.scratch.kept.has(x));
                            }
                        }
                    }
                    assert forall|x: u32| #[trigger] self.scratch.seen.has(x) implies s.contains(x)
                        || at_hand(x, atoms, self.keeps()) by {
                        if x != i {
                            assert(before.scratch.seen.has(x));
                            if before.scratch.kept.has(x) {
                                assert(self.scratch.kept.has(x));
                            }
                        }
                    }
                }
                continue;
            }
            if new >= self.max_region {
                proof {
                    let more = s.push(i);
                    assert forall|t: Seq<u32>| #[trigger]
                        holds_all(cx.nodes@, e, t, atoms) implies t.len() > self.max_region by {
                        assert(needs_within(t, atoms, s, stack@, self.scratch.kept));
                        assert(among(more, t)) by {
                            assert forall|k: int| 0 <= k < more.len() implies t.contains(
                                #[trigger] more[k],
                            ) by {
                                if k < s.len() {
                                    assert(more[k] == s[k]);
                                }
                            }
                        }
                        assert(more.no_duplicates()) by {
                            assert forall|x: int, y: int| 0 <= x < more.len() && 0 <= y < more.len() && x
                                != y implies more[x] != more[y] by {
                                if x < s.len() {
                                    assert(before.scratch.seen.has(s[x]));
                                }
                                if y < s.len() {
                                    assert(before.scratch.seen.has(s[y]));
                                }
                            }
                        }
                        lemma_among_len(more, t);
                    }
                }
                self.checked()?;
                return Ok(None);
            }
            new = new + 1;
            let ghost s0 = s;
            proof {
                s = s.push(i);
                assert(s[s0.len() as int] == i);
                assert(!s0.contains(i)) by {
                    if s0.contains(i) {
                        let q = choose|q: int| 0 <= q < s0.len() && s0[q] == i;
                        assert(before.scratch.seen.has(s0[q]));
                    }
                }
                assert(s.no_duplicates()) by {
                    assert forall|x: int, y: int| 0 <= x < s.len() && 0 <= y < s.len() && x
                        != y implies s[x] != s[y] by {
                        if x < s0.len() {
                            assert(s0.contains(s0[x]));
                        }
                        if y < s0.len() {
                            assert(s0.contains(s0[y]));
                        }
                    }
                }
                assert forall|x: u32| #[trigger] self.scratch.seen.has(x) implies s.contains(x)
                    || at_hand(x, atoms, self.keeps()) by {
                    if x != i {
                        assert(before.scratch.seen.has(x));
                        if s0.contains(x) {
                            let q = choose|q: int| 0 <= q < s0.len() && s0[q] == x;
                            assert(s[q] == x);
                        } else if before.scratch.kept.has(x) {
                            assert(self.scratch.kept.has(x));
                        }
                    }
                }
            }
            let ch = cx.node(i).children();
            let ghost base = dfs::load(stack@);
            let ghost rest = stack@;
            let mut j: usize = 0;
            while j < ch.len()
                invariant
                    j <= ch.len(),
                    ch.len() <= 3,
                    cx.ok_at(i as int),
                    i < cx.n(),
                    ch@ == expr::kids(cx.nodes@[i as int]),
                    runner::listed(stack@, cx.n()),
                    forall|x: u32| rest.contains(x) ==> #[trigger] stack@.contains(x),
                    forall|q: int| 0 <= q < j ==> stack@.contains(#[trigger] ch@[q]),
                    forall|k: int|
                        0 <= k < stack@.len() ==> rest.contains(#[trigger] stack@[k]) || ch@.contains(
                            stack@[k],
                        ),
                    4 * (dfs::load(stack@) - base) <= j * dfs::heft(i as nat),
                decreases ch.len() - j,
            {
                let c = ch[j];
                assert(expr::kids(cx.nodes@[i as int])[j as int] < i);
                proof {
                    dfs::lemma_heft_mono(c as nat, i as nat);
                }
                let ghost was = stack@;
                stack.push(c);
                proof {
                    assert(stack@[was.len() as int] == c);
                    assert(ch@[j as int] == c);
                    assert forall|k: int| 0 <= k < stack@.len() implies rest.contains(
                        #[trigger] stack@[k],
                    ) || ch@.contains(stack@[k]) by {
                        if k < was.len() {
                            assert(stack@[k] == was[k]);
                        }
                    }
                    assert forall|x: u32| was.contains(x) implies #[trigger] stack@.contains(x) by {
                        let q = choose|q: int| 0 <= q < was.len() && was[q] == x;
                        assert(stack@[q] == x);
                    }
                }
                assert((j + 1) * dfs::heft(i as nat) == j * dfs::heft(i as nat) + dfs::heft(i as nat)) by (nonlinear_arith);
                j = j + 1;
            }
            assert(j * dfs::heft(i as nat) <= 3 * dfs::heft(i as nat)) by (nonlinear_arith)
                requires
                    j <= 3,
            ;
            proof {
                assert forall|k: int, j: int|
                    #![trigger expr::kids(cx.nodes@[s[k] as int])[j]]
                    0 <= k < s.len() && 0 <= j < expr::kids(
                        cx.nodes@[s[k] as int],
                    ).len() implies self.scratch.seen.has(expr::kids(cx.nodes@[s[k] as int])[j])
                    || stack@.contains(expr::kids(cx.nodes@[s[k] as int])[j]) by {
                    if k < s0.len() {
                        assert(s[k] == s0[k]);
                        let x = expr::kids(cx.nodes@[s0[k] as int])[j];
                        assert(before.scratch.seen.has(x) || stack0.contains(x));
                        if before.scratch.seen.has(x) {
                            assert(self.scratch.seen.has(x));
                        } else if x == i {
                            assert(self.scratch.seen.has(x));
                        } else {
                            assert(rest.contains(x));
                        }
                    } else {
                        assert(s[k] == i);
                        assert(stack@.contains(ch@[j]));
                    }
                }
                assert forall|t: Seq<u32>| #[trigger] holds_all(cx.nodes@, e, t, atoms) implies needs_within(
                    t,
                    atoms,
                    s,
                    stack@,
                    self.scratch.kept,
                ) by {
                    assert(needs_within(t, atoms, s0, rest, before.scratch.kept));
                    assert(t.contains(i));
                    let p = choose|p: int| 0 <= p < t.len() && t[p] == i;
                    assert forall|k: int| 0 <= k < s.len() implies t.contains(#[trigger] s[k]) by {
                        if k < s0.len() {
                            assert(s[k] == s0[k]);
                        }
                    }
                    assert forall|k: int| 0 <= k < stack@.len() implies t.contains(
                        #[trigger] stack@[k],
                    ) || atoms.contains(stack@[k]) by {
                        let x = stack@[k];
                        if rest.contains(x) {
                            let q = choose|q: int| 0 <= q < rest.len() && rest[q] == x;
                            let _ = rest[q];
                        } else {
                            let q = choose|q: int| 0 <= q < ch@.len() && ch@[q] == x;
                            assert(expr::kids(cx.nodes@[t[p] as int])[q] == x);
                        }
                    }
                }
            }
        }
        proof {
            assert forall|t: Seq<u32>| #[trigger] holds_all(cx.nodes@, e, t, atoms) implies new
                <= t.len() by {
                assert(needs_within(t, atoms, s, stack@, self.scratch.kept));
                lemma_among_len(s, t);
            }
        }
        self.checked()?;
        proof {
            let kept = self.keeps();
            assert(stack@.len() == 0);
            assert(self.scratch.seen.has(e));
            assert(made_of(cx.nodes@, e, s, atoms, kept));
        }
        Ok(Some(new))
    }

    /// Whether building a candidate of at most `estimate` nodes can pay: fewer than the nodes
    /// replacing `n` would free. Checked before building, so rejected candidates cost no nodes.
    /// `Ok(None)` to build; `Ok(Some(fin))` not to, with what that decision contributes to the
    /// node's finality (not final when only sharing made it).
    pub(crate) fn worth_building(
        &mut self,
        cx: &Context,
        n: u32,
        atoms: &Vec<u32>,
        estimate: u32,
    ) -> (r: Result<Option<Fin>, Stop>)
        requires
            old(self).wf(cx),
            n < cx.n(),
        ensures
            runner::went(final(self), cx, old(self), cx),
            r matches Err(e) ==> final(self).refuses(cx, e),
            r matches Ok(Some(fin)) ==> fin.free(),
            r matches Ok(None) ==> exists|d: Seq<u32>| #[trigger]
                frees(
                    cx.nodes@,
                    n,
                    d,
                    final(self).weighs(),
                ) && d.len() > estimate,
    {
        self.region(cx, n, atoms)?;
        self.checked()?;
        let limit = estimate.saturating_add(1);
        if self.sharing == Sharing::Ignored {
            let alone = self.dying_in(cx, n, false, limit, false)?;
            assert(self.weighs() == self.weighed(false));
            return if alone > estimate {
                Ok(None)
            } else {
                Ok(Some(Fin::full()))
            };
        }
        let freed = self.dying_in(cx, n, false, limit, true)?;
        if freed > estimate {
            assert(self.weighs() == self.weighed(true));
            return Ok(None);
        }
        let alone = self.dying_in(cx, n, false, limit, false)?;
        Ok(
            Some(
                if alone > estimate {
                    Fin::provisional()
                } else {
                    Fin::full()
                },
            ),
        )
    }

    /// Whether replacing `n` by `e` (already built) makes the DAG strictly smaller: `e` needs
    /// fewer nodes than replacing `n` frees. `Err(fin)` when it does not, with what that
    /// contributes to the node's finality: a rejection that only sharing caused may flip once
    /// other users of the region are simplified away later in the walk, so it is not final and a
    /// later round decides again. A constant always replaces a node that is not one: it frees
    /// the node's operator for a constant, which rewrites nothing further (so the non-constant
    /// nodes strictly decrease), and it lets the users fold.
    pub(crate) fn shrinks(&mut self, cx: &Context, n: u32, e: u32, atoms: &Vec<u32>) -> (r: Result<
        Result<(), Fin>,
        Stop,
    >)
        requires
            old(self).wf(cx),
            n < cx.n(),
            e < cx.n(),
        ensures
            runner::went(final(self), cx, old(self), cx),
            r matches Err(e) ==> final(self).refuses(cx, e),
            r matches Ok(Ok(_)) ==> pinned(cx.nodes@, n, e) || smaller(
                cx.nodes@,
                n,
                e,
                atoms@,
                final(self).keeps(),
                final(self).weighs(),
            ),
            pinned(cx.nodes@, n, e) ==> r == Ok::<Result<(), Fin>, Stop>(Ok(())),
            atoms@.contains(e) && e != n ==> r is Err || r == Ok::<Result<(), Fin>, Stop>(Ok(())),
            r matches Ok(Err(fin)) ==> fin.free(),
            // What is plainly worth it is not turned down for good.
            r matches Ok(Err(fin)) ==> fin.done ==> forall|t: Seq<u32>, u: Seq<u32>, d: Seq<u32>|
                !#[trigger] gains(
                    cx.nodes@,
                    n,
                    e,
                    atoms@,
                    t,
                    u,
                    d,
                    old(self).max_region as int,
                ),
    {
        if cx.is_const(e) && !cx.is_const(n) {
            return Ok(Ok(()));
        }
        self.region(cx, n, atoms)?;
        let ghost region = self.scratch.region;
        let ghost local = self.scratch.local;
        let ghost most = self.max_region as int;
        let ghost rs = choose|rs: Seq<u32>| #[trigger]
            region_told(cx.nodes@, n, rs, atoms@, region, local, most);
        self.checked()?;
        let new: u32 = match self.needed(cx, e, Ghost(atoms@))? {
            Some(new) => new,
            None => {
                return Ok(Err(Fin::full()));
            },
        };
        let ghost kept_by = self.scratch.kept;
        if self.scratch.kept.contains(n) {
            // The candidate contains the node itself: nothing is freed.
            proof {
                assert forall|t: Seq<u32>, u: Seq<u32>, d: Seq<u32>| !#[trigger] gains(
                    cx.nodes@,
                    n,
                    e,
                    atoms@,
                    t,
                    u,
                    d,
                    most,
                ) by {
                    if gains(cx.nodes@, n, e, atoms@, t, u, d, most) {
                        assert(t.contains(n));
                        assert(!t.contains(d[0]));
                    }
                }
            }
            return Ok(Err(Fin::full()));
        }
        let limit = new.saturating_add(1);
        let ghost kept = self.keeps();
        let ghost s = choose|s: Seq<u32>| #[trigger]
            made_of(cx.nodes@, e, s, atoms@, kept) && s.len() == new && forall|k: int|
                0 <= k < s.len() ==> !self.scratch.region.has(#[trigger] s[k]);
        let shared = self.sharing == Sharing::Roots;
        let ghost zeros = self.scratch.zeros@;
        let freed = self.dying_in(cx, n, true, limit, shared)?;
        if new < freed {
            proof {
                let uses = self.weighed(shared);
                let kept1 = self.keeps();
                let d = choose|d: Seq<u32>| #[trigger]
                    frees(cx.nodes@, n, d, uses) && d.len() == freed && (forall|j: int|
                        0 <= j < d.len() ==> self.scratch.region.has(#[trigger] d[j])) && (forall|
                        j: int,
                    |
                        0 <= j < d.len() ==> !self.scratch.kept.has(#[trigger] d[j]));
                assert(made_of(cx.nodes@, e, s, atoms@, kept1));
                assert forall|j: int| 0 <= j < d.len() implies !kept1(#[trigger] d[j])
                    && !s.contains(d[j]) by {
                    if s.contains(d[j]) {
                        let q = choose|q: int| 0 <= q < s.len() && s[q] == d[j];
                        assert(!self.scratch.region.has(s[q]));
                    }
                }
            }
            return Ok(Ok(()));
        }
        let counted: u32 = if shared {
            let alone = self.dying_in(cx, n, true, limit, false)?;
            if new < alone {
                return Ok(Err(Fin::provisional()));
            }
            alone
        } else {
            freed
        };
        let ghost uses = self.weighed(false);
        assert(counted < limit ==> forall|d: Seq<u32>| #[trigger]
            frees_used(cx.nodes@, n, d, uses) && (forall|j: int|
                0 <= j < d.len() ==> self.scratch.region.has(#[trigger] d[j])
                    && !self.scratch.kept.has(d[j])) ==> d.len() <= counted);
        proof {
            assert forall|t: Seq<u32>, u: Seq<u32>, d: Seq<u32>| !#[trigger] gains(
                cx.nodes@,
                n,
                e,
                atoms@,
                t,
                u,
                d,
                most,
            ) by {
                if gains(cx.nodes@, n, e, atoms@, t, u, d, most) {
                    assert(new <= t.len());
                    lemma_gains(
                        cx.nodes@,
                        n,
                        e,
                        atoms@,
                        t,
                        u,
                        d,
                        most,
                        rs,
                        region,
                        local,
                        kept_by,
                    );
                    assert(frees_used(cx.nodes@, n, d, uses));
                    assert(counted < limit);
                    assert(d.len() <= new);
                }
            }
        }
        Ok(Err(Fin::full()))
    }
}

/// What a replacement plainly gains stops being used in the region.
proof fn lemma_gains(
    nodes: Seq<Node>,
    n: u32,
    e: u32,
    atoms: Seq<u32>,
    t: Seq<u32>,
    u: Seq<u32>,
    d: Seq<u32>,
    most: int,
    rs: Seq<u32>,
    region: Marks,
    local: Counts,
    kept: Marks,
)
    requires
        gains(nodes, n, e, atoms, t, u, d, most),
        region_told(nodes, n, rs, atoms, region, local, most),
        forall|i: u32| #[trigger] kept.has(i) ==> t.contains(i),
    ensures
        frees_used(nodes, n, d, counted_uses(local)),
        forall|j: int| 0 <= j < d.len() ==> region.has(#[trigger] d[j]) && !kept.has(d[j]),
{
    assert(among(rs, u));
    lemma_among_len(rs, u);
    assert forall|j: int| 0 <= j <= d.len() implies #[trigger] among(d.take(j), rs) by {
        lemma_gained(nodes, n, atoms, d, rs, j);
    }
    assert forall|j: int| 0 <= j < d.len() implies region.has(#[trigger] d[j]) && !kept.has(d[j]) by {
        assert(among(d.take(j + 1), rs));
        assert(d.take(j + 1)[j] == d[j]);
        assert(rs.contains(d[j]));
    }
    let uses = counted_uses(local);
    assert forall|j: int| #![trigger d[j]] 1 <= j < d.len() implies uses(d[j]) is Some && uses(
        d[j],
    )->0 <= used_by(nodes, d.take(j), d[j]) by {
        let c = d[j];
        lemma_used_among(nodes, rs, u, c);
        assert(among(d.take(j), rs));
        lemma_falling_apart(d);
        assert(d.take(j).no_duplicates());
        lemma_used_among(nodes, d.take(j), rs, c);
        assert(counts_as(local.at(c), used_by(nodes, rs, c)));
    }
}

proof fn lemma_gained(nodes: Seq<Node>, n: u32, atoms: Seq<u32>, d: Seq<u32>, rs: Seq<u32>, j: int)
    requires
        0 <= j <= d.len(),
        d.len() >= 1,
        d[0] == n,
        rs.contains(n),
        closed_over(nodes, rs, atoms),
        forall|j: int|
            #![trigger d[j]]
            1 <= j < d.len() ==> 1 <= used_by(nodes, d.take(j), d[j]) && !atoms.contains(d[j]),
    ensures
        among(d.take(j), rs),
    decreases j,
{
    if j > 0 {
        let h = d.take(j - 1);
        lemma_gained(nodes, n, atoms, d, rs, j - 1);
        let c = d[j - 1];
        if j > 1 {
            assert(d.take(j - 1) =~= h);
            lemma_user(nodes, h, c);
            let (k, q) = choose|k: int, q: int|
                0 <= k < h.len() && 0 <= q < expr::kids(nodes[h[k] as int]).len() && (
                #[trigger] expr::kids(nodes[h[k] as int])[q]) == c;
            assert(rs.contains(h[k]));
            let p = choose|p: int| 0 <= p < rs.len() && rs[p] == h[k];
            assert(expr::kids(nodes[rs[p] as int])[q] == c);
        }
        assert forall|k: int| 0 <= k < d.take(j).len() implies rs.contains(#[trigger] d.take(j)[k]) by {
            if k < j - 1 {
                assert(d.take(j)[k] == h[k]);
            }
        }
    }
}

/// How often `c` is in `k`.
pub open spec fn times_in(k: Seq<u32>, c: u32) -> nat
    decreases k.len(),
{
    if k.len() == 0 {
        0
    } else {
        times_in(k.drop_last(), c) + (if k.last() == c {
            1nat
        } else {
            0nat
        })
    }
}

proof fn lemma_times_push(k: Seq<u32>, c: u32, x: u32)
    ensures
        times_in(k.push(c), x) == times_in(k, x) + (if c == x {
            1nat
        } else {
            0nat
        }),
{
    assert(k.push(c).drop_last() =~= k);
}

proof fn lemma_times_used(node: Node, c: u32)
    ensures
        times_in(expr::kids(node), c) == times_used(node, c),
{
    reveal_with_fuel(times_in, 4);
    let k = expr::kids(node);
    if k.len() > 0 {
        assert(k.drop_last().len() == k.len() - 1);
    }
    if k.len() > 1 {
        assert(k.drop_last().drop_last().len() == k.len() - 2);
        assert(k.drop_last().last() == k[k.len() - 2]);
    }
    if k.len() > 2 {
        assert(k.drop_last().drop_last().last() == k[0]);
    }
}

} // verus!
