//! The nodes below a node.

use vstd::prelude::*;
use crate::expr;
use crate::expr::{Context, Expr, Error, Node};

verus! {

/// The nodes at and below node `i`.
pub open spec fn reach(nodes: Seq<Node>, i: int) -> Set<int>
    decreases i,
{
    if i < 0 {
        Set::empty()
    } else {
        let ks = expr::kids(nodes[i]);
        set![i].union(
            if ks.len() > 0 && ks[0] < i {
                reach(nodes, ks[0] as int)
            } else {
                Set::empty()
            },
        ).union(
            if ks.len() > 1 && ks[1] < i {
                reach(nodes, ks[1] as int)
            } else {
                Set::empty()
            },
        ).union(
            if ks.len() > 2 && ks[2] < i {
                reach(nodes, ks[2] as int)
            } else {
                Set::empty()
            },
        )
    }
}

/// Node `c` is an operand of node `p`.
pub open spec fn feeds(nodes: Seq<Node>, c: int, p: int) -> bool {
    exists|j: int|
        #![trigger expr::kids(nodes[p])[j]]
        0 <= j < expr::kids(nodes[p]).len() && expr::kids(nodes[p])[j] == c
}

/// Operands of nodes below a node are below it.
pub proof fn lemma_reach_kid(nodes: Seq<Node>, i: int, p: int, c: int)
    requires
        reach(nodes, i).contains(p),
        feeds(nodes, c, p),
        0 <= c < p,
    ensures
        reach(nodes, i).contains(c),
    decreases i,
{
    let ks = expr::kids(nodes[i]);
    if p == i {
        let j = choose|j: int|
            #![trigger expr::kids(nodes[p])[j]]
            0 <= j < expr::kids(nodes[p]).len() && expr::kids(nodes[p])[j] == c;
        assert(ks.len() <= 3);
        assert(reach(nodes, c).contains(c)) by {
            assert(set![c].contains(c));
        }
    } else {
        if ks.len() > 0 && ks[0] < i && reach(nodes, ks[0] as int).contains(p) {
            lemma_reach_kid(nodes, ks[0] as int, p, c);
        } else if ks.len() > 1 && ks[1] < i && reach(nodes, ks[1] as int).contains(p) {
            lemma_reach_kid(nodes, ks[1] as int, p, c);
        } else {
            lemma_reach_kid(nodes, ks[2] as int, p, c);
        }
    }
}

/// Every node below a node is it, or an operand of one below it.
pub proof fn lemma_reach_user(nodes: Seq<Node>, i: int, c: int)
    requires
        reach(nodes, i).contains(c),
        c != i,
    ensures
        exists|p: int| #[trigger] reach(nodes, i).contains(p) && feeds(nodes, c, p) && c < p <= i,
        0 <= c < i,
    decreases i,
{
    let ks = expr::kids(nodes[i]);
    let k: int = if ks.len() > 0 && ks[0] < i && reach(nodes, ks[0] as int).contains(c) {
        0
    } else if ks.len() > 1 && ks[1] < i && reach(nodes, ks[1] as int).contains(c) {
        1
    } else {
        2
    };
    let x = ks[k] as int;
    assert(reach(nodes, x).contains(c));
    assert(reach(nodes, x).subset_of(reach(nodes, i)));
    if x == c {
        assert(feeds(nodes, c, i)) by {
            assert(expr::kids(nodes[i])[k] == c);
        }
        assert(reach(nodes, i).contains(i)) by {
            assert(set![i].contains(i));
        }
    } else {
        lemma_reach_user(nodes, x, c);
        let p = choose|p: int| #[trigger]
            reach(nodes, x).contains(p) && feeds(nodes, c, p) && c < p <= x;
        assert(reach(nodes, i).contains(p));
    }
}

/// A node is below itself, and nothing below it has a higher index.
pub proof fn lemma_reach_top(nodes: Seq<Node>, i: int)
    requires
        i >= 0,
    ensures
        reach(nodes, i).contains(i),
        forall|j: int| #[trigger] reach(nodes, i).contains(j) ==> 0 <= j <= i,
        reach(nodes, i).finite(),
    decreases i,
{
    assert(set![i].contains(i));
    let ks = expr::kids(nodes[i]);
    if ks.len() > 0 && ks[0] < i {
        lemma_reach_top(nodes, ks[0] as int);
    }
    if ks.len() > 1 && ks[1] < i {
        lemma_reach_top(nodes, ks[1] as int);
    }
    if ks.len() > 2 && ks[2] < i {
        lemma_reach_top(nodes, ks[2] as int);
    }
}

/// The marked indices below `n`.
spec fn marked_below(marks: Seq<bool>, n: int) -> Set<int> {
    Set::new(|j: int| 0 <= j < n && marks[j])
}

impl Context {
    /// Which of the nodes up to `root` are below it.
    pub(crate) fn marks(&self, root: u32) -> (r: Vec<bool>)
        requires
            self.wf(),
            root < self.n(),
        ensures
            r@.len() == root + 1,
            forall|j: int|
                0 <= j <= root ==> #[trigger] r@[j] == reach(self.nodes@, root as int).contains(j),
    {
        let ghost all = reach(self.nodes@, root as int);
        proof {
            lemma_reach_top(self.nodes@, root as int);
        }
        let mut m: Vec<bool> = Vec::with_capacity(root as usize + 1);
        let mut i: usize = 0;
        while i <= root as usize
            invariant
                root < u32::MAX - 1,
                i <= root + 1,
                m@.len() == i,
                forall|j: int| 0 <= j < i ==> !(#[trigger] m@[j]),
            decreases root + 1 - i,
        {
            m.push(false);
            i = i + 1;
        }
        m.set(root as usize, true);
        i = root as usize + 1;
        while i > 0
            invariant
                self.wf(),
                root < self.n(),
                i <= root + 1,
                m@.len() == root + 1,
                all == reach(self.nodes@, root as int),
                all.contains(root as int),
                forall|j: int| #[trigger] all.contains(j) ==> 0 <= j <= root,
                forall|j: int| 0 <= j <= root && #[trigger] m@[j] ==> all.contains(j),
                forall|j: int| i <= j <= root && all.contains(j) ==> #[trigger] m@[j],
                m@[root as int],
                forall|j: int, p: int|
                    #![trigger feeds(self.nodes@, j, p)]
                    0 <= j < p <= root && i <= p && all.contains(p) && feeds(self.nodes@, j, p)
                        ==> m@[j],
            decreases i,
        {
            i = i - 1;
            proof {
                if all.contains(i as int) && i != root {
                    lemma_reach_user(self.nodes@, root as int, i as int);
                    let p = choose|p: int| #[trigger]
                        all.contains(p) && feeds(self.nodes@, i as int, p) && i < p <= root;
                    assert(m@[i as int]);
                }
                assert(self.ok_at(i as int));
            }
            if m[i] {
                let node = self.node(i as u32);
                let cs = node.children();
                let mut k: usize = 0;
                let ghost m0 = m@;
                while k < cs.len()
                    invariant
                        self.wf(),
                        root < self.n(),
                        i <= root,
                        all == reach(self.nodes@, root as int),
                        all.contains(i as int),
                        cs@ == expr::kids(self.nodes@[i as int]),
                        forall|q: int| 0 <= q < cs@.len() ==> #[trigger] cs@[q] < i,
                        k <= cs@.len(),
                        m@.len() == root + 1,
                        forall|j: int| 0 <= j <= root && #[trigger] m@[j] ==> all.contains(j),
                        forall|j: int| 0 <= j <= root && m0[j] ==> #[trigger] m@[j],
                        m0.len() == root + 1,
                        forall|q: int| 0 <= q < k ==> m@[#[trigger] cs@[q] as int],
                    decreases cs@.len() - k,
                {
                    let c = cs[k];
                    proof {
                        assert(expr::kids(self.nodes@[i as int])[k as int] == c);
                        lemma_reach_kid(self.nodes@, root as int, i as int, c as int);
                    }
                    m.set(c as usize, true);
                    k = k + 1;
                }
                proof {
                    assert forall|j: int, p: int|
                        #![trigger feeds(self.nodes@, j, p)]
                        0 <= j < p <= root && i <= p && all.contains(p) && feeds(
                            self.nodes@,
                            j,
                            p,
                        ) implies m@[j] by {
                        if p == i {
                            let q = choose|q: int|
                                #![trigger expr::kids(self.nodes@[p])[q]]
                                0 <= q < expr::kids(self.nodes@[p]).len() && expr::kids(self.nodes@[p])[q] == j;
                            assert(cs@[q] == j);
                        } else {
                            assert(m0[j]);
                        }
                    }
                }
            }
        }
        m
    }

    /// The number of distinct nodes at and below `e`, if that is at most `cap`.
    pub fn dag_size(&self, e: Expr, cap: u32) -> (r: Result<Option<u32>, Error>)
        requires
            self.wf(),
        ensures
            r == (if e.id >= self.n() {
                Err(Error::BadHandle)
            } else if self.size_below(e.id as int) <= cap {
                Ok(Some(self.size_below(e.id as int) as u32))
            } else {
                Ok(None)
            }),
    {
        if e.id as usize >= self.len() {
            return Err(Error::BadHandle);
        }
        let m = self.marks(e.id);
        let ghost all = reach(self.nodes@, e.id as int);
        let mut count: u32 = 0;
        let mut i: usize = 0;
        assert(marked_below(m@, 0) =~= Set::<int>::empty());
        while i < m.len()
            invariant
                i <= m@.len() == e.id + 1,
                e.id < u32::MAX - 1,
                count <= i,
                marked_below(m@, i as int).finite(),
                marked_below(m@, i as int).len() == count,
            decreases m@.len() - i,
        {
            proof {
                let s = marked_below(m@, i as int);
                let t = marked_below(m@, i + 1);
                if m@[i as int] {
                    assert(t =~= s.insert(i as int));
                } else {
                    assert(t =~= s);
                }
            }
            if m[i] {
                count = count + 1;
            }
            i = i + 1;
        }
        proof {
            lemma_reach_top(self.nodes@, e.id as int);
            assert(marked_below(m@, i as int) =~= all);
        }
        if count <= cap {
            Ok(Some(count))
        } else {
            Ok(None)
        }
    }

    /// The number of distinct nodes at and below node `i`.
    pub open(crate) spec fn size_below(&self, i: int) -> nat {
        reach(self.nodes@, i).len()
    }
}

} // verus!
