//! Results remembered across calls.

use vstd::prelude::*;

verus! {

/// Node indices per page of a [`NodeTable`].
pub const PAGE: usize = 512;

/// A node index per node index, in pages of consecutive indices allocated on first write:
/// a lookup is two array reads, nodes built together share a page, and nodes never written cost
/// nothing beyond their page's pointer.
pub struct NodeTable {
    /// Page `p` holds the values of nodes `p * PAGE ..`, each plus one (0: none).
    pages: Vec<Option<Vec<u32>>>,
}

impl NodeTable {
    /// Every page that is there is whole.
    pub closed spec fn wf(self) -> bool {
        forall|p: int|
            0 <= p < self.pages@.len() ==> (#[trigger] self.pages@[p] matches Some(v)
                ==> v@.len() == PAGE)
    }

    /// The stored value of `n`, plus one.
    closed spec fn raw(self, n: u32) -> u32 {
        let p = n as int / PAGE as int;
        if p < self.pages@.len() {
            match self.pages@[p] {
                Some(v) => v@[n as int % PAGE as int],
                None => 0,
            }
        } else {
            0
        }
    }

    /// The value of `n`, if it has one.
    pub closed spec fn at(self, n: u32) -> Option<u32> {
        if self.raw(n) == 0 {
            None
        } else {
            Some((self.raw(n) - 1) as u32)
        }
    }

    /// No values.
    pub fn new() -> (r: NodeTable)
        ensures
            r.wf(),
            forall|n: u32| r.at(n) is None,
    {
        NodeTable { pages: Vec::new() }
    }

    /// The value of `n`, if it has one.
    pub fn get(&self, n: u32) -> (r: Option<u32>)
        requires
            self.wf(),
        ensures
            r == self.at(n),
    {
        let p: usize = n as usize / PAGE;
        if p >= self.pages.len() {
            return None;
        }
        match &self.pages[p] {
            None => None,
            Some(v) => {
                let x: u32 = v[n as usize % PAGE];
                if x == 0 {
                    None
                } else {
                    Some(x - 1)
                }
            },
        }
    }

    /// Gives `n` the value `v`, which is below `u32::MAX`.
    pub fn insert(&mut self, n: u32, v: u32)
        requires
            old(self).wf(),
            v < u32::MAX,
        ensures
            final(self).wf(),
            forall|k: u32|
                #[trigger] final(self).at(k) == (if k == n {
                    Some(v)
                } else {
                    old(self).at(k)
                }),
    {
        let p: usize = n as usize / PAGE;
        while self.pages.len() <= p
            invariant
                self.wf(),
                forall|k: u32| #[trigger] self.at(k) == old(self).at(k),
            decreases p + 1 - self.pages.len(),
        {
            let ghost before = *self;
            self.pages.push(None);
            assert forall|k: u32| #[trigger] self.at(k) == old(self).at(k) by {
                assert(before.at(k) == old(self).at(k));
            }
        }
        let ghost mid = *self;
        if self.pages[p].is_none() {
            let mut page: Vec<u32> = Vec::new();
            let mut i: usize = 0;
            while i < PAGE
                invariant
                    i <= PAGE,
                    page@.len() == i,
                    forall|j: int| 0 <= j < i ==> page@[j] == 0,
                decreases PAGE - i,
            {
                page.push(0);
                i = i + 1;
            }
            self.pages.set(p, Some(page));
        }
        assert(forall|k: u32| #[trigger] self.at(k) == mid.at(k));
        let ghost fresh = *self;
        match &mut self.pages[p] {
            Some(page) => {
                page.set(n as usize % PAGE, v + 1);
            },
            None => {},
        }
        assert(self.pages@[p as int] is Some);
        assert(self.pages@[p as int]->0@ == fresh.pages@[p as int]->0@.update(n as int % PAGE as int, (v + 1) as u32));
        assert forall|k: u32| #[trigger]
            self.at(k) == (if k == n {
                Some(v)
            } else {
                old(self).at(k)
            }) by {
            assert(mid.at(k) == old(self).at(k));
            assert(fresh.at(k) == mid.at(k));
            let q = k as int / PAGE as int;
            if q == p {
                if k != n {
                    assert(k as int % PAGE as int != n as int % PAGE as int);
                }
            }
        }
    }
}

} // verus!
