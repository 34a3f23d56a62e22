//! Sets and counts of node indices that are emptied in constant time, and the use counts of the
//! live nodes.

use vstd::prelude::*;

verus! {

/// A set of node indices emptied in constant time (by a new epoch; a stamp of 0 is never
/// current): the engine's per-node scratch, kept by the runner and reused instead of hash sets.
/// It grows to any index it is given.
pub struct Marks {
    stamp: Vec<u32>,
    epoch: u32,
}

/// Grows `v` to hold index `n - 1`.
fn grow(v: &mut Vec<u32>, n: usize)
    ensures
        final(v)@.len() >= n,
        final(v)@.len() >= old(v)@.len(),
        forall|i: int| 0 <= i < old(v)@.len() ==> #[trigger] final(v)@[i] == old(v)@[i],
        forall|i: int| old(v)@.len() <= i < final(v)@.len() ==> #[trigger] final(v)@[i] == 0,
{
    while v.len() < n
        invariant
            v@.len() >= old(v)@.len(),
            forall|i: int| 0 <= i < old(v)@.len() ==> #[trigger] v@[i] == old(v)@[i],
            forall|i: int| old(v)@.len() <= i < v@.len() ==> #[trigger] v@[i] == 0,
        decreases n - v.len(),
    {
        v.push(0);
    }
}

/// Sets every entry to 0.
fn wipe(v: &mut Vec<u32>)
    ensures
        final(v)@.len() == old(v)@.len(),
        forall|i: int| 0 <= i < final(v)@.len() ==> #[trigger] final(v)@[i] == 0,
{
    let mut i: usize = 0;
    while i < v.len()
        invariant
            i <= v.len(),
            v@.len() == old(v)@.len(),
            forall|j: int| 0 <= j < i ==> #[trigger] v@[j] == 0,
        decreases v.len() - i,
    {
        v.set(i, 0);
        i = i + 1;
    }
}

impl Marks {
    /// No stamp is from the future.
    pub closed spec fn wf(self) -> bool {
        &&& self.epoch >= 1
        &&& forall|i: int| 0 <= i < self.stamp@.len() ==> #[trigger] self.stamp@[i] <= self.epoch
    }

    /// Whether `i` is in the set.
    pub closed spec fn has(self, i: u32) -> bool {
        (i as int) < self.stamp@.len() && self.stamp@[i as int] == self.epoch
    }

    /// The empty set.
    pub fn new() -> (r: Marks)
        ensures
            r.wf(),
            forall|i: u32| !r.has(i),
    {
        Marks { stamp: Vec::new(), epoch: 1 }
    }

    /// Empties the set, sized for indices below `len`.
    pub fn begin(&mut self, len: usize)
        requires
            old(self).wf(),
        ensures
            final(self).wf(),
            forall|i: u32| !final(self).has(i),
    {
        grow(&mut self.stamp, len);
        self.clear();
    }

    /// Empties the set.
    pub fn clear(&mut self)
        requires
            old(self).wf(),
        ensures
            final(self).wf(),
            forall|i: u32| !final(self).has(i),
    {
        if self.epoch == u32::MAX {
            wipe(&mut self.stamp);
            self.epoch = 1;
        } else {
            self.epoch = self.epoch + 1;
        }
    }

    /// Adds `i`: whether it was not in the set.
    pub fn insert(&mut self, i: u32) -> (fresh: bool)
        requires
            old(self).wf(),
        ensures
            final(self).wf(),
            fresh == !old(self).has(i),
            forall|k: u32| #[trigger] final(self).has(k) == (k == i || old(self).has(k)),
    {
        let at: usize = i as usize;
        if at >= self.stamp.len() {
            if at == usize::MAX {
                // An index is never this large where `usize` holds 32 bits and more.
                grow(&mut self.stamp, at);
                self.stamp.push(0);
            } else {
                grow(&mut self.stamp, at + 1);
            }
        }
        let ghost mid = *self;
        assert(forall|k: u32| #[trigger] mid.has(k) == old(self).has(k));
        let fresh = self.stamp[at] != self.epoch;
        self.stamp.set(at, self.epoch);
        assert(forall|k: u32| #[trigger] self.has(k) == (k == i || mid.has(k)));
        fresh
    }

    /// Removes `i`: whether it was in the set.
    pub fn remove(&mut self, i: u32) -> (was: bool)
        requires
            old(self).wf(),
        ensures
            final(self).wf(),
            was == old(self).has(i),
            forall|k: u32| #[trigger] final(self).has(k) == (k != i && old(self).has(k)),
    {
        let at: usize = i as usize;
        if at < self.stamp.len() && self.stamp[at] == self.epoch {
            self.stamp.set(at, 0);
            true
        } else {
            false
        }
    }

    /// Whether `i` is in the set.
    pub fn contains(&self, i: u32) -> (r: bool)
        ensures
            r == self.has(i),
    {
        (i as usize) < self.stamp.len() && self.stamp[i as usize] == self.epoch
    }
}

/// Counts per node index, emptied in constant time like [`Marks`]; an index not counted since
/// then has none (which is not a count of 0).
pub struct Counts {
    stamp: Vec<u32>,
    val: Vec<u32>,
    epoch: u32,
}

/// One more, or the largest count.
pub open spec fn up(n: u32) -> u32 {
    if n < u32::MAX {
        (n + 1) as u32
    } else {
        n
    }
}

impl Counts {
    /// No stamp is from the future, and every stamp has a value.
    pub closed spec fn wf(self) -> bool {
        &&& self.epoch >= 1
        &&& self.stamp@.len() == self.val@.len()
        &&& forall|i: int| 0 <= i < self.stamp@.len() ==> #[trigger] self.stamp@[i] <= self.epoch
    }

    /// The count of `i`, if it has one.
    pub closed spec fn at(self, i: u32) -> Option<u32> {
        if (i as int) < self.stamp@.len() && self.stamp@[i as int] == self.epoch {
            Some(self.val@[i as int])
        } else {
            None
        }
    }

    /// No counts.
    pub fn new() -> (r: Counts)
        ensures
            r.wf(),
            forall|i: u32| r.at(i) is None,
    {
        Counts { stamp: Vec::new(), val: Vec::new(), epoch: 1 }
    }

    /// Room for index `i`.
    fn room(&mut self, i: u32)
        requires
            old(self).wf(),
        ensures
            final(self).wf(),
            (i as int) < final(self).stamp@.len(),
            final(self).epoch == old(self).epoch,
            forall|k: u32| #[trigger] final(self).at(k) == old(self).at(k),
    {
        while self.stamp.len() <= i as usize
            invariant
                self.wf(),
                self.epoch == old(self).epoch,
                forall|k: u32| #[trigger] self.at(k) == old(self).at(k),
            decreases i + 1 - self.stamp@.len(),
        {
            let ghost mid = *self;
            self.stamp.push(0);
            self.val.push(0);
            assert(forall|k: u32| #[trigger] self.at(k) == mid.at(k));
        }
    }

    /// Empties the counts, sized for indices below `len`.
    pub fn begin(&mut self, len: usize)
        requires
            old(self).wf(),
        ensures
            final(self).wf(),
            forall|i: u32| final(self).at(i) is None,
    {
        if len > 0 && len - 1 <= u32::MAX as usize {
            self.room((len - 1) as u32);
        }
        if self.epoch == u32::MAX {
            wipe(&mut self.stamp);
            self.epoch = 1;
        } else {
            self.epoch = self.epoch + 1;
        }
    }

    /// The count of `i`, if it has one.
    pub fn get(&self, i: u32) -> (r: Option<u32>)
        requires
            self.wf(),
        ensures
            r == self.at(i),
    {
        if (i as usize) < self.stamp.len() && self.stamp[i as usize] == self.epoch {
            Some(self.val[i as usize])
        } else {
            None
        }
    }

    /// Counts one more for `i`.
    pub fn tally(&mut self, i: u32)
        requires
            old(self).wf(),
        ensures
            final(self).wf(),
            forall|k: u32|
                #[trigger] final(self).at(k) == (if k == i {
                    Some(
                        up(
                            match old(self).at(i) {
                                Some(n) => n,
                                None => 0,
                            },
                        ),
                    )
                } else {
                    old(self).at(k)
                }),
    {
        let n: u32 = match self.get(i) {
            Some(n) => n,
            None => 0,
        };
        self.set(i, n.saturating_add(1));
    }

    /// Sets `i`'s count to `v`.
    pub fn set(&mut self, i: u32, v: u32)
        requires
            old(self).wf(),
        ensures
            final(self).wf(),
            forall|k: u32|
                #[trigger] final(self).at(k) == (if k == i {
                    Some(v)
                } else {
                    old(self).at(k)
                }),
    {
        self.room(i);
        let ghost mid = *self;
        self.stamp.set(i as usize, self.epoch);
        self.val.set(i as usize, v);
        assert forall|k: u32| #[trigger]
            self.at(k) == (if k == i {
                Some(v)
            } else {
                old(self).at(k)
            }) by {
            assert(mid.at(k) == old(self).at(k));
        }
    }
}

/// Node indices taken out largest first; one put in twice is taken out once.
pub struct MaxQueue {
    v: Vec<u32>,
}

/// In increasing order.
pub open spec fn increasing(s: Seq<u32>) -> bool {
    forall|i: int, j: int| #![trigger s[i], s[j]] 0 <= i < j < s.len() ==> s[i] < s[j]
}

impl MaxQueue {
    /// In increasing order.
    pub closed spec fn wf(self) -> bool {
        increasing(self.v@)
    }

    /// Whether `i` is waiting.
    pub closed spec fn has(self, i: u32) -> bool {
        self.v@.contains(i)
    }

    /// How many are waiting.
    pub closed spec fn size(self) -> nat {
        self.v@.len()
    }

    /// Nothing waiting.
    pub fn new() -> (r: MaxQueue)
        ensures
            r.wf(),
            forall|i: u32| !r.has(i),
    {
        MaxQueue { v: Vec::new() }
    }

    /// Nothing waiting any more.
    pub fn clear(&mut self)
        ensures
            final(self).wf(),
            forall|i: u32| !final(self).has(i),
    {
        self.v.clear();
    }

    /// Puts `i` in.
    pub fn push(&mut self, i: u32)
        requires
            old(self).wf(),
        ensures
            final(self).wf(),
            forall|k: u32| #[trigger] final(self).has(k) == (k == i || old(self).has(k)),
            final(self).size() <= old(self).size() + 1,
    {
        let mut at: usize = self.v.len();
        while at > 0 && self.v[at - 1] > i
            invariant
                at <= self.v.len(),
                increasing(self.v@),
                *self == *old(self),
                forall|j: int| at <= j < self.v@.len() ==> #[trigger] self.v@[j] > i,
            decreases at,
        {
            at = at - 1;
        }
        let ghost s = self.v@;
        if at > 0 && self.v[at - 1] == i {
            assert(s[at - 1] == i);
            assert(self.has(i));
            return ;
        }
        self.v.insert(at, i);
        proof {
            let t = self.v@;
            assert(t == s.insert(at as int, i));
            assert forall|x: int, y: int| #![trigger t[x], t[y]] 0 <= x < y < t.len() implies t[x]
                < t[y] by {
                let a = if x < at {
                    x
                } else {
                    x - 1
                };
                let b = if y < at {
                    y
                } else {
                    y - 1
                };
                if x != at {
                    assert(t[x] == s[a]);
                }
                if y != at {
                    assert(t[y] == s[b]);
                }
                if y == at && x < at - 1 {
                    assert(s[x] < s[at - 1]);
                }
            }
            assert forall|k: u32| #[trigger] self.has(k) == (k == i || old(self).has(k)) by {
                if old(self).has(k) {
                    let j = choose|j: int| 0 <= j < s.len() && s[j] == k;
                    if j < at {
                        assert(t[j] == k);
                    } else {
                        assert(t[j + 1] == k);
                    }
                }
                if k == i {
                    assert(t[at as int] == i);
                }
                if self.has(k) && k != i {
                    let j = choose|j: int| 0 <= j < t.len() && t[j] == k;
                    if j < at {
                        assert(s[j] == k);
                    } else {
                        assert(s[j - 1] == k);
                    }
                }
            }
        }
    }

    /// Takes the largest out.
    pub fn pop(&mut self) -> (r: Option<u32>)
        requires
            old(self).wf(),
        ensures
            final(self).wf(),
            r is None ==> forall|k: u32| !old(self).has(k),
            r matches Some(m) ==> old(self).has(m) && (forall|k: u32|
                #![trigger old(self).has(k)]
                (old(self).has(k) ==> k <= m)) && (forall|k: u32|
                #![trigger final(self).has(k)]
                final(self).has(k) == (k != m && old(self).has(k))) && final(self).size() + 1
                == old(self).size(),
            r is None ==> final(self).size() == old(self).size(),
    {
        let ghost s = self.v@;
        match self.v.pop() {
            None => None,
            Some(m) => {
                proof {
                    let t = self.v@;
                    assert(s[s.len() - 1] == m);
                    assert forall|k: u32| #![trigger old(self).has(k)] old(self).has(k) implies k
                        <= m by {
                        let j = choose|j: int| 0 <= j < s.len() && s[j] == k;
                        if j < s.len() - 1 {
                            assert(s[j] < s[s.len() - 1]);
                        }
                    }
                    assert forall|k: u32| #![trigger self.has(k)] self.has(k) == (k != m && old(
                        self,
                    ).has(k)) by {
                        if self.has(k) {
                            let j = choose|j: int| 0 <= j < t.len() && t[j] == k;
                            assert(s[j] == k);
                            assert(s[j] < s[s.len() - 1]);
                        }
                        if k != m && old(self).has(k) {
                            let j = choose|j: int| 0 <= j < s.len() && s[j] == k;
                            assert(t[j] == k);
                        }
                    }
                }
                Some(m)
            },
        }
    }
}

/// The uses the live roots other than the active one contribute, counted once per root.
pub struct Others {
    /// The entry of the live roots they were counted for.
    pub active: Option<usize>,
    /// The nodes the other roots reach.
    pub reach: Marks,
    /// How many.
    pub nodes: u32,
    /// The uses from those nodes.
    pub uses: Counts,
}

/// The use counts and the set of nodes whose edges they count ("counted"), for the commit
/// rule: when `base` is on, the other roots' part ([`Others`]) with this phase run's changes on
/// top, else the changes alone. Answers as one [`Counts`] and one [`Marks`] would.
pub struct Live {
    /// The other roots' part.
    pub others: Others,
    /// Whether it counts.
    pub base: bool,
    /// Counted nodes outside the base.
    pub counted: Marks,
    /// Base nodes no longer counted.
    pub uncounted: Marks,
    /// When each change was made.
    pub stamp: Vec<u32>,
    /// Changes of the use counts (signed), stamped as in [`Counts`].
    pub delta: Vec<i32>,
    /// The current time.
    pub epoch: u32,
}

impl Live {
    /// Its parts are consistent.
    pub closed spec fn wf(self) -> bool {
        &&& self.others.reach.wf()
        &&& self.others.uses.wf()
        &&& self.counted.wf()
        &&& self.uncounted.wf()
        &&& self.epoch >= 1
        &&& self.stamp@.len() == self.delta@.len()
        &&& forall|i: int| 0 <= i < self.stamp@.len() ==> #[trigger] self.stamp@[i] <= self.epoch
    }

    /// The change of `i`'s uses, if there is one.
    pub closed spec fn change_of(self, i: u32) -> Option<i32> {
        if (i as int) < self.stamp@.len() && self.stamp@[i as int] == self.epoch {
            Some(self.delta@[i as int])
        } else {
            None
        }
    }

    /// The uses of `i`, if it has a count: the base's and the change, not below 0.
    pub open spec fn uses_of(self, i: u32) -> Option<u32> {
        let d = self.change_of(i);
        let b = if self.base {
            self.others.uses.at(i)
        } else {
            None
        };
        if d is None && b is None {
            None
        } else {
            let n = (match b {
                Some(x) => x as int,
                None => 0,
            }) + (match d {
                Some(x) => x as int,
                None => 0,
            });
            Some(
                if n < 0 {
                    0
                } else if n > u32::MAX {
                    u32::MAX
                } else {
                    n as u32
                },
            )
        }
    }

    /// Whether `i`'s edges are counted.
    pub closed spec fn is_counted(self, i: u32) -> bool {
        (self.base && self.others.reach.has(i) && !self.uncounted.has(i)) || self.counted.has(i)
    }

    /// Nothing counted.
    pub fn new() -> (r: Live)
        ensures
            r.wf(),
            !r.base,
            forall|i: u32| !r.is_counted(i),
            forall|i: u32| r.uses_of(i) is None,
    {
        Live {
            others: Others { active: None, reach: Marks::new(), nodes: 0, uses: Counts::new() },
            base: false,
            counted: Marks::new(),
            uncounted: Marks::new(),
            stamp: Vec::new(),
            delta: Vec::new(),
            epoch: 1,
        }
    }

    /// Empties it: nothing counted, no uses, the base off.
    pub fn clear(&mut self)
        requires
            old(self).wf(),
        ensures
            final(self).wf(),
            !final(self).base,
            forall|i: u32| !final(self).is_counted(i),
            forall|i: u32| final(self).uses_of(i) is None,
    {
        self.base = false;
        self.counted.clear();
        self.uncounted.clear();
        if self.epoch == u32::MAX {
            wipe(&mut self.stamp);
            self.epoch = 1;
        } else {
            self.epoch = self.epoch + 1;
        }
    }

    /// Empties the other roots' part, to be counted for entry `active` of the live roots.
    pub fn recount(&mut self, active: usize)
        requires
            old(self).wf(),
        ensures
            final(self).wf(),
            final(self).others.active == Some(active),
            final(self).others.nodes == 0,
    {
        self.others.active = Some(active);
        // (Sized as they grow: often the other roots reach nothing.)
        self.others.reach.clear();
        self.others.uses.begin(0);
        self.others.nodes = 0;
    }

    /// Adds `i` to what the other roots reach: whether it was not there.
    pub fn reach(&mut self, i: u32) -> (fresh: bool)
        requires
            old(self).wf(),
        ensures
            final(self).wf(),
            fresh == !old(self).others.reach.has(i),
            forall|k: u32| #[trigger]
                final(self).others.reach.has(k) == (k == i || old(self).others.reach.has(k)),
    {
        let fresh = self.others.reach.insert(i);
        if fresh {
            self.others.nodes = self.others.nodes.saturating_add(1);
        }
        fresh
    }

    /// Counts one more use of `i` from what the other roots reach.
    pub fn reached_use(&mut self, i: u32)
        requires
            old(self).wf(),
        ensures
            final(self).wf(),
            final(self).others.reach == old(self).others.reach,
    {
        self.others.uses.tally(i);
    }

    /// Whether the other roots reach `i`.
    pub fn reaches(&self, i: u32) -> (r: bool)
        ensures
            r == self.others.reach.has(i),
    {
        self.others.reach.contains(i)
    }

    /// Whether the other roots' part counts from now on.
    pub fn set_base(&mut self, on: bool)
        requires
            old(self).wf(),
        ensures
            final(self).wf(),
            final(self).base == on,
    {
        self.base = on;
    }

    /// Forgets what the other roots contribute.
    pub fn forget_others(&mut self)
        requires
            old(self).wf(),
        ensures
            final(self).wf(),
            final(self).others.active is None,
            final(self).base == old(self).base,
            final(self).others.reach == old(self).others.reach,
            final(self).others.uses == old(self).others.uses,
    {
        self.others.active = None;
    }

    fn in_base(&self, i: u32) -> (r: bool)
        ensures
            r == (self.base && self.others.reach.has(i)),
    {
        self.base && self.others.reach.contains(i)
    }

    fn delta_of(&self, i: u32) -> (r: Option<i32>)
        requires
            self.wf(),
        ensures
            r == self.change_of(i),
    {
        if (i as usize) < self.stamp.len() && self.stamp[i as usize] == self.epoch {
            Some(self.delta[i as usize])
        } else {
            None
        }
    }

    /// Changes `i`'s uses by `by`, which is 1 or -1.
    fn change(&mut self, i: u32, by: i32)
        requires
            old(self).wf(),
            by == 1 || by == -1,
        ensures
            final(self).wf(),
            final(self).base == old(self).base,
            final(self).others == old(self).others,
            final(self).counted == old(self).counted,
            final(self).uncounted == old(self).uncounted,
            forall|k: u32| k != i ==> #[trigger] final(self).change_of(k) == old(self).change_of(k),
            final(self).change_of(i) is Some,
            ({
                let d = (match old(self).change_of(i) {
                    Some(x) => x as int,
                    None => 0,
                }) + by;
                i32::MIN <= d <= i32::MAX ==> final(self).change_of(i) == Some(d as i32)
            }),
    {
        while self.stamp.len() <= i as usize
            invariant
                self.wf(),
                self.base == old(self).base,
                self.others == old(self).others,
                self.counted == old(self).counted,
                self.uncounted == old(self).uncounted,
                self.epoch == old(self).epoch,
                forall|k: u32| #[trigger] self.change_of(k) == old(self).change_of(k),
            decreases i + 1 - self.stamp@.len(),
        {
            let ghost mid = *self;
            self.stamp.push(0);
            self.delta.push(0);
            assert(forall|k: u32| #[trigger] self.change_of(k) == mid.change_of(k));
        }
        let ghost mid = *self;
        assert(mid.change_of(i) == old(self).change_of(i));
        let at: usize = i as usize;
        if self.stamp[at] != self.epoch {
            self.stamp.set(at, self.epoch);
            self.delta.set(at, 0);
        }
        let d: i32 = self.delta[at];
        if by > 0 {
            if d < i32::MAX {
                self.delta.set(at, d + 1);
            }
        } else if d > i32::MIN {
            self.delta.set(at, d - 1);
        }
        assert forall|k: u32| k != i implies #[trigger] self.change_of(k) == old(self).change_of(
            k,
        ) by {
            assert(mid.change_of(k) == old(self).change_of(k));
        }
    }

    /// The uses of `i`, if it has a count.
    pub fn uses(&self, i: u32) -> (r: Option<u32>)
        requires
            self.wf(),
        ensures
            r == self.uses_of(i),
    {
        let d = self.delta_of(i);
        let b = if self.base {
            self.others.uses.get(i)
        } else {
            None
        };
        if d.is_none() && b.is_none() {
            return None;
        }
        let x: i64 = match b {
            Some(n) => n as i64,
            None => 0,
        };
        let y: i64 = match d {
            Some(n) => n as i64,
            None => 0,
        };
        let n: i64 = x + y;
        Some(
            if n < 0 {
                0
            } else if n > u32::MAX as i64 {
                u32::MAX
            } else {
                n as u32
            },
        )
    }

    /// Counts one more use of `i`.
    pub fn tally(&mut self, i: u32)
        requires
            old(self).wf(),
        ensures
            final(self).wf(),
            final(self).base == old(self).base,
            final(self).others == old(self).others,
            forall|k: u32| k != i ==> #[trigger] final(self).uses_of(k) == old(self).uses_of(k),
            final(self).uses_of(i) is Some,
            forall|k: u32| #[trigger] final(self).is_counted(k) == old(self).is_counted(k),
    {
        self.change(i, 1);
    }

    /// Counts one use less of `i` (not below 0), if it has a count: the count left.
    pub fn dec(&mut self, i: u32) -> (r: Option<u32>)
        requires
            old(self).wf(),
        ensures
            final(self).wf(),
            final(self).base == old(self).base,
            final(self).others == old(self).others,
            r == (match old(self).uses_of(i) {
                Some(n) => Some(
                    if n > 0 {
                        (n - 1) as u32
                    } else {
                        0
                    },
                ),
                None => None,
            }),
            forall|k: u32| k != i ==> #[trigger] final(self).uses_of(k) == old(self).uses_of(k),
            forall|k: u32| #[trigger] final(self).is_counted(k) == old(self).is_counted(k),
    {
        match self.uses(i) {
            None => None,
            Some(n) => {
                if n > 0 {
                    self.change(i, -1);
                }
                Some(n.saturating_sub(1))
            },
        }
    }

    /// Whether `i`'s edges are counted.
    pub fn counted(&self, i: u32) -> (r: bool)
        ensures
            r == self.is_counted(i),
    {
        (self.in_base(i) && !self.uncounted.contains(i)) || self.counted.contains(i)
    }

    /// Counts `i`'s edges from now on: whether they were not.
    pub fn count(&mut self, i: u32) -> (fresh: bool)
        requires
            old(self).wf(),
        ensures
            final(self).wf(),
            final(self).base == old(self).base,
            final(self).others == old(self).others,
            fresh == !old(self).is_counted(i),
            forall|k: u32| #[trigger]
                final(self).is_counted(k) == (k == i || old(self).is_counted(k)),
            forall|k: u32| #[trigger] final(self).uses_of(k) == old(self).uses_of(k),
    {
        if self.counted(i) {
            return false;
        }
        if self.in_base(i) {
            self.uncounted.remove(i);
        } else {
            self.counted.insert(i);
        }
        assert(forall|k: u32| #[trigger] self.change_of(k) == old(self).change_of(k));
        true
    }

    /// Stops counting `i`'s edges: whether they were.
    pub fn uncount(&mut self, i: u32) -> (was: bool)
        requires
            old(self).wf(),
        ensures
            final(self).wf(),
            final(self).base == old(self).base,
            final(self).others == old(self).others,
            forall|k: u32| #[trigger] final(self).uses_of(k) == old(self).uses_of(k),
            forall|k: u32| k != i ==> #[trigger] final(self).is_counted(k) == old(self).is_counted(k),
            was ==> old(self).is_counted(i),
    {
        let was = if self.counted.remove(i) {
            true
        } else {
            self.in_base(i) && self.uncounted.insert(i)
        };
        assert(forall|k: u32| #[trigger] self.change_of(k) == old(self).change_of(k));
        was
    }
}

} // verus!
