//! Which constraints of a set of assumptions a result relies on.

use vstd::prelude::*;
use crate::term::Env;

verus! {

/// What the constraints say: `hyp(k, env)` is whether constraint `k` holds at `env`.
pub type Hyp = spec_fn(int, Env) -> bool;

/// A set of constraints, over-approximated: the constraints numbered 63 and up share one place.
#[derive(Clone, Copy, Debug, PartialEq, Eq, Hash, Structural)]
pub struct Reliance {
    /// Bit `k` for constraint `k`.
    pub used: u64,
}

/// The place of constraint `k`.
pub open spec fn place(k: int) -> u64 {
    if k < 63 {
        k as u64
    } else {
        63
    }
}

/// Whether the bit `i` of `x` is set.
pub open spec fn u64_bit(x: u64, i: u64) -> bool {
    (x >> i) & 1 == 1
}

impl Reliance {
    /// Whether constraint `k` may have been used.
    pub open spec fn uses(self, k: int) -> bool {
        k >= 0 && u64_bit(self.used, place(k))
    }

    /// Every constraint that may have been used holds at `env`.
    pub open spec fn admits(self, hyp: Hyp, env: Env) -> bool {
        forall|k: int| #[trigger] self.uses(k) ==> hyp(k, env)
    }

    /// No constraints.
    pub fn none() -> (r: Reliance)
        ensures
            r.used == 0,
            forall|k: int| !r.uses(k),
    {
        let r = Reliance { used: 0 };
        assert forall|k: int| !r.uses(k) by {
            let i = place(k);
            assert((0u64 >> i) & 1 == 0) by (bit_vector);
        }
        r
    }

    /// The constraint numbered `k` alone.
    pub(crate) fn of(k: u64) -> (r: Reliance)
        ensures
            r.uses(k as int),
            r.used != 0,
    {
        let i: u64 = if k < 63 {
            k
        } else {
            63
        };
        let used: u64 = 1u64 << i;
        proof {
            assert(((1u64 << i) >> i) & 1 == 1 && (1u64 << i) != 0) by (bit_vector)
                requires
                    i < 64,
            ;
        }
        Reliance { used }
    }

    /// Either set's constraints.
    pub(crate) fn or(self, o: Reliance) -> (r: Reliance)
        ensures
            forall|k: int| #[trigger] r.uses(k) <==> self.uses(k) || o.uses(k),
            forall|h: Hyp, env: Env| #[trigger]
                r.admits(h, env) <==> self.admits(h, env) && o.admits(h, env),
    {
        let r = Reliance { used: self.used | o.used };
        let a = self.used;
        let b = o.used;
        proof {
            assert forall|k: int| #[trigger] r.uses(k) <==> self.uses(k) || o.uses(k) by {
                let i = place(k);
                assert(((a | b) >> i) & 1 == 1 <==> ((a >> i) & 1 == 1 || (b >> i) & 1 == 1))
                    by (bit_vector);
            }
            assert forall|h: Hyp, env: Env| #[trigger]
                r.admits(h, env) <==> self.admits(h, env) && o.admits(h, env) by {
                if r.admits(h, env) {
                    assert forall|k: int| #[trigger] self.uses(k) implies h(k, env) by {
                        assert(r.uses(k));
                    }
                    assert forall|k: int| #[trigger] o.uses(k) implies h(k, env) by {
                        assert(r.uses(k));
                    }
                }
            }
        }
        r
    }

    /// Whether constraint `k` may have been used.
    pub fn may_use(&self, k: u64) -> (r: bool)
        ensures
            r == self.uses(k as int),
    {
        let i: u64 = if k < 63 {
            k
        } else {
            63
        };
        (self.used >> i) & 1 == 1
    }

    /// Whether no constraint was used.
    pub fn is_none(&self) -> (r: bool)
        ensures
            r == (self.used == 0),
            r ==> forall|k: int| !self.uses(k),
            r ==> forall|h: Hyp, env: Env| #[trigger] self.admits(h, env),
    {
        let r = self.used == 0;
        if r {
            assert forall|k: int| !self.uses(k) by {
                let i = place(k);
                assert((0u64 >> i) & 1 == 0) by (bit_vector);
            }
        }
        r
    }
}

} // verus!
