//! The rules that passed a check.

use vstd::prelude::*;
use crate::check::verdict::RuleCheck;
use crate::rules::rule::{Ledger, LedgerEntry, RuleId};

verus! {

/// The content hash with which the last check of a rule of this name that found it sound found
/// it.
pub open spec fn passed(checks: Seq<RuleCheck>, name: Seq<char>) -> Option<RuleId>
    decreases checks.len(),
{
    if checks.len() == 0 {
        None
    } else if checks.last().verdict is Sound && checks.last().name@ == name {
        Some(checks.last().id)
    } else {
        passed(checks.drop_last(), name)
    }
}

/// The entry is that of a sound check: its name, content, kind and evidence.
pub open spec fn attested(e: LedgerEntry, checks: Seq<RuleCheck>) -> bool {
    exists|i: int|
        0 <= i < checks.len() && (#[trigger] checks[i]).verdict is Sound && e.name@
            == checks[i].name@ && e.id == checks[i].id && e.kind == checks[i].kind && e.evidence@
            == checks[i].evidence.shown()
}

/// There is an entry of this name and content.
spec fn has(entries: Seq<LedgerEntry>, name: Seq<char>, id: RuleId) -> bool {
    exists|k: int| #[trigger] entry_is(entries, k, name, id)
}

/// Entry `k` has this name and content.
spec fn entry_is(entries: Seq<LedgerEntry>, k: int, name: Seq<char>, id: RuleId) -> bool {
    0 <= k < entries.len() && entries[k].name@ == name && entries[k].id == id
}

/// No two entries have one name.
spec fn distinct(entries: Seq<LedgerEntry>) -> bool {
    forall|i: int, j: int|
        #![trigger entries[i], entries[j]]
        0 <= i < j < entries.len() ==> entries[i].name@ != entries[j].name@
}

/// Entering a rule replaces what was entered under its name.
proof fn lemma_entered(entries: Seq<LedgerEntry>, after: Seq<LedgerEntry>, e: LedgerEntry, at: int)
    requires
        distinct(entries),
        0 <= at <= entries.len(),
        at < entries.len() ==> entries[at].name@ == e.name@ && after == entries.update(at, e),
        at == entries.len() ==> after == entries.push(e) && forall|k: int|
            0 <= k < entries.len() ==> (#[trigger] entries[k]).name@ != e.name@,
    ensures
        distinct(after),
        forall|name: Seq<char>, id: RuleId| #[trigger]
            has(after, name, id) <==> (if name == e.name@ {
                id == e.id
            } else {
                has(entries, name, id)
            }),
{
    assert forall|i: int, j: int|
        #![trigger after[i], after[j]]
        0 <= i < j < after.len() implies after[i].name@ != after[j].name@ by {
        if i < entries.len() && j < entries.len() {
            let _ = (entries[i], entries[j]);
        }
    }
    assert forall|name: Seq<char>, id: RuleId| #[trigger]
        has(after, name, id) <==> (if name == e.name@ {
            id == e.id
        } else {
            has(entries, name, id)
        }) by {
        assert(entry_is(after, at, e.name@, e.id));
        if has(after, name, id) {
            let k = choose|k: int| #[trigger] entry_is(after, k, name, id);
            if name == e.name@ {
                if k != at {
                    let _ = (after[k], after[at]);
                }
            } else {
                assert(k != at);
                assert(entry_is(entries, k, name, id));
            }
        }
        if name != e.name@ && has(entries, name, id) {
            let k = choose|k: int| #[trigger] entry_is(entries, k, name, id);
            assert(entry_is(after, k, name, id));
        }
    }
}

impl Ledger {
    /// The ledger of a set of checks. Only sound rules are entered, so the ledger vouches for
    /// nothing that was refuted or checked inconclusively; of two checks of one name the later
    /// one counts.
    pub fn from_checks(checks: &[RuleCheck]) -> (r: Ledger)
        ensures
            forall|name: Seq<char>, id: RuleId| #[trigger]
                r.vouches(name, id) <==> passed(checks@, name) == Some(id),
            forall|k: int| 0 <= k < r.entries@.len() ==> attested(#[trigger] r.entries@[k], checks@),
    {
        let mut entries: Vec<LedgerEntry> = Vec::new();
        let mut i: usize = 0;
        while i < checks.len()
            invariant
                i <= checks@.len(),
                distinct(entries@),
                forall|k: int| 0 <= k < entries@.len() ==> attested(#[trigger] entries@[k], checks@),
                forall|name: Seq<char>, id: RuleId| #[trigger]
                    has(entries@, name, id) <==> passed(checks@.take(i as int), name) == Some(id),
            decreases checks@.len() - i,
        {
            let c = &checks[i];
            proof {
                assert(checks@.take(i + 1).drop_last() =~= checks@.take(i as int));
                assert(checks@.take(i + 1).last() == *c);
            }
            if c.is_sound() {
                let e = LedgerEntry {
                    name: c.name.as_str().to_string(),
                    id: c.id,
                    kind: c.kind,
                    evidence: c.evidence.text(),
                };
                let ghost before = entries@;
                let mut k: usize = 0;
                while k < entries.len() && entries[k].name != c.name
                    invariant
                        k <= entries@.len(),
                        forall|j: int| 0 <= j < k ==> (#[trigger] entries@[j]).name@ != c.name@,
                    decreases entries@.len() - k,
                {
                    k = k + 1;
                }
                if k < entries.len() {
                    entries.set(k, e);
                } else {
                    entries.push(e);
                }
                proof {
                    assert(checks@[i as int] == *c);
                    assert(attested(e, checks@));
                    lemma_entered(before, entries@, e, k as int);
                }
            }
            i = i + 1;
        }
        assert(checks@.take(i as int) =~= checks@);
        let r = Ledger { entries };
        proof {
            assert forall|name: Seq<char>, id: RuleId| #[trigger]
                r.vouches(name, id) <==> passed(checks@, name) == Some(id) by {
                assert(has(r.entries@, name, id) <==> passed(checks@, name) == Some(id));
                if has(r.entries@, name, id) {
                    let k = choose|k: int| #[trigger] entry_is(r.entries@, k, name, id);
                    let _ = r.entries@[k];
                }
                if r.vouches(name, id) {
                    let k = choose|k: int|
                        #![trigger r.entries@[k]]
                        0 <= k < r.entries@.len() && r.entries@[k].name@ == name && r.entries@[k].id
                            == id;
                    assert(entry_is(r.entries@, k, name, id));
                }
            }
        }
        r
    }
}

} // verus!
