//! Linked engines.

use vstd::prelude::*;
use crate::rules::meaning;
use std::sync::Arc;
use crate::engine::dispatch::DispatchNet;
use crate::engine::host::HostLink;
use crate::engine::pass::tables::MinForms;
use crate::engine::stats::PassKind;
use crate::engine::strategy::{Strategy, Verify};
use crate::rules::rule::Rule;

verus! {

/// A phase as the engine runs it.
#[derive(Debug)]
pub enum PhaseImpl {
    /// Rules, and after them the host rewrites of the same groups (by index).
    Local(DispatchNet, Vec<u32>),
    /// A normal-form pass.
    Pass(PassKind),
}

/// The indices are of `n` host rewrites.
pub open spec fn hosts_listed(list: Seq<u32>, n: nat) -> bool {
    forall|i: int| 0 <= i < list.len() ==> #[trigger] list[i] < n
}

/// What an engine is made of.
pub struct Inner {
    /// Every linked rule, in link order.
    pub rules: Vec<Rule>,
    /// Whether each rule is vouched for by its program's ledger.
    pub proven: Vec<bool>,
    /// The strategy.
    pub strategy: Strategy,
    /// Its phases.
    pub phases: Vec<PhaseImpl>,
    /// Verification settings.
    pub verify: Verify,
    /// A hash of everything that can change a result.
    pub id: u128,
    /// The bitwise pass's minimum forms.
    pub forms: MinForms,
    /// The host rewrites, in link order.
    pub host: Vec<HostLink>,
}

/// Linked rule programs, a strategy and verification settings. Cheap to clone.
#[derive(Clone)]
pub struct Engine {
    pub(crate) inner: Arc<Inner>,
}

impl Engine {
    /// Its parts are consistent.
    pub open(crate) spec fn wf(&self) -> bool {
        self.inner.wf()
    }

    /// Every linked rule is sound, and no host rewrite is linked.
    pub open(crate) spec fn sound(&self) -> bool {
        self.inner.sound()
    }
}

impl Inner {
    /// Its parts are consistent.
    pub open spec fn wf(&self) -> bool {
        &&& self.proven@.len() == self.rules@.len()
        &&& self.phases@.len() == self.strategy.phases@.len()
        &&& forall|i: int| 0 <= i < self.rules@.len() ==> meaning::rule_ok(#[trigger] self.rules@[i])
        &&& forall|p: int|
            #![trigger self.phases@[p]]
            0 <= p < self.phases@.len() ==> (self.phases@[p] matches PhaseImpl::Local(net, hosts)
                ==> net.wf(self.rules@.len()) && hosts_listed(hosts@, self.host@.len()))
        &&& self.forms.wf()
    }

    /// Every linked rule is sound, and no host rewrite is linked.
    pub open spec fn sound(&self) -> bool {
        &&& forall|i: int|
            0 <= i < self.rules@.len() ==> meaning::rule_sound(#[trigger] self.rules@[i])
        &&& self.host@.len() == 0
    }
}

} // verus!
