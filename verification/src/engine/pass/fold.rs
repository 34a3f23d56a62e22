//! Fact folding: a node whose facts pin one value becomes that constant.

use vstd::prelude::*;
use crate::term;
use crate::engine::runner;
use crate::engine::fin;
use crate::engine::fin::{Fin, Step, Stop};
use crate::engine::runner::Runner;
use crate::engine::stats::{bump, PassKind};
use crate::expr::{Context, Expr};
use crate::facts::floor;
use crate::facts::store::Entry;
use crate::term::Env;

verus! {

broadcast use crate::term::lemma_value_len;

/// The facts kept of `n` leave one of its bits open.
pub open spec fn left_open(known: Seq<Option<Entry>>, n: u32) -> bool {
    &&& n < known.len()
    &&& known[n as int] matches Some(e) && exists|i: int|
        0 <= i < e.k.zero@.len() && !e.k.zero@[i] && !e.k.one@[i]
}

impl<'a> Runner<'a> {
    /// Fact folding at `n`.
    pub(crate) fn fold(&mut self, cx: &mut Context, n: u32) -> (out: Result<Step, Stop>)
        requires
            old(self).wf(old(cx)),
            n < old(cx).n(),
        ensures
            runner::went(final(self), final(cx), old(self), old(cx)),
            out matches Err(e) ==> final(self).refuses(final(cx), e),
            out matches Ok(s) ==> fin::step_keeps(s, final(cx).tm(), final(self).hyp@, n as int),
            old(self).refuses_all() ==> !(out matches Ok(Step::To(_, _))),
            out matches Ok(Step::To(x, f)) ==> final(cx).nodes@[x as int] is Const,
            // A node is left only where it is a constant or its facts leave a bit open.
            old(self).unchecked() ==> (out matches Ok(Step::Normal(f)) ==> f.why is None ==> old(cx).nodes@[n as int] is Const || !floor::fixed(old(cx).tm()[n as int])),
            old(self).unchecked() ==> (out matches Ok(Step::Normal(f)) ==> f.done ==> old(cx).nodes@[n as int] is Const || left_open(final(self).facts.known@, n)),
    {
        if cx.is_const(n) {
            return Ok(Step::Normal(Fin::full()));
        }
        let (f, fin) = self.known(cx, n)?;
        let pinned = match &f {
            Some(k) => {
                let _ = cx.wid(n);
                k.as_constant()
            },
            None => None,
        };
        let ghost cx0 = *cx;
        let ghost h = self.hyp@;
        let v = match pinned {
            Some(v) => v,
            None => {
                proof {
                    let t = cx.tm()[n as int];
                    assert(cx.ok_at(n as int));
                    if let Some(k) = f {
                        let b = choose|b: int|
                            0 <= b < k.zero@.len() && !k.zero@[b] && !k.one@[b];
                        assert(!floor::surely(t, b, false) && !floor::surely(t, b, true));
                        assert(!floor::fixed(t));
                    }
                }
                let c = self.stats.passes.entry(PassKind::FactFold);
                c.noop = bump(c.noop);
                return Ok(Step::Normal(fin));
            },
        };
        if let Some(h) = self.hooks {
            if !h.fold_known(cx, Expr { id: n }) {
                self.stats.hook_vetoes = bump(self.stats.hook_vetoes);
                return Ok(Step::Normal(fin));
            }
        }
        let before: u32 = cx.len() as u32;
        let c = self.mk_const(cx, &v)?;
        let atoms: Vec<u32> = Vec::new();
        proof {
            assert forall|env: Env|
                #![trigger term::value(cx.tm()[n as int], env)]
                #![trigger term::value(cx.tm()[c as int], env)]
                fin.rel.admits(h, env) implies term::value(cx.tm()[n as int], env) == term::value(
                cx.tm()[c as int],
                env,
            ) by {
                assert(cx.val(c as int, env) == v@);
                assert(cx0.val(n as int, env) == v@);
            }
        }
        self.finish(cx, PassKind::FactFold, n, c, before, &atoms, fin)
    }
}

} // verus!
