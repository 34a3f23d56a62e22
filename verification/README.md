# bitwright

A verified engine that simplifies bit-vector expressions, written in Verus.

- `src/expr.rs`, `make.rs`, `api.rs`: contexts, which hold expressions as a DAG; every constructor
  states the value of what it makes at every assignment of the symbols.
- `src/facts/`: known bits of expressions, under assumptions, with what they rely on.
- `src/rules/`: rewrite rules, what they mean, matching, and the built-in rules, each proved sound.
- `src/engine/`: strategies, budgets, the walk over a DAG, the acceptance of rewrites, memoized
  results, and `pass/`, the normal-form passes.
- `src/check/`: the checker of rules and of host rewrites, and the ledger of rules that passed.
- `src/text.rs`: numbers and values as text.
- `src/laws.rs`: what holds of the library as a whole.
- `app/`: the same on several threads.

What `Engine::run` promises: every result has the width of its root, and its value wherever the
constraints that it reports to rely on hold, if the linked rules are sound.

What it promises besides: each distinct root is counted once, an account is charged exactly what a
call reports, a call without visits does nothing where no results of earlier calls are kept,
contradictory assumptions justify nothing, a limit that ended a root was reached, a host that
refuses every rewrite gets its roots back, and a root that every phase is known to leave is
answered without work. A completed root is one that the rule phases, fact folding and the cast
phase leave, where no check or host held a rewrite back and the rounds sufficed. Each rule phase
runs just the directed rules of its groups, and its dispatch net drops only rules that cannot
match.
