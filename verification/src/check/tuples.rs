//! Every tuple of parameter values, and one case of a rule.

use vstd::prelude::*;
use vstd::arithmetic::power2::*;
use crate::bits;
use crate::rules::eval;
use crate::rules::meaning;
use crate::bitvec::{BitVec, MAX_WIDTH};
use crate::check::verdict::{Counterexample, Evidence};
use crate::engine::stats::bump;
use crate::rules::rule::Rule;

verus! {

/// The sum of the first `n` widths.
pub open spec fn total(pw: Seq<usize>, n: int) -> int
    decreases n,
{
    if n <= 0 {
        0
    } else {
        total(pw, n - 1) + pw[n - 1]
    }
}

/// Sums grow.
pub(crate) proof fn lemma_total(pw: Seq<usize>, i: int, n: int)
    requires
        0 <= i <= n,
    ensures
        0 <= total(pw, i) <= total(pw, n),
    decreases n,
{
    if n > i {
        lemma_total(pw, i, n - 1);
    } else if n > 0 {
        lemma_total(pw, i - 1, n - 1);
    }
}

/// Values one after the other, the first lowest.
pub open spec fn joined(ps: Seq<Seq<bool>>) -> Seq<bool>
    decreases ps.len(),
{
    if ps.len() == 0 {
        seq![]
    } else {
        joined(ps.drop_last()) + ps.last()
    }
}

/// The values have these widths.
pub open spec fn sized(ps: Seq<Seq<bool>>, pw: Seq<usize>) -> bool {
    &&& ps.len() == pw.len()
    &&& forall|i: int| #![trigger ps[i]] 0 <= i < ps.len() ==> ps[i].len() == pw[i]
}

/// Each value is a piece of the join.
proof fn lemma_joined(ps: Seq<Seq<bool>>, pw: Seq<usize>, i: int)
    requires
        sized(ps, pw),
        0 <= i < ps.len(),
    ensures
        joined(ps).len() == total(pw, pw.len() as int),
        0 <= total(pw, i) <= total(pw, i + 1) <= total(pw, pw.len() as int),
        joined(ps).subrange(total(pw, i), total(pw, i + 1)) == ps[i],
    decreases ps.len(),
{
    let n = ps.len() as int;
    let d = ps.drop_last();
    let dw = pw.drop_last();
    lemma_total(pw, i, n);
    lemma_total(pw, i + 1, n);
    lemma_total(pw, i, i + 1);
    assert forall|k: int| #![trigger d[k]] 0 <= k < d.len() implies d[k].len() == dw[k] by {
        assert(d[k] == ps[k]);
    }
    lemma_joined_len(d, dw);
    lemma_total_prefix(pw, dw, n - 1);
    let _ = ps[n - 1];
    if i == n - 1 {
        assert(joined(ps).subrange(total(pw, i), total(pw, i + 1)) =~= ps[i]);
    } else {
        lemma_joined(d, dw, i);
        lemma_total_prefix(pw, dw, i);
        lemma_total_prefix(pw, dw, i + 1);
        assert(joined(ps).subrange(total(pw, i), total(pw, i + 1)) =~= joined(d).subrange(
            total(dw, i),
            total(dw, i + 1),
        ));
    }
}

proof fn lemma_joined_len(ps: Seq<Seq<bool>>, pw: Seq<usize>)
    requires
        sized(ps, pw),
    ensures
        joined(ps).len() == total(pw, pw.len() as int),
    decreases ps.len(),
{
    if ps.len() > 0 {
        let d = ps.drop_last();
        let dw = pw.drop_last();
        assert forall|k: int| #![trigger d[k]] 0 <= k < d.len() implies d[k].len() == dw[k] by {
            assert(d[k] == ps[k]);
        }
        lemma_joined_len(d, dw);
        lemma_total_prefix(pw, dw, pw.len() - 1);
        let _ = ps[ps.len() - 1];
    }
}

proof fn lemma_total_prefix(pw: Seq<usize>, dw: Seq<usize>, n: int)
    requires
        dw == pw.drop_last(),
        0 <= n < pw.len(),
    ensures
        total(pw, n) == total(dw, n),
    decreases n,
{
    if n > 0 {
        lemma_total_prefix(pw, dw, n - 1);
    }
}

/// The tuple that `k` numbers.
pub open spec fn numbered(k: int, pw: Seq<usize>) -> Seq<Seq<bool>> {
    Seq::new(
        pw.len(),
        |i: int|
            bits::bits_of(k, total(pw, pw.len() as int) as nat).subrange(
                total(pw, i),
                total(pw, i + 1),
            ),
    )
}

/// Every tuple has a number.
proof fn lemma_numbered(ps: Seq<Seq<bool>>, pw: Seq<usize>)
    requires
        sized(ps, pw),
    ensures
        numbered(bits::nat_of(joined(ps)) as int, pw) == ps,
        bits::nat_of(joined(ps)) < pow2(total(pw, pw.len() as int) as nat),
{
    lemma_joined_len(ps, pw);
    let k = bits::nat_of(joined(ps)) as int;
    bits::lemma_nat_bound(joined(ps));
    bits::lemma_bits_of_nat(joined(ps));
    assert forall|i: int| 0 <= i < ps.len() implies #[trigger] numbered(k, pw)[i] == ps[i] by {
        lemma_joined(ps, pw, i);
    }
    assert(numbered(k, pw) =~= ps);
}

/// Value `i` of a tuple is its piece of the whole.
spec fn piece(p: BitVec, whole: Seq<bool>, pw: Seq<usize>, i: int) -> bool {
    &&& 0 <= total(pw, i) <= total(pw, i + 1) <= whole.len()
    &&& p@ == whole.subrange(total(pw, i), total(pw, i + 1))
}

/// The tuple that `k` numbers.
fn tuple(pw: &Vec<usize>, width: usize, k: u64) -> (r: Vec<BitVec>)
    requires
        width == total(pw@, pw@.len() as int),
    ensures
        eval::views(r@) == numbered(k as int, pw@),
        sized(eval::views(r@), pw@),
{
    let whole = BitVec::from_u64(width, k);
    let mut r: Vec<BitVec> = Vec::with_capacity(pw.len());
    let mut at: usize = 0;
    let mut i: usize = 0;
    while i < pw.len()
        invariant
            i <= pw@.len(),
            width == total(pw@, pw@.len() as int),
            whole@ == bits::bits_of(k as int, width as nat),
            at == total(pw@, i as int),
            r@.len() == i,
            forall|j: int| 0 <= j < i ==> piece(#[trigger] r@[j], whole@, pw@, j),
        decreases pw@.len() - i,
    {
        proof {
            lemma_total(pw@, i + 1, pw@.len() as int);
            lemma_total(pw@, i as int, i + 1);
        }
        let p = whole.extract(at, pw[i]);
        let ghost r0 = r@;
        r.push(p);
        proof {
            assert(total(pw@, i + 1) == at + pw@[i as int]);
            assert(piece(p, whole@, pw@, i as int));
            assert forall|j: int| 0 <= j < i + 1 implies piece(#[trigger] r@[j], whole@, pw@, j) by {
                if j < i {
                    assert(r@[j] == r0[j]);
                }
            }
        }
        at = at + pw[i];
        i = i + 1;
    }
    proof {
        let v = eval::views(r@);
        assert forall|j: int| #![trigger v[j]] 0 <= j < v.len() implies v[j].len() == pw@[j] && v[j]
            == numbered(k as int, pw@)[j] by {
            assert(piece(r@[j], whole@, pw@, j));
        }
        assert(v =~= numbered(k as int, pw@));
    }
    r
}

/// What one case of a rule shows.
pub enum Case {
    /// The sides agree; whether the guard held.
    Agree(bool),
    /// The sides differ where the guard holds.
    Differ(BitVec, BitVec),
}

/// What a case shows is so.
pub open spec fn case_ok(c: Case, r: Rule, ws: Seq<u16>, ps: Seq<Seq<bool>>) -> bool {
    match c {
        Case::Agree(fired) => fired == meaning::guard_true(r, ws, ps) && meaning::sides_agree(r, ws, ps),
        Case::Differ(a, b) => meaning::guard_true(r, ws, ps) && a@ == meaning::rvalue(
            r,
            r.lhs as int,
            ws,
            ps,
        ) && b@ == meaning::rvalue(r, r.rhs as int, ws, ps) && a@ != b@,
    }
}

/// One case of a rule.
pub(crate) fn check_case(rule: &Rule, ws: &Vec<u16>, ps: &Vec<BitVec>) -> (c: Case)
    requires
        meaning::rule_ok(*rule),
        meaning::typed(*rule, ws@),
        meaning::params_fit(*rule, ws@, eval::views(ps@)),
    ensures
        case_ok(c, *rule, ws@, eval::views(ps@)),
{
    let vs = rule.values(ws, ps);
    if let Some(g) = rule.guard {
        proof {
            meaning::lemma_rvalue_len(*rule, g as int, ws@, eval::views(ps@));
        }
        if !vs[g as usize].at(0) {
            return Case::Agree(false);
        }
    }
    let l = &vs[rule.lhs as usize];
    let r = &vs[rule.rhs as usize];
    if l.same(r) {
        Case::Agree(true)
    } else {
        Case::Differ(l.dup(), r.dup())
    }
}

/// The widths of the parameters, if all are widths.
pub(crate) fn param_widths(rule: &Rule, ws: &Vec<u16>) -> (r: Option<Vec<usize>>)
    requires
        meaning::rule_ok(*rule),
        ws@.len() == rule.width_vars@.len(),
    ensures
        r matches Some(pw) ==> pw_of(pw@, *rule, ws@),
        r is None ==> forall|pw: Seq<usize>| !pw_of(pw, *rule, ws@),
{
    let mut pw: Vec<usize> = Vec::with_capacity(rule.params.len());
    let mut i: usize = 0;
    while i < rule.params.len()
        invariant
            i <= rule.params@.len(),
            meaning::rule_ok(*rule),
            ws@.len() == rule.width_vars@.len(),
            pw@.len() == i,
            forall|j: int|
                #![trigger pw@[j]]
                0 <= j < i ==> pw@[j] == rule.params@[j].width.at(ws@) && 1 <= pw@[j] <= MAX_WIDTH,
        decreases rule.params@.len() - i,
    {
        let p = &rule.params[i];
        assert(*p == rule.params@[i as int]);
        match p.width.width(ws) {
            Some(w) => {
                pw.push(w as usize);
            },
            None => {
                proof {
                    assert forall|q: Seq<usize>| !pw_of(q, *rule, ws@) by {
                        if pw_of(q, *rule, ws@) {
                            let _ = q[i as int];
                        }
                    }
                }
                return None;
            },
        }
        i = i + 1;
    }
    Some(pw)
}

/// The widths of a rule's parameters, each a width.
pub open spec fn pw_of(pw: Seq<usize>, r: Rule, ws: Seq<u16>) -> bool {
    &&& pw.len() == r.params@.len()
    &&& forall|i: int|
        #![trigger pw[i]]
        0 <= i < pw.len() ==> pw[i] == r.params@[i].width.at(ws) && 1 <= pw[i] <= MAX_WIDTH
}

/// Values of the parameters' widths fit the rule.
pub(crate) proof fn lemma_fit(r: Rule, ws: Seq<u16>, pw: Seq<usize>, ps: Seq<Seq<bool>>)
    requires
        pw_of(pw, r, ws),
    ensures
        sized(ps, pw) <==> meaning::params_fit(r, ws, ps),
{
    if sized(ps, pw) {
        assert forall|i: int| #![trigger ps[i]] 0 <= i < ps.len() implies ps[i].len()
            == r.params@[i].width.at(ws) by {
            let _ = pw[i];
        }
    }
    if meaning::params_fit(r, ws, ps) {
        assert forall|i: int| #![trigger ps[i]] 0 <= i < ps.len() implies ps[i].len() == pw[i] by {
            let _ = pw[i];
        }
    }
}

/// A counterexample from where two sides differ.
pub(crate) fn counterexample(rule: &Rule, ws: &Vec<u16>, ps: Vec<BitVec>, l: BitVec, r: BitVec) -> (c:
    Counterexample)
    requires
        meaning::rule_ok(*rule),
        meaning::typed(*rule, ws@),
        meaning::wheres_hold(*rule, ws@),
        meaning::params_fit(*rule, ws@, eval::views(ps@)),
        case_ok(Case::Differ(l, r), *rule, ws@, eval::views(ps@)),
    ensures
        c.refutes(*rule),
        c.ws() == ws@,
        c.ps() == eval::views(ps@),
{
    let ghost pv = eval::views(ps@);
    let mut widths: Vec<(String, u16)> = Vec::new();
    let mut i: usize = 0;
    while i < ws.len()
        invariant
            i <= ws@.len(),
            ws@.len() == rule.width_vars@.len(),
            widths@.len() == i,
            forall|j: int|
                #![trigger widths@[j]]
                0 <= j < i ==> widths@[j].1 == ws@[j] && widths@[j].0@ == rule.width_vars@[j]@,
        decreases ws@.len() - i,
    {
        widths.push((rule.width_vars[i].as_str().to_string(), ws[i]));
        i = i + 1;
    }
    let mut params: Vec<(String, BitVec)> = Vec::new();
    let mut k: usize = 0;
    while k < ps.len()
        invariant
            k <= ps@.len(),
            ps@.len() == rule.params@.len(),
            params@.len() == k,
            forall|j: int|
                #![trigger params@[j]]
                0 <= j < k ==> params@[j].1@ == ps@[j]@ && params@[j].0@ == rule.params@[j].name@,
        decreases ps@.len() - k,
    {
        params.push((rule.params[k].name.as_str().to_string(), ps[k].dup()));
        k = k + 1;
    }
    let c = Counterexample { widths, params, lhs: l, rhs: r };
    assert(c.ws() =~= ws@);
    assert(c.ps() =~= pv);
    c
}

/// The guard holds for some values of the parameters.
pub open spec fn fires(r: Rule, ws: Seq<u16>) -> bool {
    exists|ps: Seq<Seq<bool>>| #[trigger]
        meaning::params_fit(r, ws, ps) && meaning::guard_true(r, ws, ps)
}

/// Two to the power of `k`.
fn power(k: u32) -> (r: u64)
    requires
        k <= 40,
    ensures
        r == pow2(k as nat),
{
    let mut r: u64 = 1;
    let mut i: u32 = 0;
    proof {
        bits::lemma_pow2_zero();
        lemma2_to64();
        bits::lemma_pow2_sum(32, 8);
    }
    while i < k
        invariant
            i <= k <= 40,
            r == pow2(i as nat),
            pow2(40) == 0x100_0000_0000,
        decreases k - i,
    {
        proof {
            bits::lemma_pow2_step(i as nat);
            bits::lemma_pow2_le((i + 1) as nat, 40);
        }
        r = r * 2;
        i = i + 1;
    }
    r
}

/// Checks every tuple of values at one width assignment: the first counterexample, if any.
pub(crate) fn exhaust(rule: &Rule, ws: &Vec<u16>, pw: &Vec<usize>, width: u32, ev: &mut Evidence) -> (out:
    Option<Counterexample>)
    requires
        meaning::rule_ok(*rule),
        meaning::typed(*rule, ws@),
        meaning::wheres_hold(*rule, ws@),
        pw_of(pw@, *rule, ws@),
        width == total(pw@, pw@.len() as int),
        width <= 40,
    ensures
        out matches Some(c) ==> c.refutes(*rule) && c.ws() == ws@,
        old(ev).exhaustive_fired <= old(ev).exhaustive_cases ==> final(ev).exhaustive_fired
            <= final(ev).exhaustive_cases,
        out is None ==> forall|ps: Seq<Seq<bool>>|
            meaning::params_fit(*rule, ws@, ps) ==> #[trigger] meaning::sides_agree(*rule, ws@, ps),
        *final(ev) == (Evidence {
            exhaustive_cases: final(ev).exhaustive_cases,
            exhaustive_fired: final(ev).exhaustive_fired,
            ..*old(ev)
        }),
        out is None ==> (final(ev).exhaustive_fired > 0 <==> old(ev).exhaustive_fired > 0 || fires(
            *rule,
            ws@,
        )),
{
    let n: u64 = power(width);
    let mut k: u64 = 0;
    while k < n
        invariant
            meaning::rule_ok(*rule),
            meaning::typed(*rule, ws@),
            meaning::wheres_hold(*rule, ws@),
            pw_of(pw@, *rule, ws@),
            width == total(pw@, pw@.len() as int),
            width <= 40,
            k <= n == pow2(width as nat),
            old(ev).exhaustive_fired <= old(ev).exhaustive_cases ==> ev.exhaustive_fired
                <= ev.exhaustive_cases,
            forall|j: int|
                0 <= j < k ==> #[trigger] meaning::sides_agree(*rule, ws@, numbered(j, pw@)),
            *ev == (Evidence {
                exhaustive_cases: ev.exhaustive_cases,
                exhaustive_fired: ev.exhaustive_fired,
                ..*old(ev)
            }),
            ev.exhaustive_fired > 0 ==> old(ev).exhaustive_fired > 0 || fires(*rule, ws@),
            old(ev).exhaustive_fired > 0 ==> ev.exhaustive_fired > 0,
            forall|j: int|
                0 <= j < k && #[trigger] meaning::guard_true(*rule, ws@, numbered(j, pw@))
                    ==> ev.exhaustive_fired > 0,
        decreases n - k,
    {
        let ps = tuple(pw, width as usize, k);
        proof {
            lemma_fit(*rule, ws@, pw@, eval::views(ps@));
        }
        ev.exhaustive_cases = bump(ev.exhaustive_cases);
        match check_case(rule, ws, &ps) {
            Case::Agree(fired) => {
                if fired {
                    proof {
                        assert(meaning::params_fit(*rule, ws@, eval::views(ps@)));
                    }
                    ev.exhaustive_fired = bump(ev.exhaustive_fired);
                }
            },
            Case::Differ(l, r) => {
                return Some(counterexample(rule, ws, ps, l, r));
            },
        }
        k = k + 1;
    }
    proof {
        assert forall|ps: Seq<Seq<bool>>| meaning::params_fit(*rule, ws@, ps) implies #[trigger] meaning::sides_agree(
            *rule,
            ws@,
            ps,
        ) by {
            lemma_fit(*rule, ws@, pw@, ps);
            lemma_numbered(ps, pw@);
            assert(meaning::sides_agree(
                *rule,
                ws@,
                numbered(bits::nat_of(joined(ps)) as int, pw@),
            ));
        }
        if fires(*rule, ws@) {
            let ps = choose|ps: Seq<Seq<bool>>| #[trigger]
                meaning::params_fit(*rule, ws@, ps) && meaning::guard_true(*rule, ws@, ps);
            lemma_fit(*rule, ws@, pw@, ps);
            lemma_numbered(ps, pw@);
            assert(meaning::guard_true(
                *rule,
                ws@,
                numbered(bits::nat_of(joined(ps)) as int, pw@),
            ));
        }
    }
    None
}

} // verus!
