//! Checking rules.

use vstd::prelude::*;
use crate::check::random;
use crate::check::steering;
use crate::check::tuples;
use crate::check::verdict;
use crate::check::widths;
use crate::rules::eval;
use crate::rules::meaning;
use crate::bitvec::{BitVec, Width, MAX_WIDTH};
use crate::check::random::{biased, Rng};
use crate::check::steering::steer;
use crate::check::tuples::{check_case, counterexample, exhaust, param_widths, Case};
use crate::check::verdict::{decide, CheckConfig, Counterexample, Evidence, RuleCheck, Verdict};
use crate::check::widths::width_assignments;
use crate::engine::stats::bump;
use crate::rules::rule::Rule;

verus! {

/// The pattern can match at these widths.
pub open spec fn admitted(r: Rule, ws: Seq<u16>) -> bool {
    meaning::typed(r, ws) && meaning::wheres_hold(r, ws)
}

/// The sides agree at these widths, whatever the parameters.
pub open spec fn agrees(r: Rule, ws: Seq<u16>) -> bool {
    forall|ps: Seq<Seq<bool>>|
        meaning::params_fit(r, ws, ps) ==> #[trigger] meaning::sides_agree(r, ws, ps)
}

/// The most bits that are enumerated.
pub open spec fn most_bits(cfg: CheckConfig) -> int {
    if cfg.max_exhaustive_bits < 40 {
        cfg.max_exhaustive_bits as int
    } else {
        40
    }
}

/// Small enough to check exhaustively.
pub open spec fn small(r: Rule, cfg: CheckConfig, ws: Seq<u16>) -> bool {
    &&& forall|i: int| #![trigger ws[i]] 0 <= i < ws.len() ==> ws[i] <= cfg.max_exhaustive_width
    &&& exists|pw: Seq<usize>| #[trigger]
        tuples::pw_of(pw, r, ws) && tuples::total(pw, pw.len() as int) <= most_bits(cfg)
}

/// An assignment that is checked exhaustively.
pub open spec fn covered(r: Rule, cfg: CheckConfig, ws: Seq<u16>) -> bool {
    &&& widths::in_domain(ws, r.width_vars@.len(), widths::side(r.width_vars@.len()))
    &&& admitted(r, ws)
    &&& small(r, cfg, ws)
}

/// The rule is sound at every assignment of widths of values.
pub open spec fn sound_at_widths(r: Rule) -> bool {
    forall|ws: Seq<u16>|
        admitted(r, ws) && widths::in_domain(ws, r.width_vars@.len(), 512) ==> #[trigger] agrees(
            r,
            ws,
        )
}

/// Whether the pattern can match at these widths.
fn admits(rule: &Rule, ws: &Vec<u16>) -> (b: bool)
    requires
        meaning::rule_ok(*rule),
    ensures
        b == admitted(*rule, ws@),
{
    rule.typed_at_widths(ws) && rule.wheres_at(ws)
}

/// Whether every width is at most `most`.
fn all_within(ws: &Vec<u16>, most: u16) -> (b: bool)
    ensures
        b == forall|i: int| #![trigger ws@[i]] 0 <= i < ws@.len() ==> ws@[i] <= most,
{
    let mut i: usize = 0;
    while i < ws.len()
        invariant
            i <= ws@.len(),
            forall|j: int| #![trigger ws@[j]] 0 <= j < i ==> ws@[j] <= most,
        decreases ws@.len() - i,
    {
        if ws[i] > most {
            assert(ws@[i as int] > most);
            return false;
        }
        i = i + 1;
    }
    true
}

/// The sum of widths, unless it is more than `most`.
fn sum_within(pw: &Vec<usize>, most: usize) -> (r: Option<u32>)
    requires
        most <= 40,
        forall|i: int| #![trigger pw@[i]] 0 <= i < pw@.len() ==> pw@[i] <= MAX_WIDTH,
    ensures
        r matches Some(s) ==> s == tuples::total(pw@, pw@.len() as int) && s <= most,
        r is None ==> tuples::total(pw@, pw@.len() as int) > most,
{
    let mut s: usize = 0;
    let mut i: usize = 0;
    while i < pw.len()
        invariant
            i <= pw@.len(),
            most <= 40,
            s == tuples::total(pw@, i as int),
            s <= most,
            forall|j: int| #![trigger pw@[j]] 0 <= j < pw@.len() ==> pw@[j] <= MAX_WIDTH,
        decreases pw@.len() - i,
    {
        proof {
            let _ = pw@[i as int];
        }
        s = s + pw[i];
        i = i + 1;
        if s > most {
            proof {
                tuples::lemma_total(pw@, i as int, pw@.len() as int);
            }
            return None;
        }
    }
    Some(s as u32)
}

/// Two lists of widths of a rule's parameters are one.
proof fn lemma_one_pw(r: Rule, ws: Seq<u16>, p: Seq<usize>, q: Seq<usize>)
    requires
        tuples::pw_of(p, r, ws),
        tuples::pw_of(q, r, ws),
    ensures
        p == q,
{
    assert forall|i: int| 0 <= i < p.len() implies p[i] == q[i] by {
        let _ = (p[i], q[i]);
    }
    assert(p =~= q);
}

/// The largest width of an assignment and its pattern.
fn widest(rule: &Rule, ws: &Vec<u16>) -> (r: u16)
    requires
        meaning::rule_ok(*rule),
        meaning::typed(*rule, ws@),
    ensures
        r >= meaning::wat(*rule, rule.lhs as int, ws@),
        forall|i: int| 0 <= i < ws@.len() ==> r >= #[trigger] ws@[i],
        r == meaning::wat(*rule, rule.lhs as int, ws@) || ws@.contains(r),
{
    proof {
        assert(meaning::typed_at(*rule, rule.lhs as int, ws@));
    }
    let mut m: u16 = rule.wid(rule.lhs, ws) as u16;
    let mut i: usize = 0;
    while i < ws.len()
        invariant
            i <= ws@.len(),
            m >= meaning::wat(*rule, rule.lhs as int, ws@),
            forall|j: int| 0 <= j < i ==> m >= #[trigger] ws@[j],
            m == meaning::wat(*rule, rule.lhs as int, ws@) || ws@.contains(m),
        decreases ws@.len() - i,
    {
        if ws[i] > m {
            m = ws[i];
        }
        i = i + 1;
    }
    m
}

/// The assignment is the first listed one that is checked exhaustively and at which the sides
/// may differ: they agree at those before it.
pub open spec fn first_at(r: Rule, cfg: CheckConfig, all: Seq<Vec<u16>>, ws: Seq<u16>) -> bool {
    exists|k: int|
        0 <= k < all.len() && (#[trigger] all[k])@ == ws && admitted(r, ws) && small(r, cfg, ws)
            && forall|j: int|
            0 <= j < k && admitted(r, (#[trigger] all[j])@) && small(r, cfg, all[j]@) ==> agrees(
                r,
                all[j]@,
            )
}

/// Whether no assignment of two widths is admitted that is not listed.
fn none_outside(rule: &Rule) -> (b: bool)
    requires
        meaning::rule_ok(*rule),
        rule.width_vars@.len() == 2,
    ensures
        b == forall|ws: Seq<u16>|
            widths::in_domain(ws, 2, 512) && #[trigger] admitted(*rule, ws) ==> widths::in_domain(
                ws,
                2,
                widths::side(2),
            ),
{
    let mut a: u16 = 1;
    while a <= 512
        invariant
            meaning::rule_ok(*rule),
            1 <= a <= 513,
            forall|ws: Seq<u16>|
                widths::in_domain(ws, 2, 512) && ws[0] < a && #[trigger] admitted(*rule, ws)
                    ==> widths::in_domain(ws, 2, widths::side(2)),
        decreases 513 - a,
    {
        let mut b: u16 = 1;
        while b <= 512
            invariant
                meaning::rule_ok(*rule),
                1 <= a <= 512,
                1 <= b <= 513,
                forall|ws: Seq<u16>|
                    widths::in_domain(ws, 2, 512) && ws[0] < a && #[trigger] admitted(*rule, ws)
                        ==> widths::in_domain(ws, 2, widths::side(2)),
                forall|ws: Seq<u16>|
                    widths::in_domain(ws, 2, 512) && ws[0] == a && ws[1] < b && #[trigger] admitted(
                        *rule,
                        ws,
                    ) ==> widths::in_domain(ws, 2, widths::side(2)),
            decreases 513 - b,
        {
            let ws: Vec<u16> = vec![a, b];
            let outside = a > 64 || b > 64;
            if outside && admits(rule, &ws) {
                proof {
                    assert(ws@[0] == a && ws@[1] == b);
                    assert(widths::in_domain(ws@, 2, 512));
                    assert(!widths::in_domain(ws@, 2, widths::side(2)));
                }
                return false;
            }
            proof {
                assert forall|v: Seq<u16>|
                    widths::in_domain(v, 2, 512) && v[0] == a && v[1] < b + 1 && #[trigger] admitted(
                        *rule,
                        v,
                    ) implies widths::in_domain(v, 2, widths::side(2)) by {
                    if v[1] == b {
                        assert(v =~= ws@);
                    }
                }
            }
            b = b + 1;
        }
        a = a + 1;
    }
    true
}

/// Checks every assignment that is small enough at every tuple: the first counterexample, if
/// any, and whether no assignment was left out.
fn exhaustive(rule: &Rule, cfg: &CheckConfig, all: &Vec<Vec<u16>>, ev: &mut Evidence) -> (out: (
    Option<Counterexample>,
    bool,
))
    requires
        meaning::rule_ok(*rule),
        *old(ev) == (Evidence { exhaustive_instances: 0, exhaustive_fired: 0, ..*old(ev) }),
    ensures
        final(ev).sampled_fired == old(ev).sampled_fired,
        final(ev).sampled_cases == old(ev).sampled_cases,
        final(ev).sampled_instances == old(ev).sampled_instances,
        old(ev).exhaustive_fired <= old(ev).exhaustive_cases ==> final(ev).exhaustive_fired
            <= final(ev).exhaustive_cases,
        out.0 matches Some(c) ==> c.refutes(*rule) && first_at(*rule, *cfg, all@, c.ws()),
        out.0 is None ==> (out.1 <==> forall|k: int|
            0 <= k < all@.len() && admitted(*rule, (#[trigger] all@[k])@) ==> small(
                *rule,
                *cfg,
                all@[k]@,
            )),
        out.0 is None ==> forall|k: int|
            0 <= k < all@.len() && admitted(*rule, (#[trigger] all@[k])@) && (out.1 || small(
                *rule,
                *cfg,
                all@[k]@,
            )) ==> agrees(*rule, all@[k]@),
        out.0 is None ==> (final(ev).exhaustive_instances > 0 <==> exists|k: int|
            0 <= k < all@.len() && admitted(*rule, (#[trigger] all@[k])@) && small(
                *rule,
                *cfg,
                all@[k]@,
            )),
        out.0 is None ==> (final(ev).exhaustive_fired > 0 <==> exists|k: int|
            0 <= k < all@.len() && admitted(*rule, (#[trigger] all@[k])@) && small(
                *rule,
                *cfg,
                all@[k]@,
            ) && tuples::fires(*rule, all@[k]@)),
{
    let mut whole = true;
    let most: usize = if cfg.max_exhaustive_bits < 40 {
        cfg.max_exhaustive_bits as usize
    } else {
        40
    };
    let mut i: usize = 0;
    while i < all.len()
        invariant
            i <= all@.len(),
            meaning::rule_ok(*rule),
            most == most_bits(*cfg),
            ev.sampled_fired == old(ev).sampled_fired,
            ev.sampled_cases == old(ev).sampled_cases,
            ev.sampled_instances == old(ev).sampled_instances,
            old(ev).exhaustive_fired <= old(ev).exhaustive_cases ==> ev.exhaustive_fired
                <= ev.exhaustive_cases,
            whole <==> forall|k: int|
                0 <= k < i && admitted(*rule, (#[trigger] all@[k])@) ==> small(
                    *rule,
                    *cfg,
                    all@[k]@,
                ),
            forall|k: int|
                0 <= k < i && admitted(*rule, (#[trigger] all@[k])@) && (whole || small(
                    *rule,
                    *cfg,
                    all@[k]@,
                )) ==> agrees(*rule, all@[k]@),
            ev.exhaustive_instances > 0 <==> exists|k: int|
                0 <= k < i && admitted(*rule, (#[trigger] all@[k])@) && small(
                    *rule,
                    *cfg,
                    all@[k]@,
                ),
            ev.exhaustive_fired > 0 <==> exists|k: int|
                0 <= k < i && admitted(*rule, (#[trigger] all@[k])@) && small(
                    *rule,
                    *cfg,
                    all@[k]@,
                ) && tuples::fires(*rule, all@[k]@),
        decreases all@.len() - i,
    {
        let ws = &all[i];
        assert(*ws == all@[i as int]);
        if !admits(rule, ws) {
            i = i + 1;
            continue;
        }
        if !all_within(ws, cfg.max_exhaustive_width) {
            assert(!small(*rule, *cfg, ws@));
            whole = false;
            i = i + 1;
            continue;
        }
        let pw = match param_widths(rule, ws) {
            Some(pw) => pw,
            None => {
                assert(!small(*rule, *cfg, ws@));
                whole = false;
                i = i + 1;
                continue;
            },
        };
        proof {
            assert forall|j: int| #![trigger pw@[j]] 0 <= j < pw@.len() implies pw@[j] <= MAX_WIDTH by {}
            assert forall|q: Seq<usize>| #[trigger] tuples::pw_of(q, *rule, ws@) implies q == pw@ by {
                lemma_one_pw(*rule, ws@, q, pw@);
            }
        }
        let width = match sum_within(&pw, most) {
            Some(s) => s,
            None => {
                assert(!small(*rule, *cfg, ws@));
                whole = false;
                i = i + 1;
                continue;
            },
        };
        assert(small(*rule, *cfg, ws@));
        if ev.exhaustive_instances < u32::MAX {
            ev.exhaustive_instances = ev.exhaustive_instances + 1;
        }
        let m = widest(rule, ws);
        if m > ev.exhaustive_max_width {
            ev.exhaustive_max_width = m;
        }
        if let Some(c) = exhaust(rule, ws, &pw, width, ev) {
            assert(first_at(*rule, *cfg, all@, all@[i as int]@));
            return (Some(c), false);
        }
        assert(agrees(*rule, ws@));
        i = i + 1;
    }
    (None, whole)
}

/// From place `i` on, `a` comes before `b` in the order of words.
pub open spec fn comes_before(a: Seq<u16>, b: Seq<u16>, i: int) -> bool
    decreases a.len() - i,
{
    if i < a.len() && i < b.len() {
        if a[i] != b[i] {
            a[i] < b[i]
        } else {
            comes_before(a, b, i + 1)
        }
    } else {
        a.len() < b.len()
    }
}

proof fn lemma_neither_before(a: Seq<u16>, b: Seq<u16>, i: int)
    requires
        0 <= i <= a.len(),
        i <= b.len(),
        forall|j: int| 0 <= j < i ==> a[j] == b[j],
        !comes_before(a, b, i),
        !comes_before(b, a, i),
    ensures
        a == b,
    decreases a.len() - i,
{
    if i < a.len() && i < b.len() {
        assert(a[i] == b[i]);
        lemma_neither_before(a, b, i + 1);
    } else {
        assert(a =~= b);
    }
}

/// Whether `a` comes before `b`.
fn before(a: &Vec<u16>, b: &Vec<u16>) -> (r: bool)
    ensures
        r == comes_before(a@, b@, 0),
{
    let mut i: usize = 0;
    while i < a.len() && i < b.len()
        invariant
            i <= a@.len(),
            i <= b@.len(),
            comes_before(a@, b@, 0) == comes_before(a@, b@, i as int),
        decreases a@.len() - i,
    {
        if a[i] != b[i] {
            return a[i] < b[i];
        }
        i = i + 1;
    }
    a.len() < b.len()
}

/// Puts an assignment where it belongs among sorted ones, unless it is there.
fn put(picks: &mut Vec<Vec<u16>>, ws: Vec<u16>)
    ensures
        final(picks)@.len() <= old(picks)@.len() + 1,
        forall|v: Seq<u16>| #[trigger]
            widths::listed(final(picks)@, v) <==> widths::listed(old(picks)@, v) || v == ws@,
{
    let mut i: usize = 0;
    while i < picks.len() && before(&picks[i], &ws)
        invariant
            i <= picks@.len(),
            picks@ == old(picks)@,
        decreases picks@.len() - i,
    {
        i = i + 1;
    }
    if i < picks.len() && !before(&ws, &picks[i]) {
        proof {
            lemma_neither_before(picks@[i as int]@, ws@, 0);
            assert(widths::listed(picks@, ws@));
        }
        return;
    }
    let ghost was = picks@;
    picks.insert(i, ws);
    proof {
        assert(picks@[i as int] == ws);
        assert forall|v: Seq<u16>| #[trigger] widths::listed(picks@, v) == (widths::listed(was, v)
            || v == ws@) by {
            if widths::listed(was, v) {
                let k = choose|k: int| 0 <= k < was.len() && (#[trigger] was[k])@ == v;
                if k < i {
                    assert(picks@[k] == was[k]);
                } else {
                    assert(picks@[k + 1] == was[k]);
                }
            }
            if widths::listed(picks@, v) {
                let k = choose|k: int| 0 <= k < picks@.len() && (#[trigger] picks@[k])@ == v;
                if k < i {
                    assert(picks@[k] == was[k]);
                } else if k > i {
                    assert(picks@[k] == was[k - 1]);
                }
            }
        }
    }
}

/// Whether a width is listed.
fn has(list: &Vec<u16>, w: u16) -> (r: bool)
    ensures
        r == list@.contains(w),
{
    let mut i: usize = 0;
    while i < list.len()
        invariant
            i <= list@.len(),
            forall|j: int| 0 <= j < i ==> list@[j] != w,
        decreases list@.len() - i,
    {
        if list[i] == w {
            return true;
        }
        i = i + 1;
    }
    false
}

/// Copies an assignment.
fn dup(ws: &Vec<u16>) -> (r: Vec<u16>)
    ensures
        r@ == ws@,
{
    let mut r: Vec<u16> = Vec::with_capacity(ws.len());
    let mut i: usize = 0;
    while i < ws.len()
        invariant
            i <= ws@.len(),
            r@ == ws@.take(i as int),
        decreases ws@.len() - i,
    {
        r.push(ws[i]);
        i = i + 1;
        assert(r@ =~= ws@.take(i as int));
    }
    assert(r@ =~= ws@);
    r
}

/// Some assignment gives the first variable width `w`.
pub open spec fn starts(list: Seq<Vec<u16>>, w: u16) -> bool {
    exists|v: Seq<u16>| #[trigger] widths::listed(list, v) && v.len() > 0 && v[0] == w
}

/// The assignments that are sampled, sorted.
fn picks(rule: &Rule, cfg: &CheckConfig, all: &Vec<Vec<u16>>, rng: &mut Rng) -> (r: Vec<Vec<u16>>)
    requires
        meaning::rule_ok(*rule),
    ensures
        // Every listed width is the first variable's somewhere.
        rule.width_vars@.len() == 0 ==> r@.len() == 1 && r@[0]@ == Seq::<u16>::empty(),
        rule.width_vars@.len() > 0 ==> forall|a: int|
            0 <= a < cfg.sample_widths@.len() ==> starts(r@, #[trigger] cfg.sample_widths@[a]),
        rule.width_vars@.len() == 1 ==> forall|a: int|
            0 <= a < cfg.sample_widths@.len() ==> widths::listed(
                r@,
                seq![#[trigger] cfg.sample_widths@[a]],
            ),
        final(rng).state == crate::eval::advanced(old(rng).state, pick_steps(*rule, *cfg)),
        rule.width_vars@.len() > 0 ==> forall|a: int, t: int|
            0 <= a < cfg.sample_widths@.len() && 0 <= t < 3 ==> widths::listed(
                r@,
                #[trigger] picked(*rule, *cfg, old(rng).state, a, t),
            ),
{
    let n: usize = rule.width_vars.len();
    let ghost s0 = rng.state;
    let ghost per = (n - 1) as int;
    let mut out: Vec<Vec<u16>> = Vec::new();
    if n == 0 {
        out.push(Vec::new());
        return out;
    }
    let list = &cfg.sample_widths;
    let mut count: usize = 0;
    proof {
        assert(3 * 0 * per == 0) by (nonlinear_arith);
    }
    // Each list width for the first variable; the others at random list widths.
    let mut a: usize = 0;
    while a < list.len()
        invariant
            a <= list@.len(),
            count <= 400,
            *list == cfg.sample_widths,
            n >= 1,
            n == rule.width_vars@.len(),
            per == n - 1,
            rng.state == crate::eval::advanced(s0, (3 * a * per) as nat),
            forall|b: int, u: int|
                0 <= b < a && 0 <= u < 3 ==> widths::listed(
                    out@,
                    #[trigger] picked(*rule, *cfg, s0, b, u),
                ),
            forall|b: int| 0 <= b < a ==> starts(out@, #[trigger] list@[b]),
            n == 1 ==> forall|b: int|
                0 <= b < a ==> widths::listed(out@, seq![#[trigger] list@[b]]),
        decreases list@.len() - a,
    {
        let mut t: usize = 0;
        while t < 3
            invariant
                a < list@.len(),
                count <= 400,
                *list == cfg.sample_widths,
                n >= 1,
                t <= 3,
                n == rule.width_vars@.len(),
                per == n - 1,
                forall|b: int, u: int|
                    0 <= u < 3 && (0 <= b < a || (b == a && u < t)) ==> widths::listed(
                        out@,
                        #[trigger] picked(*rule, *cfg, s0, b, u),
                    ),
                rng.state == crate::eval::advanced(s0, ((3 * a + t) * per) as nat),
                forall|b: int| 0 <= b < a ==> starts(out@, #[trigger] list@[b]),
                n == 1 ==> forall|b: int|
                    0 <= b < a ==> widths::listed(out@, seq![#[trigger] list@[b]]),
                t > 0 ==> starts(out@, list@[a as int]) && (n == 1 ==> widths::listed(
                    out@,
                    seq![list@[a as int]],
                )),
            decreases 3 - t,
        {
            proof {
                assert((3 * a + t) * per >= 0) by (nonlinear_arith)
                    requires
                        per >= 0,
                        a >= 0,
                        t >= 0,
                ;
            }
            let mut ws: Vec<u16> = Vec::with_capacity(n);
            ws.push(list[a]);
            let mut v: usize = 1;
            while v < n
                invariant
                    list@.len() > 0,
                    a < list@.len(),
                    ws@.len() == v,
                    ws@[0] == list@[a as int],
                    1 <= v <= n,
                    n == 1 ==> v == 1,
                    n == rule.width_vars@.len(),
                    *list == cfg.sample_widths,
                    forall|q: int|
                        0 <= q < v ==> #[trigger] ws@[q] == picked(
                            *rule,
                            *cfg,
                            s0,
                            a as int,
                            t as int,
                        )[q],
                    per == n - 1,
                    (3 * a + t) * per >= 0,
                    rng.state == crate::eval::advanced(
                        s0,
                        ((3 * a + t) * per + (v - 1)) as nat,
                    ),
                decreases n - v,
            {
                proof {
                    crate::eval::lemma_advanced_twice(
                        s0,
                        ((3 * a + t) * per + (v - 1)) as nat,
                        1,
                    );
                }
                let i: usize = rng.below(list.len() as u64) as usize;
                ws.push(list[i]);
                v = v + 1;
            }
            let ghost out0 = out@;
            let ghost made = ws@;
            put(&mut out, ws);
            proof {
                assert(made =~= picked(*rule, *cfg, s0, a as int, t as int));
                assert forall|b: int, u: int|
                    0 <= u < 3 && (0 <= b < a || (b == a && u < t + 1)) implies widths::listed(
                    out@,
                    #[trigger] picked(*rule, *cfg, s0, b, u),
                ) by {
                    if !(b == a && u == t) {
                        assert(widths::listed(out0, picked(*rule, *cfg, s0, b, u)));
                    }
                }
                assert(widths::listed(out@, made));
                assert(starts(out@, list@[a as int]));
                if n == 1 {
                    assert(made =~= seq![list@[a as int]]);
                }
                assert forall|b: int| 0 <= b < a implies starts(out@, #[trigger] list@[b]) by {
                    lemma_starts(out0, out@, list@[b]);
                }
            }
            count = if count < 400 {
                count + 1
            } else {
                400
            };
            proof {
                assert((3 * a + t) * per + per == (3 * a + (t + 1)) * per) by (nonlinear_arith);
            }
            t = t + 1;
        }
        proof {
            assert(3 * a + 3 == 3 * (a + 1));
        }
        a = a + 1;
    }
    // Also the admitted assignments nearest to the constraints' boundaries: those whose first
    // width is in the list.
    let mut k: usize = 0;
    while k < all.len() && count < 400
        invariant
            k <= all@.len(),
            count <= 400,
            meaning::rule_ok(*rule),
            forall|b: int| 0 <= b < list@.len() ==> starts(out@, #[trigger] list@[b]),
            rng.state == crate::eval::advanced(s0, (3 * list@.len() * per) as nat),
            forall|b: int, u: int|
                0 <= b < list@.len() && 0 <= u < 3 ==> widths::listed(
                    out@,
                    #[trigger] picked(*rule, *cfg, s0, b, u),
                ),
            n == 1 ==> forall|b: int|
                0 <= b < list@.len() ==> widths::listed(out@, seq![#[trigger] list@[b]]),
        decreases all@.len() - k,
    {
        let ws = &all[k];
        if ws.len() > 0 && has(list, ws[0]) && admits(rule, ws) {
            let ghost out0 = out@;
            put(&mut out, dup(ws));
            proof {
                assert forall|b: int, u: int| 0 <= b < list@.len() && 0 <= u < 3 implies widths::listed(
                    out@,
                    #[trigger] picked(*rule, *cfg, s0, b, u),
                ) by {
                    assert(widths::listed(out0, picked(*rule, *cfg, s0, b, u)));
                }
                assert forall|b: int| 0 <= b < list@.len() implies starts(
                    out@,
                    #[trigger] list@[b],
                ) by {
                    lemma_starts(out0, out@, list@[b]);
                }
            }
            count = count + 1;
        }
        k = k + 1;
    }
    out
}

proof fn lemma_starts(a: Seq<Vec<u16>>, b: Seq<Vec<u16>>, w: u16)
    requires
        starts(a, w),
        forall|v: Seq<u16>| #[trigger] widths::listed(a, v) ==> widths::listed(b, v),
    ensures
        starts(b, w),
{
    let v = choose|v: Seq<u16>| #[trigger] widths::listed(a, v) && v.len() > 0 && v[0] == w;
    assert(widths::listed(b, v));
}

/// Random values of the parameters.
fn values_of(pw: &Vec<usize>, rng: &mut Rng) -> (r: Vec<BitVec>)
    requires
        forall|i: int| #![trigger pw@[i]] 0 <= i < pw@.len() ==> 1 <= pw@[i] <= MAX_WIDTH,
    ensures
        tuples::sized(eval::views(r@), pw@),
        eval::views(r@) == random::values_from(old(rng).state, pw@),
        final(rng).state == random::state_after(old(rng).state, pw@),
{
    let mut r: Vec<BitVec> = Vec::with_capacity(pw.len());
    let ghost s = rng.state;
    proof {
        assert(pw@.take(0) =~= Seq::<usize>::empty());
        assert(eval::views(r@) =~= Seq::<Seq<bool>>::empty());
    }
    let mut i: usize = 0;
    while i < pw.len()
        invariant
            i <= pw@.len(),
            eval::views(r@) == random::values_from(s, pw@.take(i as int)),
            rng.state == random::state_after(s, pw@.take(i as int)),
            r@.len() == i,
            forall|j: int| #![trigger pw@[j]] 0 <= j < pw@.len() ==> 1 <= pw@[j] <= MAX_WIDTH,
            forall|j: int| #![trigger r@[j]] 0 <= j < i ==> r@[j]@.len() == pw@[j],
        decreases pw@.len() - i,
    {
        proof {
            let _ = pw@[i as int];
        }
        let v = biased(rng, Width { bits: pw[i] as u16 });
        proof {
            let t = pw@.take(i + 1);
            assert(t.drop_last() =~= pw@.take(i as int));
            assert(t.last() == pw@[i as int]);
            assert(eval::views(r@.push(v)) =~= eval::views(r@).push(v@));
        }
        r.push(v);
        i = i + 1;
    }
    proof {
        assert(pw@.take(i as int) =~= pw@);
        let v = eval::views(r@);
        assert forall|j: int| #![trigger v[j]] 0 <= j < v.len() implies v[j].len() == pw@[j] by {
            let _ = r@[j];
        }
    }
    r
}

/// At these widths the sides agree at each of these tuples.
pub open spec fn tried(r: Rule, ws: Seq<u16>, ts: Seq<Seq<Seq<bool>>>) -> bool {
    forall|i: int|
        #![trigger ts[i]]
        0 <= i < ts.len() ==> meaning::params_fit(r, ws, ts[i]) && meaning::sides_agree(r, ws, ts[i])
}

/// How many of these tuples the guard holds at.
pub open spec fn fired_in(r: Rule, ws: Seq<u16>, ts: Seq<Seq<Seq<bool>>>) -> nat
    decreases ts.len(),
{
    if ts.len() == 0 {
        0
    } else {
        fired_in(r, ws, ts.drop_last()) + if meaning::guard_true(r, ws, ts.last()) {
            1nat
        } else {
            0nat
        }
    }
}

/// Sample `k` at these widths: the values drawn from state `s`, which leave state `e`; of a rule
/// with a guard every other one is then steered toward it.
pub open spec fn sample_ok(
    r: Rule,
    ws: Seq<u16>,
    pw: Seq<usize>,
    k: int,
    s: u64,
    t: Seq<Seq<bool>>,
    e: u64,
) -> bool {
    let base = random::values_from(s, pw);
    let mid = random::state_after(s, pw);
    match r.guard {
        Some(g) if k % 2 == 1 => {
            let list = steering::joined(r, g as int) + steering::joined(r, g as int);
            steering::steered(r, ws, list, base, t) && random::stepped(mid, e, 2 * list.len())
        },
        _ => t == base && e == mid,
    }
}

/// The samples are drawn in a row, from the first of these states to the last.
pub open spec fn in_a_row(
    r: Rule,
    ws: Seq<u16>,
    pw: Seq<usize>,
    ts: Seq<Seq<Seq<bool>>>,
    ss: Seq<u64>,
) -> bool {
    &&& ss.len() == ts.len() + 1
    &&& forall|k: int|
        #![trigger ts[k]]
        0 <= k < ts.len() ==> sample_ok(r, ws, pw, k, ss[k], ts[k], ss[k + 1])
}

/// As many samples as asked for were drawn at these widths, from state `s` to state `e`, and the
/// sides agreed at each.
pub open spec fn passed_from(r: Rule, cfg: CheckConfig, ws: Seq<u16>, s: u64, e: u64) -> bool {
    exists|pw: Seq<usize>, ts: Seq<Seq<Seq<bool>>>, ss: Seq<u64>| #[trigger]
        in_a_row(r, ws, pw, ts, ss) && tuples::pw_of(pw, r, ws) && tried(r, ws, ts) && ts.len()
            == cfg.samples && ss[0] == s && ss.last() == e
}

/// How many numbers the choice of the widths takes.
pub open spec fn pick_steps(r: Rule, cfg: CheckConfig) -> nat {
    if r.width_vars@.len() == 0 {
        0
    } else {
        (3 * cfg.sample_widths@.len() * (r.width_vars@.len() - 1)) as nat
    }
}

/// What was sampled: at each of the assignments listed that are admitted, in a row.
pub open spec fn session(r: Rule, cfg: CheckConfig, list: Seq<Seq<u16>>, ss: Seq<u64>) -> bool {
    &&& ss.len() == list.len() + 1
    &&& ss[0] == crate::eval::advanced(cfg.seed ^ r.id.hi, pick_steps(r, cfg))
    &&& forall|i: int|
        #![trigger list[i]]
        0 <= i < list.len() ==> if admitted(r, list[i]) && has_widths(r, list[i]) {
            passed_from(r, cfg, list[i], ss[i], ss[i + 1])
        } else {
            ss[i + 1] == ss[i]
        }
    &&& forall|ws: Seq<u16>| #[trigger] sampled_at(r, cfg, ws) ==> list.contains(ws)
    &&& r.width_vars@.len() > 0 ==> forall|a: int|
        0 <= a < cfg.sample_widths@.len() ==> begins(list, #[trigger] cfg.sample_widths@[a])
    &&& r.width_vars@.len() > 0 ==> forall|a: int, t: int|
        0 <= a < cfg.sample_widths@.len() && 0 <= t < 3 ==> list.contains(
            #[trigger] picked(r, cfg, cfg.seed ^ r.id.hi, a, t),
        )
}

/// An assignment that is sampled: a listed width for the first variable, drawn ones for the others.
pub open spec fn picked(r: Rule, cfg: CheckConfig, s: u64, a: int, t: int) -> Seq<u16> {
    let n = r.width_vars@.len();
    let list = cfg.sample_widths@;
    Seq::new(
        n,
        |v: int|
            if v == 0 {
                list[a]
            } else {
                list[random::drawn(s, ((3 * a + t) * (n - 1) + v) as nat) as int % (
                list.len() as int)]
            },
    )
}

/// Some assignment listed begins with the width.
pub open spec fn begins(list: Seq<Seq<u16>>, w: u16) -> bool {
    exists|i: int| 0 <= i < list.len() && (#[trigger] list[i]).len() > 0 && list[i][0] == w
}

/// The sides agree at each of the first `n` tuples drawn in a row from state `s`.
pub open spec fn stands_in_a_row(r: Rule, ws: Seq<u16>, s: u64, pw: Seq<usize>, n: nat) -> bool {
    forall|k: nat|
        k < n ==> meaning::sides_agree(
            r,
            ws,
            #[trigger] random::values_from(random::nth_state(s, pw, k), pw),
        )
}

/// A rule without a guard that is not refuted stands at as many tuples as were asked for, drawn in
/// a row over the whole width of its parameters, at every width that is always sampled.
pub proof fn law_unrefuted_rules_stand_at_what_is_drawn(
    c: RuleCheck,
    r: Rule,
    cfg: CheckConfig,
    ws: Seq<u16>,
)
    requires
        check_ok(c, r, cfg),
        !(c.verdict is Unsound),
        c.evidence.sampled_instances < u32::MAX,
        r.guard is None,
        sampled_at(r, cfg, ws),
    ensures
        exists|s: u64, pw: Seq<usize>| #[trigger]
            stands_in_a_row(r, ws, s, pw, cfg.samples as nat) && tuples::pw_of(pw, r, ws),
{
    let (list, ss) = choose|list: Seq<Seq<u16>>, ss: Seq<u64>| #[trigger] session(r, cfg, list, ss);
    let i = choose|i: int| 0 <= i < list.len() && list[i] == ws;
    let (s, e) = (ss[i], ss[i + 1]);
    assert(passed_from(r, cfg, ws, s, e)) by {
        let _ = list[i];
    }
    let (pw, ts, rs) = choose|pw: Seq<usize>, ts: Seq<Seq<Seq<bool>>>, rs: Seq<u64>| #[trigger]
        in_a_row(r, ws, pw, ts, rs) && tuples::pw_of(pw, r, ws) && tried(r, ws, ts) && ts.len()
            == cfg.samples && rs[0] == s && rs.last() == e;
    assert forall|k: nat| k < cfg.samples implies meaning::sides_agree(
        r,
        ws,
        #[trigger] random::values_from(random::nth_state(s, pw, k), pw),
    ) by {
        lemma_row(r, ws, pw, ts, rs, k);
        let _ = ts[k as int];
    }
    assert(stands_in_a_row(r, ws, s, pw, cfg.samples as nat));
}

proof fn lemma_row(
    r: Rule,
    ws: Seq<u16>,
    pw: Seq<usize>,
    ts: Seq<Seq<Seq<bool>>>,
    ss: Seq<u64>,
    k: nat,
)
    requires
        r.guard is None,
        in_a_row(r, ws, pw, ts, ss),
        k <= ts.len(),
    ensures
        ss[k as int] == random::nth_state(ss[0], pw, k),
        k < ts.len() ==> ts[k as int] == random::values_from(ss[k as int], pw),
    decreases k,
{
    if k > 0 {
        lemma_row(r, ws, pw, ts, ss, (k - 1) as nat);
        let _ = ts[k - 1];
    }
    if k < ts.len() {
        let _ = ts[k as int];
    }
}

/// So many tuples were tried at these widths, and the sides agreed at each.
pub open spec fn stood(r: Rule, ws: Seq<u16>, n: int) -> bool {
    exists|ts: Seq<Seq<Seq<bool>>>| #[trigger] tried(r, ws, ts) && ts.len() == n
}

/// Checks random tuples at one assignment: the first counterexample, if any.
fn sample_at(
    rule: &Rule,
    cfg: &CheckConfig,
    ws: &Vec<u16>,
    pw: &Vec<usize>,
    rng: &mut Rng,
    ev: &mut Evidence,
) -> (out: Option<Counterexample>)
    requires
        meaning::rule_ok(*rule),
        admitted(*rule, ws@),
        tuples::pw_of(pw@, *rule, ws@),
    ensures
        out matches Some(c) ==> c.refutes(*rule),
        *final(ev) == (Evidence {
            sampled_cases: final(ev).sampled_cases,
            sampled_fired: final(ev).sampled_fired,
            ..*old(ev)
        }),
        final(ev).sampled_fired > 0 ==> old(ev).sampled_fired > 0 || tuples::fires(*rule, ws@),
        old(ev).sampled_fired <= old(ev).sampled_cases ==> final(ev).sampled_fired
            <= final(ev).sampled_cases,
        out is None && old(ev).sampled_cases + cfg.samples <= u64::MAX ==> final(ev).sampled_cases
            == old(ev).sampled_cases + cfg.samples,
        // The cases are tuples at which the sides agree, and those that fired are counted.
        out is None ==> exists|ts: Seq<Seq<Seq<bool>>>| #[trigger]
            tried(*rule, ws@, ts) && ts.len() == cfg.samples && (old(ev).sampled_fired + cfg.samples
                <= u64::MAX ==> final(ev).sampled_fired == old(ev).sampled_fired + fired_in(
                *rule,
                ws@,
                ts,
            )),
        // They are drawn in a row.
        out is None ==> passed_from(*rule, *cfg, ws@, old(rng).state, final(rng).state),
{
    let ghost mut ts: Seq<Seq<Seq<bool>>> = Seq::empty();
    let ghost mut ss: Seq<u64> = seq![rng.state];
    let mut k: u32 = 0;
    while k < cfg.samples
        invariant
            meaning::rule_ok(*rule),
            admitted(*rule, ws@),
            tuples::pw_of(pw@, *rule, ws@),
            *ev == (Evidence {
                sampled_cases: ev.sampled_cases,
                sampled_fired: ev.sampled_fired,
                ..*old(ev)
            }),
            ev.sampled_fired > 0 ==> old(ev).sampled_fired > 0 || tuples::fires(*rule, ws@),
            old(ev).sampled_fired <= old(ev).sampled_cases ==> ev.sampled_fired
                <= ev.sampled_cases,
            k <= cfg.samples,
            old(ev).sampled_cases + cfg.samples <= u64::MAX ==> ev.sampled_cases
                == old(ev).sampled_cases + k,
            ts.len() == k,
            in_a_row(*rule, ws@, pw@, ts, ss),
            ss[0] == old(rng).state,
            ss.last() == rng.state,
            tried(*rule, ws@, ts),
            fired_in(*rule, ws@, ts) <= k,
            old(ev).sampled_fired + cfg.samples <= u64::MAX ==> ev.sampled_fired
                == old(ev).sampled_fired + fired_in(*rule, ws@, ts),
        decreases cfg.samples - k,
    {
        let mut ps = values_of(pw, rng);
        proof {
            tuples::lemma_fit(*rule, ws@, pw@, eval::views(ps@));
            assert forall|i: int|
                #![trigger ps@[i]]
                0 <= i < ps@.len() implies 1 <= ps@[i]@.len() <= MAX_WIDTH by {
                assert(eval::views(ps@)[i].len() == pw@[i]);
            }
        }
        let ghost base = eval::views(ps@);
        let ghost mid = rng.state;
        if k % 2 == 1 {
            steer(rule, ws, &mut ps, rng);
        }
        ev.sampled_cases = bump(ev.sampled_cases);
        match check_case(rule, ws, &ps) {
            Case::Agree(fired) => {
                if fired {
                    proof {
                        assert(meaning::params_fit(*rule, ws@, eval::views(ps@)));
                    }
                    ev.sampled_fired = bump(ev.sampled_fired);
                }
                proof {
                    let ts0 = ts;
                    ts = ts0.push(eval::views(ps@));
                    assert(ts.drop_last() =~= ts0);
                    assert(ts.last() == eval::views(ps@));
                    let ss0 = ss;
                    ss = ss0.push(rng.state);
                    assert(ts[k as int] == eval::views(ps@));
                    assert(sample_ok(*rule, ws@, pw@, k as int, ss0[k as int], ts[k as int], ss[k + 1]));
                    assert forall|j: int| #![trigger ts[j]] 0 <= j < ts.len() implies sample_ok(
                        *rule,
                        ws@,
                        pw@,
                        j,
                        ss[j],
                        ts[j],
                        ss[j + 1],
                    ) by {
                        if j < k {
                            assert(ts[j] == ts0[j]);
                            assert(ss[j] == ss0[j] && ss[j + 1] == ss0[j + 1]);
                        }
                    }
                }
            },
            Case::Differ(l, r) => {
                return Some(counterexample(rule, ws, ps, l, r));
            },
        }
        k = k + 1;
    }
    None
}

/// The parameters have widths at this assignment.
pub open spec fn has_widths(r: Rule, ws: Seq<u16>) -> bool {
    exists|pw: Seq<usize>| #[trigger] tuples::pw_of(pw, r, ws)
}

/// An assignment that is always sampled: of a rule with at most one width variable, at a listed
/// width.
pub open spec fn sampled_at(r: Rule, cfg: CheckConfig, ws: Seq<u16>) -> bool {
    &&& ws.len() == r.width_vars@.len() <= 1
    &&& ws.len() == 1 ==> exists|a: int|
        0 <= a < cfg.sample_widths@.len() && ws == seq![#[trigger] cfg.sample_widths@[a]]
    &&& admitted(r, ws)
    &&& has_widths(r, ws)
}

proof fn lemma_session(r: Rule, cfg: CheckConfig, list: Seq<Vec<u16>>, ss: Seq<u64>)
    requires
        ss.len() == list.len() + 1,
        ss[0] == crate::eval::advanced(cfg.seed ^ r.id.hi, pick_steps(r, cfg)),
        forall|k: int|
            #![trigger list[k]]
            0 <= k < list.len() ==> if admitted(r, list[k]@) && has_widths(r, list[k]@) {
                passed_from(r, cfg, list[k]@, ss[k], ss[k + 1])
            } else {
                ss[k + 1] == ss[k]
            },
        r.width_vars@.len() == 0 ==> list.len() == 1 && list[0]@ == Seq::<u16>::empty(),
        r.width_vars@.len() > 0 ==> forall|a: int|
            0 <= a < cfg.sample_widths@.len() ==> starts(list, #[trigger] cfg.sample_widths@[a]),
        r.width_vars@.len() == 1 ==> forall|a: int|
            0 <= a < cfg.sample_widths@.len() ==> widths::listed(
                list,
                seq![#[trigger] cfg.sample_widths@[a]],
            ),
        r.width_vars@.len() > 0 ==> forall|a: int, t: int|
            0 <= a < cfg.sample_widths@.len() && 0 <= t < 3 ==> widths::listed(
                list,
                #[trigger] picked(r, cfg, cfg.seed ^ r.id.hi, a, t),
            ),
    ensures
        exists|l: Seq<Seq<u16>>, s: Seq<u64>| #[trigger] session(r, cfg, l, s),
{
    let l = Seq::new(list.len(), |k: int| list[k]@);
    assert forall|i: int| #![trigger l[i]] 0 <= i < l.len() implies if admitted(r, l[i])
        && has_widths(r, l[i]) {
        passed_from(r, cfg, l[i], ss[i], ss[i + 1])
    } else {
        ss[i + 1] == ss[i]
    } by {
        let _ = list[i];
    }
    assert forall|ws: Seq<u16>| #[trigger] sampled_at(r, cfg, ws) implies l.contains(ws) by {
        if ws.len() == 0 {
            assert(ws =~= l[0]);
        } else {
            let a = choose|a: int|
                0 <= a < cfg.sample_widths@.len() && ws == seq![#[trigger] cfg.sample_widths@[a]];
            assert(widths::listed(list, seq![cfg.sample_widths@[a]]));
            let k = choose|k: int| 0 <= k < list.len() && (#[trigger] list[k])@ == ws;
            assert(l[k] == ws);
        }
    }
    if r.width_vars@.len() > 0 {
        assert forall|a: int| 0 <= a < cfg.sample_widths@.len() implies begins(
            l,
            #[trigger] cfg.sample_widths@[a],
        ) by {
            let w = cfg.sample_widths@[a];
            assert(starts(list, w));
            let v = choose|v: Seq<u16>| #[trigger]
                widths::listed(list, v) && v.len() > 0 && v[0] == w;
            let k = choose|k: int| 0 <= k < list.len() && (#[trigger] list[k])@ == v;
            assert(l[k] == v);
        }
    }
    if r.width_vars@.len() > 0 {
        assert forall|a: int, t: int| 0 <= a < cfg.sample_widths@.len() && 0 <= t < 3 implies l.contains(
            #[trigger] picked(r, cfg, cfg.seed ^ r.id.hi, a, t),
        ) by {
            let v = picked(r, cfg, cfg.seed ^ r.id.hi, a, t);
            assert(widths::listed(list, v));
            let k = choose|k: int| 0 <= k < list.len() && (#[trigger] list[k])@ == v;
            assert(l[k] == v);
        }
    }
    assert(session(r, cfg, l, ss));
}

/// Checks random tuples at wide assignments: the first counterexample, if any.
fn sampled(rule: &Rule, cfg: &CheckConfig, all: &Vec<Vec<u16>>, ev: &mut Evidence) -> (out: Option<
    Counterexample,
>)
    requires
        meaning::rule_ok(*rule),
    ensures
        out matches Some(c) ==> c.refutes(*rule),
        *final(ev) == (Evidence {
            sampled_instances: final(ev).sampled_instances,
            sampled_cases: final(ev).sampled_cases,
            sampled_fired: final(ev).sampled_fired,
            ..*old(ev)
        }),
        final(ev).sampled_fired > 0 ==> old(ev).sampled_fired > 0 || exists|ws: Seq<u16>| #[trigger]
            admitted(*rule, ws) && tuples::fires(*rule, ws),
        old(ev).sampled_fired <= old(ev).sampled_cases ==> final(ev).sampled_fired
            <= final(ev).sampled_cases,
        out is None && old(ev).sampled_cases == 0 && old(ev).sampled_instances == 0
            ==> final(ev).sampled_cases == final(ev).sampled_instances * cfg.samples,
        out is None ==> (forall|ws: Seq<u16>| #[trigger]
            sampled_at(*rule, *cfg, ws) ==> final(ev).sampled_instances > 0),
        out is None && final(ev).sampled_instances < u32::MAX ==> (forall|ws: Seq<u16>| #[trigger]
            sampled_at(*rule, *cfg, ws) ==> stood(*rule, ws, cfg.samples as int)),
        out is None && final(ev).sampled_instances < u32::MAX ==> exists|
            list: Seq<Seq<u16>>,
            ss: Seq<u64>,
        | #[trigger]
            session(*rule, *cfg, list, ss),
{
    let mut rng = Rng { state: cfg.seed ^ rule.id.hi };
    let list = picks(rule, cfg, all, &mut rng);
    let ghost mut ss: Seq<u64> = seq![rng.state];
    let mut i: usize = 0;
    while i < list.len()
        invariant
            ss.len() == i + 1,
            ss[0] == crate::eval::advanced(cfg.seed ^ rule.id.hi, pick_steps(*rule, *cfg)),
            ss.last() == rng.state,
            forall|k: int|
                #![trigger list@[k]]
                0 <= k < i ==> if admitted(*rule, list@[k]@) && has_widths(*rule, list@[k]@) {
                    passed_from(*rule, *cfg, list@[k]@, ss[k], ss[k + 1])
                } else {
                    ss[k + 1] == ss[k]
                },
            i <= list@.len(),
            meaning::rule_ok(*rule),
            *ev == (Evidence {
                sampled_instances: ev.sampled_instances,
                sampled_cases: ev.sampled_cases,
                sampled_fired: ev.sampled_fired,
                ..*old(ev)
            }),
            ev.sampled_fired > 0 ==> old(ev).sampled_fired > 0 || exists|ws: Seq<u16>| #[trigger]
                admitted(*rule, ws) && tuples::fires(*rule, ws),
            old(ev).sampled_fired <= old(ev).sampled_cases ==> ev.sampled_fired
                <= ev.sampled_cases,
            old(ev).sampled_cases == 0 && old(ev).sampled_instances == 0 ==> ev.sampled_cases
                == ev.sampled_instances * cfg.samples,
            forall|k: int|
                0 <= k < i && admitted(*rule, (#[trigger] list@[k])@) && has_widths(
                    *rule,
                    list@[k]@,
                ) ==> ev.sampled_instances > 0 && stood(*rule, list@[k]@, cfg.samples as int),
        decreases list@.len() - i,
    {
        let ws = &list[i];
        assert(*ws == list@[i as int]);
        if admits(rule, ws) {
            if let Some(pw) = param_widths(rule, ws) {
                let before: u32 = ev.sampled_instances;
                if before == u32::MAX {
                    return None;
                }
                ev.sampled_instances = before + 1;
                proof {
                    assert((before + 1) * cfg.samples == before * cfg.samples + cfg.samples)
                        by (nonlinear_arith);
                    assert((before + 1) * cfg.samples <= 0xffff_ffff * 0xffff_ffff) by (nonlinear_arith)
                        requires
                            before < 0xffff_ffff,
                            cfg.samples <= 0xffff_ffff,
                    ;
                }
                if let Some(c) = sample_at(rule, cfg, ws, &pw, &mut rng, ev) {
                    return Some(c);
                }
            }
        }
        proof {
            let ss0 = ss;
            ss = ss0.push(rng.state);
            assert forall|k: int| #![trigger list@[k]] 0 <= k < i + 1 implies if admitted(
                *rule,
                list@[k]@,
            ) && has_widths(*rule, list@[k]@) {
                passed_from(*rule, *cfg, list@[k]@, ss[k], ss[k + 1])
            } else {
                ss[k + 1] == ss[k]
            } by {
                assert(ss[k] == ss0[k]);
                if k < i {
                    assert(ss[k + 1] == ss0[k + 1]);
                }
            }
        }
        i = i + 1;
    }
    proof {
        lemma_session(*rule, *cfg, list@, ss);
        assert forall|v: Seq<u16>| #[trigger]
            sampled_at(*rule, *cfg, v) implies ev.sampled_instances > 0 && stood(
            *rule,
            v,
            cfg.samples as int,
        ) by {
            if v.len() == 0 {
                assert(v =~= list@[0]@);
                assert(admitted(*rule, list@[0]@));
            } else {
                let a = choose|a: int|
                    0 <= a < cfg.sample_widths@.len() && v == seq![
                        #[trigger] cfg.sample_widths@[a],
                    ];
                assert(widths::listed(list@, seq![cfg.sample_widths@[a]]));
                let k = choose|k: int| 0 <= k < list@.len() && (#[trigger] list@[k])@ == v;
                assert(admitted(*rule, list@[k]@));
            }
        }
    }
    None
}

/// What a check of a rule says.
pub open spec fn check_ok(c: RuleCheck, r: Rule, cfg: CheckConfig) -> bool {
    &&& c.name@ == r.name@
    &&& c.id == r.id
    &&& c.kind == r.kind
    // A counterexample is one.
    &&& c.verdict matches Verdict::Unsound(x) ==> x.refutes(r)
    // It is from the exhaustive tier if that tier has one.
    &&& c.verdict matches Verdict::Unsound(x) ==> covered(r, cfg, x.ws()) || forall|ws: Seq<u16>|
        covered(r, cfg, ws) ==> #[trigger] agrees(r, ws)
    // The guard held in no more cases than were run.
    &&& c.evidence.exhaustive_fired <= c.evidence.exhaustive_cases
    &&& c.evidence.sampled_fired <= c.evidence.sampled_cases
    // Without one, the sides agree at every assignment that is checked exhaustively, the
    // evidence decides, and what it says is so.
    &&& !(c.verdict is Unsound) ==> {
        &&& forall|ws: Seq<u16>| covered(r, cfg, ws) ==> #[trigger] agrees(r, ws)
        &&& verdict::decided(c.evidence, c.verdict)
        &&& c.evidence.exhaustive_instances > 0 <==> exists|ws: Seq<u16>| #[trigger] covered(r, cfg, ws)
        &&& c.evidence.exhaustive_fired > 0 <==> exists|ws: Seq<u16>| #[trigger]
            covered(r, cfg, ws) && tuples::fires(r, ws)
        &&& c.evidence.sampled_fired > 0 ==> exists|ws: Seq<u16>| #[trigger]
            admitted(r, ws) && tuples::fires(r, ws)
        &&& c.evidence.sampled_cases == c.evidence.sampled_instances * cfg.samples
        &&& forall|ws: Seq<u16>| #[trigger]
            sampled_at(r, cfg, ws) ==> c.evidence.sampled_instances > 0
        // There as many tuples as asked for were tried, and the sides agreed at each.
        &&& c.evidence.sampled_instances < u32::MAX ==> forall|ws: Seq<u16>| #[trigger]
            sampled_at(r, cfg, ws) ==> stood(r, ws, cfg.samples as int)
        // They are drawn in a row from the seed, over the whole width of the parameters.
        &&& c.evidence.sampled_instances < u32::MAX ==> exists|
            list: Seq<Seq<u16>>,
            ss: Seq<u64>,
        | #[trigger]
            session(r, cfg, list, ss)
        &&& c.evidence.complete ==> sound_at_widths(r)
        &&& c.evidence.complete <==> r.width_vars@.len() <= 2 && (exists|ws: Seq<u16>| #[trigger]
            covered(r, cfg, ws)) && forall|ws: Seq<u16>|
            widths::in_domain(ws, r.width_vars@.len(), 512) && #[trigger] admitted(r, ws)
                ==> covered(r, cfg, ws)
    }
}

/// Checks one rule.
pub fn check_rule(rule: &Rule, cfg: &CheckConfig) -> (c: RuleCheck)
    requires
        meaning::rule_ok(*rule),
    ensures
        check_ok(c, *rule, *cfg),
{
    let mut ev = Evidence::none();
    let n: usize = rule.width_vars.len();
    let all = width_assignments(n);
    let (found, whole) = exhaustive(rule, cfg, &all, &mut ev);
    // Assignments of three or more widths are enumerated only in part, those of two only where
    // no wider ones are admitted.
    ev.complete = whole && ev.exhaustive_instances > 0 && (n <= 1 || (n == 2 && none_outside(rule)));
    let ghost ev1 = ev;
    let found = match found {
        Some(c) => Some(c),
        None => sampled(rule, cfg, &all, &mut ev),
    };
    let verdict = match found {
        Some(c) => Verdict::Unsound(c),
        None => decide(&ev),
    };
    let c = RuleCheck {
        name: rule.name.as_str().to_string(),
        id: rule.id,
        kind: rule.kind,
        verdict,
        evidence: ev,
        examples: Vec::new(),
    };
    proof {
        if !(c.verdict is Unsound) {
            assert forall|ws: Seq<u16>| covered(*rule, *cfg, ws) implies #[trigger] agrees(*rule, ws) by {
                assert(widths::listed(all@, ws));
                let k = choose|k: int| 0 <= k < all@.len() && (#[trigger] all@[k])@ == ws;
            }
            assert forall|ws: Seq<u16>| #[trigger] covered(*rule, *cfg, ws) implies exists|k: int|
                0 <= k < all@.len() && admitted(*rule, (#[trigger] all@[k])@) && small(
                    *rule,
                    *cfg,
                    all@[k]@,
                ) && all@[k]@ == ws by {
                assert(widths::listed(all@, ws));
                let k = choose|k: int| 0 <= k < all@.len() && (#[trigger] all@[k])@ == ws;
                assert(admitted(*rule, all@[k]@));
            }
            assert forall|k: int|
                0 <= k < all@.len() && admitted(*rule, (#[trigger] all@[k])@) && small(
                    *rule,
                    *cfg,
                    all@[k]@,
                ) implies covered(*rule, *cfg, all@[k]@) by {}
            if exists|ws: Seq<u16>| #[trigger] covered(*rule, *cfg, ws) {
                let ws = choose|ws: Seq<u16>| #[trigger] covered(*rule, *cfg, ws);
                let k = choose|k: int|
                    0 <= k < all@.len() && admitted(*rule, (#[trigger] all@[k])@) && small(
                        *rule,
                        *cfg,
                        all@[k]@,
                    ) && all@[k]@ == ws;
                assert(admitted(*rule, all@[k]@));
            }
            if ev.exhaustive_instances > 0 {
                let k = choose|k: int|
                    0 <= k < all@.len() && admitted(*rule, (#[trigger] all@[k])@) && small(
                        *rule,
                        *cfg,
                        all@[k]@,
                    );
                assert(covered(*rule, *cfg, all@[k]@));
            }
            if exists|ws: Seq<u16>| #[trigger]
                covered(*rule, *cfg, ws) && tuples::fires(*rule, ws) {
                let ws = choose|ws: Seq<u16>| #[trigger]
                    covered(*rule, *cfg, ws) && tuples::fires(*rule, ws);
                let k = choose|k: int|
                    0 <= k < all@.len() && admitted(*rule, (#[trigger] all@[k])@) && small(
                        *rule,
                        *cfg,
                        all@[k]@,
                    ) && all@[k]@ == ws;
                assert(admitted(*rule, all@[k]@));
            }
            if ev.exhaustive_fired > 0 {
                let k = choose|k: int|
                    0 <= k < all@.len() && admitted(*rule, (#[trigger] all@[k])@) && small(
                        *rule,
                        *cfg,
                        all@[k]@,
                    ) && tuples::fires(*rule, all@[k]@);
                assert(covered(*rule, *cfg, all@[k]@));
            }
            if c.evidence.complete {
                assert forall|ws: Seq<u16>|
                    widths::in_domain(ws, n as nat, 512) && #[trigger] admitted(*rule, ws) implies covered(
                    *rule,
                    *cfg,
                    ws,
                ) by {
                    assert(widths::in_domain(ws, n as nat, widths::side(n as nat)));
                    assert(widths::listed(all@, ws));
                    let k = choose|k: int| 0 <= k < all@.len() && (#[trigger] all@[k])@ == ws;
                }
                assert forall|ws: Seq<u16>|
                    admitted(*rule, ws) && widths::in_domain(
                        ws,
                        rule.width_vars@.len(),
                        512,
                    ) implies #[trigger] agrees(*rule, ws) by {
                    assert(covered(*rule, *cfg, ws));
                    assert(widths::listed(all@, ws));
                    let k = choose|k: int| 0 <= k < all@.len() && (#[trigger] all@[k])@ == ws;
                }
            }
        }
    }
    c
}

} // verus!
