//! What rates, shares and the statistics made of them measure.
use crate::micro;
use crate::observe::SpecMetrics;
use crate::perf::{landed, unexpired, Drafts, Window};
use vstd::arithmetic::div_mod::{lemma_fundamental_div_mod, lemma_mod_pos_bound};
use vstd::prelude::*;

verus! {

/// A rate is the count over the time: over that time it makes up the count, but for
/// less than a millionth per second.
pub proof fn a_rate_makes_up_its_count(count: u64, nanos: u64)
    requires
        nanos > 0,
    ensures
        ({
            let r = micro::rate(count as int, nanos as int);
            r < u64::MAX ==> r * nanos <= count * 1_000_000_000 * 1_000_000 < (r + 1) * nanos
        }),
        micro::rate(count as int, 1_000_000_000) == if count > u64::MAX / 1_000_000 {
            u64::MAX as int
        } else {
            count * 1_000_000
        },
{
    let n = count * 1_000_000_000_000_000;
    lemma_quotient(n, nanos as int);
    assert(count * 1_000_000_000_000_000 / 1_000_000_000 == count * 1_000_000);
    let r = n / nanos as int;
    assert(n == count * 1_000_000_000 * 1_000_000);
}

/// A share of a whole, times the whole, makes up the part, but for less than a millionth
/// of the whole; a part that is more than the whole counts as all of it.
pub proof fn a_share_makes_up_its_part(a: u64, b: u64)
    requires
        b > 0,
    ensures
        ({
            let q = micro::ratio(a as int, b as int);
            q < u64::MAX ==> q * b <= a * 1_000_000 < (q + 1) * b
        }),
        a >= b ==> micro::share(a as int, b as int) == 1_000_000,
        a < b ==> {
            let q = micro::share(a as int, b as int);
            q < 1_000_000 && q * b <= a * 1_000_000 < (q + 1) * b
        },
{
    let n = a * 1_000_000;
    lemma_quotient(n, b as int);
    let q = n / b as int;
    if a >= b {
        assert(q >= 1_000_000) by (nonlinear_arith)
            requires
                n == a * 1_000_000,
                a >= b,
                b > 0,
                n < (q + 1) * b,
        ;
    } else {
        assert(q < 1_000_000) by (nonlinear_arith)
            requires
                n == a * 1_000_000,
                a < b,
                b > 0,
                q * b <= n,
        ;
    }
}

/// `a * b / c` times `c` makes up the product, but for less than `c`.
pub proof fn a_scaled_number_keeps_its_proportion(a: u64, b: u64, c: u64)
    requires
        c > 0,
    ensures
        ({
            let q = micro::scaled(a as int, b as int, c as int);
            q < u64::MAX ==> q * c <= a * b < (q + 1) * c
        }),
{
    assert(a * b >= 0) by (nonlinear_arith)
        requires
            a >= 0,
            b >= 0,
    ;
    lemma_quotient(a * b, c as int);
}

proof fn lemma_quotient(n: int, d: int)
    requires
        n >= 0,
        d > 0,
    ensures
        0 <= n / d,
        (n / d) * d <= n < (n / d + 1) * d,
{
    lemma_fundamental_div_mod(n, d);
    lemma_mod_pos_bound(n, d);
    let q = n / d;
    assert(d * q == q * d) by (nonlinear_arith);
    assert((q + 1) * d == q * d + d) by (nonlinear_arith);
    assert(q >= 0) by (nonlinear_arith)
        requires
            n >= 0,
            d > 0,
            n < q * d + d,
    ;
}

/// Time runs forward: from a moment to one that is later by so much, and none the other
/// way.
pub proof fn time_runs_forward(from: u64, by: u64)
    requires
        from + by <= u64::MAX,
    ensures
        micro::elapsed(from, (from + by) as u64) == by,
        micro::elapsed((from + by) as u64, from) == 0,
{
}

/// A number is rounded to the nearest whole one, and halves to the even one.
pub proof fn rounding_is_to_the_nearest(n: int, unit: int)
    requires
        n >= 0,
        unit > 0,
    ensures
        ({
            let r = micro::nearest(n, unit);
            &&& -unit <= 2 * (n - r * unit) <= unit
            &&& 2 * (n - r * unit) == unit || 2 * (n - r * unit) == -unit ==> r % 2 == 0
        }),
{
    lemma_quotient(n, unit);
    lemma_fundamental_div_mod(n, unit);
    let q = n / unit;
    assert(unit * q == q * unit) by (nonlinear_arith);
    assert((q + 1) * unit == q * unit + unit) by (nonlinear_arith);
}

/// The tokens of all samples together.
pub open spec fn tokens_in(samples: Seq<(u64, u64, usize)>) -> int
    decreases samples.len(),
{
    if samples.len() == 0 {
        0
    } else {
        tokens_in(samples.drop_last()) + samples.last().2
    }
}

proof fn lemma_tokens(samples: Seq<(u64, u64, usize)>)
    ensures
        tokens_in(samples) >= 0,
        landed(samples) == if tokens_in(samples) > u64::MAX {
            u64::MAX as int
        } else {
            tokens_in(samples)
        },
    decreases samples.len(),
{
    if samples.len() > 0 {
        lemma_tokens(samples.drop_last());
    }
}

/// A window shows the tokens of all its intervals over the time since the first of them
/// began, which counts for at least 50 ms.
pub proof fn a_window_shows_its_tokens_over_its_time(w: Window, now: u64)
    requires
        w.samples.len() > 0,
        w.samples[0].0 <= now,
        now <= w.samples[0].1 + w.span,
        tokens_in(w.samples) <= u64::MAX,
    ensures
        ({
            let time = if now - w.samples[0].0 > 50_000_000 {
                now - w.samples[0].0
            } else {
                50_000_000
            };
            let rate = tokens_in(w.samples) * 1_000_000_000_000_000 / time;
            w.rate(now) == if rate > u64::MAX {
                u64::MAX as int
            } else {
                rate
            }
        }),
{
    lemma_tokens(w.samples);
    assert(unexpired(w.samples, now, w.span) == w.samples);
    if tokens_in(w.samples) == 0 {
        let time = if now - w.samples[0].0 > 50_000_000 {
            now - w.samples[0].0
        } else {
            50_000_000
        };
        assert(0int / time == 0) by (nonlinear_arith)
            requires
                time > 0,
        ;
    }
}

/// An interval that comes into a window is the newest there; those that ended more than
/// the window's span before it leave, the oldest first, up to one that did not.
pub proof fn windows_keep_what_is_recent(w: Window, from: u64, to: u64, tokens: usize)
    ensures
        ({
            let all = w.samples.push((from, to, tokens));
            let v = w.pushed(from, to, tokens);
            let gone = all.len() - v.samples.len();
            &&& v.span == w.span
            &&& v.samples.len() > 0
            &&& v.samples.last() == (from, to, tokens)
            &&& v.samples == all.skip(gone)
            &&& to <= v.samples[0].1 + w.span
            &&& forall|i: int| 0 <= i < gone ==> (#[trigger] all[i]).1 + w.span < to
        }),
{
    let all = w.samples.push((from, to, tokens));
    lemma_unexpired(all, to, w.span);
    let v = w.pushed(from, to, tokens);
    let gone = all.len() - v.samples.len();
    if v.samples.len() == 0 {
        assert(all[all.len() - 1].1 + w.span < to);
    }
    assert(v.samples.last() == all.skip(gone).last());
}

proof fn lemma_unexpired(all: Seq<(u64, u64, usize)>, to: u64, span: u64)
    ensures
        ({
            let kept = unexpired(all, to, span);
            let gone = all.len() - kept.len();
            &&& kept.len() <= all.len()
            &&& kept == all.skip(gone)
            &&& kept.len() > 0 ==> to <= kept[0].1 + span
            &&& forall|i: int| 0 <= i < gone ==> (#[trigger] all[i]).1 + span < to
        }),
    decreases all.len(),
{
    if all.len() > 0 && micro::elapsed(all[0].1, to) > span {
        let rest = all.drop_first();
        lemma_unexpired(rest, to, span);
        let kept = unexpired(all, to, span);
        let gone = all.len() - kept.len();
        assert(rest.skip(gone - 1) =~= all.skip(gone));
        assert forall|i: int| 0 <= i < gone implies (#[trigger] all[i]).1 + span < to by {
            if i > 0 {
                assert(rest[i - 1] == all[i]);
            }
        }
    } else {
        assert(all.skip(0) =~= all);
    }
}

/// What a counter gained from one look to the next: nothing where it went back.
pub open spec fn gained(before: u64, after: u64) -> int {
    if after > before {
        after - before
    } else {
        0
    }
}

proof fn lemma_second(w: Window, t: u64, tokens: int)
    requires
        w.samples.len() == 0,
        t + 1_000_000_000 <= u64::MAX,
        0 <= tokens <= usize::MAX,
        tokens * 1_000_000 <= u64::MAX,
    ensures
        ({
            let now = (t + 1_000_000_000) as u64;
            w.pushed(t, now, tokens as usize).rate(now) == tokens * 1_000_000
        }),
{
    let now = (t + 1_000_000_000) as u64;
    let one = (t, now, tokens as usize);
    let p = w.pushed(t, now, tokens as usize);
    assert(w.samples.push(one) =~= seq![one]);
    assert(p.samples =~= seq![one]);
    assert(seq![one].drop_last() =~= Seq::empty());
    assert(tokens_in(seq![one].drop_last()) == 0);
    assert(tokens_in(seq![one]) == tokens);
    a_window_shows_its_tokens_over_its_time(p, now);
    assert(tokens * 1_000_000_000_000_000 / 1_000_000_000 == tokens * 1_000_000);
    assert(now - t == 1_000_000_000);
}

/// Two looks one second apart tell the drafts and the steps of that second; how many
/// tokens were accepted per step, whatever number was drafted; and how many of the
/// drafted ones were accepted, whatever number of steps it took.
pub proof fn drafts_are_told_per_step_and_per_second(
    before: SpecMetrics,
    after: SpecMetrics,
    t: u64,
)
    requires
        t + 1_000_000_000 <= u64::MAX,
        gained(before.draft_tokens, after.draft_tokens) <= usize::MAX,
        gained(before.accepted, after.accepted) <= usize::MAX,
        gained(before.verify_steps, after.verify_steps) <= usize::MAX,
        gained(before.draft_tokens, after.draft_tokens) * 1_000_000 <= u64::MAX,
        gained(before.accepted, after.accepted) * 1_000_000 <= u64::MAX,
        gained(before.verify_steps, after.verify_steps) * 1_000_000 <= u64::MAX,
    ensures
        ({
            let drafted = gained(before.draft_tokens, after.draft_tokens);
            let accepted = gained(before.accepted, after.accepted);
            let steps = gained(before.verify_steps, after.verify_steps);
            let d = Drafts::blank().observed(before, t).observed(
                after,
                (t + 1_000_000_000) as u64,
            );
            &&& d.drafts_per_sec == drafted * 1_000_000
            &&& d.steps_per_sec == steps * 1_000_000
            &&& steps > 0 ==> d.mean_accepted == accepted * 1_000_000 / steps
            &&& steps == 0 ==> d.mean_accepted == 0
            &&& drafted > 0 ==> d.accept_rate == if accepted >= drafted {
                1_000_000
            } else {
                accepted * 1_000_000 / drafted
            }
            &&& drafted == 0 ==> d.accept_rate == 0
        }),
{
    let now = (t + 1_000_000_000) as u64;
    let drafted = gained(before.draft_tokens, after.draft_tokens);
    let accepted = gained(before.accepted, after.accepted);
    let steps = gained(before.verify_steps, after.verify_steps);
    let b = Drafts::blank().observed(before, t);
    lemma_second(b.draft_win, t, drafted);
    lemma_second(b.accept_win, t, accepted);
    lemma_second(b.steps_win, t, steps);
    if steps > 0 {
        lemma_millions_cancel(accepted, steps);
    }
    if drafted > 0 {
        lemma_millions_cancel(accepted, drafted);
        lemma_quotient(accepted * 1_000_000, drafted);
        let q = accepted * 1_000_000 / drafted;
        if accepted >= drafted {
            assert(q >= 1_000_000) by (nonlinear_arith)
                requires
                    accepted * 1_000_000 < (q + 1) * drafted,
                    accepted >= drafted,
                    drafted > 0,
            ;
        } else {
            assert(q < 1_000_000) by (nonlinear_arith)
                requires
                    q * drafted <= accepted * 1_000_000,
                    accepted < drafted,
                    drafted > 0,
            ;
        }
    }
}

proof fn lemma_millions_cancel(a: int, b: int)
    requires
        0 <= a <= u64::MAX / 1_000_000,
        0 < b,
    ensures
        micro::ratio(a * 1_000_000, b * 1_000_000) == a * 1_000_000 / b,
{
    vstd::arithmetic::div_mod::lemma_div_multiples_vanish_quotient(1_000_000, a * 1_000_000, b);
    assert(1_000_000 * (a * 1_000_000) == (a * 1_000_000) * 1_000_000);
    assert(1_000_000 * b == b * 1_000_000);
    lemma_quotient(a * 1_000_000, b);
    let q = a * 1_000_000 / b;
    assert(q <= a * 1_000_000) by (nonlinear_arith)
        requires
            q * b <= a * 1_000_000,
            b >= 1,
            q >= 0,
    ;
}

/// How many tokens a step accepts does not rest on the number of drafted tokens, and the
/// share of accepted drafts not on the number of steps.
pub proof fn drafts_and_steps_are_told_apart(
    d: Drafts,
    e: Drafts,
    m: SpecMetrics,
    n: SpecMetrics,
    now: u64,
)
    requires
        d.last is Some && e.last is Some,
        (d.last->0).0 == (e.last->0).0,
        (d.last->0).1.accepted == (e.last->0).1.accepted,
        m.accepted == n.accepted,
        d.accept_win == e.accept_win,
    ensures
        d.steps_win == e.steps_win && (d.last->0).1.verify_steps == (e.last->0).1.verify_steps
            && m.verify_steps == n.verify_steps ==> d.observed(m, now).mean_accepted == e.observed(
            n,
            now,
        ).mean_accepted,
        d.draft_win == e.draft_win && (d.last->0).1.draft_tokens == (e.last->0).1.draft_tokens
            && m.draft_tokens == n.draft_tokens ==> d.observed(m, now).accept_rate == e.observed(
            n,
            now,
        ).accept_rate,
{
}

/// Every look keeps the counters for the next one, and one alone tells no rate. The
/// share of accepted drafts enters its history where something was drafted.
pub proof fn a_look_keeps_the_counters(d: Drafts, m: SpecMetrics, now: u64)
    ensures
        ({
            let e = d.observed(m, now);
            &&& e.available
            &&& e.totals == m
            &&& e.last == Some((now, m))
            &&& d.last is None ==> e.accept_rate == d.accept_rate && e.mean_accepted
                == d.mean_accepted && e.steps_per_sec == d.steps_per_sec && e.drafts_per_sec
                == d.drafts_per_sec && e.accept_hist == d.accept_hist
            &&& d.last is Some && e.drafts_per_sec > 0 ==> e.accept_hist.len() > 0
                && e.accept_hist.last() == e.accept_rate
            &&& e.drafts_per_sec == 0 && d.last is Some ==> e.accept_hist == d.accept_hist
        }),
{
}

/// Each look moves each window on by what its own counter gained since the look before,
/// and the rates are those of the windows.
pub proof fn a_look_moves_each_window(d: Drafts, m: SpecMetrics, now: u64)
    requires
        d.last is Some,
        gained((d.last->0).1.draft_tokens, m.draft_tokens) <= usize::MAX,
        gained((d.last->0).1.accepted, m.accepted) <= usize::MAX,
        gained((d.last->0).1.verify_steps, m.verify_steps) <= usize::MAX,
    ensures
        ({
            let e = d.observed(m, now);
            let (t0, prev) = d.last->0;
            &&& e.draft_win == d.draft_win.pushed(
                t0,
                now,
                gained(prev.draft_tokens, m.draft_tokens) as usize,
            )
            &&& e.accept_win == d.accept_win.pushed(
                t0,
                now,
                gained(prev.accepted, m.accepted) as usize,
            )
            &&& e.steps_win == d.steps_win.pushed(
                t0,
                now,
                gained(prev.verify_steps, m.verify_steps) as usize,
            )
            &&& e.drafts_per_sec == e.draft_win.rate(now)
            &&& e.steps_per_sec == e.steps_win.rate(now)
            &&& e.steps_per_sec > 0 ==> e.mean_accepted == {
                let q = e.accept_win.rate(now) * 1_000_000 / e.steps_per_sec as int;
                if q > u64::MAX {
                    u64::MAX as int
                } else {
                    q
                }
            }
        }),
{
}

} // verus!
