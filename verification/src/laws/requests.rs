//! What the samples of a server tell of its requests.
use crate::observe::LiveStats;
use crate::perf::{Counters, Phase, RequestRecord, Tracker, Window};
use vstd::prelude::*;

verus! {

/// A sample goes on with the request of the sample before it: the task is the same,
/// the server was not just started, and the tokens were not counted anew.
pub open spec fn goes_on(prev: Counters, s: LiveStats) -> bool {
    &&& s.id_task == prev.id_task
    &&& s.processing ==> prev.processing && prev.decoded <= s.decoded
}

/// The tokens that a sample adds to those of the sample before it.
pub open spec fn new_tokens(prev: Counters, s: LiveStats) -> int {
    if !goes_on(prev, s) {
        s.decoded as int
    } else if s.decoded > prev.decoded {
        s.decoded - prev.decoded
    } else {
        0
    }
}

/// The prompt tokens that a sample adds to those of the sample before it.
pub open spec fn new_prompt(prev: Counters, s: LiveStats) -> int {
    if !goes_on(prev, s) {
        s.prompt_processed as int
    } else if s.prompt_processed > prev.prompt_processed {
        s.prompt_processed - prev.prompt_processed
    } else {
        0
    }
}

/// The time from one sample to the next: never less than a millisecond.
pub open spec fn interval(t0: u64, now: u64) -> int {
    if now >= t0 + 1_000_000 {
        now - t0
    } else {
        1_000_000
    }
}

/// `n`, but no more than the largest `u64`.
pub open spec fn at_most(n: int) -> int {
    if n > u64::MAX {
        u64::MAX as int
    } else {
        n
    }
}

/// A sample of the running request keeps its identity and when it began, and adds the
/// tokens and the time of the interval: to the prefill where prompt tokens came in, and
/// to the decoding where tokens came out. The first token came with the earliest of
/// these samples and stays there.
pub proof fn a_sample_adds_to_the_running_request(t: Tracker, s: LiveStats, now: u64)
    requires
        t.current is Some,
        t.last_sample is Some,
        s.processing,
        goes_on((t.last_sample->0).1, s),
    ensures
        ({
            let r = t.current->0;
            let (t0, prev) = t.last_sample->0;
            let u = t.observed(s, now);
            let c = u.current->0;
            let tokens = new_tokens(prev, s);
            let prompt = new_prompt(prev, s);
            &&& u.current is Some
            &&& c.id_task == r.id_task
            &&& c.started == r.started
            &&& c.ended == r.ended
            &&& c.first_token == if r.first_token is Some {
                r.first_token
            } else if tokens > 0 {
                Some(now)
            } else {
                None
            }
            &&& c.prompt_tokens == s.prompt_tokens
            &&& c.cached_tokens == s.cache_tokens
            &&& c.decoded >= r.decoded && c.decoded >= s.decoded && (c.decoded == r.decoded
                || c.decoded == s.decoded)
            &&& r.prefill_tokens + prompt <= usize::MAX ==> c.prefill_tokens == r.prefill_tokens
                + prompt
            &&& c.prefill_nanos == if prompt > 0 {
                at_most(r.prefill_nanos + interval(t0, now))
            } else {
                r.prefill_nanos as int
            }
            &&& c.decode_nanos == if tokens > 0 {
                at_most(r.decode_nanos + interval(t0, now))
            } else {
                r.decode_nanos as int
            }
            &&& tokens == 0 ==> c.peak_decode_tps == r.peak_decode_tps
            &&& tokens > 0 ==> c.peak_decode_tps >= r.peak_decode_tps && c.peak_decode_tps
                >= u.decode_tps && (c.peak_decode_tps == r.peak_decode_tps || c.peak_decode_tps
                == u.decode_tps)
            &&& u.history == t.history
            &&& u.finished == t.finished
            &&& u.session_requests == t.session_requests
        }),
{
}

/// A server that stops ends the running request: its record is the newest of the
/// history, with what it was told last and the first token that it had, unless nothing
/// came of it.
pub proof fn a_stopped_request_is_kept_as_it_was(t: Tracker, s: LiveStats, now: u64)
    requires
        t.current is Some,
        t.last_sample is Some,
        !s.processing,
    ensures
        ({
            let r = t.current->0;
            let (t0, prev) = t.last_sample->0;
            let u = t.observed(s, now);
            let tokens = new_tokens(prev, s);
            let prompt = new_prompt(prev, s);
            let e = u.history.last();
            &&& u.current is None
            &&& r.decoded == 0 && s.decoded == 0 && r.prefill_tokens == 0 && prompt == 0 ==> {
                &&& u.history == t.history
                &&& u.finished == t.finished
            }
            &&& r.decoded > 0 || s.decoded > 0 || r.prefill_tokens > 0 || prompt > 0 ==> {
                &&& u.history.len() > 0
                &&& u.finished == at_most(t.finished + 1)
                &&& e.ended == Some(now)
                &&& e.id_task == r.id_task
                &&& e.started == r.started
                &&& e.first_token == if r.first_token is Some {
                    r.first_token
                } else if tokens > 0 {
                    Some(now)
                } else {
                    None
                }
                &&& e.decoded >= r.decoded && e.decoded >= s.decoded && (e.decoded == r.decoded
                    || e.decoded == s.decoded)
                &&& e.prompt_tokens == s.prompt_tokens
                &&& e.cached_tokens == s.cache_tokens
                &&& r.prefill_tokens + prompt <= usize::MAX ==> e.prefill_tokens
                    == r.prefill_tokens + prompt
                &&& e.decode_nanos == if tokens > 0 {
                    at_most(r.decode_nanos + interval(t0, now))
                } else {
                    r.decode_nanos as int
                }
                &&& e.prefill_nanos == if prompt > 0 {
                    at_most(r.prefill_nanos + interval(t0, now))
                } else {
                    r.prefill_nanos as int
                }
            }
        }),
{
}

/// A sample that begins another request ends the one before as it was, and the new one
/// starts with the sample: its tokens are those of the sample, and where there are any,
/// the first of them came with it.
pub proof fn another_request_starts_afresh(t: Tracker, s: LiveStats, now: u64)
    requires
        t.last_sample is Some,
        s.processing,
        !goes_on((t.last_sample->0).1, s),
    ensures
        ({
            let u = t.observed(s, now);
            let c = u.current->0;
            &&& u.current is Some
            &&& u.session_requests == at_most(t.session_requests + 1)
            &&& c.id_task == s.id_task
            &&& c.started == now
            &&& c.ended is None
            &&& c.decoded == s.decoded
            &&& c.prompt_tokens == s.prompt_tokens
            &&& c.cached_tokens == s.cache_tokens
            &&& c.prefill_tokens == s.prompt_processed
            &&& c.first_token == if s.decoded > 0 {
                Some(now)
            } else {
                None
            }
            &&& t.current is None ==> u.history == t.history
            &&& t.current matches Some(r) ==> {
                &&& r.decoded == 0 && r.prefill_tokens == 0 ==> u.history == t.history
                &&& r.decoded > 0 || r.prefill_tokens > 0 ==> u.history.len() > 0
                    && u.history.last() == (RequestRecord { ended: Some(now), ..r })
            }
        }),
{
}

/// The first sample of a server begins a request where the server is processing, and
/// counts no token.
pub proof fn the_first_sample_counts_nothing(t: Tracker, s: LiveStats, now: u64)
    requires
        t.last_sample is None,
    ensures
        ({
            let u = t.observed(s, now);
            &&& s.processing ==> u.current is Some && u.current->0.started == now
                && u.current->0.id_task == s.id_task && u.current->0.first_token is None
                && u.current->0.decoded == s.decoded && u.current->0.prefill_tokens == 0
            &&& !s.processing ==> u.current == t.current
            &&& u.session_requests == if s.processing {
                at_most(t.session_requests + 1)
            } else {
                t.session_requests as int
            }
            &&& u.session_decoded == t.session_decoded
            &&& u.session_prefilled == t.session_prefilled
            &&& u.history == t.history
            &&& u.decode_hist == t.decode_hist
            &&& u.samples == at_most(t.samples + 1)
        }),
{
}

/// Every sample adds its tokens to those of the session.
pub proof fn sessions_add_up_samples(t: Tracker, s: LiveStats, now: u64)
    requires
        t.last_sample is Some,
    ensures
        ({
            let u = t.observed(s, now);
            let prev = (t.last_sample->0).1;
            &&& u.session_decoded == at_most(t.session_decoded + new_tokens(prev, s))
            &&& u.session_prefilled == at_most(t.session_prefilled + new_prompt(prev, s))
            &&& u.session_requests == if s.processing && !goes_on(prev, s) {
                at_most(t.session_requests + 1)
            } else {
                t.session_requests as int
            }
            &&& u.samples == at_most(t.samples + 1)
            &&& u.poll_ok
        }),
{
}

/// A server that does not process is idle. One that does generates where tokens came
/// out, or where they had and no prompt came in; else it is at its prompt.
pub proof fn the_phase_follows_the_tokens(t: Tracker, s: LiveStats, now: u64)
    requires
        t.last_sample is Some,
    ensures
        ({
            let prev = (t.last_sample->0).1;
            let phase = t.observed(s, now).phase;
            &&& phase == Phase::Idle <==> !s.processing
            &&& phase == Phase::Decode <==> s.processing && (new_tokens(prev, s) > 0 || (s.decoded
                > 0 && new_prompt(prev, s) == 0))
        }),
{
}

/// The state after the first `n` of some samples.
pub open spec fn after(t: Tracker, samples: Seq<(LiveStats, u64)>, n: int) -> Tracker
    decreases n,
{
    if n <= 0 {
        t
    } else {
        after(t, samples, n - 1).observed(samples[n - 1].0, samples[n - 1].1)
    }
}

/// The samples are those of one request that has not ended: of one task, with counts
/// that never fall.
pub open spec fn of_one_request(samples: Seq<(LiveStats, u64)>) -> bool {
    forall|i: int, j: int|
        0 <= i <= j < samples.len() ==> (#[trigger] samples[i]).0.processing && (
        #[trigger] samples[j]).0.id_task == samples[i].0.id_task && samples[i].0.decoded
            <= samples[j].0.decoded
}

/// The `k`th sample is the first to tell of more tokens than the one before it.
pub open spec fn first_gain(samples: Seq<(LiveStats, u64)>, k: int) -> bool {
    &&& 1 <= k < samples.len()
    &&& samples[k - 1].0.decoded < samples[k].0.decoded
    &&& samples[k - 1].0.decoded == samples[0].0.decoded
}

proof fn lemma_run(t: Tracker, samples: Seq<(LiveStats, u64)>, n: int)
    requires
        1 <= n <= samples.len(),
        of_one_request(samples),
        t.last_sample is None || (samples[0].0.decoded == 0 && !goes_on(
            (t.last_sample->0).1,
            samples[0].0,
        )),
    ensures
        ({
            let u = after(t, samples, n);
            &&& u.current is Some
            &&& u.current->0.started == samples[0].1
            &&& u.current->0.id_task == samples[0].0.id_task
            &&& u.current->0.decoded == samples[n - 1].0.decoded
            &&& u.last_sample is Some
            &&& (u.last_sample->0).1.processing
            &&& (u.last_sample->0).1.id_task == samples[0].0.id_task
            &&& (u.last_sample->0).1.decoded == samples[n - 1].0.decoded
            &&& u.current->0.first_token is None <==> samples[n - 1].0.decoded
                == samples[0].0.decoded
            &&& forall|k: int|
                k < n && #[trigger] first_gain(samples, k) ==> u.current->0.first_token == Some(
                    samples[k].1,
                )
        }),
    decreases n,
{
    let s = samples[n - 1].0;
    let now = samples[n - 1].1;
    assert(samples[0].0.processing && s.processing);
    if n == 1 {
        assert(after(t, samples, 0) == t);
    } else {
        lemma_run(t, samples, n - 1);
        let b = after(t, samples, n - 1);
        assert(samples[0].0.decoded <= samples[n - 2].0.decoded <= samples[n - 1].0.decoded);
        assert(s.id_task == samples[0].0.id_task);
        assert(goes_on((b.last_sample->0).1, s));
        a_sample_adds_to_the_running_request(b, s, now);
        assert forall|k: int| k < n && #[trigger] first_gain(samples, k) implies after(
            t,
            samples,
            n,
        ).current->0.first_token == Some(samples[k].1) by {
            if k < n - 1 {
                assert(samples[0].0.decoded <= samples[k - 1].0.decoded <= samples[k].0.decoded
                    <= samples[n - 2].0.decoded);
                assert(b.current->0.first_token == Some(samples[k].1));
            }
        }
    }
}

/// Over the samples of one request the time of its first token is that of the earliest
/// sample that told of more tokens than the one before it, and no time where none did.
/// Every later sample leaves it as it is, and so does the one with which the request
/// ends: the record in the history carries it.
pub proof fn the_first_token_is_told_once(
    t: Tracker,
    samples: Seq<(LiveStats, u64)>,
    last: LiveStats,
    now: u64,
)
    requires
        1 <= samples.len(),
        of_one_request(samples),
        t.last_sample is None || (samples[0].0.decoded == 0 && !goes_on(
            (t.last_sample->0).1,
            samples[0].0,
        )),
        !last.processing,
    ensures
        ({
            let n = samples.len() as int;
            let u = after(t, samples, n);
            let v = u.observed(last, now);
            &&& u.current is Some
            &&& u.current->0.started == samples[0].1
            &&& u.current->0.first_token is None <==> samples[n - 1].0.decoded
                == samples[0].0.decoded
            &&& forall|k: int| #[trigger]
                first_gain(samples, k) ==> u.current->0.first_token == Some(samples[k].1) && (
                forall|m: int|
                    k < m <= n ==> (#[trigger] after(t, samples, m)).current->0.first_token
                        == Some(samples[k].1)) && v.history.len() > 0
                    && v.history.last().first_token == Some(samples[k].1)
                    && v.history.last().started == samples[0].1
        }),
{
    let n = samples.len() as int;
    let u = after(t, samples, n);
    lemma_run(t, samples, n);
    assert forall|k: int| #[trigger] first_gain(samples, k) implies (forall|m: int|
        k < m <= n ==> (#[trigger] after(t, samples, m)).current->0.first_token == Some(
            samples[k].1,
        )) && u.observed(last, now).history.last().first_token == Some(samples[k].1) && u.observed(
        last,
        now,
    ).history.len() > 0 && u.observed(last, now).history.last().started == samples[0].1 by {
        assert forall|m: int| k < m <= n implies (#[trigger] after(
            t,
            samples,
            m,
        )).current->0.first_token == Some(samples[k].1) by {
            lemma_run(t, samples, m);
            assert(first_gain(samples, k));
        }
        assert(samples[k].0.decoded <= samples[n - 1].0.decoded);
        a_stopped_request_is_kept_as_it_was(u, last, now);
    }
}

/// The table of requests starts with the running one and goes on with the ended ones,
/// the newest first, as far as there is room.
pub proof fn the_newest_requests_come_first(t: Tracker, n: nat)
    ensures
        ({
            let rows = t.recent(n);
            let live = if t.current is Some {
                1int
            } else {
                0
            };
            &&& t.current is Some ==> rows[0] == t.current->0
            &&& rows.len() <= live + t.history.len()
            &&& rows.len() == n || rows.len() == live + t.history.len() || (n == 0 && rows.len()
                == live)
            &&& forall|i: int|
                live <= i < rows.len() ==> #[trigger] rows[i] == t.history[t.history.len() - 1 - (i
                    - live)]
        }),
{
}

/// When a server stops, its windows are empty, and the decode rate is that which the
/// request tells: the tokens after the first over the time between them.
pub proof fn a_stopped_server_tells_its_rate(t: Tracker, s: LiveStats, now: u64)
    requires
        t.last_sample is Some,
        !s.processing,
    ensures
        ({
            let u = t.observed(s, now);
            &&& u.prefill_tps == 0
            &&& u.decode_tps == if new_tokens((t.last_sample->0).1, s) > 0 && s.decoded > 1
                && s.itl_sum > 0 {
                at_most((s.decoded - 1) * 1_000_000_000_000_000 / s.itl_sum as int)
            } else {
                0
            }
            &&& u.decode_win.samples.len() == 0
            &&& u.prefill_win.samples.len() == 0
        }),
{
}

/// The first interval of a window that holds nothing shows its tokens over its time,
/// each kind of token in its own rate.
pub proof fn an_interval_shows_its_rates(t: Tracker, s: LiveStats, now: u64)
    requires
        t.last_sample is Some,
        s.processing,
        (t.last_sample->0).0 + 50_000_000 <= now,
        goes_on((t.last_sample->0).1, s) ==> t.decode_win.samples.len() == 0
            && t.prefill_win.samples.len() == 0,
    ensures
        ({
            let u = t.observed(s, now);
            let (t0, prev) = t.last_sample->0;
            &&& u.decode_tps == at_most(
                new_tokens(prev, s) * 1_000_000_000_000_000 / (now - t0),
            )
            &&& u.prefill_tps == at_most(
                new_prompt(prev, s) * 1_000_000_000_000_000 / (now - t0),
            )
        }),
{
    let (t0, prev) = t.last_sample->0;
    let w = Window { span: t.decode_win.span, samples: Seq::empty() };
    let v = Window { span: t.prefill_win.span, samples: Seq::empty() };
    assert(goes_on(prev, s) ==> t.decode_win =~= w && t.prefill_win =~= v);
    lemma_one_interval(w, t0, now, new_tokens(prev, s) as usize);
    lemma_one_interval(v, t0, now, new_prompt(prev, s) as usize);
}

proof fn lemma_one_interval(w: Window, t0: u64, now: u64, tokens: usize)
    requires
        w.samples.len() == 0,
        t0 + 50_000_000 <= now,
    ensures
        w.pushed(t0, now, tokens).rate(now) == at_most(
            tokens * 1_000_000_000_000_000 / (now - t0),
        ),
{
    let one = (t0, now, tokens);
    let p = w.pushed(t0, now, tokens);
    assert(w.samples.push(one) =~= seq![one]);
    assert(p.samples =~= seq![one]);
    assert(seq![one].drop_last() =~= Seq::empty());
    assert(crate::perf::landed(seq![one].drop_last()) == 0);
    assert(crate::perf::landed(seq![one]) == tokens);
    if tokens == 0 {
        assert(0int / (now - t0) == 0) by (nonlinear_arith)
            requires
                now - t0 > 0,
        ;
    }
}

/// A rate that is shown smooth goes half of the way up to a higher one and a quarter of
/// the way down to a lower one, and vanishes below a small one. The highest rates are
/// kept, and every rate enters its history.
pub proof fn shown_rates_follow_the_measured_ones(t: Tracker, s: LiveStats, now: u64)
    requires
        t.last_sample is Some,
    ensures
        ({
            let u = t.observed(s, now);
            &&& follows(t.decode_tps_smooth, u.decode_tps, u.decode_tps_smooth, 50_000)
            &&& follows(t.prefill_tps_smooth, u.prefill_tps, u.prefill_tps_smooth, 500_000)
            &&& u.peak_decode_tps >= t.peak_decode_tps && u.peak_decode_tps >= u.decode_tps
            &&& u.peak_decode_tps == t.peak_decode_tps || u.peak_decode_tps == u.decode_tps
            &&& u.peak_prefill_tps >= t.peak_prefill_tps && u.peak_prefill_tps >= u.prefill_tps
            &&& u.peak_prefill_tps == t.peak_prefill_tps || u.peak_prefill_tps == u.prefill_tps
            &&& u.decode_hist.len() > 0 && u.decode_hist.last() == u.decode_tps
            &&& u.prefill_hist.len() > 0 && u.prefill_hist.last() == u.prefill_tps
            &&& t.decode_hist.len() < 240 ==> u.decode_hist == t.decode_hist.push(u.decode_tps)
            &&& t.prefill_hist.len() < 240 ==> u.prefill_hist == t.prefill_hist.push(u.prefill_tps)
        }),
{
    let u = t.observed(s, now);
    lemma_follows(t.decode_tps_smooth, u.decode_tps, 50_000);
    lemma_follows(t.prefill_tps_smooth, u.prefill_tps, 500_000);
}

proof fn lemma_follows(prev: u64, x: u64, least: u64)
    ensures
        follows(prev, x, crate::perf::smoothed(prev, x, least), least),
{
    let w = if x > prev {
        prev + (x - prev) / 2
    } else {
        prev - (prev - x) / 4
    };
    assert(at_most(w) == w);
}

/// `v` follows `x` from `prev`: up by half, down by a quarter, and what comes out below
/// `least` is nothing.
pub open spec fn follows(prev: u64, x: u64, v: u64, least: u64) -> bool {
    exists|w: int|
        #![trigger at_most(w)]
        (if x > prev {
            2 * (w - prev) <= x - prev < 2 * (w - prev) + 2
        } else {
            4 * (prev - w) <= prev - x < 4 * (prev - w) + 4
        }) && v == if w < least {
            0
        } else {
            w
        }
}

/// The history holds the last 32 requests that ended, each behind those before it.
pub proof fn the_last_requests_are_held(t: Tracker, s: LiveStats, now: u64)
    requires
        t.history.len() <= 32,
    ensures
        ({
            let u = t.observed(s, now);
            &&& u.history.len() <= 32
            &&& u.history == t.history || (t.history.len() < 32 && u.history == t.history.push(
                u.history.last(),
            )) || (t.history.len() == 32 && u.history == t.history.drop_first().push(
                u.history.last(),
            ))
        }),
{
}

/// A new tracker shows nothing: no request, no rate, no token. It counts the tokens of a
/// second for the rate of decoding, and of 0.6 s for that of a prompt.
pub proof fn a_new_tracker_shows_nothing(now: u64)
    ensures
        ({
            let t = Tracker::blank(now);
            &&& t.started == now
            &&& t.last_sample is None && t.current is None && t.history.len() == 0
            &&& t.phase == Phase::Idle
            &&& t.decode_tps == 0 && t.prefill_tps == 0 && t.decode_tps_smooth == 0
                && t.prefill_tps_smooth == 0 && t.peak_decode_tps == 0 && t.peak_prefill_tps == 0
            &&& t.session_decoded == 0 && t.session_prefilled == 0 && t.session_requests == 0
                && t.finished == 0 && t.samples == 0
            &&& t.decode_win.samples.len() == 0 && t.decode_win.span == 1_000_000_000
            &&& t.prefill_win.samples.len() == 0 && t.prefill_win.span == 600_000_000
            &&& t.drafts.last is None && !t.drafts.available && t.drafts.accept_rate == 0
                && t.drafts.mean_accepted == 0 && t.drafts.steps_per_sec == 0
                && t.drafts.drafts_per_sec == 0 && t.drafts.accept_hist.len() == 0
            &&& t.total_power_w == 0 && t.decode_hist.len() == 0 && t.prefill_hist.len() == 0
                && t.util_hist.len() == 0
            &&& t.drafts.draft_win.span == 1_500_000_000 && t.drafts.accept_win.span
                == 1_500_000_000 && t.drafts.steps_win.span == 1_500_000_000
            &&& !t.poll_ok
        }),
{
}

/// A sample is kept for the next one to be compared with, and its rates move the meters.
pub proof fn a_sample_is_kept_for_the_next(t: Tracker, s: LiveStats, now: u64)
    ensures
        ({
            let u = t.observed(s, now);
            let (at, kept) = u.last_sample->0;
            &&& u.last_sample is Some
            &&& at == now
            &&& kept.id_task == s.id_task
            &&& kept.processing == s.processing
            &&& kept.decoded == s.decoded
            &&& kept.prompt_processed == s.prompt_processed
            &&& t.last_sample is Some && t.bw.decode.full_scale is None ==> u.bw.decode.value
                == u.decode_tps
            &&& t.last_sample is Some && t.bw.prefill.full_scale is None ==> u.bw.prefill.value
                == u.prefill_tps
            &&& u.bw.disk == t.bw.disk && u.bw.ram == t.bw.ram && u.bw.vram == t.bw.vram
                && u.bw.pcie_rx == t.bw.pcie_rx && u.bw.vram_busy == t.bw.vram_busy
            &&& u.drafts == t.drafts && u.util_hist == t.util_hist && u.total_power_w
                == t.total_power_w && u.started == t.started
        }),
{
}

/// While a request goes on, each window takes in the interval with its own tokens, and the
/// rates are those of the windows. Another request empties them first.
pub proof fn each_window_counts_its_own_tokens(t: Tracker, s: LiveStats, now: u64)
    requires
        t.last_sample is Some,
        s.processing,
    ensures
        ({
            let u = t.observed(s, now);
            let (t0, prev) = t.last_sample->0;
            let tokens = new_tokens(prev, s) as usize;
            let prompt = new_prompt(prev, s) as usize;
            &&& goes_on(prev, s) ==> u.decode_win == t.decode_win.pushed(t0, now, tokens)
                && u.prefill_win == t.prefill_win.pushed(t0, now, prompt)
            &&& !goes_on(prev, s) ==> u.decode_win == (Window {
                span: t.decode_win.span,
                samples: Seq::empty(),
            }).pushed(t0, now, tokens) && u.prefill_win == (Window {
                span: t.prefill_win.span,
                samples: Seq::empty(),
            }).pushed(t0, now, prompt)
            &&& u.decode_tps == u.decode_win.rate(now)
            &&& u.prefill_tps == u.prefill_win.rate(now)
        }),
{
}

} // verus!
