//! Derived performance metrics: tokens/sec, latency, per-request records and
//! history ring buffers for sparklines. Everything here comes from deltas of
//! the server's own counters between polls, not from guessed constants.
//!
//! Times are nanoseconds on one clock. Rates, percentages and shares are in
//! millionths; the histories of the cards hold what the cards reported.
use crate::float::Single;
use crate::gpu::GpuStats;
use crate::host;
use crate::host::{Host, HostSample};
use crate::micro;
use crate::observe::{LiveStats, SpecMetrics};
use std::collections::VecDeque;
use vstd::prelude::*;

verus! {

pub const HISTORY: usize = 240;

pub const MAX_REQUESTS: usize = 32;

/// A ring of at most `cap` values once one more has been put in: the oldest one
/// leaves where it is full.
pub open spec fn ringed<T>(h: Seq<T>, v: T, cap: nat) -> Seq<T> {
    if h.len() >= cap && h.len() > 0 {
        h.drop_first().push(v)
    } else {
        h.push(v)
    }
}

/// Puts a value into a history ring.
pub(crate) fn push<T>(h: &mut VecDeque<T>, v: T, cap: usize)
    ensures
        final(h)@ == ringed(old(h)@, v, cap as nat),
{
    if h.len() >= cap {
        let _ = h.pop_front();
    }
    h.push_back(v);
    assert(h@ =~= ringed(old(h)@, v, cap as nat));
}

/// `a - b`, or nothing where `b` is more.
pub open spec fn gain(a: usize, b: usize) -> usize {
    if a > b {
        (a - b) as usize
    } else {
        0
    }
}

/// One request as the dashboard has seen it.
#[derive(Clone, Copy, Debug, PartialEq, Eq, Structural)]
pub struct RequestRecord {
    pub id_task: i64,
    pub started: u64,
    pub first_token: Option<u64>,
    pub ended: Option<u64>,
    pub prompt_tokens: usize,
    pub cached_tokens: usize,
    pub decoded: usize,
    /// Prompt tokens actually pushed through prefill (prompt minus cache hits).
    pub prefill_tokens: usize,
    pub prefill_nanos: u64,
    pub decode_nanos: u64,
    pub peak_decode_tps: u64,
}

/// The shortest time over which an average is told, in nanoseconds.
pub const SHORTEST: u64 = 50_000_000;

/// The average rate of `tokens` over `nanos`, where that is long enough to tell.
pub open spec fn average(tokens: usize, nanos: u64) -> u64 {
    if nanos > SHORTEST {
        micro::rate(tokens as int, nanos as int)
    } else {
        0
    }
}

fn average_of(tokens: usize, nanos: u64) -> (r: u64)
    ensures
        r == average(tokens, nanos),
{
    if nanos > SHORTEST {
        micro::per_second(tokens as u64, nanos)
    } else {
        0
    }
}

impl RequestRecord {
    /// A request that starts with a sample.
    pub open spec fn begun(s: LiveStats, now: u64) -> RequestRecord {
        RequestRecord {
            id_task: s.id_task,
            started: now,
            first_token: None,
            ended: None,
            prompt_tokens: s.prompt_tokens,
            cached_tokens: s.cache_tokens,
            decoded: s.decoded,
            prefill_tokens: 0,
            prefill_nanos: 0,
            decode_nanos: 0,
            peak_decode_tps: 0,
        }
    }

    fn new(id_task: i64, now: u64, s: &LiveStats) -> (r: RequestRecord)
        requires
            id_task == s.id_task,
        ensures
            r == RequestRecord::begun(*s, now),
    {
        RequestRecord {
            id_task,
            started: now,
            first_token: None,
            ended: None,
            prompt_tokens: s.prompt_tokens,
            cached_tokens: s.cache_tokens,
            decoded: s.decoded,
            prefill_tokens: 0,
            prefill_nanos: 0,
            decode_nanos: 0,
            peak_decode_tps: 0,
        }
    }

    /// The time to the first token, in nanoseconds.
    /// The time from the start to the first token.
    pub open spec fn waited(self) -> Option<u64> {
        match self.first_token {
            Some(t) => Some(micro::elapsed(self.started, t)),
            None => None,
        }
    }

    /// The time from the start to the end, or to now while it runs.
    pub open spec fn lasted(self, now: u64) -> u64 {
        micro::elapsed(
            self.started,
            match self.ended {
                Some(t) => t,
                None => now,
            },
        )
    }

    /// The tokens that came out over the time that they took.
    pub open spec fn decode_average(self) -> u64 {
        average(self.decoded, self.decode_nanos)
    }

    /// The prompt tokens that went in over the time that they took.
    pub open spec fn prefill_average(self) -> u64 {
        average(self.prefill_tokens, self.prefill_nanos)
    }

    pub fn ttft(&self) -> (r: Option<u64>)
        ensures
            r == self.waited(),
            r == (match self.first_token {
                Some(t) => Some(micro::elapsed(self.started, t)),
                None => None,
            }),
    {
        match self.first_token {
            Some(t) => Some(micro::since(self.started, t)),
            None => None,
        }
    }

    /// How long the request has been running, or ran, in nanoseconds.
    pub fn duration(&self, now: u64) -> (r: u64)
        ensures
            r == self.lasted(now),
            r == micro::elapsed(
                self.started,
                match self.ended {
                    Some(t) => t,
                    None => now,
                },
            ),
    {
        micro::since(self.started, self.ended.unwrap_or(now))
    }

    pub fn is_live(&self) -> (r: bool)
        ensures
            r == (self.ended is None),
    {
        self.ended.is_none()
    }

    pub fn avg_decode_tps(&self) -> (r: u64)
        ensures
            r == average(self.decoded, self.decode_nanos),
            r == self.decode_average(),
    {
        average_of(self.decoded, self.decode_nanos)
    }

    pub fn avg_prefill_tps(&self) -> (r: u64)
        ensures
            r == average(self.prefill_tokens, self.prefill_nanos),
            r == self.prefill_average(),
    {
        average_of(self.prefill_tokens, self.prefill_nanos)
    }
}

#[derive(Clone, Copy, Debug, PartialEq, Eq, Structural)]
pub enum Phase {
    Idle,
    Prefill,
    Decode,
}

/// The samples of a window that have not run out at `to`.
pub open spec fn unexpired(samples: Seq<(u64, u64, usize)>, to: u64, span: u64) -> Seq<
    (u64, u64, usize),
>
    decreases samples.len(),
{
    if samples.len() > 0 && micro::elapsed(samples[0].1, to) > span {
        unexpired(samples.drop_first(), to, span)
    } else {
        samples
    }
}

/// The tokens that landed in some samples.
pub open spec fn landed(samples: Seq<(u64, u64, usize)>) -> u64
    decreases samples.len(),
{
    if samples.len() == 0 {
        0
    } else {
        micro::capped(landed(samples.drop_last()) + samples.last().2)
    }
}

/// A window, as mathematical values.
#[verifier::ext_equal]
pub struct Window {
    pub span: u64,
    pub samples: Seq<(u64, u64, usize)>,
}

impl Window {
    pub open spec fn pushed(self, from: u64, to: u64, tokens: usize) -> Window {
        Window {
            span: self.span,
            samples: unexpired(self.samples.push((from, to, tokens)), to, self.span),
        }
    }

    pub open spec fn cleared(self) -> Window {
        Window { span: self.span, samples: Seq::empty() }
    }

    /// Tokens per second over the window, from the start of the oldest sample that
    /// has not run out.
    pub open spec fn rate(self, now: u64) -> u64 {
        let live = unexpired(self.samples, now, self.span);
        let total = landed(live);
        if total == 0 {
            0
        } else {
            micro::rate(
                total as int,
                micro::larger(micro::elapsed(live[0].0, now), SHORTEST) as int,
            )
        }
    }
}

/// Token deltas over a sliding time window. Speculative decoders (MTP, draft
/// models) land tokens in bursts, so a per-poll rate flickers; a ~1 s window
/// gives an honest, steady tokens/sec.
#[derive(Clone, Debug)]
pub struct RateWindow {
    pub span: u64,
    /// (interval start, interval end, tokens landed in that interval)
    pub samples: VecDeque<(u64, u64, usize)>,
}

impl View for RateWindow {
    type V = Window;

    open spec fn view(&self) -> Window {
        Window { span: self.span, samples: self.samples@ }
    }
}

impl RateWindow {
    pub fn new(span: u64) -> (r: RateWindow)
        ensures
            r@ == (Window { span, samples: Seq::empty() }),
    {
        let r = RateWindow { span, samples: VecDeque::new() };
        assert(r.samples@ =~= Seq::<(u64, u64, usize)>::empty());
        r
    }

    pub fn clear(&mut self)
        ensures
            final(self)@ == old(self)@.cleared(),
    {
        self.samples.clear();
        assert(self.samples@ =~= Seq::<(u64, u64, usize)>::empty());
    }

    /// Adds the tokens of an interval, and drops the samples that ended longer
    /// than the span before it.
    pub fn push(&mut self, from: u64, to: u64, tokens: usize)
        ensures
            final(self)@ == old(self)@.pushed(from, to, tokens),
    {
        self.samples.push_back((from, to, tokens));
        let ghost all = self.samples@;
        while self.samples.len() > 0 && micro::since(self.samples[0].1, to) > self.span
            invariant
                self.span == old(self).span,
                unexpired(self.samples@, to, self.span) == unexpired(all, to, self.span),
            decreases self.samples.len(),
        {
            let ghost before = self.samples@;
            let _ = self.samples.pop_front();
            assert(self.samples@ =~= before.drop_first());
        }
    }

    /// Tokens per second over the window. Zero once nothing has landed recently.
    pub fn rate(&self, now: u64) -> (r: u64)
        ensures
            r == self@.rate(now),
    {
        let mut first: usize = 0;
        assert(self.samples@.skip(0) =~= self.samples@);
        while first < self.samples.len() && micro::since(self.samples[first].1, now) > self.span
            invariant
                first <= self.samples.len(),
                unexpired(self.samples@.skip(first as int), now, self.span) == unexpired(
                    self.samples@,
                    now,
                    self.span,
                ),
            decreases self.samples.len() - first,
        {
            assert(self.samples@.skip(first as int).drop_first() =~= self.samples@.skip(first + 1));
            first += 1;
        }
        let ghost live = self.samples@.skip(first as int);
        assert(live == unexpired(self.samples@, now, self.span));
        let mut total: u64 = 0;
        let mut i: usize = first;
        assert(live.take(0) =~= Seq::<(u64, u64, usize)>::empty());
        while i < self.samples.len()
            invariant
                first <= i <= self.samples.len(),
                live == self.samples@.skip(first as int),
                total == landed(live.take(i - first)),
            decreases self.samples.len() - i,
        {
            assert(live.take(i + 1 - first).drop_last() =~= live.take(i - first));
            assert(live[i - first] == self.samples@[i as int]);
            total = micro::cap(total as u128 + self.samples[i].2 as u128);
            i += 1;
        }
        assert(live.take(live.len() as int) =~= live);
        if total == 0 {
            return 0;
        }
        assert(live.len() > 0);
        micro::per_second(total, micro::max(micro::since(self.samples[first].0, now), SHORTEST))
    }
}

/// A channel, as mathematical values.
#[verifier::ext_equal]
pub struct Gauge {
    pub value: u64,
    pub hold: u64,
    pub hold_at: u64,
    pub max_seen: u64,
    pub floor: u64,
    pub full_scale: Option<u64>,
    pub hist: Seq<u64>,
}

/// How long a held peak sits, in nanoseconds.
pub const HOLD: u64 = 1_200_000_000;

/// `a - b`, or nothing where `b` is more.
pub open spec fn less(a: u64, b: u64) -> u64 {
    if a > b {
        (a - b) as u64
    } else {
        0
    }
}

impl Gauge {
    pub open spec fn scale(self) -> u64 {
        match self.full_scale {
            Some(fs) => fs,
            None => micro::larger(self.max_seen, self.floor),
        }
    }

    /// A reading as the channel shows it: no more than its full scale.
    pub open spec fn shown(self, v: u64) -> u64 {
        match self.full_scale {
            Some(fs) => if v > fs {
                fs
            } else {
                v
            },
            None => v,
        }
    }

    /// The channel after a reading. A held peak sits, then falls at 40 % of the
    /// scale per second, but not below the reading.
    pub open spec fn updated(self, reading: u64, now: u64, dt: u64) -> Gauge {
        let v = self.shown(reading);
        let g = Gauge {
            value: v,
            max_seen: micro::larger(self.max_seen, v),
            hist: ringed(self.hist, v, HISTORY as nat),
            ..self
        };
        if v >= self.hold {
            Gauge { hold: v, hold_at: now, ..g }
        } else if micro::elapsed(self.hold_at, now) > HOLD {
            Gauge {
                hold: micro::larger(
                    less(self.hold, micro::scaled(g.scale() as int, dt as int, 2_500_000_000)),
                    v,
                ),
                ..g
            }
        } else {
            g
        }
    }

    pub open spec fn frac(self) -> u64 {
        micro::share(self.value as int, micro::larger(self.scale(), 1) as int)
    }

    pub open spec fn hold_frac(self) -> u64 {
        micro::share(self.hold as int, micro::larger(self.scale(), 1) as int)
    }

    /// A channel that has shown nothing yet.
    pub open spec fn blank(floor: u64, full_scale: Option<u64>, now: u64) -> Gauge {
        Gauge {
            value: 0,
            hold: 0,
            hold_at: now,
            max_seen: 0,
            floor,
            full_scale,
            hist: Seq::empty(),
        }
    }

    /// The held peak is no lower than the value, and the history is a ring.
    pub open spec fn sound(self) -> bool {
        self.value <= self.hold && self.hist.len() <= HISTORY
    }
}

/// A reading keeps a channel sound: its held peak is never below its value, and
/// its history never longer than the ring.
pub proof fn readings_keep_gauges_sound(g: Gauge, reading: u64, now: u64, dt: u64)
    requires
        g.sound(),
    ensures
        g.updated(reading, now, dt).sound(),
        g.updated(reading, now, dt).hist.len() > 0,
        g.updated(reading, now, dt).hist.last() == g.updated(reading, now, dt).value,
        g.updated(reading, now, dt).max_seen >= g.updated(reading, now, dt).value,
{
}

/// One VU-style channel: current value, a held peak that sits then falls,
/// the session maximum for auto-scaling, and a history ring.
#[derive(Clone, Debug)]
pub struct Meter {
    pub value: u64,
    pub hold: u64,
    pub hold_at: u64,
    pub max_seen: u64,
    pub floor: u64,
    /// Fixed full scale (e.g. 100 for a percentage, a PCIe link cap); None = auto.
    pub full_scale: Option<u64>,
    pub hist: VecDeque<u64>,
}

impl View for Meter {
    type V = Gauge;

    open spec fn view(&self) -> Gauge {
        Gauge {
            value: self.value,
            hold: self.hold,
            hold_at: self.hold_at,
            max_seen: self.max_seen,
            floor: self.floor,
            full_scale: self.full_scale,
            hist: self.hist@,
        }
    }
}

impl Meter {
    pub fn auto(floor: u64, now: u64) -> (r: Meter)
        ensures
            r@ == Gauge::blank(floor, None, now),
    {
        Meter::new(floor, None, now)
    }

    pub fn fixed(full_scale: u64, now: u64) -> (r: Meter)
        ensures
            r@ == Gauge::blank(full_scale, Some(full_scale), now),
    {
        Meter::new(full_scale, Some(full_scale), now)
    }

    fn new(floor: u64, full_scale: Option<u64>, now: u64) -> (r: Meter)
        ensures
            r@ == Gauge::blank(floor, full_scale, now),
    {
        let r = Meter {
            value: 0,
            hold: 0,
            hold_at: now,
            max_seen: 0,
            floor,
            full_scale,
            hist: VecDeque::with_capacity(HISTORY),
        };
        assert(r.hist@ =~= Seq::<u64>::empty());
        r
    }

    /// Takes a reading; `dt` is the time since the one before.
    pub fn update(&mut self, v: u64, now: u64, dt: u64)
        ensures
            final(self)@ == old(self)@.updated(v, now, dt),
    {
        let v = match self.full_scale {
            Some(fs) => if v > fs {
                fs
            } else {
                v
            },
            None => v,
        };
        self.value = v;
        self.max_seen = micro::max(self.max_seen, v);
        // Hold 1.2 s, then fall at 40 % of full scale per second.
        if v >= self.hold {
            self.hold = v;
            self.hold_at = now;
        } else if micro::since(self.hold_at, now) > HOLD {
            let fall: u64 = micro::scale(self.scale(), dt, 2_500_000_000);
            self.hold = micro::max(self.hold.saturating_sub(fall), v);
        }
        push(&mut self.hist, v, HISTORY);
    }

    pub fn scale(&self) -> (r: u64)
        ensures
            r == self@.scale(),
    {
        match self.full_scale {
            Some(fs) => fs,
            None => micro::max(self.max_seen, self.floor),
        }
    }

    pub fn frac(&self) -> (r: u64)
        ensures
            r == self@.frac(),
            r <= micro::ONE,
    {
        micro::share_of(self.value, micro::max(self.scale(), 1))
    }

    pub fn hold_frac(&self) -> (r: u64)
        ensures
            r == self@.hold_frac(),
            r <= micro::ONE,
    {
        micro::share_of(self.hold, micro::max(self.scale(), 1))
    }
}

/// A peak and the time it was set, after a reading: it sits, then falls at 0.4/s,
/// but not below the reading.
pub open spec fn held(peak: (i64, u64), value: i64, now: u64, dt: u64) -> (i64, u64) {
    let fallen = peak.0 - micro::scaled(dt as int, 4, 10_000);
    if value >= peak.0 {
        (value, now)
    } else if micro::elapsed(peak.1, now) > HOLD {
        (
            if fallen > value {
                fallen as i64
            } else {
                value
            },
            peak.1,
        )
    } else {
        peak
    }
}

/// VU-style peak hold: sits for 1.2 s then falls at 0.4/s.
pub fn hold_peak(peak: (i64, u64), value: i64, now: u64, dt: u64) -> (r: (i64, u64))
    ensures
        r == held(peak, value, now, dt),
        r.0 >= value,
{
    if value >= peak.0 {
        (value, now)
    } else if micro::since(peak.1, now) > HOLD {
        let fallen: i128 = peak.0 as i128 - micro::scale(dt, 4, 10_000) as i128;
        (
            if fallen > value as i128 {
                fallen as i64
            } else {
                value
            },
            peak.1,
        )
    } else {
        peak
    }
}

/// The speculative-decoding statistics, as mathematical values.
#[verifier::ext_equal]
pub struct Drafts {
    pub available: bool,
    pub totals: SpecMetrics,
    pub last: Option<(u64, SpecMetrics)>,
    pub draft_win: Window,
    pub accept_win: Window,
    pub steps_win: Window,
    pub accept_rate: u64,
    pub accept_hist: Seq<u64>,
    pub mean_accepted: u64,
    pub steps_per_sec: u64,
    pub drafts_per_sec: u64,
}

/// The growth of a counter; none where it went back.
pub open spec fn growth(a: u64, b: u64) -> usize {
    less(a, b) as usize
}

impl Drafts {
    pub open spec fn blank() -> Drafts {
        let win = Window { span: 1_500_000_000, samples: Seq::empty() };
        Drafts {
            available: false,
            totals: SpecMetrics {
                draft_tokens: 0,
                accepted: 0,
                verify_steps: 0,
                n_decode: 0,
                tokens_predicted: 0,
            },
            last: None,
            draft_win: win,
            accept_win: win,
            steps_win: win,
            accept_rate: 0,
            accept_hist: Seq::empty(),
            mean_accepted: 0,
            steps_per_sec: 0,
            drafts_per_sec: 0,
        }
    }

    /// The share of all drafted tokens that were accepted.
    pub open spec fn session_accepted(self) -> u64 {
        if self.totals.draft_tokens == 0 {
            0
        } else {
            micro::ratio(self.totals.accepted as int, self.totals.draft_tokens as int)
        }
    }

    /// The share of all generated tokens that were drafted and accepted.
    pub open spec fn session_drafted(self) -> u64 {
        if self.totals.tokens_predicted == 0 {
            0
        } else {
            micro::share(self.totals.accepted as int, self.totals.tokens_predicted as int)
        }
    }

    /// The statistics after a look at the counters. Rates take two looks.
    pub open spec fn observed(self, m: SpecMetrics, now: u64) -> Drafts {
        let d = match self.last {
            None => self,
            Some((t0, prev)) => {
                let draft_win = self.draft_win.pushed(
                    t0,
                    now,
                    growth(m.draft_tokens, prev.draft_tokens),
                );
                let accept_win = self.accept_win.pushed(
                    t0,
                    now,
                    growth(m.accepted, prev.accepted),
                );
                let steps_win = self.steps_win.pushed(
                    t0,
                    now,
                    growth(m.verify_steps, prev.verify_steps),
                );
                let drafts = draft_win.rate(now);
                let acc = accept_win.rate(now);
                let steps = steps_win.rate(now);
                let accept_rate = if drafts > 0 {
                    micro::share(acc as int, drafts as int)
                } else {
                    0
                };
                Drafts {
                    draft_win,
                    accept_win,
                    steps_win,
                    drafts_per_sec: drafts,
                    steps_per_sec: steps,
                    accept_rate,
                    mean_accepted: if steps > 0 {
                        micro::ratio(acc as int, steps as int)
                    } else {
                        0
                    },
                    accept_hist: if drafts > 0 {
                        ringed(self.accept_hist, accept_rate, HISTORY as nat)
                    } else {
                        self.accept_hist
                    },
                    ..self
                }
            },
        };
        Drafts { available: true, totals: m, last: Some((now, m)), ..d }
    }
}

#[derive(Clone, Debug)]
pub struct SpecStats {
    pub available: bool,
    pub totals: SpecMetrics,
    /// When the counters were last looked at, and what they were.
    pub last: Option<(u64, SpecMetrics)>,
    pub draft_win: RateWindow,
    pub accept_win: RateWindow,
    pub steps_win: RateWindow,
    /// Windowed acceptance rate (0..1), and its history for the sparkline.
    pub accept_rate: u64,
    pub accept_hist: VecDeque<u64>,
    /// Windowed mean accepted draft tokens per verification step.
    pub mean_accepted: u64,
    pub steps_per_sec: u64,
    pub drafts_per_sec: u64,
}

impl View for SpecStats {
    type V = Drafts;

    open spec fn view(&self) -> Drafts {
        Drafts {
            available: self.available,
            totals: self.totals,
            last: self.last,
            draft_win: self.draft_win@,
            accept_win: self.accept_win@,
            steps_win: self.steps_win@,
            accept_rate: self.accept_rate,
            accept_hist: self.accept_hist@,
            mean_accepted: self.mean_accepted,
            steps_per_sec: self.steps_per_sec,
            drafts_per_sec: self.drafts_per_sec,
        }
    }
}

impl SpecStats {
    pub fn new() -> (r: SpecStats)
        ensures
            r@ == Drafts::blank(),
    {
        let span: u64 = 1500 * micro::MILLISECOND;
        let r = SpecStats {
            available: false,
            totals: SpecMetrics::default(),
            last: None,
            draft_win: RateWindow::new(span),
            accept_win: RateWindow::new(span),
            steps_win: RateWindow::new(span),
            accept_rate: 0,
            accept_hist: VecDeque::with_capacity(HISTORY),
            mean_accepted: 0,
            steps_per_sec: 0,
            drafts_per_sec: 0,
        };
        assert(r.accept_hist@ =~= Seq::<u64>::empty());
        r
    }

    /// Session-wide acceptance rate from the cumulative counters.
    pub fn session_accept_rate(&self) -> (r: u64)
        ensures
            r == self@.session_accepted(),
            r == (if self.totals.draft_tokens == 0 {
                0
            } else {
                micro::ratio(self.totals.accepted as int, self.totals.draft_tokens as int)
            }),
    {
        if self.totals.draft_tokens == 0 {
            0
        } else {
            micro::ratio_of(self.totals.accepted, self.totals.draft_tokens)
        }
    }

    /// Fraction of generated tokens that came from accepted drafts.
    pub fn session_draft_share(&self) -> (r: u64)
        ensures
            r == self@.session_drafted(),
            r == (if self.totals.tokens_predicted == 0 {
                0
            } else {
                micro::share(self.totals.accepted as int, self.totals.tokens_predicted as int)
            }),
            r <= micro::ONE,
    {
        if self.totals.tokens_predicted == 0 {
            0
        } else {
            micro::share_of(self.totals.accepted, self.totals.tokens_predicted)
        }
    }

    pub fn observe(&mut self, m: &SpecMetrics, now: u64)
        ensures
            final(self)@ == old(self)@.observed(*m, now),
    {
        self.available = true;
        if let Some((t0, prev)) = self.last {
            self.draft_win.push(
                t0,
                now,
                m.draft_tokens.saturating_sub(prev.draft_tokens) as usize,
            );
            self.accept_win.push(t0, now, m.accepted.saturating_sub(prev.accepted) as usize);
            self.steps_win.push(
                t0,
                now,
                m.verify_steps.saturating_sub(prev.verify_steps) as usize,
            );
            let drafts: u64 = self.draft_win.rate(now);
            let acc: u64 = self.accept_win.rate(now);
            let steps: u64 = self.steps_win.rate(now);
            self.drafts_per_sec = drafts;
            self.steps_per_sec = steps;
            self.accept_rate = if drafts > 0 {
                micro::share_of(acc, drafts)
            } else {
                0
            };
            self.mean_accepted = if steps > 0 {
                micro::ratio_of(acc, steps)
            } else {
                0
            };
            // Record only while drafting so the sparkline is a real trace.
            if drafts > 0 {
                push(&mut self.accept_hist, self.accept_rate, HISTORY);
            }
        }
        self.totals = *m;
        self.last = Some((now, *m));
    }
}

/// Where the model's bytes sit, from the GGUF tensor table plus VRAM use.
#[derive(Clone, Copy, Debug, PartialEq, Eq, Structural)]
pub struct WeightLayout {
    pub known: bool,
    pub total_bytes: u64,
    /// Bytes touched per weight read (MoE: routed experts only, no embedding).
    pub active_bytes: u64,
    /// Weights that did not fit in VRAM (estimate: file size minus per-GPU
    /// weight share), read from system RAM by the CPU every step.
    pub cpu_bytes: u64,
    /// llama.cpp `--ubatch-size` (weights are read once per micro-batch in prefill).
    pub ubatch: usize,
}

impl Default for WeightLayout {
    fn default() -> (r: WeightLayout)
        ensures
            r == WeightLayout::unknown(0),
    {
        WeightLayout { known: false, total_bytes: 0, active_bytes: 0, cpu_bytes: 0, ubatch: 0 }
    }
}

impl WeightLayout {
    /// A layout of which nothing but the micro-batch is known.
    pub open spec fn unknown(ubatch: usize) -> WeightLayout {
        WeightLayout { known: false, total_bytes: 0, active_bytes: 0, cpu_bytes: 0, ubatch }
    }

    /// The active bytes that are part of the total.
    pub open spec fn active_part(self) -> u64 {
        if self.active_bytes > self.total_bytes {
            self.total_bytes
        } else {
            self.active_bytes
        }
    }

    /// The bytes that a step streams from RAM: the CPU side's part of the active
    /// bytes.
    pub open spec fn ram_bytes(self) -> int {
        if self.total_bytes == 0 {
            self.cpu_bytes as int
        } else {
            self.cpu_bytes * self.active_part() / self.total_bytes as int
        }
    }

    /// The bytes that a step streams from VRAM: the rest of the active bytes.
    pub open spec fn vram_bytes(self) -> int {
        if self.active_bytes > self.ram_bytes() {
            self.active_bytes - self.ram_bytes()
        } else {
            0
        }
    }

    /// The share of the weights that a step reads; all of them where nothing is known.
    pub open spec fn active_share(self) -> u64 {
        if self.total_bytes == 0 {
            micro::ONE
        } else {
            micro::share(self.active_bytes as int, self.total_bytes as int)
        }
    }

    /// The share of the weights that a step reads.
    pub fn active_frac(&self) -> (r: u64)
        ensures
            r == self.active_share(),
            r == (if self.total_bytes == 0 {
                micro::ONE
            } else {
                micro::share(self.active_bytes as int, self.total_bytes as int)
            }),
            r <= micro::ONE,
    {
        if self.total_bytes == 0 {
            micro::ONE
        } else {
            micro::share_of(self.active_bytes, self.total_bytes)
        }
    }

    /// Bytes streamed per step from RAM and from VRAM respectively.
    pub fn per_step(&self) -> (r: (u64, u64))
        ensures
            r.0 == self.ram_bytes(),
            r.1 == self.vram_bytes(),
    {
        let cpu_active: u64 = if self.total_bytes == 0 {
            self.cpu_bytes
        } else {
            let part: u64 = if self.active_bytes > self.total_bytes {
                self.total_bytes
            } else {
                self.active_bytes
            };
            proof {
                lemma_scaled_down(self.cpu_bytes as int, part as int, self.total_bytes as int);
            }
            micro::scale(self.cpu_bytes, part, self.total_bytes)
        };
        (cpu_active, self.active_bytes.saturating_sub(cpu_active))
    }
}

proof fn lemma_scaled_down(a: int, b: int, c: int)
    requires
        0 <= a,
        0 <= b <= c,
        0 < c,
    ensures
        0 <= a * b / c <= a,
{
    assert(0 <= a * b <= a * c) by (nonlinear_arith)
        requires
            0 <= a,
            0 <= b <= c,
    ;
    vstd::arithmetic::div_mod::lemma_div_is_ordered(0, a * b, c);
    vstd::arithmetic::div_mod::lemma_div_is_ordered(a * b, a * c, c);
    vstd::arithmetic::div_mod::lemma_div_by_multiple(a, c);
}

/// Every active byte comes from somewhere: where the CPU side is part of the
/// whole, what a step streams from RAM and from VRAM adds up to the active bytes.
pub proof fn streams_add_up(l: WeightLayout)
    requires
        l.cpu_bytes <= l.total_bytes,
        l.active_bytes <= l.total_bytes,
    ensures
        l.ram_bytes() + l.vram_bytes() == l.active_bytes,
{
    if l.total_bytes > 0 {
        lemma_scaled_down(l.active_bytes as int, l.cpu_bytes as int, l.total_bytes as int);
        assert(l.cpu_bytes * l.active_bytes == l.active_bytes * l.cpu_bytes) by (nonlinear_arith);
    }
}

/// The memory pipeline, as mathematical values.
#[verifier::ext_equal]
pub struct Pipeline {
    pub last_host: Option<(u64, Host)>,
    pub host: Host,
    pub host_seen: bool,
    pub disk: Gauge,
    pub proc_disk_mb_s: u64,
    pub majflt_per_s: u64,
    pub ram: Gauge,
    pub pcie_rx: Seq<Gauge>,
    pub pcie_tx: Seq<u64>,
    pub vram_busy: Seq<Gauge>,
    pub vram: Gauge,
    pub prefill: Gauge,
    pub decode: Gauge,
    pub layout: WeightLayout,
    pub steps_per_s: u64,
}

/// The PCIe lane rate of a generation in MB/s (payload rate after encoding).
pub open spec fn lane_mb_s(gen: u32) -> u64 {
    if gen == 1 {
        250
    } else if gen == 2 {
        500
    } else if gen == 3 {
        985
    } else if gen == 4 {
        1969
    } else if gen == 5 {
        3938
    } else {
        7877
    }
}

/// The ceiling of a link in millionths of MB/s, where the link is known.
pub open spec fn link_cap(gen: u32, width: u32) -> Option<u64> {
    if gen == 0 || width == 0 {
        None
    } else {
        Some(micro::capped(lane_mb_s(gen) * width * micro::ONE))
    }
}

/// PCIe link ceiling in MB/s for a generation and lane count (payload rate
/// after encoding: 0.985 GB/s per lane at gen 3, doubling per generation).
pub fn pcie_link_mb_s(gen: u32, width: u32) -> (r: Option<u64>)
    ensures
        r == link_cap(gen, width),
{
    if gen == 0 || width == 0 {
        return None;
    }
    let per_lane: u64 = if gen == 1 {
        250
    } else if gen == 2 {
        500
    } else if gen == 3 {
        985
    } else if gen == 4 {
        1969
    } else if gen == 5 {
        3938
    } else {
        7877
    };
    Some(micro::cap((per_lane as u128) * (width as u128) * (micro::ONE as u128)))
}

/// Above any link that exists today; used to reject bogus samples when the
/// link generation is unknown. In millionths of MB/s.
pub const PCIE_SANE_MB_S: u64 = 130_000_000_000;

/// The highest PCIe reading that is believed: 5 % above the link's ceiling.
pub open spec fn believed_up_to(full_scale: Option<u64>) -> u64 {
    micro::scaled(
        (match full_scale {
            Some(fs) => fs,
            None => PCIE_SANE_MB_S,
        }) as int,
        105,
        100,
    )
}

/// One more than the highest index among the first `k` cards.
pub open spec fn cards_upto(gpus: Seq<GpuStats>, k: int) -> int
    decreases k,
{
    if k <= 0 {
        0
    } else if gpus[k - 1].index + 1 > cards_upto(gpus, k - 1) {
        gpus[k - 1].index + 1
    } else {
        cards_upto(gpus, k - 1)
    }
}

/// One more than the highest index among the first `k` bus readings.
pub open spec fn buses_upto(list: Seq<(u32, u64, u64)>, k: int) -> int
    decreases k,
{
    if k <= 0 {
        0
    } else if list[k - 1].0 + 1 > buses_upto(list, k - 1) {
        list[k - 1].0 + 1
    } else {
        buses_upto(list, k - 1)
    }
}

/// Every index leaves room for one more card.
pub open spec fn cards_fit(gpus: Seq<GpuStats>) -> bool {
    forall|i: int| 0 <= i < gpus.len() ==> (#[trigger] gpus[i]).index < u32::MAX
}

/// Every index leaves room for one more bus.
pub open spec fn buses_fit(list: Seq<(u32, u64, u64)>) -> bool {
    forall|i: int| 0 <= i < list.len() ==> (#[trigger] list[i]).0 < u32::MAX
}

/// The growth of a counter per second, where both readings are there.
pub open spec fn counter_rate(a: Option<u64>, b: Option<u64>, dt: u64, unit: int) -> u64 {
    match (a, b) {
        (Some(a), Some(b)) => micro::capped(
            less(a, b) * 1_000_000_000_000_000 / (dt as int * unit),
        ),
        _ => 0,
    }
}

fn counter_per_second(a: Option<u64>, b: Option<u64>, dt: u64, unit: u64) -> (r: u64)
    requires
        dt > 0,
        0 < unit <= 1_000_000,
    ensures
        r == counter_rate(a, b, dt, unit as int),
{
    match (a, b) {
        (Some(a), Some(b)) => {
            assert(0 < dt * unit <= u64::MAX * 1_000_000) by (nonlinear_arith)
                requires
                    0 < dt <= u64::MAX,
                    0 < unit <= 1_000_000,
            ;
            micro::cap(
                (a.saturating_sub(b) as u128) * 1_000_000_000_000_000 / ((dt as u128) * (
                unit as u128)),
            )
        },
        _ => 0,
    }
}

impl Pipeline {
    pub open spec fn blank(now: u64) -> Pipeline {
        Pipeline {
            last_host: None,
            host: host::unseen(),
            host_seen: false,
            disk: Gauge::blank(500_000_000, None, now),
            proc_disk_mb_s: 0,
            majflt_per_s: 0,
            ram: Gauge::blank(20_000_000, None, now),
            pcie_rx: Seq::empty(),
            pcie_tx: Seq::empty(),
            vram_busy: Seq::empty(),
            vram: Gauge::blank(100_000_000, None, now),
            prefill: Gauge::blank(100_000_000, None, now),
            decode: Gauge::blank(10_000_000, None, now),
            layout: WeightLayout::unknown(0),
            steps_per_s: 0,
        }
    }

    /// The channels of the cards go together.
    pub open spec fn wf(self) -> bool {
        self.pcie_rx.len() == self.pcie_tx.len() && self.pcie_rx.len() == self.vram_busy.len()
    }

    /// The pipeline with channels for at least `n` cards.
    pub open spec fn grown(self, n: int, now: u64) -> Pipeline {
        let k = self.pcie_rx.len() as int;
        if n <= k {
            self
        } else {
            Pipeline {
                pcie_rx: self.pcie_rx + Seq::new(
                    (n - k) as nat,
                    |i: int| Gauge::blank(1_000_000_000, None, now),
                ),
                pcie_tx: self.pcie_tx + Seq::new((n - k) as nat, |i: int| 0u64),
                vram_busy: self.vram_busy + Seq::new(
                    (n - k) as nat,
                    |i: int| Gauge::blank(100_000_000, Some(100_000_000), now),
                ),
                ..self
            }
        }
    }

    /// The pipeline once the links of the first `k` cards are known.
    pub open spec fn linked(self, gpus: Seq<GpuStats>, k: int) -> Pipeline
        decreases k,
    {
        if k <= 0 {
            self
        } else {
            let before = self.linked(gpus, k - 1);
            let g = gpus[k - 1];
            let i = g.index as int;
            if i < before.pcie_rx.len() {
                Pipeline {
                    pcie_rx: before.pcie_rx.update(
                        i,
                        Gauge {
                            full_scale: link_cap(g.pcie_gen, g.pcie_width),
                            ..before.pcie_rx[i]
                        },
                    ),
                    ..before
                }
            } else {
                before
            }
        }
    }

    /// The pipeline after the first `k` bus readings. A reading above what the
    /// link can carry is dropped.
    pub open spec fn bused(self, list: Seq<(u32, u64, u64)>, k: int, now: u64, dt: u64) -> Pipeline
        decreases k,
    {
        if k <= 0 {
            self
        } else {
            let before = self.bused(list, k - 1, now, dt);
            let (i, rx, tx) = list[k - 1];
            let cap = believed_up_to(before.pcie_rx[i as int].full_scale);
            Pipeline {
                pcie_rx: if rx <= cap {
                    before.pcie_rx.update(
                        i as int,
                        before.pcie_rx[i as int].updated(rx, now, dt),
                    )
                } else {
                    before.pcie_rx
                },
                pcie_tx: if tx <= cap {
                    before.pcie_tx.update(i as int, tx)
                } else {
                    before.pcie_tx
                },
                ..before
            }
        }
    }

    /// The pipeline after a look at the host. Rates take two looks.
    pub open spec fn host_observed(self, s: Host, now: u64) -> Pipeline {
        let p = match self.last_host {
            None => self,
            Some((t0, prev)) => {
                let dt = micro::larger(micro::elapsed(t0, now), 1_000_000);
                let list = s.pcie_mb_s;
                let q = Pipeline {
                    disk: self.disk.updated(
                        counter_rate(s.disk_read_bytes, prev.disk_read_bytes, dt, 1_000_000),
                        now,
                        dt,
                    ),
                    proc_disk_mb_s: counter_rate(
                        s.proc_read_bytes,
                        prev.proc_read_bytes,
                        dt,
                        1_000_000,
                    ),
                    majflt_per_s: counter_rate(s.proc_majflt, prev.proc_majflt, dt, 1),
                    ..self
                };
                q.grown(buses_upto(list, list.len() as int), now).bused(
                    list,
                    list.len() as int,
                    now,
                    dt,
                )
            },
        };
        Pipeline { host_seen: true, host: s, last_host: Some((now, s)), ..p }
    }
}

/// Rates along the weight path: disk → RAM → PCIe → VRAM → prefill → decode.
/// Disk and PCIe come from host counters, the RAM and VRAM weight streams
/// are `bytes per step × steps per second` from the GGUF tensor table.
#[derive(Clone, Debug)]
pub struct BandwidthStats {
    pub last_host: Option<(u64, HostSample)>,
    pub host: HostSample,
    pub host_seen: bool,
    /// System-wide disk reads, MB/s.
    pub disk: Meter,
    /// The inference process's own storage reads, MB/s.
    pub proc_disk_mb_s: u64,
    pub majflt_per_s: u64,
    /// Estimated CPU-side weight stream out of system RAM, GB/s.
    pub ram: Meter,
    /// PCIe host→device per GPU index, MB/s; scale is the link cap when known.
    pub pcie_rx: Vec<Meter>,
    pub pcie_tx: Vec<u64>,
    /// nvidia-smi memory-controller busy %, per GPU index.
    pub vram_busy: Vec<Meter>,
    /// Estimated weight stream out of VRAM across all GPUs, GB/s.
    pub vram: Meter,
    pub prefill: Meter,
    pub decode: Meter,
    /// Latest weight layout the estimates were made from.
    pub layout: WeightLayout,
    /// Weight reads per second: verification steps/s under speculative
    /// decoding, tokens/s otherwise, tokens/ubatch during prefill.
    pub steps_per_s: u64,
}

pub open spec fn gauges(meters: Seq<Meter>) -> Seq<Gauge> {
    Seq::new(meters.len(), |i: int| meters[i]@)
}

impl View for BandwidthStats {
    type V = Pipeline;

    open spec fn view(&self) -> Pipeline {
        Pipeline {
            last_host: match self.last_host {
                Some((t, h)) => Some((t, h@)),
                None => None,
            },
            host: self.host@,
            host_seen: self.host_seen,
            disk: self.disk@,
            proc_disk_mb_s: self.proc_disk_mb_s,
            majflt_per_s: self.majflt_per_s,
            ram: self.ram@,
            pcie_rx: gauges(self.pcie_rx@),
            pcie_tx: self.pcie_tx@,
            vram_busy: gauges(self.vram_busy@),
            vram: self.vram@,
            prefill: self.prefill@,
            decode: self.decode@,
            layout: self.layout,
            steps_per_s: self.steps_per_s,
        }
    }
}

impl BandwidthStats {
    pub fn new(now: u64) -> (r: BandwidthStats)
        ensures
            r@ == Pipeline::blank(now),
            r@.wf(),
    {
        let r = BandwidthStats {
            last_host: None,
            host: HostSample::default(),
            host_seen: false,
            disk: Meter::auto(500 * micro::ONE, now),
            proc_disk_mb_s: 0,
            majflt_per_s: 0,
            ram: Meter::auto(20 * micro::ONE, now),
            pcie_rx: Vec::new(),
            pcie_tx: Vec::new(),
            vram_busy: Vec::new(),
            vram: Meter::auto(100 * micro::ONE, now),
            prefill: Meter::auto(100 * micro::ONE, now),
            decode: Meter::auto(10 * micro::ONE, now),
            layout: WeightLayout::default(),
            steps_per_s: 0,
        };
        proof {
            assert(r@.pcie_rx =~= Seq::<Gauge>::empty());
            assert(r@.pcie_tx =~= Seq::<u64>::empty());
            assert(r@.vram_busy =~= Seq::<Gauge>::empty());
        }
        r
    }

    /// Makes channels for at least `n` cards.
    fn grow(&mut self, n: usize, now: u64)
        requires
            old(self)@.wf(),
        ensures
            final(self)@ == old(self)@.grown(n as int, now),
            final(self)@.wf(),
            final(self)@.pcie_rx.len() >= n,
            final(self)@.pcie_rx.len() >= old(self)@.pcie_rx.len(),
    {
        let ghost start = self@;
        proof {
            assert(start.grown(start.pcie_rx.len() as int, now) == start);
        }
        while self.pcie_rx.len() < n
            invariant
                start == old(self)@,
                start.wf(),
                self@.wf(),
                self@.pcie_rx.len() >= start.pcie_rx.len(),
                self@.pcie_rx.len() <= start.pcie_rx.len() || self@.pcie_rx.len() <= n,
                self@ == start.grown(self@.pcie_rx.len() as int, now),
            decreases n - self.pcie_rx.len(),
        {
            let ghost before = self@;
            let rx = Meter::auto(1000 * micro::ONE, now);
            let busy = Meter::fixed(100 * micro::ONE, now);
            let ghost rx_view = rx@;
            let ghost busy_view = busy@;
            self.pcie_rx.push(rx);
            self.pcie_tx.push(0);
            self.vram_busy.push(busy);
            proof {
                assert(self@.pcie_rx =~= before.pcie_rx.push(rx_view));
                assert(self@.vram_busy =~= before.vram_busy.push(busy_view));
                let next = start.grown(self@.pcie_rx.len() as int, now);
                assert(self@.pcie_rx =~= next.pcie_rx);
                assert(self@.pcie_tx =~= next.pcie_tx);
                assert(self@.vram_busy =~= next.vram_busy);
            }
        }
    }

    /// Makes channels for at least `n` cards, and notes the links of those that
    /// are known.
    fn ensure_gpu(&mut self, n: usize, gpus: &[GpuStats], now: u64)
        requires
            old(self)@.wf(),
        ensures
            final(self)@ == old(self)@.grown(n as int, now).linked(gpus@, gpus@.len() as int),
            final(self)@.wf(),
            final(self)@.pcie_rx.len() >= n,
            final(self)@.pcie_rx.len() >= old(self)@.pcie_rx.len(),
    {
        self.grow(n, now);
        let ghost start = self@;
        let mut k: usize = 0;
        while k < gpus.len()
            invariant
                k <= gpus.len(),
                self@.wf(),
                self@ == start.linked(gpus@, k as int),
                self@.pcie_rx.len() == start.pcie_rx.len(),
            decreases gpus.len() - k,
        {
            let ghost before = self@;
            let g = &gpus[k];
            let i: usize = g.index as usize;
            if i < self.pcie_rx.len() {
                let cap = pcie_link_mb_s(g.pcie_gen, g.pcie_width);
                let ghost was = self.pcie_rx@[i as int]@;
                self.pcie_rx[i].full_scale = cap;
                proof {
                    let now_view = Gauge { full_scale: cap, ..was };
                    assert(self.pcie_rx@[i as int]@ == now_view);
                    assert(self@.pcie_rx =~= before.pcie_rx.update(i as int, now_view));
                }
            }
            k += 1;
        }
    }

    pub fn observe_host(&mut self, s: &HostSample, now: u64)
        requires
            old(self)@.wf(),
            buses_fit(s.pcie_mb_s@),
        ensures
            final(self)@ == old(self)@.host_observed(s@, now),
            final(self)@.wf(),
    {
        let ghost start = self@;
        if self.last_host.is_some() {
            let (t0, prev) = match &self.last_host {
                Some((t, h)) => (*t, h.copy()),
                None => (0, HostSample::default()),
            };
            let dt: u64 = micro::max(micro::since(t0, now), micro::MILLISECOND);
            let disk: u64 = counter_per_second(
                s.disk_read_bytes,
                prev.disk_read_bytes,
                dt,
                1_000_000,
            );
            self.disk.update(disk, now, dt);
            self.proc_disk_mb_s = counter_per_second(
                s.proc_read_bytes,
                prev.proc_read_bytes,
                dt,
                1_000_000,
            );
            self.majflt_per_s = counter_per_second(s.proc_majflt, prev.proc_majflt, dt, 1);
            let n = highest_bus(&s.pcie_mb_s);
            self.grow(n, now);
            let ghost grown = self@;
            let ghost list = s.pcie_mb_s@;
            let mut k: usize = 0;
            while k < s.pcie_mb_s.len()
                invariant
                    k <= s.pcie_mb_s.len(),
                    list == s.pcie_mb_s@,
                    buses_fit(list),
                    n == buses_upto(list, list.len() as int),
                    self@.wf(),
                    self@.pcie_rx.len() >= n,
                    self@ == grown.bused(list, k as int, now, dt),
                decreases s.pcie_mb_s.len() - k,
            {
                let ghost before = self@;
                let (i, rx, tx) = s.pcie_mb_s[k];
                let i: usize = i as usize;
                proof {
                    lemma_bus_below(list, k as int, list.len() as int);
                }
                // dmon occasionally prints a garbage sample (hundreds of GB/s
                // on a gen-3 link); nothing real exceeds the link, so such a
                // sample is dropped rather than shown as a saturated bus.
                let cap: u64 = micro::scale(
                    self.pcie_rx[i].full_scale.unwrap_or(PCIE_SANE_MB_S),
                    105,
                    100,
                );
                if rx <= cap {
                    let ghost was = self.pcie_rx@[i as int]@;
                    self.pcie_rx[i].update(rx, now, dt);
                    assert(self@.pcie_rx =~= before.pcie_rx.update(
                        i as int,
                        was.updated(rx, now, dt),
                    ));
                }
                if tx <= cap {
                    self.pcie_tx.set(i, tx);
                }
                k += 1;
                assert(self@ =~= grown.bused(list, k as int, now, dt));
            }
        }
        self.host_seen = true;
        self.host = s.copy();
        self.last_host = Some((now, s.copy()));
        assert(self@ =~= start.host_observed(s@, now));
    }
}

/// One more than the highest index among bus readings.
fn highest_bus(list: &Vec<(u32, u64, u64)>) -> (r: usize)
    requires
        buses_fit(list@),
    ensures
        r == buses_upto(list@, list@.len() as int),
{
    let mut n: usize = 0;
    let mut k: usize = 0;
    while k < list.len()
        invariant
            k <= list.len(),
            buses_fit(list@),
            n == buses_upto(list@, k as int),
        decreases list.len() - k,
    {
        let i: usize = list[k].0 as usize + 1;
        if i > n {
            n = i;
        }
        k += 1;
    }
    n
}

proof fn lemma_bus_below(list: Seq<(u32, u64, u64)>, i: int, k: int)
    requires
        0 <= i < k <= list.len(),
    ensures
        list[i].0 < buses_upto(list, k),
    decreases k,
{
    if i < k - 1 {
        lemma_bus_below(list, i, k - 1);
    }
}

/// The counters of a sample that the next one is compared with.
#[derive(Clone, Copy, Debug, PartialEq, Eq, Structural)]
pub struct Counters {
    pub id_task: i64,
    pub processing: bool,
    pub decoded: usize,
    pub prompt_processed: usize,
}

/// The counters of a sample.
pub open spec fn counters(s: LiveStats) -> Counters {
    Counters {
        id_task: s.id_task,
        processing: s.processing,
        decoded: s.decoded,
        prompt_processed: s.prompt_processed,
    }
}

/// A sample belongs to another request than the one before: the task changed, the
/// server started processing, or its counter started over.
pub open spec fn is_new_request(prev: Counters, s: LiveStats) -> bool {
    ||| s.id_task != prev.id_task
    ||| (s.processing && !prev.processing)
    ||| (s.processing && s.decoded < prev.decoded)
}

/// The tokens decoded since the sample before. Deltas only make sense within one
/// request.
pub open spec fn decoded_since(prev: Counters, s: LiveStats) -> usize {
    if is_new_request(prev, s) {
        s.decoded
    } else {
        gain(s.decoded, prev.decoded)
    }
}

/// The prompt tokens processed since the sample before.
pub open spec fn prefilled_since(prev: Counters, s: LiveStats) -> usize {
    if is_new_request(prev, s) {
        s.prompt_processed
    } else {
        gain(s.prompt_processed, prev.prompt_processed)
    }
}

/// What a server is doing.
pub open spec fn phase_of(s: LiveStats, d_dec: usize, d_pre: usize) -> Phase {
    if !s.processing {
        Phase::Idle
    } else if d_dec > 0 || (s.decoded > 0 && d_pre == 0) {
        Phase::Decode
    } else {
        Phase::Prefill
    }
}

/// The decode rate that a request tells once it is over: one token less than it
/// decoded, over the time between them. It is told on the sample that carries the
/// tokens, where the server tells that time; else there is none.
pub open spec fn completion_rate(s: LiveStats, d_dec: usize) -> u64 {
    if d_dec > 0 && s.decoded > 1 && s.itl_sum > 0 {
        micro::rate(s.decoded - 1, s.itl_sum as int)
    } else {
        0
    }
}

fn completion_rate_of(s: &LiveStats, d_dec: usize) -> (r: u64)
    ensures
        r == completion_rate(*s, d_dec),
{
    if d_dec > 0 && s.decoded > 1 && s.itl_sum > 0 {
        micro::per_second((s.decoded - 1) as u64, s.itl_sum)
    } else {
        0
    }
}

/// A smoothed rate after a new one: half of the way up, a quarter of the way
/// down; what is below `least` is nothing.
pub open spec fn smoothed(prev: u64, x: u64, least: u64) -> u64 {
    let v = if x > prev {
        prev + (x - prev) / 2
    } else {
        prev - (prev - x) / 4
    };
    if v < least {
        0
    } else {
        v as u64
    }
}

fn smooth(prev: u64, x: u64, least: u64) -> (r: u64)
    ensures
        r == smoothed(prev, x, least),
{
    let v: u64 = if x > prev {
        prev + (x - prev) / 2
    } else {
        prev - (prev - x) / 4
    };
    if v < least {
        0
    } else {
        v
    }
}

/// The trackers' state, as mathematical values.
#[verifier::ext_equal]
pub struct Tracker {
    pub started: u64,
    pub last_sample: Option<(u64, Counters)>,
    pub last_gpu: Option<u64>,
    pub decode_win: Window,
    pub prefill_win: Window,
    pub phase: Phase,
    pub decode_tps: u64,
    pub prefill_tps: u64,
    pub decode_tps_smooth: u64,
    pub prefill_tps_smooth: u64,
    pub peak_decode_tps: u64,
    pub peak_prefill_tps: u64,
    pub decode_hist: Seq<u64>,
    pub prefill_hist: Seq<u64>,
    pub util_hist: Seq<Seq<Single>>,
    pub power_hist: Seq<Seq<Single>>,
    pub temp_hist: Seq<Seq<Single>>,
    pub util_peak: Seq<(i64, u64)>,
    pub power_peak: Seq<(i64, u64)>,
    pub current: Option<RequestRecord>,
    pub history: Seq<RequestRecord>,
    pub session_decoded: u64,
    pub session_prefilled: u64,
    pub session_requests: u64,
    pub finished: u64,
    pub total_power_w: i64,
    pub samples: u64,
    pub poll_ok: bool,
    pub drafts: Drafts,
    pub bw: Pipeline,
}

/// `a + b`, capped.
pub open spec fn plus(a: u64, b: int) -> u64 {
    micro::capped(a + b)
}

/// A request that did anything is worth keeping.
pub open spec fn did_something(r: RequestRecord) -> bool {
    r.decoded != 0 || r.prefill_tokens != 0
}

/// A request once it has ended.
pub open spec fn ended(r: RequestRecord, now: u64) -> RequestRecord {
    RequestRecord { ended: Some(now), ..r }
}

/// The record of the running request after a sample.
pub open spec fn continued(
    r: RequestRecord,
    s: LiveStats,
    now: u64,
    dt: u64,
    d_dec: usize,
    d_pre: usize,
    decode_tps: u64,
) -> RequestRecord {
    RequestRecord {
        prompt_tokens: s.prompt_tokens,
        cached_tokens: s.cache_tokens,
        decoded: if s.decoded > r.decoded {
            s.decoded
        } else {
            r.decoded
        },
        prefill_tokens: if r.prefill_tokens + d_pre > usize::MAX {
            usize::MAX
        } else {
            (r.prefill_tokens + d_pre) as usize
        },
        prefill_nanos: if d_pre > 0 {
            plus(r.prefill_nanos, dt as int)
        } else {
            r.prefill_nanos
        },
        decode_nanos: if d_dec > 0 {
            plus(r.decode_nanos, dt as int)
        } else {
            r.decode_nanos
        },
        peak_decode_tps: if d_dec > 0 {
            micro::larger(r.peak_decode_tps, decode_tps)
        } else {
            r.peak_decode_tps
        },
        first_token: if d_dec > 0 && r.first_token is None {
            Some(now)
        } else {
            r.first_token
        },
        ..r
    }
}

impl Tracker {
    pub open spec fn blank(now: u64) -> Tracker {
        Tracker {
            started: now,
            last_sample: None,
            last_gpu: None,
            decode_win: Window { span: 1_000_000_000, samples: Seq::empty() },
            prefill_win: Window { span: 600_000_000, samples: Seq::empty() },
            phase: Phase::Idle,
            decode_tps: 0,
            prefill_tps: 0,
            decode_tps_smooth: 0,
            prefill_tps_smooth: 0,
            peak_decode_tps: 0,
            peak_prefill_tps: 0,
            decode_hist: Seq::empty(),
            prefill_hist: Seq::empty(),
            util_hist: Seq::empty(),
            power_hist: Seq::empty(),
            temp_hist: Seq::empty(),
            util_peak: Seq::empty(),
            power_peak: Seq::empty(),
            current: None,
            history: Seq::empty(),
            session_decoded: 0,
            session_prefilled: 0,
            session_requests: 0,
            finished: 0,
            total_power_w: 0,
            samples: 0,
            poll_ok: false,
            drafts: Drafts::blank(),
            bw: Pipeline::blank(now),
        }
    }

    /// The channels of the cards go together.
    pub open spec fn wf(self) -> bool {
        &&& self.bw.wf()
        &&& self.util_hist.len() == self.power_hist.len()
        &&& self.util_hist.len() == self.temp_hist.len()
        &&& self.util_hist.len() == self.util_peak.len()
        &&& self.util_hist.len() == self.power_peak.len()
        &&& self.util_hist.len() <= self.bw.pcie_rx.len()
    }

    /// The state once a request is over: kept if it did anything.
    pub open spec fn closed(self, r: RequestRecord, now: u64) -> Tracker {
        if did_something(r) {
            Tracker {
                history: ringed(self.history, ended(r, now), MAX_REQUESTS as nat),
                finished: plus(self.finished, 1),
                ..self
            }
        } else {
            self
        }
    }

    /// The state once another request has begun: the one before is over.
    pub open spec fn opened(self, s: LiveStats, now: u64) -> Tracker {
        let t = match self.current {
            Some(r) => self.closed(r, now),
            None => self,
        };
        Tracker {
            current: Some(RequestRecord::begun(s, now)),
            session_requests: plus(self.session_requests, 1),
            decode_win: self.decode_win.cleared(),
            prefill_win: self.prefill_win.cleared(),
            ..t
        }
    }

    /// The state once the tokens of an interval have been counted. The windows
    /// empty when the server stops, and the decode rate is then the one that the
    /// request tells.
    pub open spec fn rated(
        self,
        s: LiveStats,
        t0: u64,
        now: u64,
        dt: u64,
        d_dec: usize,
        d_pre: usize,
    ) -> Tracker {
        let dw = self.decode_win.pushed(t0, now, d_dec);
        let pw = self.prefill_win.pushed(t0, now, d_pre);
        let decode_win = if s.processing {
            dw
        } else {
            dw.cleared()
        };
        let prefill_win = if s.processing {
            pw
        } else {
            pw.cleared()
        };
        let decode_tps = if s.processing {
            decode_win.rate(now)
        } else {
            completion_rate(s, d_dec)
        };
        let prefill_tps = prefill_win.rate(now);
        Tracker {
            phase: phase_of(s, d_dec, d_pre),
            decode_win,
            prefill_win,
            decode_tps,
            prefill_tps,
            decode_tps_smooth: smoothed(self.decode_tps_smooth, decode_tps, 50_000),
            prefill_tps_smooth: smoothed(self.prefill_tps_smooth, prefill_tps, 500_000),
            peak_decode_tps: micro::larger(self.peak_decode_tps, decode_tps),
            peak_prefill_tps: micro::larger(self.peak_prefill_tps, prefill_tps),
            bw: Pipeline {
                decode: self.bw.decode.updated(decode_tps, now, dt),
                prefill: self.bw.prefill.updated(prefill_tps, now, dt),
                ..self.bw
            },
            decode_hist: ringed(self.decode_hist, decode_tps, HISTORY as nat),
            prefill_hist: ringed(self.prefill_hist, prefill_tps, HISTORY as nat),
            session_decoded: plus(self.session_decoded, d_dec as int),
            session_prefilled: plus(self.session_prefilled, d_pre as int),
            ..self
        }
    }

    /// The state once the running request has been brought up to date, and closed
    /// where the server has stopped.
    pub open spec fn recorded(
        self,
        s: LiveStats,
        now: u64,
        dt: u64,
        d_dec: usize,
        d_pre: usize,
    ) -> Tracker {
        match self.current {
            None => self,
            Some(r) => {
                let c = continued(r, s, now, dt, d_dec, d_pre, self.decode_tps);
                if s.processing {
                    Tracker { current: Some(c), ..self }
                } else {
                    Tracker { current: None, ..self.closed(c, now) }
                }
            },
        }
    }

    /// The state after a sample that follows another one.
    pub open spec fn followed(self, s: LiveStats, t0: u64, prev: Counters, now: u64) -> Tracker {
        let dt = micro::larger(micro::elapsed(t0, now), 1_000_000);
        let d_dec = decoded_since(prev, s);
        let d_pre = prefilled_since(prev, s);
        let o = if is_new_request(prev, s) && s.processing {
            self.opened(s, now)
        } else {
            self
        };
        o.rated(s, t0, now, dt, d_dec, d_pre).recorded(s, now, dt, d_dec, d_pre)
    }

    /// The state after a sample of the server.
    pub open spec fn observed(self, s: LiveStats, now: u64) -> Tracker {
        let t = Tracker { samples: plus(self.samples, 1), poll_ok: true, ..self };
        match self.last_sample {
            None => {
                let u = Tracker { last_sample: Some((now, counters(s))), ..t };
                if s.processing {
                    Tracker {
                        current: Some(RequestRecord::begun(s, now)),
                        session_requests: plus(self.session_requests, 1),
                        ..u
                    }
                } else {
                    u
                }
            },
            Some((t0, prev)) => Tracker {
                last_sample: Some((now, counters(s))),
                ..t.followed(s, t0, prev, now)
            },
        }
    }

    /// The state with channels for at least `n` cards.
    pub open spec fn grown(self, n: int, now: u64) -> Tracker {
        let k = self.util_hist.len() as int;
        if n <= k {
            self
        } else {
            let more = Seq::new((n - k) as nat, |i: int| Seq::<Single>::empty());
            let peaks = Seq::new((n - k) as nat, |i: int| (0i64, now));
            Tracker {
                util_hist: self.util_hist + more,
                power_hist: self.power_hist + more,
                temp_hist: self.temp_hist + more,
                util_peak: self.util_peak + peaks,
                power_peak: self.power_peak + peaks,
                ..self
            }
        }
    }

    /// The state once the first `k` cards have been read.
    pub open spec fn carded(self, gpus: Seq<GpuStats>, k: int, now: u64, dt: u64) -> Tracker
        decreases k,
    {
        if k <= 0 {
            self
        } else {
            let t = self.carded(gpus, k - 1, now, dt);
            let g = gpus[k - 1];
            let i = g.index as int;
            Tracker {
                bw: Pipeline {
                    vram_busy: t.bw.vram_busy.update(
                        i,
                        t.bw.vram_busy[i].updated(g.utilization_mem.level(), now, dt),
                    ),
                    ..t.bw
                },
                util_hist: t.util_hist.update(
                    i,
                    ringed(t.util_hist[i], g.utilization_gpu, HISTORY as nat),
                ),
                power_hist: t.power_hist.update(
                    i,
                    ringed(t.power_hist[i], g.power_watts, HISTORY as nat),
                ),
                temp_hist: t.temp_hist.update(
                    i,
                    ringed(
                        t.temp_hist[i],
                        match g.temperature {
                            Some(c) => c,
                            None => Single { bits: 0 },
                        },
                        HISTORY as nat,
                    ),
                ),
                util_peak: t.util_peak.update(
                    i,
                    held(t.util_peak[i], hundredth_of(g.utilization_gpu.millionths()), now, dt),
                ),
                power_peak: t.power_peak.update(
                    i,
                    held(t.power_peak[i], g.power_share() as i64, now, dt),
                ),
                ..t
            }
        }
    }

    /// The state after a look at the cards.
    pub open spec fn gpu_observed(self, gpus: Seq<GpuStats>, now: u64) -> Tracker {
        let dt = match self.last_gpu {
            None => 200_000_000u64,
            Some(t) => if micro::elapsed(t, now) > 2_000_000_000 {
                2_000_000_000
            } else {
                micro::elapsed(t, now)
            },
        };
        let n = cards_upto(gpus, gpus.len() as int);
        let t = self.grown(n, now);
        let u = Tracker {
            last_gpu: Some(now),
            total_power_w: total_power(gpus),
            bw: t.bw.grown(n, now).linked(gpus, gpus.len() as int),
            ..t
        };
        u.carded(gpus, gpus.len() as int, now, dt)
    }

    /// Weight reads per second: verification steps under speculative decoding,
    /// else tokens; micro-batches during prefill.
    pub open spec fn steps(self, layout: WeightLayout) -> u64 {
        match self.phase {
            Phase::Decode => if self.drafts.available && self.drafts.steps_per_sec > 0 {
                self.drafts.steps_per_sec
            } else {
                self.decode_tps_smooth
            },
            Phase::Prefill => (self.prefill_tps_smooth / (if layout.ubatch > 1 {
                layout.ubatch as u64
            } else {
                1
            })),
            Phase::Idle => 0,
        }
    }

    /// The state once the weight streams have been derived from the step rate, in
    /// GB/s.
    pub open spec fn ticked(self, layout: WeightLayout, now: u64, dt: u64) -> Tracker {
        let steps = self.steps(layout);
        let ram = if layout.known {
            micro::scaled(layout.ram_bytes(), steps as int, 1_000_000_000)
        } else {
            0
        };
        let vram = if layout.known {
            micro::scaled(layout.vram_bytes(), steps as int, 1_000_000_000)
        } else {
            0
        };
        Tracker {
            bw: Pipeline {
                layout,
                steps_per_s: steps,
                ram: self.bw.ram.updated(ram, now, dt),
                vram: self.bw.vram.updated(vram, now, dt),
                ..self.bw
            },
            ..self
        }
    }

    /// How long the tracker has been running.
    pub open spec fn age(self, now: u64) -> u64 {
        micro::elapsed(self.started, now)
    }

    /// The tokens that a joule of all cards generates; none where the cards draw no more
    /// than a watt.
    pub open spec fn tokens_per_energy(self) -> u64 {
        if self.total_power_w > micro::ONE {
            micro::ratio(self.decode_tps_smooth as int, self.total_power_w as int)
        } else {
            0
        }
    }

    /// Rows for the request table: the running request, then the ended ones from
    /// the newest on, `n` in all.
    pub open spec fn recent(self, n: nat) -> Seq<RequestRecord> {
        let live = match self.current {
            Some(c) => seq![c],
            None => Seq::empty(),
        };
        let left = if n > live.len() {
            n - live.len()
        } else {
            0
        };
        live + self.history.reverse().take(if left < self.history.len() {
            left
        } else {
            self.history.len() as int
        })
    }
}

/// A hundredth of a reading.
pub open spec fn hundredth_of(n: i64) -> i64 {
    (n as int / 100) as i64
}

fn hundredth(n: i64) -> (r: i64)
    ensures
        r == hundredth_of(n),
{
    if n >= 0 {
        ((n as u64) / 100) as i64
    } else {
        let below: u64 = (-(n + 1)) as u64;
        -1 - (below / 100) as i64
    }
}

/// A sum, capped on either side.
pub open spec fn capped_signed(n: int) -> i64 {
    if n > i64::MAX {
        i64::MAX
    } else if n < i64::MIN {
        i64::MIN
    } else {
        n as i64
    }
}

/// The power that the first `k` cards draw together.
pub open spec fn power_sum(gpus: Seq<GpuStats>, k: int) -> i64
    decreases k,
{
    if k <= 0 {
        0
    } else {
        capped_signed(power_sum(gpus, k - 1) + gpus[k - 1].power_watts.millionths())
    }
}

/// The power that all cards draw together; none where one of them tells no number.
pub open spec fn total_power(gpus: Seq<GpuStats>) -> i64 {
    if exists|i: int| 0 <= i < gpus.len() && (#[trigger] gpus[i]).power_watts.nan() {
        0
    } else {
        power_sum(gpus, gpus.len() as int)
    }
}

#[derive(Debug)]
pub struct PerfTracker {
    pub started: u64,
    pub last_sample: Option<(u64, Counters)>,
    pub last_gpu: Option<u64>,
    pub decode_win: RateWindow,
    pub prefill_win: RateWindow,
    pub phase: Phase,
    /// Instantaneous (last-interval) rates.
    pub decode_tps: u64,
    pub prefill_tps: u64,
    /// Smoothed rates for the big numerals.
    pub decode_tps_smooth: u64,
    pub prefill_tps_smooth: u64,
    pub peak_decode_tps: u64,
    pub peak_prefill_tps: u64,
    pub decode_hist: VecDeque<u64>,
    pub prefill_hist: VecDeque<u64>,
    pub util_hist: Vec<VecDeque<Single>>,
    pub power_hist: Vec<VecDeque<Single>>,
    pub temp_hist: Vec<VecDeque<Single>>,
    /// Peak-hold markers for VU meters (fraction 0..1, and time set).
    pub util_peak: Vec<(i64, u64)>,
    pub power_peak: Vec<(i64, u64)>,
    pub current: Option<RequestRecord>,
    pub history: VecDeque<RequestRecord>,
    pub session_decoded: u64,
    pub session_prefilled: u64,
    pub session_requests: u64,
    /// Requests pushed to `history` so far; `history` itself is capped.
    pub finished: u64,
    pub total_power_w: i64,
    pub samples: u64,
    pub poll_ok: bool,
    /// Speculative decoding (MTP / draft) — only when `/metrics` is served.
    pub spec: SpecStats,
    /// Memory pipeline meters (`b` view).
    pub bw: BandwidthStats,
}

pub open spec fn rings(v: Seq<VecDeque<Single>>) -> Seq<Seq<Single>> {
    Seq::new(v.len(), |i: int| v[i]@)
}

impl View for PerfTracker {
    type V = Tracker;

    open spec fn view(&self) -> Tracker {
        Tracker {
            started: self.started,
            last_sample: self.last_sample,
            last_gpu: self.last_gpu,
            decode_win: self.decode_win@,
            prefill_win: self.prefill_win@,
            phase: self.phase,
            decode_tps: self.decode_tps,
            prefill_tps: self.prefill_tps,
            decode_tps_smooth: self.decode_tps_smooth,
            prefill_tps_smooth: self.prefill_tps_smooth,
            peak_decode_tps: self.peak_decode_tps,
            peak_prefill_tps: self.peak_prefill_tps,
            decode_hist: self.decode_hist@,
            prefill_hist: self.prefill_hist@,
            util_hist: rings(self.util_hist@),
            power_hist: rings(self.power_hist@),
            temp_hist: rings(self.temp_hist@),
            util_peak: self.util_peak@,
            power_peak: self.power_peak@,
            current: self.current,
            history: self.history@,
            session_decoded: self.session_decoded,
            session_prefilled: self.session_prefilled,
            session_requests: self.session_requests,
            finished: self.finished,
            total_power_w: self.total_power_w,
            samples: self.samples,
            poll_ok: self.poll_ok,
            drafts: self.spec@,
            bw: self.bw@,
        }
    }
}

impl PerfTracker {
    pub fn new(now: u64) -> (r: PerfTracker)
        ensures
            r@ == Tracker::blank(now),
            r@.wf(),
    {
        let r = PerfTracker {
            started: now,
            last_sample: None,
            last_gpu: None,
            decode_win: RateWindow::new(1000 * micro::MILLISECOND),
            prefill_win: RateWindow::new(600 * micro::MILLISECOND),
            phase: Phase::Idle,
            decode_tps: 0,
            prefill_tps: 0,
            decode_tps_smooth: 0,
            prefill_tps_smooth: 0,
            peak_decode_tps: 0,
            peak_prefill_tps: 0,
            decode_hist: VecDeque::with_capacity(HISTORY),
            prefill_hist: VecDeque::with_capacity(HISTORY),
            util_hist: Vec::new(),
            power_hist: Vec::new(),
            temp_hist: Vec::new(),
            util_peak: Vec::new(),
            power_peak: Vec::new(),
            current: None,
            history: VecDeque::with_capacity(MAX_REQUESTS),
            session_decoded: 0,
            session_prefilled: 0,
            session_requests: 0,
            finished: 0,
            total_power_w: 0,
            samples: 0,
            poll_ok: false,
            spec: SpecStats::new(),
            bw: BandwidthStats::new(now),
        };
        assert(r@ =~= Tracker::blank(now));
        r
    }

    pub fn observe_host(&mut self, s: &HostSample, now: u64)
        requires
            old(self)@.wf(),
            buses_fit(s.pcie_mb_s@),
        ensures
            final(self)@ == (Tracker {
                bw: old(self)@.bw.host_observed(s@, now),
                ..old(self)@
            }),
            final(self)@.wf(),
    {
        proof {
            lemma_host_keeps_cards(self@.bw, s@, now);
        }
        self.bw.observe_host(s, now);
    }

    /// Re-derive the RAM / VRAM weight streams from the current step rate.
    /// Called once per frame with the latest weight layout.
    pub fn tick_bandwidth(&mut self, layout: &WeightLayout, now: u64, dt: u64)
        ensures
            final(self)@ == old(self)@.ticked(*layout, now, dt),
            old(self)@.wf() ==> final(self)@.wf(),
    {
        self.bw.layout = *layout;
        let steps: u64 = match self.phase {
            Phase::Decode => if self.spec.available && self.spec.steps_per_sec > 0 {
                self.spec.steps_per_sec
            } else {
                self.decode_tps_smooth
            },
            Phase::Prefill => self.prefill_tps_smooth / (if layout.ubatch > 1 {
                layout.ubatch as u64
            } else {
                1
            }),
            Phase::Idle => 0,
        };
        self.bw.steps_per_s = steps;
        let (ram_b, vram_b) = layout.per_step();
        let ram: u64 = if layout.known {
            micro::scale(ram_b, steps, 1_000_000_000)
        } else {
            0
        };
        let vram: u64 = if layout.known {
            micro::scale(vram_b, steps, 1_000_000_000)
        } else {
            0
        };
        self.bw.ram.update(ram, now, dt);
        self.bw.vram.update(vram, now, dt);
    }

    pub fn observe_spec(&mut self, m: &SpecMetrics, now: u64)
        ensures
            final(self)@ == (Tracker {
                drafts: old(self)@.drafts.observed(*m, now),
                ..old(self)@
            }),
            old(self)@.wf() ==> final(self)@.wf(),
    {
        self.spec.observe(m, now);
    }

    /// How long the tracker has been running, in nanoseconds.
    pub fn uptime(&self, now: u64) -> (r: u64)
        ensures
            r == self@.age(now),
            r == micro::elapsed(self.started, now),
    {
        micro::since(self.started, now)
    }

    /// Tokens generated per joule across all monitored GPUs.
    pub fn tokens_per_joule(&self) -> (r: u64)
        ensures
            r == self@.tokens_per_energy(),
            r == (if self.total_power_w > micro::ONE {
                micro::ratio(self.decode_tps_smooth as int, self.total_power_w as int)
            } else {
                0
            }),
    {
        if self.total_power_w > micro::ONE as i64 {
            micro::ratio_of(self.decode_tps_smooth, self.total_power_w as u64)
        } else {
            0
        }
    }

    /// Ends a request, and keeps it if it did anything.
    fn finish(&mut self, r: RequestRecord, now: u64)
        ensures
            final(self)@ == old(self)@.closed(r, now),
    {
        let mut r = r;
        if r.decoded == 0 && r.prefill_tokens == 0 {
            return;
        }
        r.ended = Some(now);
        push(&mut self.history, r, MAX_REQUESTS);
        self.finished = self.finished.saturating_add(1);
    }

    /// Begins a request; the one before is over.
    fn open(&mut self, s: &LiveStats, now: u64)
        ensures
            final(self)@ == old(self)@.opened(*s, now),
    {
        if let Some(done) = self.current {
            self.finish(done, now);
        }
        self.current = Some(RequestRecord::new(s.id_task, now, s));
        self.session_requests = self.session_requests.saturating_add(1);
        self.decode_win.clear();
        self.prefill_win.clear();
    }

    /// Counts the tokens of an interval.
    fn count(&mut self, s: &LiveStats, t0: u64, now: u64, dt: u64, d_dec: usize, d_pre: usize)
        ensures
            final(self)@ == old(self)@.rated(*s, t0, now, dt, d_dec, d_pre),
    {
        self.phase = if !s.processing {
            Phase::Idle
        } else if d_dec > 0 || (s.decoded > 0 && d_pre == 0) {
            Phase::Decode
        } else {
            Phase::Prefill
        };
        // Windowed rates: steady under bursty speculative decoding, and they
        // fall to zero within a second of the counter stopping.
        self.decode_win.push(t0, now, d_dec);
        self.prefill_win.push(t0, now, d_pre);
        if !s.processing {
            self.decode_win.clear();
            self.prefill_win.clear();
        }
        // Counters that only move on completion move on the sample that empties
        // the window: the request itself then tells its rate.
        self.decode_tps = if s.processing {
            self.decode_win.rate(now)
        } else {
            completion_rate_of(s, d_dec)
        };
        self.prefill_tps = self.prefill_win.rate(now);
        self.decode_tps_smooth = smooth(self.decode_tps_smooth, self.decode_tps, 50_000);
        self.prefill_tps_smooth = smooth(self.prefill_tps_smooth, self.prefill_tps, 500_000);
        self.peak_decode_tps = micro::max(self.peak_decode_tps, self.decode_tps);
        self.peak_prefill_tps = micro::max(self.peak_prefill_tps, self.prefill_tps);
        self.bw.decode.update(self.decode_tps, now, dt);
        self.bw.prefill.update(self.prefill_tps, now, dt);
        push(&mut self.decode_hist, self.decode_tps, HISTORY);
        push(&mut self.prefill_hist, self.prefill_tps, HISTORY);
        self.session_decoded = self.session_decoded.saturating_add(d_dec as u64);
        self.session_prefilled = self.session_prefilled.saturating_add(d_pre as u64);
    }

    /// Brings the running request up to date, and closes it where the server has
    /// stopped.
    fn record(&mut self, s: &LiveStats, now: u64, dt: u64, d_dec: usize, d_pre: usize)
        ensures
            final(self)@ == old(self)@.recorded(*s, now, dt, d_dec, d_pre),
    {
        if let Some(r) = self.current {
            let mut cur = r;
            // The slot can still carry the previous request's prompt size on
            // the first sample, so always take the latest value.
            cur.prompt_tokens = s.prompt_tokens;
            cur.cached_tokens = s.cache_tokens;
            if s.decoded > cur.decoded {
                cur.decoded = s.decoded;
            }
            if d_pre > 0 {
                cur.prefill_tokens = cur.prefill_tokens.saturating_add(d_pre);
                cur.prefill_nanos = cur.prefill_nanos.saturating_add(dt);
            }
            if d_dec > 0 {
                cur.decode_nanos = cur.decode_nanos.saturating_add(dt);
                cur.peak_decode_tps = micro::max(cur.peak_decode_tps, self.decode_tps);
                if cur.first_token.is_none() {
                    cur.first_token = Some(now);
                }
            }
            assert(cur == continued(r, *s, now, dt, d_dec, d_pre, self.decode_tps));
            if s.processing {
                self.current = Some(cur);
            } else {
                self.finish(cur, now);
                self.current = None;
            }
        }
    }

    /// Takes a sample that follows another one.
    fn follow(&mut self, s: &LiveStats, t0: u64, prev: Counters, now: u64)
        ensures
            final(self)@ == old(self)@.followed(*s, t0, prev, now),
    {
        let dt: u64 = micro::max(micro::since(t0, now), micro::MILLISECOND);
        let new_request = s.id_task != prev.id_task || (s.processing && !prev.processing) || (
        s.processing && s.decoded < prev.decoded);
        if new_request && s.processing {
            self.open(s, now);
        }
        // Deltas only make sense within one request.
        let d_dec: usize = if new_request {
            s.decoded
        } else {
            s.decoded.saturating_sub(prev.decoded)
        };
        let d_pre: usize = if new_request {
            s.prompt_processed
        } else {
            s.prompt_processed.saturating_sub(prev.prompt_processed)
        };
        self.count(s, t0, now, dt, d_dec, d_pre);
        self.record(s, now, dt, d_dec, d_pre);
    }

    /// Takes a sample of the server.
    pub fn observe(&mut self, s: &LiveStats, now: u64)
        ensures
            final(self)@ == old(self)@.observed(*s, now),
            old(self)@.wf() ==> final(self)@.wf(),
    {
        self.samples = self.samples.saturating_add(1);
        self.poll_ok = true;
        let this = Counters {
            id_task: s.id_task,
            processing: s.processing,
            decoded: s.decoded,
            prompt_processed: s.prompt_processed,
        };
        match self.last_sample {
            None => {
                self.last_sample = Some((now, this));
                if s.processing {
                    self.current = Some(RequestRecord::new(s.id_task, now, s));
                    self.session_requests = self.session_requests.saturating_add(1);
                }
            },
            Some((t0, prev)) => {
                proof {
                    if self@.wf() {
                        lemma_followed_keeps_cards(self@, *s, t0, prev, now);
                    }
                }
                self.follow(s, t0, prev, now);
                self.last_sample = Some((now, this));
            },
        }
    }

    /// Makes channels for at least `n` cards.
    fn grow(&mut self, n: usize, now: u64)
        requires
            old(self)@.wf(),
        ensures
            final(self)@ == old(self)@.grown(n as int, now),
            final(self)@.util_hist.len() >= n,
            final(self)@.util_hist.len() == final(self)@.power_hist.len(),
            final(self)@.util_hist.len() == final(self)@.temp_hist.len(),
            final(self)@.util_hist.len() == final(self)@.util_peak.len(),
            final(self)@.util_hist.len() == final(self)@.power_peak.len(),
            final(self)@.util_hist.len() <= n || final(self)@.util_hist.len() == old(
                self,
            )@.util_hist.len(),
    {
        let ghost start = self@;
        while self.util_hist.len() < n
            invariant
                start == old(self)@,
                start.wf(),
                self@.util_hist.len() >= start.util_hist.len(),
                self@.util_hist.len() <= n || self@.util_hist.len() == start.util_hist.len(),
                self@.util_hist.len() == self@.power_hist.len(),
                self@.util_hist.len() == self@.temp_hist.len(),
                self@.util_hist.len() == self@.util_peak.len(),
                self@.util_hist.len() == self@.power_peak.len(),
                self@ == start.grown(self@.util_hist.len() as int, now),
            decreases n - self.util_hist.len(),
        {
            let ghost before = self@;
            self.util_hist.push(VecDeque::with_capacity(HISTORY));
            self.power_hist.push(VecDeque::with_capacity(HISTORY));
            self.temp_hist.push(VecDeque::with_capacity(HISTORY));
            self.util_peak.push((0, now));
            self.power_peak.push((0, now));
            proof {
                let none = Seq::<Single>::empty();
                assert(self@.util_hist =~= before.util_hist.push(none));
                assert(self@.power_hist =~= before.power_hist.push(none));
                assert(self@.temp_hist =~= before.temp_hist.push(none));
                assert(self@ =~= start.grown(self@.util_hist.len() as int, now));
            }
        }
    }

    /// Takes a look at the cards.
    pub fn observe_gpu(&mut self, gpus: &[GpuStats], now: u64)
        requires
            old(self)@.wf(),
            cards_fit(gpus@),
        ensures
            final(self)@ == old(self)@.gpu_observed(gpus@, now),
            final(self)@.wf(),
    {
        let ghost start = self@;
        let dt: u64 = match self.last_gpu {
            None => 200 * micro::MILLISECOND,
            Some(t) => {
                let e: u64 = micro::since(t, now);
                if e > 2 * micro::SECOND {
                    2 * micro::SECOND
                } else {
                    e
                }
            },
        };
        let n = highest_card(gpus);
        self.grow(n, now);
        let ghost grown = self@;
        self.last_gpu = Some(now);
        self.total_power_w = drawn(gpus);
        self.bw.ensure_gpu(n, gpus, now);
        let ghost u = self@;
        assert(u =~= (Tracker {
            last_gpu: Some(now),
            total_power_w: total_power(gpus@),
            bw: grown.bw.grown(n as int, now).linked(gpus@, gpus@.len() as int),
            ..grown
        }));
        let mut k: usize = 0;
        while k < gpus.len()
            invariant
                k <= gpus.len(),
                cards_fit(gpus@),
                n == cards_upto(gpus@, gpus@.len() as int),
                self@.wf(),
                self@.util_hist.len() >= n,
                self@ == u.carded(gpus@, k as int, now, dt),
            decreases gpus.len() - k,
        {
            let ghost before = self@;
            let g = &gpus[k];
            let i: usize = g.index as usize;
            proof {
                lemma_card_below(gpus@, k as int, gpus@.len() as int);
            }
            let ghost busy = self.bw.vram_busy@[i as int]@;
            let mem: u64 = g.utilization_mem.to_level();
            self.bw.vram_busy[i].update(mem, now, dt);
            assert(self@.bw.vram_busy =~= before.bw.vram_busy.update(
                i as int,
                busy.updated(mem, now, dt),
            ));
            push(&mut self.util_hist[i], g.utilization_gpu, HISTORY);
            assert(self@.util_hist =~= before.util_hist.update(
                i as int,
                ringed(before.util_hist[i as int], g.utilization_gpu, HISTORY as nat),
            ));
            push(&mut self.power_hist[i], g.power_watts, HISTORY);
            assert(self@.power_hist =~= before.power_hist.update(
                i as int,
                ringed(before.power_hist[i as int], g.power_watts, HISTORY as nat),
            ));
            let temp: Single = match g.temperature {
                Some(c) => c,
                None => Single::zero(),
            };
            push(&mut self.temp_hist[i], temp, HISTORY);
            assert(self@.temp_hist =~= before.temp_hist.update(
                i as int,
                ringed(before.temp_hist[i as int], temp, HISTORY as nat),
            ));
            let util: i64 = hundredth(g.utilization_gpu.to_millionths());
            let util_peak = hold_peak(self.util_peak[i], util, now, dt);
            self.util_peak.set(i, util_peak);
            let power_peak = hold_peak(self.power_peak[i], g.power_frac() as i64, now, dt);
            self.power_peak.set(i, power_peak);
            k += 1;
            assert(self@ =~= u.carded(gpus@, k as int, now, dt));
        }
    }

    /// Rows for the request table, newest first, live request on top.
    pub fn recent_requests(&self, n: usize) -> (r: Vec<RequestRecord>)
        ensures
            r@ == self@.recent(n as nat),
    {
        let mut out: Vec<RequestRecord> = Vec::new();
        if let Some(c) = self.current {
            out.push(c);
        }
        let ghost live = out@;
        let left: usize = n.saturating_sub(out.len());
        let take: usize = if left < self.history.len() {
            left
        } else {
            self.history.len()
        };
        let ghost newest = self.history@.reverse();
        let mut k: usize = 0;
        assert(live + newest.take(0) =~= live);
        while k < take
            invariant
                k <= take <= self.history.len(),
                newest == self.history@.reverse(),
                out@ == live + newest.take(k as int),
            decreases take - k,
        {
            out.push(self.history[self.history.len() - 1 - k]);
            assert(out@ =~= live + newest.take(k + 1));
            k += 1;
        }
        assert(out@ =~= self@.recent(n as nat));
        out
    }
}

/// A sample of the server takes no card's channels away.
proof fn lemma_followed_keeps_cards(t: Tracker, s: LiveStats, t0: u64, prev: Counters, now: u64)
    requires
        t.wf(),
    ensures
        t.followed(s, t0, prev, now).wf(),
{
}

/// One more than the highest index among cards.
pub(crate) fn highest_card(gpus: &[GpuStats]) -> (r: usize)
    requires
        cards_fit(gpus@),
    ensures
        r == cards_upto(gpus@, gpus@.len() as int),
{
    let mut n: usize = 0;
    let mut k: usize = 0;
    while k < gpus.len()
        invariant
            k <= gpus.len(),
            cards_fit(gpus@),
            n == cards_upto(gpus@, k as int),
        decreases gpus.len() - k,
    {
        let i: usize = gpus[k].index as usize + 1;
        if i > n {
            n = i;
        }
        k += 1;
    }
    n
}

/// The power that the cards draw together.
fn drawn(gpus: &[GpuStats]) -> (r: i64)
    ensures
        r == total_power(gpus@),
{
    let mut sum: i64 = 0;
    let mut k: usize = 0;
    while k < gpus.len()
        invariant
            k <= gpus.len(),
            sum == power_sum(gpus@, k as int),
            forall|i: int| 0 <= i < k ==> !(#[trigger] gpus@[i]).power_watts.nan(),
        decreases gpus.len() - k,
    {
        if gpus[k].power_watts.is_nan() {
            assert(gpus@[k as int].power_watts.nan());
            return 0;
        }
        let exact: i128 = sum as i128 + gpus[k].power_watts.to_millionths() as i128;
        sum = if exact > i64::MAX as i128 {
            i64::MAX
        } else if exact < i64::MIN as i128 {
            i64::MIN
        } else {
            exact as i64
        };
        k += 1;
    }
    sum
}

pub(crate) proof fn lemma_card_below(gpus: Seq<GpuStats>, i: int, k: int)
    requires
        0 <= i < k <= gpus.len(),
    ensures
        gpus[i].index < cards_upto(gpus, k),
    decreases k,
{
    if i < k - 1 {
        lemma_card_below(gpus, i, k - 1);
    }
}

proof fn lemma_bused_keeps_cards(
    p: Pipeline,
    list: Seq<(u32, u64, u64)>,
    k: int,
    now: u64,
    dt: u64,
)
    requires
        forall|i: int| 0 <= i < k ==> (#[trigger] list[i]).0 < p.pcie_rx.len(),
    ensures
        p.bused(list, k, now, dt).pcie_rx.len() == p.pcie_rx.len(),
    decreases k,
{
    if k > 0 {
        lemma_bused_keeps_cards(p, list, k - 1, now, dt);
        assert(list[k - 1].0 < p.pcie_rx.len());
    }
}

/// A look at the host takes no card's channels away.
proof fn lemma_host_keeps_cards(p: Pipeline, s: Host, now: u64)
    ensures
        p.host_observed(s, now).pcie_rx.len() >= p.pcie_rx.len(),
{
    if let Some((t0, prev)) = p.last_host {
        let dt = micro::larger(micro::elapsed(t0, now), 1_000_000);
        let list = s.pcie_mb_s;
        let q = Pipeline {
            disk: p.disk.updated(
                counter_rate(s.disk_read_bytes, prev.disk_read_bytes, dt, 1_000_000),
                now,
                dt,
            ),
            proc_disk_mb_s: counter_rate(s.proc_read_bytes, prev.proc_read_bytes, dt, 1_000_000),
            majflt_per_s: counter_rate(s.proc_majflt, prev.proc_majflt, dt, 1),
            ..p
        };
        let g = q.grown(buses_upto(list, list.len() as int), now);
        assert forall|i: int| 0 <= i < list.len() implies (#[trigger] list[i]).0
            < g.pcie_rx.len() by {
            lemma_bus_below(list, i, list.len() as int);
        }
        lemma_bused_keeps_cards(g, list, list.len() as int, now, dt);
    }
}

/// Every channel is sound.
pub open spec fn all_sound(g: Seq<Gauge>) -> bool {
    forall|i: int| 0 <= i < g.len() ==> (#[trigger] g[i]).sound()
}

/// Every history is a ring.
pub open spec fn rings_fit(h: Seq<Seq<Single>>) -> bool {
    forall|i: int| 0 <= i < h.len() ==> (#[trigger] h[i]).len() <= HISTORY
}

impl Pipeline {
    /// Every channel of the pipeline is sound.
    pub open spec fn kept(self) -> bool {
        &&& self.disk.sound()
        &&& self.ram.sound()
        &&& self.vram.sound()
        &&& self.decode.sound()
        &&& self.prefill.sound()
        &&& all_sound(self.pcie_rx)
        &&& all_sound(self.vram_busy)
    }
}

impl Tracker {
    /// What every state of a tracker keeps: rings no longer than they may be,
    /// requests in the history that have ended, peaks no lower than the rates, held
    /// peaks no lower than the values, an acceptance rate that is a share.
    pub open spec fn kept(self) -> bool {
        &&& self.history.len() <= MAX_REQUESTS
        &&& self.history.len() <= self.finished
        &&& forall|i: int|
            0 <= i < self.history.len() ==> (#[trigger] self.history[i]).ended is Some
        &&& forall|i: int| 0 <= i < self.history.len() ==> did_something(#[trigger] self.history[i])
        &&& self.decode_hist.len() <= HISTORY
        &&& self.prefill_hist.len() <= HISTORY
        &&& self.decode_tps <= self.peak_decode_tps
        &&& self.prefill_tps <= self.peak_prefill_tps
        &&& self.bw.kept()
        &&& rings_fit(self.util_hist)
        &&& rings_fit(self.power_hist)
        &&& rings_fit(self.temp_hist)
        &&& self.drafts.accept_hist.len() <= HISTORY
        &&& self.drafts.accept_rate <= micro::ONE
    }
}

/// A new tracker keeps what every tracker keeps.
pub proof fn new_trackers_are_kept(now: u64)
    ensures
        Tracker::blank(now).kept(),
{
}

proof fn lemma_closed_keeps(t: Tracker, r: RequestRecord, now: u64)
    requires
        t.kept(),
    ensures
        t.closed(r, now).kept(),
        t.closed(r, now).history.len() >= t.history.len(),
{
}

/// Every sample keeps it too.
pub proof fn samples_keep_trackers(t: Tracker, s: LiveStats, now: u64)
    requires
        t.kept(),
    ensures
        t.observed(s, now).kept(),
{
    if let Some((t0, prev)) = t.last_sample {
        let u = Tracker { samples: plus(t.samples, 1), poll_ok: true, ..t };
        if let Some(r) = t.current {
            lemma_closed_keeps(u, r, now);
        }
        let dt = micro::larger(micro::elapsed(t0, now), 1_000_000);
        let d_dec = decoded_since(prev, s);
        let d_pre = prefilled_since(prev, s);
        let o = if is_new_request(prev, s) && s.processing {
            u.opened(s, now)
        } else {
            u
        };
        assert(o.kept());
        let q = o.rated(s, t0, now, dt, d_dec, d_pre);
        readings_keep_gauges_sound(o.bw.decode, q.decode_tps, now, dt);
        readings_keep_gauges_sound(o.bw.prefill, q.prefill_tps, now, dt);
        assert(q.kept());
        if let Some(r) = q.current {
            let c = continued(r, s, now, dt, d_dec, d_pre, q.decode_tps);
            lemma_closed_keeps(q, c, now);
        }
    }
}

proof fn lemma_linked_keeps(p: Pipeline, gpus: Seq<GpuStats>, k: int)
    requires
        p.kept(),
        k <= gpus.len(),
    ensures
        p.linked(gpus, k).kept(),
        p.linked(gpus, k).pcie_rx.len() == p.pcie_rx.len(),
        p.linked(gpus, k).pcie_tx == p.pcie_tx,
        p.linked(gpus, k).vram_busy == p.vram_busy,
    decreases k,
{
    if k > 0 {
        lemma_linked_keeps(p, gpus, k - 1);
    }
}

proof fn lemma_bused_keeps(
    p: Pipeline,
    list: Seq<(u32, u64, u64)>,
    k: int,
    now: u64,
    dt: u64,
)
    requires
        p.kept(),
        forall|i: int| 0 <= i < k ==> (#[trigger] list[i]).0 < p.pcie_rx.len(),
    ensures
        p.bused(list, k, now, dt).kept(),
        p.bused(list, k, now, dt).pcie_rx.len() == p.pcie_rx.len(),
    decreases k,
{
    if k > 0 {
        lemma_bused_keeps(p, list, k - 1, now, dt);
        let before = p.bused(list, k - 1, now, dt);
        let (i, rx, tx) = list[k - 1];
        readings_keep_gauges_sound(before.pcie_rx[i as int], rx, now, dt);
    }
}

proof fn lemma_carded_keeps(t: Tracker, gpus: Seq<GpuStats>, k: int, now: u64, dt: u64)
    requires
        t.kept(),
        t.wf(),
        forall|i: int| 0 <= i < k ==> (#[trigger] gpus[i]).index < t.util_hist.len(),
    ensures
        t.carded(gpus, k, now, dt).kept(),
        t.carded(gpus, k, now, dt).wf(),
        t.carded(gpus, k, now, dt).util_hist.len() == t.util_hist.len(),
    decreases k,
{
    if k > 0 {
        lemma_carded_keeps(t, gpus, k - 1, now, dt);
        let u = t.carded(gpus, k - 1, now, dt);
        let g = gpus[k - 1];
        readings_keep_gauges_sound(
            u.bw.vram_busy[g.index as int],
            g.utilization_mem.level(),
            now,
            dt,
        );
    }
}

/// A look at the cards keeps it.
pub proof fn cards_keep_trackers(t: Tracker, gpus: Seq<GpuStats>, now: u64)
    requires
        t.kept(),
        t.wf(),
    ensures
        t.gpu_observed(gpus, now).kept(),
        t.gpu_observed(gpus, now).wf(),
{
    let k = gpus.len() as int;
    let n = cards_upto(gpus, k);
    let grown = t.grown(n, now);
    let bw = grown.bw.grown(n, now);
    lemma_linked_keeps(bw, gpus, k);
    let u = Tracker {
        last_gpu: Some(now),
        total_power_w: total_power(gpus),
        bw: bw.linked(gpus, k),
        ..grown
    };
    assert(u.kept());
    assert(u.wf());
    assert forall|i: int| 0 <= i < k implies (#[trigger] gpus[i]).index < u.util_hist.len() by {
        lemma_card_below(gpus, i, k);
    }
    let dt = match t.last_gpu {
        None => 200_000_000u64,
        Some(t) => if micro::elapsed(t, now) > 2_000_000_000 {
            2_000_000_000
        } else {
            micro::elapsed(t, now)
        },
    };
    lemma_carded_keeps(u, gpus, k, now, dt);
}

/// A look at the host keeps it.
pub proof fn hosts_keep_trackers(t: Tracker, s: Host, now: u64)
    requires
        t.kept(),
    ensures
        (Tracker { bw: t.bw.host_observed(s, now), ..t }).kept(),
{
    if let Some((t0, prev)) = t.bw.last_host {
        let dt = micro::larger(micro::elapsed(t0, now), 1_000_000);
        let list = s.pcie_mb_s;
        let k = list.len() as int;
        let read = counter_rate(s.disk_read_bytes, prev.disk_read_bytes, dt, 1_000_000);
        readings_keep_gauges_sound(t.bw.disk, read, now, dt);
        let q = Pipeline {
            disk: t.bw.disk.updated(read, now, dt),
            proc_disk_mb_s: counter_rate(s.proc_read_bytes, prev.proc_read_bytes, dt, 1_000_000),
            majflt_per_s: counter_rate(s.proc_majflt, prev.proc_majflt, dt, 1),
            ..t.bw
        };
        let g = q.grown(buses_upto(list, k), now);
        assert forall|i: int| 0 <= i < k implies (#[trigger] list[i]).0 < g.pcie_rx.len() by {
            lemma_bus_below(list, i, k);
        }
        lemma_bused_keeps(g, list, k, now, dt);
    }
}

/// A look at the draft counters keeps it.
pub proof fn drafts_keep_trackers(t: Tracker, m: SpecMetrics, now: u64)
    requires
        t.kept(),
    ensures
        (Tracker { drafts: t.drafts.observed(m, now), ..t }).kept(),
{
}

/// A frame keeps it.
pub proof fn frames_keep_trackers(t: Tracker, layout: WeightLayout, now: u64, dt: u64)
    requires
        t.kept(),
    ensures
        t.ticked(layout, now, dt).kept(),
{
    let u = t.ticked(layout, now, dt);
    readings_keep_gauges_sound(t.bw.ram, u.bw.ram.value, now, dt);
    readings_keep_gauges_sound(t.bw.vram, u.bw.vram.value, now, dt);
}

/// A server that stops is idle: its request is over, its prefill rate is zero, and
/// its decode rate is zero but on the sample on which the request tells it. The
/// end of a request waits for no measurement.
pub proof fn a_stopped_server_is_idle(t: Tracker, s: LiveStats, now: u64, t0: u64, prev: Counters)
    requires
        t.last_sample == Some((t0, prev)),
        !s.processing,
    ensures
        t.observed(s, now).current is None,
        t.observed(s, now).phase == Phase::Idle,
        t.observed(s, now).decode_tps == completion_rate(s, decoded_since(prev, s)),
        t.observed(s, now).prefill_tps == 0,
        decoded_since(prev, s) == 0 ==> t.observed(s, now).decode_tps == 0,
        t.current matches Some(r) && did_something(r) ==> t.observed(s, now).history.len() > 0
            && t.observed(s, now).history.last().ended == Some(now),
{
}

/// Counters that only move on completion still give a rate: the sample that ends a
/// request and tells the time between its tokens shows that rate, the session's
/// peak is no lower, and neither is that of the request's record.
pub proof fn completions_tell_their_rate(
    t: Tracker,
    s: LiveStats,
    now: u64,
    t0: u64,
    prev: Counters,
)
    requires
        t.last_sample == Some((t0, prev)),
        !s.processing,
        decoded_since(prev, s) > 0,
        s.decoded > 1,
        s.itl_sum > 0,
    ensures
        ({
            let u = t.observed(s, now);
            let rate = micro::rate(s.decoded - 1, s.itl_sum as int);
            &&& u.decode_tps == rate
            &&& u.peak_decode_tps >= rate
            &&& t.current is Some ==> u.history.len() > 0 && u.history.last().ended == Some(now)
                && u.history.last().peak_decode_tps >= rate
        }),
{
}

/// A running server always has a running request.
pub proof fn a_running_server_has_a_request(t: Tracker, s: LiveStats, now: u64)
    requires
        s.processing,
        t.last_sample matches Some((_, prev)) && prev.processing ==> t.current is Some,
    ensures
        t.observed(s, now).current is Some,
{
}

/// The tokens of a session are the tokens that its samples gained.
pub proof fn sessions_count_every_token(t: Tracker, s: LiveStats, now: u64, t0: u64, prev: Counters)
    requires
        t.last_sample == Some((t0, prev)),
    ensures
        t.observed(s, now).session_decoded == plus(
            t.session_decoded,
            decoded_since(prev, s) as int,
        ),
        t.observed(s, now).session_prefilled == plus(
            t.session_prefilled,
            prefilled_since(prev, s) as int,
        ),
{
}

/// Requests keep their numbers: number `n` of a tracker's finished requests stays
/// at position `history.len() - (finished - n)` as long as the history holds it,
/// and the request that ends is the last one.
pub proof fn requests_keep_their_numbers(t: Tracker, r: RequestRecord, now: u64, n: int)
    requires
        t.kept(),
        did_something(r),
        t.finished < u64::MAX,
        t.closed(r, now).finished - t.closed(r, now).history.len() <= n < t.finished,
    ensures
        ({
            let u = t.closed(r, now);
            &&& u.history[u.history.len() - (u.finished - n)] == t.history[t.history.len() - (
            t.finished - n)]
            &&& u.finished == t.finished + 1
            &&& u.history.last() == ended(r, now)
        }),
{
}

/// The requests that a sample ends: one that did anything, or none.
pub open spec fn ended_by(t: Tracker, s: LiveStats, now: u64) -> Seq<RequestRecord> {
    let u = t.observed(s, now);
    if u.finished == t.finished {
        Seq::empty()
    } else {
        seq![u.history.last()]
    }
}

/// The requests of a list that a history still holds.
pub open spec fn still_held(done: Seq<RequestRecord>) -> Seq<RequestRecord> {
    if done.len() > MAX_REQUESTS {
        done.skip(done.len() - MAX_REQUESTS)
    } else {
        done
    }
}

/// A tracker has finished the requests of a list and holds the latest of them, in
/// the order in which they ended.
pub open spec fn has_finished(t: Tracker, done: Seq<RequestRecord>) -> bool {
    t.finished == done.len() && t.history == still_held(done)
}

/// A history holds the latest requests in the order in which they ended: a sample
/// adds the request that it ends, and takes none away but the oldest.
pub proof fn histories_hold_the_latest(
    t: Tracker,
    done: Seq<RequestRecord>,
    s: LiveStats,
    now: u64,
)
    requires
        has_finished(t, done),
        done.len() < u64::MAX,
    ensures
        has_finished(t.observed(s, now), done + ended_by(t, s, now)),
        ended_by(t, s, now).len() <= 1,
{
    let u = t.observed(s, now);
    if u.finished == t.finished {
        assert(u.history == t.history);
        assert(done + ended_by(t, s, now) =~= done);
    } else {
        let x = u.history.last();
        assert(u.history == ringed(t.history, x, MAX_REQUESTS as nat)) by {
            lemma_one_at_most(t, s, now);
        }
        assert(done + ended_by(t, s, now) =~= done.push(x));
        assert(still_held(done.push(x)) =~= ringed(still_held(done), x, MAX_REQUESTS as nat));
    }
}

proof fn lemma_one_at_most(t: Tracker, s: LiveStats, now: u64)
    requires
        t.finished < u64::MAX,
    ensures
        ({
            let u = t.observed(s, now);
            ||| u.finished == t.finished && u.history == t.history
            ||| u.finished == t.finished + 1 && u.history == ringed(
                t.history,
                u.history.last(),
                MAX_REQUESTS as nat,
            )
        }),
{
}

/// A look at the cards, the host or the draft counters, and a frame, end no
/// request.
pub proof fn only_samples_end_requests(
    t: Tracker,
    gpus: Seq<GpuStats>,
    layout: WeightLayout,
    now: u64,
    dt: u64,
)
    ensures
        t.gpu_observed(gpus, now).finished == t.finished,
        t.gpu_observed(gpus, now).history == t.history,
        t.ticked(layout, now, dt).finished == t.finished,
        t.ticked(layout, now, dt).history == t.history,
{
    let k = gpus.len() as int;
    let n = cards_upto(gpus, k);
    let grown = t.grown(n, now);
    let u = Tracker {
        last_gpu: Some(now),
        total_power_w: total_power(gpus),
        bw: grown.bw.grown(n, now).linked(gpus, k),
        ..grown
    };
    let wait = match t.last_gpu {
        None => 200_000_000u64,
        Some(t) => if micro::elapsed(t, now) > 2_000_000_000 {
            2_000_000_000
        } else {
            micro::elapsed(t, now)
        },
    };
    lemma_carded_ends_none(u, gpus, k, now, wait);
}

proof fn lemma_carded_ends_none(t: Tracker, gpus: Seq<GpuStats>, k: int, now: u64, dt: u64)
    ensures
        t.carded(gpus, k, now, dt).finished == t.finished,
        t.carded(gpus, k, now, dt).history == t.history,
    decreases k,
{
    if k > 0 {
        lemma_carded_ends_none(t, gpus, k - 1, now, dt);
    }
}

/// Nothing has landed recently: once every sample has run out, the rate is zero.
pub proof fn silent_windows_show_nothing(w: Window, now: u64)
    requires
        forall|i: int|
            0 <= i < w.samples.len() ==> micro::elapsed((#[trigger] w.samples[i]).1, now) > w.span,
    ensures
        w.rate(now) == 0,
{
    lemma_none_left(w.samples, now, w.span);
}

proof fn lemma_none_left(samples: Seq<(u64, u64, usize)>, now: u64, span: u64)
    requires
        forall|i: int|
            0 <= i < samples.len() ==> micro::elapsed((#[trigger] samples[i]).1, now) > span,
    ensures
        unexpired(samples, now, span).len() == 0,
    decreases samples.len(),
{
    if samples.len() > 0 {
        let rest = samples.drop_first();
        assert forall|i: int| 0 <= i < rest.len() implies micro::elapsed(
            (#[trigger] rest[i]).1,
            now,
        ) > span by {
            assert(rest[i] == samples[i + 1]);
        }
        lemma_none_left(rest, now, span);
    }
}

/// A window forgets: where every sample has run out, an interval without tokens
/// leaves a rate of zero.
pub proof fn windows_forget(w: Window, from: u64, to: u64)
    requires
        forall|i: int|
            0 <= i < w.samples.len() ==> micro::elapsed((#[trigger] w.samples[i]).1, to) > w.span,
    ensures
        w.pushed(from, to, 0).rate(to) == 0,
{
    lemma_all_expire(w.samples, (from, to, 0), to, w.span);
    reveal_with_fuel(landed, 2);
    let rest = w.pushed(from, to, 0).samples;
    assert(rest =~= seq![(from, to, 0usize)]);
    assert(rest.drop_last() =~= Seq::<(u64, u64, usize)>::empty());
}

proof fn lemma_all_expire(
    samples: Seq<(u64, u64, usize)>,
    last: (u64, u64, usize),
    to: u64,
    span: u64,
)
    requires
        forall|i: int|
            0 <= i < samples.len() ==> micro::elapsed((#[trigger] samples[i]).1, to) > span,
        last.1 == to,
    ensures
        unexpired(samples.push(last), to, span) == seq![last],
    decreases samples.len(),
{
    if samples.len() == 0 {
        assert(samples.push(last) =~= seq![last]);
    } else {
        assert(samples.push(last)[0] == samples[0]);
        let rest = samples.drop_first();
        assert(samples.push(last).drop_first() =~= rest.push(last));
        assert forall|i: int| 0 <= i < rest.len() implies micro::elapsed(
            (#[trigger] rest[i]).1,
            to,
        ) > span by {
            assert(rest[i] == samples[i + 1]);
        }
        lemma_all_expire(rest, last, to, span);
    }
}

} // verus!
