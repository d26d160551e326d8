//! `--log-db`: which rows a session's log still lacks.
use crate::gpu::GpuStats;
use crate::host::Host;
use crate::micro;
use crate::observe::{LiveStats, SpecMetrics};
use crate::perf;
use crate::perf::{RequestRecord, Tracker, WeightLayout};
use std::collections::HashMap;
use vstd::prelude::*;

verus! {

/// What a log has been told so far.
#[derive(Clone, Debug)]
pub struct LogCursor {
    /// When rows were last written.
    pub last: Option<u64>,
    /// The least time between two writes, in nanoseconds.
    pub every: u64,
    /// pid → `PerfTracker::finished` already written.
    pub logged: HashMap<u32, u64>,
}

/// How many requests of a process have been written.
pub open spec fn written(logged: Map<u32, u64>, pid: u32) -> u64 {
    if logged.contains_key(pid) {
        logged[pid]
    } else {
        0
    }
}

/// How many of a process's finished requests are new to a log that has `seen` of
/// them. A rescan can hand the pid a fresh tracker; the count then restarts.
pub open spec fn unwritten(seen: u64, finished: u64) -> u64 {
    if finished < seen {
        finished
    } else {
        (finished - seen) as u64
    }
}

/// The position in a history of `len` requests from which on they are new.
pub open spec fn first_unwritten(seen: u64, finished: u64, len: usize) -> usize {
    let new = unwritten(seen, finished) as usize;
    if new < len {
        (len - new) as usize
    } else {
        0
    }
}

impl LogCursor {
    pub fn new(every: u64) -> (r: LogCursor)
        ensures
            r.last is None,
            r.every == every,
            r.logged@ == Map::<u32, u64>::empty(),
    {
        LogCursor { last: None, every, logged: HashMap::new() }
    }

    /// Whether rows are due.
    pub open spec fn due(self, now: u64) -> bool {
        match self.last {
            Some(t) => micro::elapsed(t, now) >= self.every,
            None => true,
        }
    }

    /// Whether rows are due; if so, the time counts as that of a write.
    pub fn start(&mut self, now: u64) -> (r: bool)
        ensures
            r == old(self).due(now),
            final(self).last == (if r {
                Some(now)
            } else {
                old(self).last
            }),
            final(self).every == old(self).every,
            final(self).logged == old(self).logged,
    {
        if let Some(t) = self.last {
            if micro::since(t, now) < self.every {
                return false;
            }
        }
        self.last = Some(now);
        true
    }

    /// The position in a process's history from which on its requests are to be
    /// written.
    pub fn first_new(&self, pid: u32, finished: u64, history_len: usize) -> (r: usize)
        ensures
            r == first_unwritten(written(self.logged@, pid), finished, history_len),
            r <= history_len,
    {
        broadcast use vstd::std_specs::hash::group_hash_axioms;

        let seen: u64 = match self.logged.get(&pid) {
            Some(n) => *n,
            None => 0,
        };
        let new: usize = if finished < seen {
            finished as usize
        } else {
            (finished - seen) as usize
        };
        history_len.saturating_sub(new)
    }

    /// Notes that all of a process's finished requests have been written.
    pub fn mark(&mut self, pid: u32, finished: u64)
        ensures
            final(self).logged@ == old(self).logged@.insert(pid, finished),
            final(self).last == old(self).last,
            final(self).every == old(self).every,
    {
        broadcast use vstd::std_specs::hash::group_hash_axioms;

        self.logged.insert(pid, finished);
    }
}

/// Each finished request is written once. A history holds the `len` requests that
/// finished last; number `i` of a process is at position `len - (finished - i)`.
/// Where the history still holds all that are new, the requests written are
/// those numbered from `seen` up to `finished`, and a second look writes none.
pub proof fn each_request_is_written_once(seen: u64, finished: u64, len: usize)
    requires
        seen <= finished,
        finished - seen <= len,
        finished - seen <= usize::MAX,
        len <= finished,
    ensures
        finished - (len - first_unwritten(seen, finished, len)) == seen,
        first_unwritten(finished, finished, len) == len,
{
}

/// What can happen to a tracker whose requests are logged.
pub enum Happening {
    Sample(LiveStats),
    Cards(Seq<GpuStats>),
    HostRead(Host),
    Drafts(SpecMetrics),
    Frame(WeightLayout, u64),
    /// Rows were due, and were written.
    Written,
}

/// A tracker and the log of its requests.
pub struct Logged {
    pub tracker: Tracker,
    /// How many finished requests the log counts as written.
    pub seen: u64,
    /// The requests that ended so far, in order.
    pub done: Seq<RequestRecord>,
    /// The requests that were written so far, in order.
    pub rows: Seq<RequestRecord>,
}

impl Logged {
    /// A new tracker and an empty log.
    pub open spec fn start(now: u64) -> Logged {
        Logged {
            tracker: Tracker::blank(now),
            seen: written(Map::empty(), 0),
            done: Seq::empty(),
            rows: Seq::empty(),
        }
    }

    /// What is written now: the history from the first new request on.
    pub open spec fn new_rows(self) -> Seq<RequestRecord> {
        let history = self.tracker.history;
        history.skip(
            first_unwritten(self.seen, self.tracker.finished, history.len() as usize) as int,
        )
    }

    #[verifier::opaque]
    pub open spec fn after(self, now: u64, what: Happening) -> Logged {
        let t = self.tracker;
        match what {
            Happening::Sample(s) => Logged {
                tracker: t.observed(s, now),
                done: self.done + perf::ended_by(t, s, now),
                ..self
            },
            Happening::Cards(gpus) => Logged { tracker: t.gpu_observed(gpus, now), ..self },
            Happening::HostRead(h) => Logged {
                tracker: Tracker { bw: t.bw.host_observed(h, now), ..t },
                ..self
            },
            Happening::Drafts(m) => Logged {
                tracker: Tracker { drafts: t.drafts.observed(m, now), ..t },
                ..self
            },
            Happening::Frame(layout, dt) => Logged { tracker: t.ticked(layout, now, dt), ..self },
            Happening::Written => Logged {
                seen: t.finished,
                rows: self.rows + self.new_rows(),
                ..self
            },
        }
    }

    /// The log holds the requests that it counts as written, each once, in the
    /// order in which they ended.
    pub open spec fn exact(self) -> bool {
        &&& perf::has_finished(self.tracker, self.done)
        &&& self.seen <= self.done.len()
        &&& self.rows == self.done.take(self.seen as int)
    }

    /// The history still holds all that is new.
    pub open spec fn in_time(self) -> bool {
        self.tracker.finished - self.seen <= perf::MAX_REQUESTS
    }
}

/// What a tracker and its log are after the first `n` of some happenings, each with
/// its time.
pub open spec fn logged_after(start: u64, run: Seq<(u64, Happening)>, n: int) -> Logged
    decreases n,
{
    if n <= 0 {
        Logged::start(start)
    } else {
        logged_after(start, run, n - 1).after(run[n - 1].0, run[n - 1].1)
    }
}

proof fn lemma_stays_exact(l: Logged, now: u64, what: Happening)
    requires
        l.exact(),
        l.done.len() < u64::MAX,
        what is Written ==> l.in_time(),
    ensures
        l.after(now, what).exact(),
        l.after(now, what).done.len() <= l.done.len() + 1,
        what is Written ==> l.after(now, what).rows == l.done && l.after(now, what).done == l.done,
{
    reveal(Logged::after);
    let t = l.tracker;
    let next = l.after(now, what);
    match what {
        Happening::Sample(s) => {
            perf::histories_hold_the_latest(t, l.done, s, now);
            assert(next.done.take(l.seen as int) =~= l.done.take(l.seen as int));
        },
        Happening::Cards(gpus) => {
            perf::only_samples_end_requests(t, gpus, WeightLayout::unknown(0), now, 0);
        },
        Happening::Frame(layout, dt) => {
            perf::only_samples_end_requests(t, Seq::empty(), layout, now, dt);
        },
        Happening::Written => {
            let new = l.done.len() - l.seen;
            let held = t.history.len() as int;
            assert(first_unwritten(l.seen, t.finished, held as usize) == held - new);
            assert(l.new_rows() =~= l.done.skip(l.seen as int));
            assert(next.rows =~= l.done);
            assert(l.done.take(l.done.len() as int) =~= l.done);
        },
        _ => {},
    }
}

/// Every finished request is logged once, in the order in which they ended: over
/// any run of a tracker and its log, as long as no more requests end between two
/// writes than a history holds, the rows after a write are exactly the requests
/// that ended so far; between writes they are the first of those.
pub proof fn logs_hold_every_request_once(start: u64, run: Seq<(u64, Happening)>)
    requires
        run.len() < u64::MAX,
        forall|i: int|
            0 <= i < run.len() && (#[trigger] run[i]).1 is Written ==> logged_after(
                start,
                run,
                i,
            ).in_time(),
    ensures
        ({
            let l = logged_after(start, run, run.len() as int);
            &&& l.rows == l.done.take(l.seen as int)
            &&& l.tracker.finished == l.done.len()
            &&& run.len() > 0 && run.last().1 is Written ==> l.rows == l.done && l.rows.len()
                == l.tracker.finished
        }),
{
    lemma_run_stays_exact(start, run, run.len() as int);
    if run.len() > 0 {
        let n = run.len() - 1;
        lemma_run_stays_exact(start, run, n);
        assert(run[n] == run.last());
        lemma_stays_exact(logged_after(start, run, n), run[n].0, run[n].1);
    }
}

proof fn lemma_run_stays_exact(start: u64, run: Seq<(u64, Happening)>, n: int)
    requires
        0 <= n <= run.len() < u64::MAX,
        forall|i: int|
            0 <= i < run.len() && (#[trigger] run[i]).1 is Written ==> logged_after(
                start,
                run,
                i,
            ).in_time(),
    ensures
        logged_after(start, run, n).exact(),
        logged_after(start, run, n).done.len() <= n,
    decreases n,
{
    if n == 0 {
        let l = Logged::start(start);
        assert(perf::still_held(l.done) =~= l.tracker.history);
        assert(l.rows =~= l.done.take(0));
    } else {
        lemma_run_stays_exact(start, run, n - 1);
        assert(run[n - 1].1 is Written ==> logged_after(start, run, n - 1).in_time());
        lemma_stays_exact(logged_after(start, run, n - 1), run[n - 1].0, run[n - 1].1);
    }
}

/// No log asks for more than the history holds, and a fresh tracker's requests
/// are all new.
pub proof fn a_fresh_tracker_is_written_whole(seen: u64, finished: u64, len: usize)
    requires
        finished < seen,
        finished == len,
        finished <= usize::MAX,
    ensures
        first_unwritten(seen, finished, len) == 0,
{
}

/// The row of a finished request. Times are nanoseconds.
#[derive(Clone, Copy, Debug, PartialEq, Eq, Structural)]
pub struct RequestRow {
    /// How long ago the request ended.
    pub ended_ago: u64,
    pub id_task: i64,
    pub prompt_tokens: usize,
    pub cached_tokens: usize,
    pub decoded: usize,
    pub ttft: Option<u64>,
    pub duration: u64,
    pub avg_prefill_tps: u64,
    pub avg_decode_tps: u64,
    pub peak_decode_tps: u64,
}

/// The row of a request.
pub open spec fn row_of(r: RequestRecord, now: u64) -> RequestRow {
    RequestRow {
        ended_ago: match r.ended {
            Some(t) => micro::elapsed(t, now),
            None => 0,
        },
        id_task: r.id_task,
        prompt_tokens: r.prompt_tokens,
        cached_tokens: r.cached_tokens,
        decoded: r.decoded,
        ttft: r.waited(),
        duration: r.lasted(now),
        avg_prefill_tps: r.prefill_average(),
        avg_decode_tps: r.decode_average(),
        peak_decode_tps: r.peak_decode_tps,
    }
}

/// The row of a request.
pub fn request_row(r: &RequestRecord, now: u64) -> (row: RequestRow)
    ensures
        row == row_of(*r, now),
        row == (RequestRow {
            ended_ago: match r.ended {
                Some(t) => micro::elapsed(t, now),
                None => 0,
            },
            id_task: r.id_task,
            prompt_tokens: r.prompt_tokens,
            cached_tokens: r.cached_tokens,
            decoded: r.decoded,
            ttft: match r.first_token {
                Some(t) => Some(micro::elapsed(r.started, t)),
                None => None,
            },
            duration: micro::elapsed(
                r.started,
                match r.ended {
                    Some(t) => t,
                    None => now,
                },
            ),
            avg_prefill_tps: crate::perf::average(r.prefill_tokens, r.prefill_nanos),
            avg_decode_tps: crate::perf::average(r.decoded, r.decode_nanos),
            peak_decode_tps: r.peak_decode_tps,
        }),
{
    RequestRow {
        ended_ago: match r.ended {
            Some(t) => micro::since(t, now),
            None => 0,
        },
        id_task: r.id_task,
        prompt_tokens: r.prompt_tokens,
        cached_tokens: r.cached_tokens,
        decoded: r.decoded,
        ttft: r.ttft(),
        duration: r.duration(now),
        avg_prefill_tps: r.avg_prefill_tps(),
        avg_decode_tps: r.avg_decode_tps(),
        peak_decode_tps: r.peak_decode_tps,
    }
}

} // verus!
