use llm_visuals::dblog::{request_row, LogCursor};
use llm_visuals::observe::LiveStats;
use llm_visuals::perf::PerfTracker;

const MS: u64 = 1_000_000;
const T0: u64 = 1_000_000_000;

fn one_request() -> PerfTracker {
    let mut perf = PerfTracker::new(T0);
    let s = |processing, done, decoded| LiveStats {
        id_task: 7,
        processing,
        prompt_tokens: 100,
        prompt_processed: done,
        decoded,
        ..Default::default()
    };
    perf.observe(&s(true, 0, 0), T0);
    perf.observe(&s(true, 100, 0), T0 + 200 * MS);
    perf.observe(&s(true, 100, 10), T0 + 400 * MS);
    perf.observe(&s(false, 100, 10), T0 + 600 * MS);
    perf
}

#[test]
fn requests_are_written_once() {
    let perf = one_request();
    assert_eq!(perf.finished, 1);
    let now = T0 + 700 * MS;
    let mut log = LogCursor::new(0);
    let mut rows = Vec::new();
    for _ in 0..2 {
        assert!(log.start(now));
        for i in log.first_new(4242, perf.finished, perf.history.len())..perf.history.len() {
            rows.push(request_row(&perf.history[i], now));
        }
        log.mark(4242, perf.finished);
    }
    assert_eq!(rows.len(), 1);
    let r = rows[0];
    assert_eq!(r.decoded, 10);
    assert_eq!(r.id_task, 7);
    assert_eq!(r.prompt_tokens, 100);
    assert_eq!(r.ended_ago, 100 * MS);
    assert_eq!(r.ttft, Some(400 * MS));
    assert_eq!(r.duration, 600 * MS);
    assert_eq!(r.avg_prefill_tps, 500_000_000);
    assert_eq!(r.avg_decode_tps, 50_000_000);
}

#[test]
fn writes_keep_their_distance() {
    let mut log = LogCursor::new(1000 * MS);
    assert!(log.start(T0));
    assert!(!log.start(T0 + 999 * MS));
    assert!(log.start(T0 + 1000 * MS));
    assert!(!log.start(T0 + 1001 * MS));
}

#[test]
fn a_fresh_tracker_starts_over() {
    let mut log = LogCursor::new(0);
    log.mark(1, 40);
    log.mark(2, 3);
    log.mark(1, 50);
    // Nine finished since; the history still holds 32 requests.
    assert_eq!(log.first_new(1, 59, 32), 23);
    assert_eq!(log.first_new(1, 50, 32), 32);
    assert_eq!(log.first_new(1, 100, 32), 0);
    assert_eq!(log.first_new(1, 5, 5), 0);
    assert_eq!(log.first_new(2, 4, 4), 3);
    assert_eq!(log.first_new(3, 4, 4), 0);
}

#[test]
fn every_request_is_written_once_over_many_ticks() {
    let mut perf = PerfTracker::new(T0);
    let mut log = LogCursor::new(1000 * MS);
    let mut written: Vec<i64> = Vec::new();
    let mut now = T0;
    for task in 0..20i64 {
        for (processing, decoded) in [(true, 0), (true, 5), (false, 5)] {
            perf.observe(
                &LiveStats {
                    id_task: task,
                    processing,
                    prompt_tokens: 10,
                    prompt_processed: 10,
                    decoded,
                    ..Default::default()
                },
                now,
            );
            if log.start(now) {
                let n = perf.history.len();
                for i in log.first_new(4242, perf.finished, n)..n {
                    written.push(request_row(&perf.history[i], now).id_task);
                }
                log.mark(4242, perf.finished);
            }
            now += 150 * MS;
        }
    }
    let expected: Vec<i64> = (0..written.len() as i64).collect();
    assert_eq!(written, expected);
    assert!(written.len() >= 17, "only the latest can be missing: {}", written.len());
}
