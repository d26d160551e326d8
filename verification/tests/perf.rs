use llm_visuals::float::Single;
use llm_visuals::gpu::GpuStats;
use llm_visuals::host::HostSample;
use llm_visuals::observe::{LiveStats, SpecMetrics};
use llm_visuals::perf::{
    hold_peak, pcie_link_mb_s, Meter, PerfTracker, Phase, RateWindow, WeightLayout, HISTORY,
    MAX_REQUESTS,
};

const MS: u64 = 1_000_000;
const T0: u64 = 7_000_000_000;

fn micros(x: f32) -> u64 {
    (x as f64 * 1e6).round() as u64
}

fn units(n: u64) -> f32 {
    (n as f64 / 1e6) as f32
}

fn reading(x: f32) -> i64 {
    (x as f64 * 1e6).round() as i64
}

fn single(x: f32) -> Single {
    Single::from_bits(x.to_bits())
}

fn level(n: i64) -> f32 {
    (n as f64 / 1e6) as f32
}

fn slot(id: i64, processing: bool, prompt: usize, processed: usize, decoded: usize) -> LiveStats {
    LiveStats {
        ctx_max: 4096,
        prompt_tokens: prompt,
        prompt_processed: processed,
        decoded,
        processing,
        id_task: id,
        ..Default::default()
    }
}

#[test]
fn derives_rates_and_request_record() {
    let mut p = PerfTracker::new(T0);
    let t0 = T0;
    let step = 200 * MS;
    p.observe(&slot(1, false, 0, 0, 0), t0);
    p.observe(&slot(2, true, 1000, 200, 0), t0 + step);
    assert_eq!(p.phase, Phase::Prefill);
    p.observe(&slot(2, true, 1000, 600, 0), t0 + step * 2);
    assert!((units(p.prefill_tps) - 1500.0).abs() < 1.0, "prefill {}", p.prefill_tps);
    p.observe(&slot(2, true, 1000, 1000, 0), t0 + step * 3);
    p.observe(&slot(2, true, 1000, 1000, 10), t0 + step * 4);
    assert_eq!(p.phase, Phase::Decode);
    p.observe(&slot(2, true, 1000, 1000, 20), t0 + step * 5);
    // 20 tokens landed over the last second of samples.
    assert!((units(p.decode_tps) - 20.0).abs() < 0.5, "decode {}", p.decode_tps);
    p.observe(&slot(2, false, 1000, 0, 20), t0 + step * 6);
    assert_eq!(p.phase, Phase::Idle);
    assert!(p.current.is_none());
    let r = p.history.back().expect("finished request");
    assert_eq!(r.decoded, 20);
    assert_eq!(r.prefill_tokens, 1000);
    assert!(r.ttft().is_some());
    assert!(units(r.avg_decode_tps()) > 40.0);
    assert_eq!(p.session_decoded, 20);
    assert_eq!(p.session_requests, 1);
}

#[test]
fn rate_window_smooths_bursts_and_decays() {
    let t0 = T0;
    let mut w = RateWindow::new(1000 * MS);
    let ms = |m: u64| t0 + m * MS;
    for (i, n) in [8, 0, 8, 0, 8].iter().enumerate() {
        let a = i as u64 * 200;
        w.push(ms(a), ms(a + 200), *n);
    }
    // 24 tokens over the full second, not 40 during the burst samples.
    assert!((units(w.rate(ms(1000))) - 24.0).abs() < 0.1, "{}", w.rate(ms(1000)));
    for i in 5..12u64 {
        w.push(ms(i * 200), ms(i * 200 + 200), 0);
    }
    assert_eq!(units(w.rate(ms(2400))), 0.0);
}

#[test]
fn spec_stats_windowed_acceptance() {
    let mut p = PerfTracker::new(T0);
    let t0 = T0;
    let m = |d: u64, a: u64, s: u64| SpecMetrics {
        draft_tokens: d,
        accepted: a,
        verify_steps: s,
        n_decode: 0,
        tokens_predicted: a + s,
    };
    p.observe_spec(&m(100, 60, 100), t0);
    p.observe_spec(&m(120, 75, 120), t0 + 200 * MS);
    p.observe_spec(&m(140, 85, 140), t0 + 400 * MS);
    assert!(p.spec.available);
    // 25 accepted of 40 drafted in the window.
    assert!((units(p.spec.accept_rate) - 0.625).abs() < 1e-3, "{}", p.spec.accept_rate);
    assert!((units(p.spec.mean_accepted) - 0.625).abs() < 1e-3);
    assert!((units(p.spec.session_accept_rate()) - 85.0 / 140.0).abs() < 1e-4);
    assert_eq!(p.spec.accept_hist.len(), 2);
}

#[test]
fn meter_holds_peak_and_autoscales() {
    let t0 = T0;
    let mut m = Meter::auto(micros(10.0), t0);
    assert_eq!(units(m.scale()), 10.0);
    m.update(micros(40.0), t0, 200 * MS);
    assert_eq!(units(m.scale()), 40.0);
    assert_eq!(units(m.frac()), 1.0);
    m.update(micros(4.0), t0 + 500 * MS, 200 * MS);
    assert_eq!(units(m.hold), 40.0, "held");
    m.update(micros(4.0), t0 + 2000 * MS, 500 * MS);
    assert!(units(m.hold) < 40.0 && units(m.hold) >= 4.0, "falls to {}", m.hold);
    let f = Meter::fixed(micros(100.0), t0);
    assert_eq!(units(f.scale()), 100.0);
    assert_eq!(pcie_link_mb_s(3, 16).map(units), Some(985.0 * 16.0));
    assert_eq!(pcie_link_mb_s(0, 16).map(units), None);
}

#[test]
fn host_rates_from_counter_deltas() {
    let mut p = PerfTracker::new(T0);
    let t0 = T0;
    let s = |disk: u64, proc_rd: u64, flt: u64, rx: f32| HostSample {
        disk_read_bytes: Some(disk),
        proc_read_bytes: Some(proc_rd),
        proc_majflt: Some(flt),
        pcie_mb_s: vec![(0, micros(rx), micros(1.0)), (1, micros(rx / 2.0), micros(0.0))],
        pcie_ok: true,
        ..Default::default()
    };
    p.observe_host(&s(1_000_000_000, 500_000_000, 100, 10.0), t0);
    p.observe_host(&s(1_200_000_000, 550_000_000, 150, 800.0), t0 + 200 * MS);
    assert!((units(p.bw.disk.value) - 1000.0).abs() < 1.0, "{}", p.bw.disk.value);
    assert!((units(p.bw.proc_disk_mb_s) - 250.0).abs() < 1.0);
    assert!((units(p.bw.majflt_per_s) - 250.0).abs() < 1.0);
    assert_eq!(p.bw.pcie_rx.len(), 2);
    assert_eq!(units(p.bw.pcie_rx[0].value), 800.0);
    assert_eq!(units(p.bw.pcie_rx[1].value), 400.0);
    // A garbage dmon sample is dropped: the meter keeps its last reading.
    p.observe_host(&s(1_200_000_000, 550_000_000, 150, 209_688.0), t0 + 400 * MS);
    assert_eq!(units(p.bw.pcie_rx[0].value), 800.0);
    assert_eq!(units(p.bw.pcie_rx[0].hold), 800.0);
    p.bw.pcie_rx[0].full_scale = Some(micros(7_880.0));
    p.observe_host(&s(1_200_000_000, 550_000_000, 150, 9_000.0), t0 + 600 * MS);
    assert_eq!(units(p.bw.pcie_rx[0].value), 800.0, "above the link cap: dropped");
    p.observe_host(&s(1_200_000_000, 550_000_000, 150, 7_000.0), t0 + 800 * MS);
    assert_eq!(units(p.bw.pcie_rx[0].value), 7_000.0);
}

#[test]
fn weight_streams_follow_step_rate() {
    let mut p = PerfTracker::new(T0);
    let t0 = T0;
    let step = 200 * MS;
    p.observe(&slot(1, true, 100, 100, 0), t0);
    p.observe(&slot(1, true, 100, 100, 10), t0 + step);
    p.observe(&slot(1, true, 100, 100, 20), t0 + step * 2);
    assert_eq!(p.phase, Phase::Decode);
    let layout = WeightLayout {
        known: true,
        total_bytes: 20_000_000_000,
        active_bytes: 2_500_000_000,
        cpu_bytes: 8_000_000_000,
        ubatch: 512,
    };
    // 8 GB on the CPU side × 12.5 % active = 1 GB per step from RAM,
    // the other 1.5 GB per step from VRAM.
    let (ram_b, vram_b) = layout.per_step();
    assert!((ram_b as f32 - 1.0e9).abs() < 1.0);
    assert!((vram_b as f32 - 1.5e9).abs() < 1.0);
    p.tick_bandwidth(&layout, t0 + step * 2, 200 * MS);
    let steps = units(p.bw.steps_per_s);
    assert!(steps > 0.0);
    assert!((units(p.bw.ram.value) - steps).abs() < 1e-3, "ram {} steps {}", p.bw.ram.value, steps);
    assert!((units(p.bw.vram.value) - 1.5 * steps).abs() < 1e-3);
}

#[test]
fn peak_hold_decays_after_delay() {
    let now = T0;
    let mut pk = (reading(0.0), now);
    pk = hold_peak(pk, reading(0.9), now, 200 * MS);
    assert_eq!(level(pk.0), 0.9);
    pk = hold_peak(pk, reading(0.2), now + 500 * MS, 200 * MS);
    assert_eq!(level(pk.0), 0.9, "held");
    pk = hold_peak(pk, reading(0.2), now + 2000 * MS, 500 * MS);
    assert!(level(pk.0) < 0.9 && level(pk.0) >= 0.2, "decayed to {}", pk.0);
    // 0.4 of full scale per second, for half a second.
    assert_eq!(pk.0, 700_000);
    // A peak follows a reading below zero too.
    pk = hold_peak((0, now), reading(-0.3), now + 2000 * MS, 1000 * MS);
    assert_eq!(pk.0, -300_000);
    assert_eq!(hold_peak((0, now), reading(-0.3), now + 1000 * MS, 1000 * MS).0, 0);
}

#[test]
fn held_peaks_fall_by_the_scale() {
    let mut m = Meter::fixed(micros(100.0), T0);
    m.update(micros(250.0), T0, 200 * MS);
    assert_eq!(units(m.value), 100.0, "no more than the full scale");
    m.update(micros(10.0), T0 + 1200 * MS, 500 * MS);
    assert_eq!(units(m.hold), 100.0, "sits for 1.2 s");
    m.update(micros(10.0), T0 + 1201 * MS, 500 * MS);
    assert_eq!(units(m.hold), 80.0);
    assert_eq!(m.hold_frac(), 800_000);
    m.update(micros(10.0), T0 + 5000 * MS, 5000 * MS);
    assert_eq!(units(m.hold), 10.0, "not below the value");
    assert_eq!(m.frac(), 100_000);
    for i in 0..500u64 {
        m.update(i, T0 + 6000 * MS, MS);
    }
    assert_eq!(m.hist.len(), HISTORY);
    assert_eq!(m.hist.back(), Some(&499));
    assert_eq!(m.hist.front(), Some(&(500 - HISTORY as u64)));
}

#[test]
fn a_changed_task_opens_a_request() {
    let mut p = PerfTracker::new(T0);
    p.observe(&slot(1, true, 10, 10, 5), T0);
    assert_eq!(p.session_requests, 1);
    assert!(p.current.unwrap().is_live());
    p.observe(&slot(2, true, 10, 10, 3), T0 + 100 * MS);
    assert_eq!(p.session_requests, 2);
    assert_eq!(p.finished, 1);
    assert_eq!(p.history[0].id_task, 1);
    assert_eq!(p.history[0].ended, Some(T0 + 100 * MS));
    assert!(!p.history[0].is_live());
    // The counter started over: the same task, another request.
    p.observe(&slot(2, true, 10, 10, 1), T0 + 200 * MS);
    assert_eq!(p.session_requests, 3);
    let ids: Vec<i64> = p.recent_requests(2).iter().map(|r| r.id_task).collect();
    assert_eq!(ids, vec![2, 2]);
    assert_eq!(p.recent_requests(0).len(), 1);
    assert_eq!(p.recent_requests(9).len(), 3);
}

#[test]
fn requests_that_did_nothing_are_dropped() {
    let mut p = PerfTracker::new(T0);
    p.observe(&slot(1, true, 10, 0, 0), T0);
    p.observe(&slot(1, false, 10, 0, 0), T0 + 100 * MS);
    assert!(p.current.is_none());
    assert_eq!(p.finished, 0);
    assert!(p.history.is_empty());
}

#[test]
fn the_history_is_capped() {
    let mut p = PerfTracker::new(T0);
    let mut t = T0;
    for id in 0..40 {
        t += 100 * MS;
        p.observe(&slot(id, true, 1, 1, 1), t);
        t += 100 * MS;
        p.observe(&slot(id, false, 1, 1, 1), t);
    }
    assert_eq!(p.finished, 40);
    assert_eq!(p.history.len(), MAX_REQUESTS);
    assert_eq!(p.history.back().unwrap().id_task, 39);
    assert_eq!(p.history.front().unwrap().id_task, 8);
    assert_eq!(p.samples, 80);
    assert!(p.poll_ok);
}

#[test]
fn averages_need_time() {
    let mut p = PerfTracker::new(T0);
    p.observe(&slot(1, true, 100, 0, 0), T0);
    p.observe(&slot(1, true, 100, 60, 0), T0 + 50 * MS);
    assert_eq!(p.current.unwrap().avg_prefill_tps(), 0);
    p.observe(&slot(1, true, 100, 100, 0), T0 + 100 * MS);
    assert_eq!(units(p.current.unwrap().avg_prefill_tps()), 1000.0);
    p.observe(&slot(1, true, 100, 100, 4), T0 + 200 * MS);
    let r = p.current.unwrap();
    assert_eq!(r.ttft(), Some(200 * MS));
    assert_eq!(r.duration(T0 + 300 * MS), 300 * MS);
    assert_eq!(units(r.avg_decode_tps()), 40.0);
    assert_eq!(units(r.peak_decode_tps), 20.0);
    assert_eq!(p.uptime(T0 + 300 * MS), 300 * MS);
}

#[test]
fn smoothed_rates_follow() {
    let mut p = PerfTracker::new(T0);
    p.observe(&slot(1, true, 0, 0, 0), T0);
    p.observe(&slot(1, true, 0, 0, 100), T0 + 1000 * MS);
    assert_eq!(units(p.decode_tps), 100.0);
    assert_eq!(units(p.decode_tps_smooth), 50.0);
    p.observe(&slot(1, false, 0, 0, 100), T0 + 1200 * MS);
    assert_eq!(p.decode_tps, 0);
    assert_eq!(units(p.decode_tps_smooth), 37.5);
    assert_eq!(units(p.peak_decode_tps), 100.0);
    for i in 0..40u64 {
        p.observe(&slot(1, false, 0, 0, 100), T0 + (1400 + 200 * i) * MS);
    }
    assert_eq!(p.decode_tps_smooth, 0);
}

#[test]
fn cards_have_channels_of_their_own() {
    let mut p = PerfTracker::new(T0);
    let g = |index: u32, util: f32, watts: f32| GpuStats {
        index,
        utilization_gpu: single(util),
        utilization_mem: single(util / 2.0),
        power_watts: single(watts),
        power_max_watts: single(200.0),
        temperature: Some(single(61.0)),
        pcie_gen: 4,
        pcie_width: 8,
        ..Default::default()
    };
    p.observe_gpu(&[g(0, 80.0, 100.0), g(2, 40.0, 50.0)], T0);
    assert_eq!(p.util_hist.len(), 3);
    assert_eq!(p.total_power_w, reading(150.0));
    assert_eq!(p.util_hist[1].len(), 0);
    assert_eq!(p.util_hist[2].back(), Some(&single(40.0)));
    assert_eq!(p.temp_hist[0].back(), Some(&single(61.0)));
    assert_eq!(p.util_peak[0].0, reading(0.8));
    assert_eq!(level(p.power_peak[0].0), 0.5);
    assert_eq!(units(p.bw.vram_busy[2].value), 20.0);
    assert_eq!(p.bw.pcie_rx[2].full_scale.map(units), Some(1969.0 * 8.0));
    assert_eq!(p.bw.pcie_rx[1].full_scale, None);
    p.decode_tps_smooth = micros(30.0);
    assert_eq!(units(p.tokens_per_joule()), 0.2);
    p.observe_gpu(&[], T0 + MS);
    assert_eq!(p.tokens_per_joule(), 0);
    let cold = GpuStats { temperature: Some(single(-4.5)), ..g(0, -5.0, -20.0) };
    p.observe_gpu(&[cold, g(1, 1.0, 15.0)], T0 + 2 * MS);
    assert_eq!(p.temp_hist[0].back(), Some(&single(-4.5)));
    assert_eq!(p.util_hist[0].back(), Some(&single(-5.0)));
    assert_eq!(p.power_hist[0].back(), Some(&single(-20.0)));
    assert_eq!(p.bw.vram_busy[0].value, 0);
    assert_eq!(p.total_power_w, reading(-5.0));
    assert_eq!(p.tokens_per_joule(), 0);
    p.observe_gpu(&[g(0, f32::INFINITY, 1.0), g(1, f32::NAN, 1.0)], T0 + 3 * MS);
    assert_eq!((p.bw.vram_busy[0].value, p.bw.vram_busy[1].value), (0, 0));
    assert_eq!(p.util_hist[0].back(), Some(&single(f32::INFINITY)));
    assert!(p.tokens_per_joule() > 0);
    p.observe_gpu(&[g(0, 1.0, 100.0), g(1, 1.0, f32::NAN)], T0 + 4 * MS);
    assert_eq!(p.tokens_per_joule(), 0, "the total is no number");
}

#[test]
fn steps_under_speculative_decoding() {
    let mut p = PerfTracker::new(T0);
    let layout = WeightLayout { ubatch: 100, ..Default::default() };
    p.decode_tps_smooth = micros(60.0);
    p.prefill_tps_smooth = micros(500.0);
    p.tick_bandwidth(&layout, T0, MS);
    assert_eq!(p.bw.steps_per_s, 0);
    p.phase = Phase::Prefill;
    p.tick_bandwidth(&layout, T0, MS);
    assert_eq!(units(p.bw.steps_per_s), 5.0);
    p.phase = Phase::Decode;
    p.tick_bandwidth(&layout, T0, MS);
    assert_eq!(units(p.bw.steps_per_s), 60.0);
    p.spec.available = true;
    p.spec.steps_per_sec = micros(33.0);
    p.tick_bandwidth(&layout, T0, MS);
    assert_eq!(units(p.bw.steps_per_s), 33.0);
    assert_eq!(p.bw.ram.value, 0, "nothing is known of the layout");
    assert_eq!(layout.active_frac(), 1_000_000);
    let l = WeightLayout { known: true, total_bytes: 4, active_bytes: 1, cpu_bytes: 4, ubatch: 1 };
    assert_eq!(l.active_frac(), 250_000);
    assert_eq!(l.per_step(), (1, 0));
}

#[test]
fn draft_shares_of_a_session() {
    let mut p = PerfTracker::new(T0);
    assert_eq!(p.spec.session_accept_rate(), 0);
    assert_eq!(p.spec.session_draft_share(), 0);
    let m = SpecMetrics {
        draft_tokens: 4,
        accepted: 3,
        verify_steps: 4,
        n_decode: 4,
        tokens_predicted: 12,
    };
    p.observe_spec(&m, T0);
    assert_eq!(p.spec.session_accept_rate(), 750_000);
    assert_eq!(p.spec.session_draft_share(), 250_000);
    assert!(p.spec.accept_hist.is_empty());
}

#[test]
fn link_ceilings_by_generation() {
    let cap = |gen| pcie_link_mb_s(gen, 2).map(units);
    assert_eq!(cap(1), Some(500.0));
    assert_eq!(cap(2), Some(1000.0));
    assert_eq!(cap(4), Some(3938.0));
    assert_eq!(cap(5), Some(7876.0));
    assert_eq!(cap(6), Some(15754.0));
    assert_eq!(pcie_link_mb_s(3, 0), None);
}

#[test]
fn every_operation_keeps_the_rings() {
    let mut p = PerfTracker::new(T0);
    for i in 0..600u64 {
        let now = T0 + i * 200 * MS;
        p.observe(&slot((i / 7) as i64, i % 7 != 6, 10, 10, (i % 7) as usize), now);
        p.observe_spec(
            &SpecMetrics {
                draft_tokens: 4 * i,
                accepted: 9 * i,
                verify_steps: 4 * i,
                n_decode: 0,
                tokens_predicted: 5 * i,
            },
            now,
        );
        let card = GpuStats {
            index: 1,
            utilization_gpu: single((i % 101) as f32),
            utilization_mem: single((i % 150) as f32),
            ..Default::default()
        };
        p.observe_gpu(&[card], now);
        let host = HostSample {
            disk_read_bytes: Some(i * i * 1_000_000),
            pcie_mb_s: vec![(2, (i % 90) * 1_000_000, 0)],
            ..Default::default()
        };
        p.observe_host(&host, now);
        let layout = WeightLayout {
            known: true,
            total_bytes: 100,
            active_bytes: 50,
            cpu_bytes: 25,
            ubatch: 1,
        };
        p.tick_bandwidth(&layout, now, 200 * MS);
        assert!(p.history.len() <= MAX_REQUESTS && p.history.len() as u64 <= p.finished);
        assert!(p.history.iter().all(|r| !r.is_live()));
        assert!(p.decode_tps <= p.peak_decode_tps);
        assert!(p.spec.accept_rate <= 1_000_000);
        let meters = p.bw.pcie_rx.iter().chain(&p.bw.vram_busy);
        for m in meters.chain([&p.bw.disk, &p.bw.ram, &p.bw.vram, &p.bw.decode, &p.bw.prefill]) {
            assert!(m.value <= m.hold && m.hist.len() <= HISTORY);
        }
    }
    assert_eq!(p.util_hist[1].len(), HISTORY);
    assert_eq!(p.spec.accept_hist.len(), HISTORY);
    assert_eq!(p.bw.pcie_rx.len(), 3);
    assert_eq!(p.bw.vram_busy[1].value, 100_000_000.min((599 % 150) * 1_000_000));
}

#[test]
fn a_silent_window_has_no_rate() {
    let mut w = RateWindow::new(2_000 * MS);
    w.push(T0, T0 + 1_000 * MS, 40);
    assert_eq!(w.rate(T0 + 1_000 * MS), 40_000_000);
    assert!(w.rate(T0 + 2_000 * MS) > 0);
    assert_eq!(w.rate(T0 + 10_000 * MS), 0);
}

#[test]
fn completions_tell_a_rate() {
    let mut p = PerfTracker::new(T0);
    p.observe(&slot(1, false, 0, 0, 0), T0);
    p.observe(&slot(2, true, 100, 100, 0), T0 + 200 * MS);
    // Nothing moves until the request is over; the last sample tells 19 gaps.
    let done = LiveStats { itl_sum: 500 * MS, ..slot(2, false, 100, 100, 20) };
    p.observe(&done, T0 + 1_200 * MS);
    assert_eq!(p.phase, Phase::Idle);
    assert_eq!(p.decode_tps, 38_000_000);
    assert_eq!(p.peak_decode_tps, 38_000_000);
    let r = p.history.back().unwrap();
    assert_eq!(r.ended, Some(T0 + 1_200 * MS));
    assert_eq!(r.peak_decode_tps, 38_000_000);
    p.observe(&done, T0 + 1_400 * MS);
    assert_eq!(p.decode_tps, 0);
    assert_eq!(p.peak_decode_tps, 38_000_000);
}
