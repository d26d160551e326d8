//! What the channels of the memory pipeline show of the host and of the cards.
use crate::gpu::GpuStats;
use crate::host::Host;
use crate::laws::rates::gained;
use crate::laws::requests::at_most;
use crate::perf::{held, link_cap, Gauge, Phase, Pipeline, Tracker, WeightLayout};
use vstd::prelude::*;

verus! {

/// The range of a channel: its full scale, or else the highest that it has shown, where
/// that is above its floor.
pub open spec fn range(g: Gauge) -> int {
    if g.full_scale is Some {
        g.full_scale->0 as int
    } else if g.max_seen > g.floor {
        g.max_seen as int
    } else {
        g.floor as int
    }
}

/// A channel shows its reading, but no more than its full scale. The highest that it has
/// shown stays, and every reading enters its history. Its held peak rises with the
/// reading at once; it sits for 1.2 s, and then falls by two fifths of the range in a
/// second, but never below the reading.
pub proof fn a_channel_shows_its_reading(g: Gauge, reading: u64, now: u64, dt: u64)
    ensures
        ({
            let h = g.updated(reading, now, dt);
            let fall = at_most(range(h) * dt * 2 / 5_000_000_000);
            &&& h.value == if g.full_scale is Some && reading > g.full_scale->0 {
                g.full_scale->0
            } else {
                reading
            }
            &&& h.max_seen >= g.max_seen && h.max_seen >= h.value && (h.max_seen == g.max_seen
                || h.max_seen == h.value)
            &&& h.floor == g.floor
            &&& h.full_scale == g.full_scale
            &&& h.hist.len() > 0 && h.hist.last() == h.value
            &&& g.hist.len() < 240 ==> h.hist == g.hist.push(h.value)
            &&& h.value >= g.hold ==> h.hold == h.value && h.hold_at == now
            &&& h.value < g.hold ==> h.hold_at == g.hold_at
            &&& h.value < g.hold && now <= g.hold_at + 1_200_000_000 ==> h.hold == g.hold
            &&& h.value < g.hold && now > g.hold_at + 1_200_000_000 ==> h.hold == if g.hold - fall
                > h.value {
                g.hold - fall
            } else {
                h.value as int
            }
        }),
{
    let h = g.updated(reading, now, dt);
    assert(h.scale() == range(h));
    let x = range(h) * dt;
    assert(x * 2 / 5_000_000_000 == x / 2_500_000_000);
    assert(x >= 0) by (nonlinear_arith)
        requires
            x == range(h) * dt,
            range(h) >= 0,
            dt >= 0,
    ;
}

/// How far a channel is up its range, and how far its held peak is.
pub proof fn a_channel_fills_its_range(g: Gauge)
    requires
        range(g) > 0,
    ensures
        g.frac() == if g.value >= range(g) {
            1_000_000
        } else {
            g.value * 1_000_000 / range(g)
        },
        g.hold_frac() == if g.hold >= range(g) {
            1_000_000
        } else {
            g.hold * 1_000_000 / range(g)
        },
        g.scale() == range(g),
{
    lemma_fills(g.value, range(g));
    lemma_fills(g.hold, range(g));
}

proof fn lemma_fills(v: u64, scale: int)
    requires
        0 < scale <= u64::MAX,
    ensures
        crate::micro::share(v as int, scale) == if v >= scale {
            1_000_000
        } else {
            v * 1_000_000 / scale
        },
{
    crate::laws::rates::a_share_makes_up_its_part(v, scale as u64);
}

/// A peak rises with its value at once, sits for 1.2 s, and then falls by 0.4 in a
/// second, but never below the value.
pub proof fn a_peak_sits_and_falls(peak: (i64, u64), value: i64, now: u64, dt: u64)
    requires
        dt <= 2_000_000_000,
    ensures
        ({
            let h = held(peak, value, now, dt);
            let fall = dt * 4 / 10_000;
            &&& value >= peak.0 ==> h == (value, now)
            &&& value < peak.0 && now <= peak.1 + 1_200_000_000 ==> h == peak
            &&& value < peak.0 && now > peak.1 + 1_200_000_000 ==> h.1 == peak.1 && h.0 == if peak.0
                - fall > value {
                peak.0 - fall
            } else {
                value as int
            }
        }),
{
}

/// The ceiling of a link: 250 MB/s per lane in the first generation and twice that in
/// the second; 985 MB/s in the third, and doubling from there but for rounding. Lanes add
/// up. From the sixth generation on it stays.
pub proof fn links_double_with_their_generation(gen: u32, width: u32)
    ensures
        link_cap(gen, width) is None <==> gen == 0 || width == 0,
        width > 0 ==> {
            &&& link_cap(1, width) == Some((width * 250_000_000) as u64)
            &&& link_cap(2, width) == Some((width * 500_000_000) as u64)
            &&& link_cap(3, width) == Some((width * 985_000_000) as u64)
            &&& gen > 0 ==> link_cap(gen, width)->0 == at_most(
                width * link_cap(gen, 1)->0,
            )
            &&& 3 <= gen < 6 ==> -1_000_000 <= link_cap((gen + 1) as u32, 1)->0 - 2 * link_cap(
                gen,
                1,
            )->0 <= 1_000_000
            &&& gen >= 6 ==> link_cap(gen, width) == link_cap(6, width)
        },
{
    if gen == 1 {
        assert(crate::perf::lane_mb_s(gen) * width == 250 * width);
    } else if gen == 2 {
        assert(crate::perf::lane_mb_s(gen) * width == 500 * width);
    } else if gen == 3 {
        assert(crate::perf::lane_mb_s(gen) * width == 985 * width);
    } else if gen == 4 {
        assert(crate::perf::lane_mb_s(gen) * width == 1969 * width);
    } else if gen == 5 {
        assert(crate::perf::lane_mb_s(gen) * width == 3938 * width);
    } else {
        assert(crate::perf::lane_mb_s(gen) * width == 7877 * width);
    }
    if gen > 0 && width > 0 {
        let lane = crate::perf::lane_mb_s(gen) as int;
        assert(lane * width * 1_000_000 == width * (lane * 1 * 1_000_000)) by (nonlinear_arith);
    }
}

/// The time between two looks at the host: never less than a millisecond.
pub open spec fn between(t0: u64, now: u64) -> int {
    if now >= t0 + 1_000_000 {
        now - t0
    } else {
        1_000_000
    }
}

/// What a counter gained from one look to the next, in both of which it was read.
pub open spec fn read_twice(before: Option<u64>, after: Option<u64>) -> int {
    if before is Some && after is Some {
        gained(before->0, after->0)
    } else {
        0
    }
}

/// Two looks at the host tell what was read from the disks and for the server, in MB/s,
/// and the major faults per second: what the counters gained over the time between. A
/// counter that was not read in both tells nothing.
pub proof fn two_looks_tell_the_reads(p: Pipeline, s: Host, now: u64)
    requires
        p.last_host is Some,
        p.disk.full_scale is None,
    ensures
        ({
            let (t0, prev) = p.last_host->0;
            let q = p.host_observed(s, now);
            let dt = between(t0, now);
            &&& q.disk.value == at_most(
                read_twice(prev.disk_read_bytes, s.disk_read_bytes) * 1_000_000_000 / dt,
            )
            &&& q.proc_disk_mb_s == at_most(
                read_twice(prev.proc_read_bytes, s.proc_read_bytes) * 1_000_000_000 / dt,
            )
            &&& q.majflt_per_s == at_most(
                read_twice(prev.proc_majflt, s.proc_majflt) * 1_000_000_000_000_000 / dt,
            )
        }),
{
    let (t0, prev) = p.last_host->0;
    let dt = between(t0, now);
    let list = s.pcie_mb_s;
    lemma_mega(read_twice(prev.disk_read_bytes, s.disk_read_bytes), dt);
    lemma_mega(read_twice(prev.proc_read_bytes, s.proc_read_bytes), dt);
    lemma_mega(0, dt);
    assert(0int / dt == 0) by (nonlinear_arith)
        requires
            dt > 0,
    ;
    assert(dt * 1 == dt);
    let q = Pipeline {
        disk: p.disk.updated(
            crate::perf::counter_rate(
                s.disk_read_bytes,
                prev.disk_read_bytes,
                dt as u64,
                1_000_000,
            ),
            now,
            dt as u64,
        ),
        proc_disk_mb_s: crate::perf::counter_rate(
            s.proc_read_bytes,
            prev.proc_read_bytes,
            dt as u64,
            1_000_000,
        ),
        majflt_per_s: crate::perf::counter_rate(s.proc_majflt, prev.proc_majflt, dt as u64, 1),
        ..p
    };
    lemma_buses_leave_the_disks(
        q.grown(crate::perf::buses_upto(list, list.len() as int), now),
        list,
        list.len() as int,
        now,
        dt as u64,
    );
}

proof fn lemma_mega(n: int, dt: int)
    requires
        n >= 0,
        dt > 0,
    ensures
        n * 1_000_000_000_000_000 / (dt * 1_000_000) == n * 1_000_000_000 / dt,
{
    vstd::arithmetic::div_mod::lemma_div_multiples_vanish_quotient(
        1_000_000,
        n * 1_000_000_000,
        dt,
    );
    assert(1_000_000 * (n * 1_000_000_000) == n * 1_000_000_000_000_000);
    assert(1_000_000 * dt == dt * 1_000_000);
}

proof fn lemma_buses_leave_the_disks(
    p: Pipeline,
    list: Seq<(u32, u64, u64)>,
    k: int,
    now: u64,
    dt: u64,
)
    ensures
        ({
            let q = p.bused(list, k, now, dt);
            &&& q.disk == p.disk
            &&& q.proc_disk_mb_s == p.proc_disk_mb_s
            &&& q.majflt_per_s == p.majflt_per_s
        }),
    decreases k,
{
    if k > 0 {
        lemma_buses_leave_the_disks(p, list, k - 1, now, dt);
    }
}

/// The readings of the buses are each of another card.
pub open spec fn one_each(list: Seq<(u32, u64, u64)>) -> bool {
    forall|i: int, j: int| 0 <= i < j < list.len() ==> (#[trigger] list[i]).0 != (
    #[trigger] list[j]).0
}

/// A reading of a link is believed up to 5 % above what the link can carry, or 130 GB/s
/// where its generation is not known.
pub open spec fn believable(rx: u64, full_scale: Option<u64>) -> bool {
    rx <= at_most(
        (if full_scale is Some {
            full_scale->0 as int
        } else {
            130_000_000_000
        }) * 105 / 100,
    )
}

proof fn lemma_buses(
    p: Pipeline,
    list: Seq<(u32, u64, u64)>,
    k: int,
    now: u64,
    dt: u64,
)
    requires
        0 <= k <= list.len(),
        one_each(list),
        p.pcie_rx.len() == p.pcie_tx.len(),
        forall|j: int| 0 <= j < list.len() ==> (#[trigger] list[j]).0 < p.pcie_rx.len(),
    ensures
        ({
            let q = p.bused(list, k, now, dt);
            &&& q.pcie_rx.len() == p.pcie_rx.len()
            &&& q.pcie_tx.len() == p.pcie_tx.len()
            &&& forall|i: int|
                0 <= i < p.pcie_rx.len() && (forall|j: int|
                    0 <= j < k ==> (#[trigger] list[j]).0 != i) ==> #[trigger] q.pcie_rx[i]
                    == p.pcie_rx[i] && q.pcie_tx[i] == p.pcie_tx[i]
            &&& forall|j: int|
                0 <= j < k ==> {
                    let (i, rx, tx) = #[trigger] list[j];
                    &&& q.pcie_rx[i as int] == if believable(
                        rx,
                        p.pcie_rx[i as int].full_scale,
                    ) {
                        p.pcie_rx[i as int].updated(rx, now, dt)
                    } else {
                        p.pcie_rx[i as int]
                    }
                    &&& q.pcie_tx[i as int] == if believable(
                        tx,
                        p.pcie_rx[i as int].full_scale,
                    ) {
                        tx
                    } else {
                        p.pcie_tx[i as int]
                    }
                }
        }),
    decreases k,
{
    if k > 0 {
        lemma_buses(p, list, k - 1, now, dt);
        let b = p.bused(list, k - 1, now, dt);
        let q = p.bused(list, k, now, dt);
        let (i, rx, tx) = list[k - 1];
        assert(forall|j: int| 0 <= j < k - 1 ==> (#[trigger] list[j]).0 != i);
        assert(b.pcie_rx[i as int] == p.pcie_rx[i as int] && b.pcie_tx[i as int]
            == p.pcie_tx[i as int]);
        assert forall|m: int|
            0 <= m < p.pcie_rx.len() && (forall|j: int|
                0 <= j < k ==> (#[trigger] list[j]).0 != m) implies #[trigger] q.pcie_rx[m]
            == p.pcie_rx[m] && q.pcie_tx[m] == p.pcie_tx[m] by {
            assert(list[k - 1].0 != m);
            assert(b.pcie_rx[m] == p.pcie_rx[m]);
        }
    }
}

/// The pipeline with room for every bus that is told of.
pub open spec fn with_room(p: Pipeline, list: Seq<(u32, u64, u64)>, now: u64) -> Pipeline {
    p.grown(crate::perf::buses_upto(list, list.len() as int), now)
}

/// Each reading of a link is shown on the channel of its own card, where it is
/// believable; the channels of the other cards stay as they are.
pub proof fn links_show_believable_readings(p: Pipeline, s: Host, now: u64)
    requires
        p.last_host is Some,
        p.wf(),
        one_each(s.pcie_mb_s),
    ensures
        ({
            let b = with_room(p, s.pcie_mb_s, now);
            let q = p.host_observed(s, now);
            let dt = between((p.last_host->0).0, now) as u64;
            &&& forall|i: int|
                0 <= i < b.pcie_rx.len() && (forall|j: int|
                    0 <= j < s.pcie_mb_s.len() ==> (#[trigger] s.pcie_mb_s[j]).0 != i)
                    ==> #[trigger] q.pcie_rx[i] == b.pcie_rx[i] && q.pcie_tx[i] == b.pcie_tx[i]
            &&& forall|j: int|
                0 <= j < s.pcie_mb_s.len() ==> {
                    let (i, rx, tx) = #[trigger] s.pcie_mb_s[j];
                    &&& i < b.pcie_rx.len()
                    &&& q.pcie_rx[i as int] == if believable(
                        rx,
                        b.pcie_rx[i as int].full_scale,
                    ) {
                        b.pcie_rx[i as int].updated(rx, now, dt)
                    } else {
                        b.pcie_rx[i as int]
                    }
                    &&& q.pcie_tx[i as int] == if believable(
                        tx,
                        b.pcie_rx[i as int].full_scale,
                    ) {
                        tx
                    } else {
                        b.pcie_tx[i as int]
                    }
                }
        }),
{
    let (t0, prev) = p.last_host->0;
    let dt = between(t0, now) as u64;
    let list = s.pcie_mb_s;
    let len = list.len() as int;
    let q = Pipeline {
        disk: p.disk.updated(
            crate::perf::counter_rate(s.disk_read_bytes, prev.disk_read_bytes, dt, 1_000_000),
            now,
            dt,
        ),
        proc_disk_mb_s: crate::perf::counter_rate(
            s.proc_read_bytes,
            prev.proc_read_bytes,
            dt,
            1_000_000,
        ),
        majflt_per_s: crate::perf::counter_rate(s.proc_majflt, prev.proc_majflt, dt, 1),
        ..p
    };
    let n = crate::perf::buses_upto(list, len);
    every_bus_has_a_channel(list, len);
    let b = q.grown(n, now);
    assert(b.pcie_rx == with_room(p, list, now).pcie_rx && b.pcie_tx == with_room(
        p,
        list,
        now,
    ).pcie_tx);
    assert forall|j: int| 0 <= j < list.len() implies (#[trigger] list[j]).0 < b.pcie_rx.len() by {
        assert(list[j].0 < n);
    }
    lemma_buses(b, list, len, now, dt);
}

/// There are channels for as many buses as the highest index takes.
pub proof fn every_bus_has_a_channel(list: Seq<(u32, u64, u64)>, k: int)
    requires
        0 <= k <= list.len(),
    ensures
        forall|i: int|
            0 <= i < k ==> (#[trigger] list[i]).0 < crate::perf::buses_upto(list, k),
        k > 0 ==> exists|i: int|
            0 <= i < k && (#[trigger] list[i]).0 + 1 == crate::perf::buses_upto(list, k),
        crate::perf::buses_upto(list, k) >= 0,
        k == 0 ==> crate::perf::buses_upto(list, k) == 0,
    decreases k,
{
    if k > 0 {
        every_bus_has_a_channel(list, k - 1);
        let n = crate::perf::buses_upto(list, k);
        if list[k - 1].0 + 1 != n {
            let i = choose|i: int|
                0 <= i < k - 1 && (#[trigger] list[i]).0 + 1 == crate::perf::buses_upto(
                    list,
                    k - 1,
                );
            assert(list[i].0 + 1 == n);
        }
    }
}

/// A look at the host is kept for the next one, and one alone tells no rate.
pub proof fn a_look_at_the_host_is_kept(p: Pipeline, s: Host, now: u64)
    ensures
        ({
            let q = p.host_observed(s, now);
            &&& q.host == s
            &&& q.host_seen
            &&& q.last_host == Some((now, s))
            &&& p.last_host is None ==> q.disk == p.disk && q.proc_disk_mb_s == p.proc_disk_mb_s
                && q.majflt_per_s == p.majflt_per_s && q.pcie_rx == p.pcie_rx && q.pcie_tx
                == p.pcie_tx
        }),
{
}

/// A model's weights are read once in a step: in a verification step where a draft is
/// verified, in every token otherwise, and in every micro-batch of a prompt.
pub proof fn steps_are_counted_by_the_phase(t: Tracker, l: WeightLayout)
    ensures
        t.phase == Phase::Idle ==> t.steps(l) == 0,
        t.phase == Phase::Decode && t.drafts.available && t.drafts.steps_per_sec > 0 ==> t.steps(l)
            == t.drafts.steps_per_sec,
        t.phase == Phase::Decode && !(t.drafts.available && t.drafts.steps_per_sec > 0) ==> t.steps(
            l,
        ) == t.decode_tps_smooth,
        t.phase == Phase::Prefill && l.ubatch > 0 ==> t.steps(l) == t.prefill_tps_smooth as int
            / l.ubatch as int,
        t.phase == Phase::Prefill && l.ubatch == 0 ==> t.steps(l) == t.prefill_tps_smooth,
{
}

/// What a step reads from RAM is the CPU side's part of the active bytes, and what it
/// reads from VRAM is the rest of them.
pub open spec fn from_ram(l: WeightLayout) -> int {
    if l.active_bytes > l.total_bytes {
        l.cpu_bytes as int
    } else {
        l.cpu_bytes * l.active_bytes / l.total_bytes as int
    }
}

/// The weight streams are the bytes of a step times the steps per second, in GB/s: from
/// RAM what the CPU side holds of the active bytes, from VRAM the rest. Of a layout that
/// is not known there is no stream.
pub proof fn streams_are_bytes_times_steps(t: Tracker, l: WeightLayout, now: u64, dt: u64)
    requires
        t.bw.ram.full_scale is None,
        t.bw.vram.full_scale is None,
        0 < l.total_bytes,
        l.cpu_bytes <= l.total_bytes,
        l.active_bytes <= l.total_bytes,
    ensures
        ({
            let u = t.ticked(l, now, dt);
            let steps = u.bw.steps_per_s;
            &&& steps == t.steps(l)
            &&& u.bw.layout == l
            &&& l.known ==> u.bw.ram.value == at_most(from_ram(l) * steps / 1_000_000_000)
            &&& l.known ==> u.bw.vram.value == at_most(
                (l.active_bytes - from_ram(l)) * steps / 1_000_000_000,
            )
            &&& !l.known ==> u.bw.ram.value == 0 && u.bw.vram.value == 0
            &&& u.bw.disk == t.bw.disk && u.bw.pcie_rx == t.bw.pcie_rx && u.bw.vram_busy
                == t.bw.vram_busy
        }),
{
    crate::perf::streams_add_up(l);
}

/// A channel has shown nothing yet.
pub open spec fn is_blank(g: Gauge) -> bool {
    g.value == 0 && g.hold == 0 && g.max_seen == 0 && g.hist.len() == 0
}

/// A new pipeline shows nothing. Its channels have no full scale, but reach from the
/// start up to 500 MB/s of the disk, 20 GB/s of RAM, 100 GB/s of VRAM, and 100 and 10
/// tokens a second.
pub proof fn a_new_pipeline_shows_nothing(now: u64)
    ensures
        ({
            let p = Pipeline::blank(now);
            &&& is_blank(p.disk) && is_blank(p.ram) && is_blank(p.vram) && is_blank(p.prefill)
                && is_blank(p.decode)
            &&& range(p.disk) == 500_000_000 && range(p.ram) == 20_000_000 && range(p.vram)
                == 100_000_000 && range(p.prefill) == 100_000_000 && range(p.decode) == 10_000_000
            &&& p.disk.full_scale is None && p.ram.full_scale is None && p.vram.full_scale is None
                && p.prefill.full_scale is None && p.decode.full_scale is None
            &&& p.last_host is None && !p.host_seen
            &&& p.proc_disk_mb_s == 0 && p.majflt_per_s == 0 && p.steps_per_s == 0
            &&& p.pcie_rx.len() == 0 && p.pcie_tx.len() == 0 && p.vram_busy.len() == 0
            &&& !p.layout.known
        }),
{
}

/// Channels are added for further cards, and those of the others stay. A new link reaches
/// up to 1 GB/s until its own ceiling is known, a new memory meter up to 100 %.
pub proof fn further_cards_get_channels(p: Pipeline, t: Tracker, n: int, now: u64)
    requires
        p.wf(),
        t.wf(),
        0 <= n,
    ensures
        ({
            let q = p.grown(n, now);
            let had = p.pcie_rx.len() as int;
            &&& q.wf()
            &&& q.pcie_rx.len() >= n && q.pcie_rx.len() >= had && (q.pcie_rx.len() == n
                || q.pcie_rx.len() == had)
            &&& forall|i: int|
                0 <= i < had ==> #[trigger] q.pcie_rx[i] == p.pcie_rx[i] && q.pcie_tx[i]
                    == p.pcie_tx[i] && q.vram_busy[i] == p.vram_busy[i]
            &&& forall|i: int|
                had <= i < q.pcie_rx.len() ==> is_blank(#[trigger] q.pcie_rx[i]) && range(
                    q.pcie_rx[i],
                ) == 1_000_000_000 && q.pcie_rx[i].full_scale is None && q.pcie_tx[i] == 0
                    && is_blank(q.vram_busy[i]) && q.vram_busy[i].full_scale == Some(
                    100_000_000u64,
                )
        }),
        ({
            let u = t.grown(n, now);
            let had = t.util_hist.len() as int;
            &&& u.util_hist.len() >= n && u.util_hist.len() >= had && (u.util_hist.len() == n
                || u.util_hist.len() == had)
            &&& u.power_hist.len() == u.util_hist.len() && u.temp_hist.len() == u.util_hist.len()
            &&& u.util_peak.len() == u.util_hist.len() && u.power_peak.len() == u.util_hist.len()
            &&& forall|i: int|
                0 <= i < had ==> #[trigger] u.util_hist[i] == t.util_hist[i] && u.power_hist[i]
                    == t.power_hist[i] && u.temp_hist[i] == t.temp_hist[i] && u.util_peak[i]
                    == t.util_peak[i] && u.power_peak[i] == t.power_peak[i]
            &&& forall|i: int|
                had <= i < u.util_hist.len() ==> (#[trigger] u.util_hist[i]).len() == 0
                    && u.power_hist[i].len() == 0 && u.temp_hist[i].len() == 0 && u.util_peak[i].0
                    == 0 && u.power_peak[i].0 == 0
        }),
{
}

/// There are channels for as many cards as the highest index takes.
pub proof fn every_card_has_a_channel(gpus: Seq<GpuStats>, k: int)
    requires
        0 <= k <= gpus.len(),
    ensures
        forall|i: int|
            0 <= i < k ==> (#[trigger] gpus[i]).index < crate::perf::cards_upto(gpus, k),
        k > 0 ==> exists|i: int|
            0 <= i < k && (#[trigger] gpus[i]).index + 1 == crate::perf::cards_upto(gpus, k),
        k == 0 ==> crate::perf::cards_upto(gpus, k) == 0,
    decreases k,
{
    if k > 0 {
        every_card_has_a_channel(gpus, k - 1);
        let n = crate::perf::cards_upto(gpus, k);
        if gpus[k - 1].index + 1 == n {
        } else {
            let i = choose|i: int|
                0 <= i < k - 1 && (#[trigger] gpus[i]).index + 1 == crate::perf::cards_upto(
                    gpus,
                    k - 1,
                );
            assert(gpus[i].index + 1 == n);
        }
    }
}

} // verus!
