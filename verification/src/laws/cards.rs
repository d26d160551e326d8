//! What is read of the cards, and what the tracker shows of them.
use crate::float::Single;
use crate::gpu::{card_cells, GpuStats};
use crate::micro;
use crate::perf::{cards_upto, held, total_power, Gauge, Tracker};
use crate::text;
use vstd::prelude::*;

verus! {

/// Each card is in the list once.
pub open spec fn told_once(gpus: Seq<GpuStats>) -> bool {
    forall|i: int, j: int| 0 <= i < j < gpus.len() ==> (#[trigger] gpus[i]).index != (
    #[trigger] gpus[j]).index
}

/// The card `i` is not among the first `k`.
pub open spec fn untold(gpus: Seq<GpuStats>, k: int, i: int) -> bool {
    forall|j: int| 0 <= j < k ==> (#[trigger] gpus[j]).index != i
}

/// What a history is once a reading has come in.
pub open spec fn then_reads<T>(h: Seq<T>, v: T) -> Seq<T> {
    if h.len() < 240 {
        h.push(v)
    } else {
        h.drop_first().push(v)
    }
}

/// `u` shows of the card `i` what `t` showed of it, and the readings of `g`.
pub open spec fn shows_card(t: Tracker, u: Tracker, g: GpuStats, now: u64, dt: u64) -> bool {
    let i = g.index as int;
    &&& u.util_hist[i] == then_reads(t.util_hist[i], g.utilization_gpu)
    &&& u.power_hist[i] == then_reads(t.power_hist[i], g.power_watts)
    &&& u.temp_hist[i] == then_reads(
        t.temp_hist[i],
        if g.temperature is Some {
            g.temperature->0
        } else {
            Single { bits: 0 }
        },
    )
    &&& u.bw.vram_busy[i] == t.bw.vram_busy[i].updated(g.utilization_mem.level(), now, dt)
    &&& u.util_peak[i] == held(
        t.util_peak[i],
        (g.utilization_gpu.millionths() as int / 100) as i64,
        now,
        dt,
    )
    &&& u.power_peak[i] == held(t.power_peak[i], g.power_share() as i64, now, dt)
}

/// `u` shows of the card `i` what `t` showed of it.
pub open spec fn leaves_card(t: Tracker, u: Tracker, i: int) -> bool {
    &&& u.util_hist[i] == t.util_hist[i]
    &&& u.power_hist[i] == t.power_hist[i]
    &&& u.temp_hist[i] == t.temp_hist[i]
    &&& u.bw.vram_busy[i] == t.bw.vram_busy[i]
    &&& u.util_peak[i] == t.util_peak[i]
    &&& u.power_peak[i] == t.power_peak[i]
}

proof fn lemma_carded(t: Tracker, gpus: Seq<GpuStats>, k: int, now: u64, dt: u64)
    requires
        t.wf(),
        0 <= k <= gpus.len(),
        told_once(gpus),
        forall|j: int| 0 <= j < gpus.len() ==> (#[trigger] gpus[j]).index < t.util_hist.len(),
    ensures
        ({
            let u = t.carded(gpus, k, now, dt);
            &&& u.wf()
            &&& u.util_hist.len() == t.util_hist.len()
            &&& u.total_power_w == t.total_power_w
            &&& u.bw.pcie_rx == t.bw.pcie_rx
            &&& forall|i: int|
                0 <= i < t.util_hist.len() && #[trigger] untold(gpus, k, i) ==> leaves_card(t, u, i)
            &&& forall|j: int| 0 <= j < k ==> shows_card(t, u, #[trigger] gpus[j], now, dt)
        }),
    decreases k,
{
    if k > 0 {
        lemma_carded(t, gpus, k - 1, now, dt);
        let b = t.carded(gpus, k - 1, now, dt);
        let u = t.carded(gpus, k, now, dt);
        let g = gpus[k - 1];
        let at = g.index as int;
        assert(untold(gpus, k - 1, at));
        assert(leaves_card(t, b, at));
        assert(shows_card(t, u, g, now, dt));
        assert forall|i: int|
            0 <= i < t.util_hist.len() && #[trigger] untold(gpus, k, i) implies leaves_card(
            t,
            u,
            i,
        ) by {
            assert(gpus[k - 1].index != i);
            assert(untold(gpus, k - 1, i));
        }
        assert forall|j: int| 0 <= j < k implies shows_card(t, u, #[trigger] gpus[j], now, dt) by {
            if j < k - 1 {
                assert(shows_card(t, b, gpus[j], now, dt));
                assert(gpus[j].index != gpus[k - 1].index);
            }
        }
    }
}

/// The power that the first `k` cards draw, in millionths of a watt.
pub open spec fn drawn_by(gpus: Seq<GpuStats>, k: int) -> int
    decreases k,
{
    if k <= 0 {
        0
    } else {
        drawn_by(gpus, k - 1) + gpus[k - 1].power_watts.millionths()
    }
}

/// The power of the cards adds up, where each tells a number and no sum on the way is
/// out of range.
pub proof fn power_adds_up(gpus: Seq<GpuStats>)
    requires
        forall|i: int| 0 <= i < gpus.len() ==> !(#[trigger] gpus[i]).power_watts.nan(),
        forall|k: int|
            0 <= k <= gpus.len() ==> i64::MIN <= #[trigger] drawn_by(gpus, k) <= i64::MAX,
    ensures
        total_power(gpus) == drawn_by(gpus, gpus.len() as int),
{
    lemma_power(gpus, gpus.len() as int);
}

proof fn lemma_power(gpus: Seq<GpuStats>, k: int)
    requires
        0 <= k <= gpus.len(),
        forall|m: int|
            0 <= m <= gpus.len() ==> i64::MIN <= #[trigger] drawn_by(gpus, m) <= i64::MAX,
    ensures
        crate::perf::power_sum(gpus, k) == drawn_by(gpus, k),
    decreases k,
{
    if k > 0 {
        lemma_power(gpus, k - 1);
        assert(i64::MIN <= drawn_by(gpus, k) <= i64::MAX);
    }
}

proof fn lemma_linked(t: Tracker, gpus: Seq<GpuStats>, k: int)
    requires
        0 <= k <= gpus.len(),
        told_once(gpus),
        forall|j: int| 0 <= j < gpus.len() ==> (#[trigger] gpus[j]).index < t.bw.pcie_rx.len(),
    ensures
        ({
            let p = t.bw.linked(gpus, k);
            &&& p.pcie_rx.len() == t.bw.pcie_rx.len()
            &&& p.pcie_tx == t.bw.pcie_tx
            &&& p.vram_busy == t.bw.vram_busy
            &&& forall|i: int|
                0 <= i < t.bw.pcie_rx.len() && #[trigger] untold(gpus, k, i) ==> p.pcie_rx[i]
                    == t.bw.pcie_rx[i]
            &&& forall|j: int|
                0 <= j < k ==> {
                    let g = #[trigger] gpus[j];
                    p.pcie_rx[g.index as int] == (Gauge {
                        full_scale: crate::perf::link_cap(g.pcie_gen, g.pcie_width),
                        ..t.bw.pcie_rx[g.index as int]
                    })
                }
        }),
    decreases k,
{
    if k > 0 {
        lemma_linked(t, gpus, k - 1);
        let b = t.bw.linked(gpus, k - 1);
        let p = t.bw.linked(gpus, k);
        let g = gpus[k - 1];
        assert(untold(gpus, k - 1, g.index as int));
        assert(b.pcie_rx[g.index as int] == t.bw.pcie_rx[g.index as int]);
        assert forall|i: int|
            0 <= i < t.bw.pcie_rx.len() && #[trigger] untold(gpus, k, i) implies p.pcie_rx[i]
            == t.bw.pcie_rx[i] by {
            assert(gpus[k - 1].index != i);
            assert(untold(gpus, k - 1, i));
        }
        assert forall|j: int| 0 <= j < k implies ({
            let g = #[trigger] gpus[j];
            p.pcie_rx[g.index as int] == (Gauge {
                full_scale: crate::perf::link_cap(g.pcie_gen, g.pcie_width),
                ..t.bw.pcie_rx[g.index as int]
            })
        }) by {
            if j < k - 1 {
                assert(gpus[j].index != gpus[k - 1].index);
            }
        }
    }
}

/// The time since the last look at the cards: a fifth of a second at the first, and never
/// more than two seconds.
pub open spec fn since_last_look(t: Tracker, now: u64) -> u64 {
    if t.last_gpu is None {
        200_000_000
    } else if now <= t.last_gpu->0 {
        0
    } else if now - t.last_gpu->0 > 2_000_000_000 {
        2_000_000_000
    } else {
        (now - t.last_gpu->0) as u64
    }
}

/// The tracker with room for every card that is told of. What a new card's channels start
/// with, and that those of the others stay, is said of the channels themselves.
pub open spec fn with_room(t: Tracker, gpus: Seq<GpuStats>, now: u64) -> Tracker {
    let n = cards_upto(gpus, gpus.len() as int);
    Tracker { bw: t.bw.grown(n, now), ..t.grown(n, now) }
}

/// A look at the cards puts each card's readings on the channels of its own index:
/// utilization, power and temperature into their histories, how busy the memory is onto
/// its meter, and the ceiling of its link under the link's. The channels of a card that
/// is not told of stay as they are.
pub proof fn cards_show_their_own_readings(t: Tracker, gpus: Seq<GpuStats>, now: u64)
    requires
        t.wf(),
        told_once(gpus),
    ensures
        ({
            let b = with_room(t, gpus, now);
            let u = t.gpu_observed(gpus, now);
            let dt = since_last_look(t, now);
            &&& u.last_gpu == Some(now)
            &&& u.total_power_w == total_power(gpus)
            &&& forall|j: int|
                0 <= j < gpus.len() ==> (#[trigger] gpus[j]).index < b.util_hist.len()
                    && shows_card(b, u, gpus[j], now, dt)
            &&& forall|j: int|
                0 <= j < gpus.len() ==> {
                    let g = #[trigger] gpus[j];
                    u.bw.pcie_rx[g.index as int] == (Gauge {
                        full_scale: crate::perf::link_cap(g.pcie_gen, g.pcie_width),
                        ..b.bw.pcie_rx[g.index as int]
                    })
                }
            &&& forall|i: int|
                0 <= i < b.util_hist.len() && #[trigger] untold(gpus, gpus.len() as int, i)
                    ==> leaves_card(b, u, i) && u.bw.pcie_rx[i] == b.bw.pcie_rx[i]
        }),
{
    let dt = since_last_look(t, now);
    let len = gpus.len() as int;
    let n = cards_upto(gpus, len);
    let b = with_room(t, gpus, now);
    crate::laws::channels::every_card_has_a_channel(gpus, len);
    crate::laws::channels::further_cards_get_channels(t.bw, t, n, now);
    assert(b.wf());
    assert forall|j: int| 0 <= j < gpus.len() implies (#[trigger] gpus[j]).index
        < b.util_hist.len() && gpus[j].index < b.bw.pcie_rx.len() by {}
    lemma_linked(b, gpus, len);
    let v = Tracker {
        last_gpu: Some(now),
        total_power_w: total_power(gpus),
        bw: b.bw.linked(gpus, len),
        ..b
    };
    lemma_carded(v, gpus, len, now, dt);
    let u = t.gpu_observed(gpus, now);
    assert(u.last_gpu == Some(now)) by {
        lemma_last_gpu(v, gpus, len, now, dt);
    }
    assert forall|j: int| 0 <= j < gpus.len() implies (#[trigger] gpus[j]).index
        < b.util_hist.len() && shows_card(b, u, gpus[j], now, dt) by {
        assert(shows_card(v, u, gpus[j], now, dt));
    }
    assert forall|i: int|
        0 <= i < b.util_hist.len() && #[trigger] untold(gpus, len, i) implies leaves_card(b, u, i)
        && u.bw.pcie_rx[i] == b.bw.pcie_rx[i] by {
        assert(leaves_card(v, u, i));
    }
}

proof fn lemma_last_gpu(t: Tracker, gpus: Seq<GpuStats>, k: int, now: u64, dt: u64)
    ensures
        t.carded(gpus, k, now, dt).last_gpu == t.last_gpu,
    decreases k,
{
    if k > 0 {
        lemma_last_gpu(t, gpus, k - 1, now, dt);
    }
}

/// The power share of a card is its power over its limit, and no more than one.
pub proof fn power_is_a_share_of_the_limit(g: GpuStats)
    ensures
        g.power_max_watts.millionths() <= 0 || g.power_watts.millionths() <= 0 ==> g.power_share()
            == 0,
        0 < g.power_max_watts.millionths() <= g.power_watts.millionths() ==> g.power_share()
            == 1_000_000,
        0 < g.power_watts.millionths() < g.power_max_watts.millionths() ==> g.power_share()
            == g.power_watts.millionths() * 1_000_000 / g.power_max_watts.millionths() as int,
{
    let max = g.power_max_watts.millionths();
    if max > 0 {
        crate::laws::rates::a_share_makes_up_its_part(
            micro::positive(g.power_watts.millionths()),
            max as u64,
        );
        assert(0int / max as int == 0) by (nonlinear_arith)
            requires
                max > 0,
        ;
    }
}

/// Two rows have the same text in the cell `i`.
pub open spec fn same_cell(p: Seq<Seq<char>>, q: Seq<Seq<char>>, i: int) -> bool {
    i < p.len() && i < q.len() && text::trimmed(p[i]) == text::trimmed(q[i])
}

/// Each reading of a card is that of one cell of its row, and of no other: where two rows
/// agree in the cell, the cards agree in the reading.
pub proof fn each_reading_has_its_cell(
    g: GpuStats,
    h: GpuStats,
    p: Seq<Seq<char>>,
    q: Seq<Seq<char>>,
)
    requires
        g.reads(p),
        h.reads(q),
    ensures
        same_cell(p, q, 0) ==> g.index == h.index,
        same_cell(p, q, 1) ==> g.name@ == h.name@,
        same_cell(p, q, 2) ==> g.mem_total_mb == h.mem_total_mb,
        same_cell(p, q, 3) ==> g.mem_used_mb == h.mem_used_mb,
        same_cell(p, q, 4) ==> g.mem_free_mb == h.mem_free_mb,
        same_cell(p, q, 5) ==> g.utilization_gpu == h.utilization_gpu,
        same_cell(p, q, 6) ==> g.utilization_mem == h.utilization_mem,
        same_cell(p, q, 7) ==> g.power_watts == h.power_watts,
        same_cell(p, q, 8) ==> g.power_max_watts == h.power_max_watts,
        same_cell(p, q, 9) ==> g.temperature == h.temperature,
        same_cell(p, q, 10) ==> g.clock_sm_mhz == h.clock_sm_mhz,
        same_cell(p, q, 11) ==> g.clock_sm_max_mhz == h.clock_sm_max_mhz,
        same_cell(p, q, 12) ==> g.clock_mem_mhz == h.clock_mem_mhz,
        same_cell(p, q, 13) ==> g.fan_pct == h.fan_pct,
        same_cell(p, q, 14) ==> g.pcie_gen == h.pcie_gen,
        same_cell(p, q, 15) ==> g.pcie_width == h.pcie_width,
{
}

/// Cells with the same text give the same number to every reading that is kept as it was
/// told, and the same whole number to every size and clock.
pub proof fn readings_are_read_alike(g: GpuStats, p: Seq<Seq<char>>)
    requires
        g.reads(p),
    ensures
        same_cell(p, p, 5) && 6 < p.len() && text::trimmed(p[5]) == text::trimmed(p[6])
            ==> g.utilization_gpu == g.utilization_mem,
        7 < p.len() && text::trimmed(p[5]) == text::trimmed(p[7]) ==> g.utilization_gpu
            == g.power_watts,
        3 < p.len() && text::trimmed(p[2]) == text::trimmed(p[3]) ==> g.mem_total_mb
            == g.mem_used_mb,
        4 < p.len() && text::trimmed(p[3]) == text::trimmed(p[4]) ==> g.mem_used_mb
            == g.mem_free_mb,
        9 < p.len() && g.temperature is Some && text::trimmed(p[5]) == text::trimmed(p[9])
            ==> g.temperature == Some(g.utilization_gpu),
        9 < p.len() && text::trimmed(p[9]) == text::trimmed(p[7]) && g.temperature is None
            ==> g.power_watts == (Single { bits: 0 }),
        p.len() <= 13 ==> g.fan_pct is None,
{
}

/// A line of fewer than ten cells is no card.
pub proof fn a_card_takes_ten_cells(line: Seq<char>)
    ensures
        card_cells(line) is Some <==> text::split_on(text::trimmed(line), ',').len() >= 10,
{
}

/// The makers' words before a card's name are dropped, and what follows its form.
pub proof fn card_names_are_shortened(n: Seq<char>)
    ensures
        crate::gpu::short_card_name("NVIDIA "@ + n) == crate::gpu::short_card_name(n),
        text::is_word(n) && !text::has_prefix(n, "NVIDIA "@) && !text::has_prefix(
            n,
            "GeForce "@,
        ) && !text::has_prefix(n, "Tesla "@) ==> {
            &&& crate::gpu::short_card_name("GeForce "@ + n) == crate::gpu::short_card_name(n)
            &&& crate::gpu::short_card_name("Tesla "@ + n) == crate::gpu::short_card_name(n)
        },
{
    reveal_strlit("NVIDIA ");
    reveal_strlit("GeForce ");
    reveal_strlit("Tesla ");
    let a = "NVIDIA "@ + n;
    assert(a.subrange(0, 7) =~= "NVIDIA "@);
    assert(a.skip(7) =~= n);
    let b = "GeForce "@ + n;
    assert(b.subrange(0, 8) =~= "GeForce "@);
    assert(b.skip(8) =~= n);
    assert(!text::has_prefix(b, "NVIDIA "@)) by {
        if text::has_prefix(b, "NVIDIA "@) {
            assert(b.subrange(0, 7)[0] == 'N');
            assert(b[0] == 'G');
        }
    }
    let c = "Tesla "@ + n;
    assert(c.subrange(0, 6) =~= "Tesla "@);
    assert(c.skip(6) =~= n);
    assert(!text::has_prefix(c, "NVIDIA "@)) by {
        if text::has_prefix(c, "NVIDIA "@) {
            assert(c.subrange(0, 7)[0] == 'N');
            assert(c[0] == 'T');
        }
    }
    assert(!text::has_prefix(c, "GeForce "@)) by {
        if text::has_prefix(c, "GeForce "@) {
            assert(c.subrange(0, 8)[0] == 'G');
            assert(c[0] == 'T');
        }
    }
}

/// Every line of a table that holds a card gives one, in the order of the lines, and no
/// other line does.
pub proof fn every_card_line_gives_a_card(lines: Seq<Seq<char>>, n: int)
    requires
        0 < n <= lines.len(),
    ensures
        ({
            let cells = text::split_on(text::trimmed(lines[n - 1]), ',');
            crate::gpu::cards_in(lines, n) == if cells.len() >= 10 {
                crate::gpu::cards_in(lines, n - 1).push(cells)
            } else {
                crate::gpu::cards_in(lines, n - 1)
            }
        }),
        crate::gpu::cards_in(lines, 0).len() == 0,
{
}

/// The first line that says something is told.
pub proof fn the_first_line_that_says_something_is_told(lines: Seq<Seq<char>>, k: int)
    requires
        0 <= k <= lines.len(),
        forall|j: int| 0 <= j < k ==> text::trimmed(#[trigger] lines[j]).len() == 0,
        k < lines.len() ==> text::trimmed(lines[k]).len() > 0,
    ensures
        crate::gpu::first_told(lines, 0) == if k < lines.len() {
            Some(lines[k])
        } else {
            None
        },
{
    lemma_first_told(lines, k, 0);
}

proof fn lemma_first_told(lines: Seq<Seq<char>>, k: int, i: int)
    requires
        0 <= i <= k <= lines.len(),
        forall|j: int| 0 <= j < k ==> text::trimmed(#[trigger] lines[j]).len() == 0,
        k < lines.len() ==> text::trimmed(lines[k]).len() > 0,
    ensures
        crate::gpu::first_told(lines, i) == if k < lines.len() {
            Some(lines[k])
        } else {
            None
        },
    decreases k - i,
{
    if i < k {
        assert(text::trimmed(lines[i]).len() == 0);
        lemma_first_told(lines, k, i + 1);
    }
}

} // verus!
