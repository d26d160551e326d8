//! The memory pipeline as a chain of stages, and the verdict on which one is
//! holding the model back. Pure functions over `PerfTracker` state so the
//! reasoning is testable without a terminal.
use crate::float::Single;
use crate::gguf;
use crate::gpu::GpuStats;
use crate::micro;
use crate::model_detect::DetectedModel;
use crate::perf::{Gauge, Meter, PerfTracker, Phase, Tracker, WeightLayout};
use crate::text;
use vstd::prelude::*;

verus! {

#[derive(Clone, Copy, Debug, PartialEq, Eq, Structural)]
pub enum StageId {
    Disk,
    Ram,
    Pcie,
    Vram,
    Prefill,
    Decode,
}

#[derive(Clone, Debug)]
pub struct Verdict {
    /// The stage flagged as the bound, if one stands out.
    pub stage: Option<StageId>,
    pub headline: String,
    pub detail: String,
}

/// A verdict, as mathematical values.
pub struct Judgement {
    pub stage: Option<StageId>,
    pub headline: Seq<char>,
    pub detail: Seq<char>,
}

impl View for Verdict {
    type V = Judgement;

    open spec fn view(&self) -> Judgement {
        Judgement { stage: self.stage, headline: self.headline@, detail: self.detail@ }
    }
}

/// The micro-batch size that the arguments from `i` on set.
pub open spec fn ubatch_at(toks: Seq<Seq<char>>, i: int) -> usize
    decreases toks.len() - i,
{
    if i >= toks.len() {
        512
    } else if (toks[i] == "--ubatch-size"@ || toks[i] == "-ub"@) && i + 1 < toks.len()
        && text::unsigned(toks[i + 1], usize::MAX as nat) is Some {
        text::unsigned(toks[i + 1], usize::MAX as nat)->0 as usize
    } else if text::has_prefix(toks[i], "--ubatch-size="@) && text::unsigned(
        toks[i].skip("--ubatch-size="@.len() as int),
        usize::MAX as nat,
    ) is Some {
        text::unsigned(
            toks[i].skip("--ubatch-size="@.len() as int),
            usize::MAX as nat,
        )->0 as usize
    } else {
        ubatch_at(toks, i + 1)
    }
}

/// The micro-batch size that a command line sets; 512 where it sets none.
pub fn ubatch_from(cmdline: &str) -> (r: usize)
    ensures
        r == ubatch_at(text::words(cmdline@), 0),
{
    let toks = text::words_of(&text::chars_of(cmdline));
    let ghost all = text::texts(toks@);
    let mut i: usize = 0;
    while i < toks.len()
        invariant
            i <= toks.len(),
            all == text::texts(toks@),
            all == text::words(cmdline@),
            ubatch_at(all, i as int) == ubatch_at(all, 0),
        decreases toks.len() - i,
    {
        assert(all[i as int] == toks@[i as int]@);
        if (text::is_text(&toks[i], "--ubatch-size") || text::is_text(&toks[i], "-ub")) && i + 1
            < toks.len() {
            assert(all[i + 1] == toks@[i + 1]@);
            if let Some(v) = text::parse_unsigned(&toks[i + 1], usize::MAX as u64) {
                return v as usize;
            }
        }
        if let Some(rest) = text::after_prefix(&toks[i], "--ubatch-size=") {
            if let Some(v) = text::parse_unsigned(&rest, usize::MAX as u64) {
                return v as usize;
            }
        }
        i += 1;
    }
    512
}

/// The part of `total` weight bytes that a card is to hold: its proportion, nothing
/// where that is negative or no number, or an equal part where no proportions are given.
pub open spec fn wanted(total: u64, split: Seq<Single>, cards: nat, index: int) -> int {
    if split.len() == 0 {
        total as int / cards as int
    } else if index < split.len() {
        total * micro::positive(split[index].millionths()) / gguf::share_total(split)
    } else {
        0
    }
}

/// What a card holds of the weights: what it is to hold, but no more than the
/// memory that is in use.
pub open spec fn on_card(total: u64, split: Seq<Single>, cards: nat, g: GpuStats) -> u64 {
    let want = wanted(total, split, cards, g.index as int);
    let used = micro::capped(g.mem_used_mb * 1_048_576);
    if want < used {
        want as u64
    } else {
        used
    }
}

/// What the first `k` cards hold together.
pub open spec fn on_cards(total: u64, split: Seq<Single>, gpus: Seq<GpuStats>, k: int) -> u64
    decreases k,
{
    if k <= 0 {
        0
    } else {
        micro::capped(
            on_cards(total, split, gpus, k - 1) + on_card(total, split, gpus.len(), gpus[k - 1]),
        )
    }
}

/// The layout of a model's weights over the cards.
pub open spec fn layout_of(m: DetectedModel, gpus: Seq<GpuStats>) -> WeightLayout {
    let ubatch = ubatch_at(text::words(m.cmdline@), 0);
    match m.tensors {
        None => WeightLayout::unknown(ubatch),
        Some(t) => {
            let (n, k) = match m.gguf {
                Some(g) => (g.n_experts, g.n_experts_used),
                None => (0usize, 0usize),
            };
            let held = on_cards(t.total_bytes, m.tensor_split@, gpus, gpus.len() as int);
            WeightLayout {
                known: true,
                total_bytes: t.total_bytes,
                active_bytes: t.active_bytes(n as int, k as int) as u64,
                cpu_bytes: if m.n_gpu_layers == Some(0u32) || gpus.len() == 0 {
                    t.total_bytes
                } else if t.total_bytes > held {
                    (t.total_bytes - held) as u64
                } else {
                    0
                },
                ubatch,
            }
        },
    }
}

fn held_by(total: u64, split: &Vec<Single>, cards: usize, g: &GpuStats) -> (r: u64)
    requires
        cards > 0,
    ensures
        r == on_card(total, split@, cards as nat, *g),
{
    let i: usize = g.index as usize;
    let want: u128 = if split.len() == 0 {
        (total / cards as u64) as u128
    } else if i < split.len() {
        let sum = gguf::split_total(split.as_slice());
        let share: u64 = micro::above_zero(split[i].to_millionths());
        assert(0 <= total * share <= u64::MAX * u64::MAX) by (nonlinear_arith)
            requires
                0 <= total <= u64::MAX,
                0 <= share <= u64::MAX,
        ;
        (total as u128) * (share as u128) / sum
    } else {
        0
    };
    let used: u64 = micro::cap((g.mem_used_mb as u128) * 1_048_576);
    if want < used as u128 {
        want as u64
    } else {
        used
    }
}

/// Build the weight layout from the detected model and current VRAM use.
/// Weights on a GPU are estimated as the file's `--tensor-split` share,
/// clamped to what the card actually holds; the remainder is CPU-side.
pub fn weight_layout(detected: Option<&DetectedModel>, gpus: &[GpuStats]) -> (r: WeightLayout)
    ensures
        detected is None ==> r == WeightLayout::unknown(0),
        detected matches Some(m) ==> r == layout_of(*m, gpus@),
{
    let m = match detected {
        Some(m) => m,
        None => return WeightLayout::default(),
    };
    let ubatch: usize = ubatch_from(m.cmdline.as_str());
    let t = match &m.tensors {
        Some(t) => t,
        None => {
            return WeightLayout {
                known: false,
                total_bytes: 0,
                active_bytes: 0,
                cpu_bytes: 0,
                ubatch,
            };
        },
    };
    let (n_exp, k): (usize, usize) = match &m.gguf {
        Some(g) => (g.n_experts, g.n_experts_used),
        None => (0, 0),
    };
    let total: u64 = t.total_bytes;
    let active: u64 = t.active_bytes_per_token(n_exp, k);
    let no_layers = match m.n_gpu_layers {
        Some(n) => n == 0,
        None => false,
    };
    let cpu_bytes: u64 = if no_layers || gpus.len() == 0 {
        total
    } else {
        let mut on_gpu: u64 = 0;
        let mut i: usize = 0;
        while i < gpus.len()
            invariant
                i <= gpus.len(),
                gpus.len() > 0,
                on_gpu == on_cards(total, m.tensor_split@, gpus@, i as int),
            decreases gpus.len() - i,
        {
            on_gpu = on_gpu.saturating_add(held_by(total, &m.tensor_split, gpus.len(), &gpus[i]));
            i += 1;
        }
        total.saturating_sub(on_gpu)
    };
    WeightLayout { known: true, total_bytes: total, active_bytes: active, cpu_bytes, ubatch }
}

/// A layout stays within the file: neither the CPU side nor what a step reads is
/// more than the whole, and what a step streams from RAM and from VRAM adds up to
/// what it reads.
pub proof fn layouts_stay_within_the_file(m: DetectedModel, gpus: Seq<GpuStats>)
    requires
        m.tensors matches Some(t) ==> t.expert_bytes <= t.total_bytes,
    ensures
        ({
            let l = layout_of(m, gpus);
            &&& l.cpu_bytes <= l.total_bytes
            &&& l.active_bytes <= l.total_bytes
            &&& l.ram_bytes() + l.vram_bytes() == l.active_bytes
        }),
{
    if let Some(t) = m.tensors {
        let (n, k) = match m.gguf {
            Some(g) => (g.n_experts, g.n_experts_used),
            None => (0usize, 0usize),
        };
        gguf::active_bytes_are_bounded(t, n as int, k as int);
    }
    crate::perf::streams_add_up(layout_of(m, gpus));
}

/// The highest of some readings.
pub open spec fn highest(v: Seq<u64>) -> u64
    decreases v.len(),
{
    if v.len() == 0 {
        0
    } else {
        micro::larger(highest(v.drop_last()), v.last())
    }
}

/// The last position of the highest of some readings; 0 where there are none.
pub open spec fn last_highest(v: Seq<u64>) -> int
    decreases v.len(),
{
    if v.len() <= 1 {
        0
    } else if v.last() >= v[last_highest(v.drop_last())] {
        v.len() - 1
    } else {
        last_highest(v.drop_last())
    }
}

proof fn lemma_last_highest(v: Seq<u64>)
    ensures
        v.len() > 0 ==> 0 <= last_highest(v) < v.len(),
        v.len() > 0 ==> v[last_highest(v)] == highest(v),
    decreases v.len(),
{
    if v.len() > 1 {
        lemma_last_highest(v.drop_last());
    } else if v.len() == 1 {
        assert(v.drop_last().len() == 0);
        assert(highest(v.drop_last()) == 0);
    }
}

/// The stage that is named as the busiest shows the highest reading.
pub proof fn the_busiest_is_highest(v: Seq<u64>)
    requires
        v.len() > 0,
    ensures
        0 <= last_highest(v) < v.len(),
        v[last_highest(v)] == highest(v),
        forall|i: int| 0 <= i < v.len() ==> v[i] <= highest(v),
        forall|i: int| last_highest(v) < i < v.len() ==> v[i] < highest(v),
    decreases v.len(),
{
    lemma_last_highest(v);
    if v.len() > 1 {
        the_busiest_is_highest(v.drop_last());
        assert forall|i: int| 0 <= i < v.len() implies v[i] <= highest(v) by {
            if i < v.len() - 1 {
                assert(v.drop_last()[i] == v[i]);
            }
        }
        assert forall|i: int| last_highest(v) < i < v.len() implies v[i] < highest(v) by {
            if i < v.len() - 1 {
                assert(v.drop_last()[i] == v[i]);
            }
        }
    }
}

fn highest_of(v: &Vec<u64>) -> (r: u64)
    ensures
        r == highest(v@),
{
    let mut best: u64 = 0;
    let mut i: usize = 0;
    assert(v@.take(0) =~= Seq::<u64>::empty());
    while i < v.len()
        invariant
            i <= v.len(),
            best == highest(v@.take(i as int)),
        decreases v.len() - i,
    {
        assert(v@.take(i + 1).drop_last() =~= v@.take(i as int));
        best = micro::max(best, v[i]);
        i += 1;
    }
    assert(v@.take(v@.len() as int) =~= v@);
    best
}

fn last_highest_of(v: &Vec<u64>) -> (r: usize)
    ensures
        r == last_highest(v@),
{
    let mut at: usize = 0;
    let mut i: usize = 1;
    if v.len() == 0 {
        return 0;
    }
    while i < v.len()
        invariant
            1 <= i <= v.len(),
            at < i,
            at == last_highest(v@.take(i as int)),
        decreases v.len() - i,
    {
        proof {
            assert(v@.take(i + 1).drop_last() =~= v@.take(i as int));
            assert(v@.take(i + 1)[at as int] == v@[at as int]);
            assert(v@.take(i + 1).last() == v@[i as int]);
        }
        if v[i] >= v[at] {
            at = i;
        }
        i += 1;
    }
    assert(v@.take(v@.len() as int) =~= v@);
    at
}

/// What the verdict is made from.
pub struct Readings {
    pub max_mem_busy: u64,
    pub busiest_gpu: int,
    pub max_gpu_util: u64,
    pub pcie_frac: u64,
    pub pcie_busiest: int,
    pub disk_busy: bool,
    pub cpu_side: bool,
}

pub open spec fn values(g: Seq<Gauge>) -> Seq<u64> {
    Seq::new(g.len(), |i: int| g[i].value)
}

pub open spec fn fractions(g: Seq<Gauge>) -> Seq<u64> {
    Seq::new(g.len(), |i: int| g[i].frac())
}

pub open spec fn utilizations(gpus: Seq<GpuStats>) -> Seq<u64> {
    Seq::new(gpus.len(), |i: int| micro::positive(gpus[i].utilization_gpu.millionths()))
}

/// The readings of a tracker's state and the cards. A disk is busy above 50 MB/s,
/// 20 MB/s of the process's own, or 50 major faults a second; the CPU side counts
/// above a fiftieth of the weights.
pub open spec fn readings(t: Tracker, gpus: Seq<GpuStats>) -> Readings {
    Readings {
        max_mem_busy: highest(values(t.bw.vram_busy)),
        busiest_gpu: last_highest(values(t.bw.vram_busy)),
        max_gpu_util: highest(utilizations(gpus)),
        pcie_frac: highest(fractions(t.bw.pcie_rx)),
        pcie_busiest: last_highest(fractions(t.bw.pcie_rx)),
        disk_busy: t.bw.disk.value > 50_000_000 || t.bw.proc_disk_mb_s > 20_000_000
            || t.bw.majflt_per_s > 50_000_000,
        cpu_side: t.bw.layout.known && t.bw.layout.cpu_bytes > t.bw.layout.total_bytes / 50,
    }
}

/// A share as a percentage to the nearest whole number.
pub open spec fn percent(frac: u64) -> Seq<char> {
    micro::whole_text((frac * 100) as u64)
}

/// A number of bytes in GB, with one digit after the point.
pub open spec fn gigabytes(bytes: u64) -> Seq<char> {
    micro::tenths_text(bytes, 1_000_000_000)
}

/// The verdict on an idle server.
pub open spec fn judged_idle(t: Tracker, r: Readings) -> Judgement {
    if r.disk_busy && t.bw.host_seen {
        Judgement {
            stage: Some(StageId::Disk),
            headline: "loading weights from disk"@,
            detail: micro::whole_text(t.bw.disk.value) + " MB/s into the page cache"@,
        }
    } else {
        Judgement {
            stage: None,
            headline: "idle"@,
            detail: "send a request to see where the tokens wait"@,
        }
    }
}

/// The verdict on a server that processes a prompt.
pub open spec fn judged_prefill(t: Tracker, r: Readings) -> Judgement {
    if r.disk_busy {
        Judgement {
            stage: Some(StageId::Disk),
            headline: "paging weights from disk during prefill"@,
            detail: micro::whole_text(t.bw.disk.value) + " MB/s, "@ + micro::whole_text(
                t.bw.majflt_per_s,
            ) + " major faults/s — the model does not fit in RAM"@,
        }
    } else if r.pcie_frac > 500_000 {
        Judgement {
            stage: Some(StageId::Pcie),
            headline: "PCIe link to GPU "@ + text::decimal(r.pcie_busiest as nat)
                + " is the bound"@,
            detail: percent(r.pcie_frac) + "% of the link, prompt batches are crossing the bus"@,
        }
    } else if r.max_gpu_util >= 60_000_000 {
        Judgement {
            stage: Some(StageId::Prefill),
            headline: "compute bound: prefill is matmul throughput"@,
            detail: "GPU "@ + micro::whole_text(r.max_gpu_util) + "% busy, memory controller "@
                + micro::whole_text(r.max_mem_busy) + "%"@,
        }
    } else if r.cpu_side {
        Judgement {
            stage: Some(StageId::Ram),
            headline: "CPU-side layers are doing the prefill"@,
            detail: "~"@ + gigabytes(t.bw.layout.cpu_bytes)
                + " GB of weights did not fit in VRAM; GPU only "@ + micro::whole_text(
                r.max_gpu_util,
            ) + "% busy"@,
        }
    } else {
        Judgement {
            stage: Some(StageId::Prefill),
            headline: "prefill"@,
            detail: micro::whole_text(t.prefill_tps_smooth) + " tok/s ingest"@,
        }
    }
}

/// The verdict on a server that generates.
pub open spec fn judged_decode(t: Tracker, r: Readings) -> Judgement {
    if r.disk_busy {
        Judgement {
            stage: Some(StageId::Disk),
            headline: "weights are streaming from DISK every token"@,
            detail: micro::whole_text(micro::larger(t.bw.disk.value, t.bw.proc_disk_mb_s))
                + " MB/s, "@ + micro::whole_text(t.bw.majflt_per_s)
                + " major faults/s — add RAM, a smaller quant, or fewer CPU layers"@,
        }
    } else if r.pcie_frac > 350_000 {
        Judgement {
            stage: Some(StageId::Pcie),
            headline: "PCIe to GPU "@ + text::decimal(r.pcie_busiest as nat) + " is the bound"@,
            detail: percent(r.pcie_frac)
                + "% of the link — weights or activations crossing the bus each token"@,
        }
    } else if r.max_mem_busy >= 75_000_000 {
        Judgement {
            stage: Some(StageId::Vram),
            headline: "VRAM bandwidth bound on GPU "@ + text::decimal(r.busiest_gpu as nat),
            detail: "memory controller "@ + micro::whole_text(r.max_mem_busy) + "% busy; "@
                + gigabytes(t.bw.layout.vram_bytes() as u64)
                + " GB of weights per step — a smaller quant is faster"@,
        }
    } else if r.cpu_side && r.max_gpu_util < 60_000_000 {
        Judgement {
            stage: Some(StageId::Ram),
            headline: "RAM bound: CPU-side layers gate every token"@,
            detail: "~"@ + gigabytes(t.bw.layout.cpu_bytes)
                + " GB of weights on the CPU side, ~"@ + micro::tenths_text(
                t.bw.ram.value,
                1_000_000,
            ) + " GB/s from RAM; GPU only "@ + micro::whole_text(r.max_gpu_util) + "% busy"@,
        }
    } else if r.max_gpu_util >= 85_000_000 {
        Judgement {
            stage: Some(StageId::Decode),
            headline: "GPU compute bound"@,
            detail: "GPU "@ + micro::whole_text(r.max_gpu_util)
                + "% busy with the memory controller at "@ + micro::whole_text(r.max_mem_busy)
                + "% — kernels, not bandwidth"@,
        }
    } else {
        Judgement {
            stage: None,
            headline: "no link saturated"@,
            detail: "GPU "@ + micro::whole_text(r.max_gpu_util) + "%, memory "@
                + micro::whole_text(r.max_mem_busy) + "%, PCIe "@ + percent(r.pcie_frac)
                + "% — latency, sampling or host overhead between tokens"@,
        }
    }
}

/// The verdict on where a server's tokens wait.
pub open spec fn judged(t: Tracker, gpus: Seq<GpuStats>) -> Judgement {
    let r = readings(t, gpus);
    match t.phase {
        Phase::Idle => judged_idle(t, r),
        Phase::Prefill => judged_prefill(t, r),
        Phase::Decode => judged_decode(t, r),
    }
}

/// A disk that is being read is named before any other stage, whatever a running
/// server does.
pub proof fn disk_wins_over_everything(t: Tracker, gpus: Seq<GpuStats>)
    requires
        readings(t, gpus).disk_busy,
        t.phase != Phase::Idle || t.bw.host_seen,
    ensures
        judged(t, gpus).stage == Some(StageId::Disk),
{
}

/// A server that generates, with every reading below its threshold, is bound by
/// no link.
pub proof fn nothing_stands_out_below_every_threshold(t: Tracker, gpus: Seq<GpuStats>)
    requires
        t.phase == Phase::Decode,
        !readings(t, gpus).disk_busy,
        readings(t, gpus).pcie_frac <= 350_000,
        readings(t, gpus).max_mem_busy < 75_000_000,
        !readings(t, gpus).cpu_side,
        readings(t, gpus).max_gpu_util < 85_000_000,
    ensures
        judged(t, gpus).stage is None,
{
}

fn meter_values(meters: &Vec<Meter>) -> (r: Vec<u64>)
    ensures
        r@ == values(crate::perf::gauges(meters@)),
{
    let mut out: Vec<u64> = Vec::new();
    let mut i: usize = 0;
    while i < meters.len()
        invariant
            i <= meters.len(),
            out@.len() == i,
            forall|j: int| 0 <= j < i ==> out@[j] == meters@[j]@.value,
        decreases meters.len() - i,
    {
        out.push(meters[i].value);
        i += 1;
    }
    assert(out@ =~= values(crate::perf::gauges(meters@)));
    out
}

fn meter_fractions(meters: &Vec<Meter>) -> (r: Vec<u64>)
    ensures
        r@ == fractions(crate::perf::gauges(meters@)),
        forall|i: int| 0 <= i < r@.len() ==> r@[i] <= micro::ONE,
{
    let mut out: Vec<u64> = Vec::new();
    let mut i: usize = 0;
    while i < meters.len()
        invariant
            i <= meters.len(),
            out@.len() == i,
            forall|j: int| 0 <= j < i ==> out@[j] == meters@[j]@.frac(),
            forall|j: int| 0 <= j < i ==> out@[j] <= micro::ONE,
        decreases meters.len() - i,
    {
        out.push(meters[i].frac());
        i += 1;
    }
    assert(out@ =~= fractions(crate::perf::gauges(meters@)));
    out
}

fn gpu_utilizations(gpus: &[GpuStats]) -> (r: Vec<u64>)
    ensures
        r@ == utilizations(gpus@),
{
    let mut out: Vec<u64> = Vec::new();
    let mut i: usize = 0;
    while i < gpus.len()
        invariant
            i <= gpus.len(),
            out@.len() == i,
            forall|j: int| 0 <= j < i ==> out@[j] == micro::positive(gpus@[j].utilization_gpu.millionths()),
        decreases gpus.len() - i,
    {
        out.push(micro::above_zero(gpus[i].utilization_gpu.to_millionths()));
        i += 1;
    }
    assert(out@ =~= utilizations(gpus@));
    out
}

proof fn lemma_highest_bounded(v: Seq<u64>, bound: u64)
    requires
        forall|i: int| 0 <= i < v.len() ==> v[i] <= bound,
    ensures
        highest(v) <= bound,
    decreases v.len(),
{
    if v.len() > 0 {
        lemma_highest_bounded(v.drop_last(), bound);
    }
}

/// A verdict from its parts.
fn verdict(stage: Option<StageId>, headline: &Vec<char>, detail: &Vec<char>) -> (r: Verdict)
    ensures
        r@ == (Judgement { stage, headline: headline@, detail: detail@ }),
{
    Verdict { stage, headline: text::string_of(headline), detail: text::string_of(detail) }
}

fn add_percent(to: &mut Vec<char>, frac: u64)
    requires
        frac <= micro::ONE,
    ensures
        final(to)@ == old(to)@ + percent(frac),
{
    micro::add_whole(to, frac * 100);
}

/// Thresholds are fractions of each stage's scale, chosen so a stage is only
/// named when it is plainly busy: a saturated link, a memory controller past
/// three quarters, a disk that is actually being read.
pub fn assess(p: &PerfTracker, gpus: &[GpuStats]) -> (r: Verdict)
    ensures
        r@ == judged(p@, gpus@),
{
    let bw = &p.bw;
    let busy = meter_values(&bw.vram_busy);
    let max_mem_busy: u64 = highest_of(&busy);
    let busiest_gpu: usize = last_highest_of(&busy);
    let max_gpu_util: u64 = highest_of(&gpu_utilizations(gpus));
    let links = meter_fractions(&bw.pcie_rx);
    let pcie_frac: u64 = highest_of(&links);
    let pcie_busiest: usize = last_highest_of(&links);
    proof {
        lemma_highest_bounded(links@, micro::ONE);
    }
    let disk_busy = bw.disk.value > 50_000_000 || bw.proc_disk_mb_s > 20_000_000
        || bw.majflt_per_s > 50_000_000;
    let cpu_side = bw.layout.known && bw.layout.cpu_bytes > bw.layout.total_bytes / 50;
    let ghost rd = readings(p@, gpus@);
    match p.phase {
        Phase::Idle => {
            let mut detail: Vec<char> = Vec::new();
            if disk_busy && bw.host_seen {
                micro::add_whole(&mut detail, bw.disk.value);
                text::add_str(&mut detail, " MB/s into the page cache");
                assert(detail@ =~= judged_idle(p@, rd).detail);
                return verdict(
                    Some(StageId::Disk),
                    &text::chars_of("loading weights from disk"),
                    &detail,
                );
            }
            verdict(
                None,
                &text::chars_of("idle"),
                &text::chars_of("send a request to see where the tokens wait"),
            )
        },
        Phase::Prefill => assess_prefill(
            p,
            Ghost(rd),
            max_mem_busy,
            max_gpu_util,
            pcie_frac,
            pcie_busiest,
            disk_busy,
            cpu_side,
        ),
        Phase::Decode => assess_decode(
            p,
            Ghost(rd),
            max_mem_busy,
            busiest_gpu,
            max_gpu_util,
            pcie_frac,
            pcie_busiest,
            disk_busy,
            cpu_side,
        ),
    }
}

/// The verdict on a server that processes a prompt.
fn assess_prefill(
    p: &PerfTracker,
    Ghost(rd): Ghost<Readings>,
    max_mem_busy: u64,
    max_gpu_util: u64,
    pcie_frac: u64,
    pcie_busiest: usize,
    disk_busy: bool,
    cpu_side: bool,
) -> (r: Verdict)
    requires
        rd.max_mem_busy == max_mem_busy,
        rd.max_gpu_util == max_gpu_util,
        rd.pcie_frac == pcie_frac,
        rd.pcie_busiest == pcie_busiest,
        rd.disk_busy == disk_busy,
        rd.cpu_side == cpu_side,
        pcie_frac <= micro::ONE,
    ensures
        r@ == judged_prefill(p@, rd),
{
    let bw = &p.bw;
    let ghost want = judged_prefill(p@, rd);
    let mut headline: Vec<char> = Vec::new();
    let mut detail: Vec<char> = Vec::new();
    let stage = if disk_busy {
        text::add_str(&mut headline, "paging weights from disk during prefill");
        micro::add_whole(&mut detail, bw.disk.value);
        text::add_str(&mut detail, " MB/s, ");
        micro::add_whole(&mut detail, bw.majflt_per_s);
        text::add_str(&mut detail, " major faults/s — the model does not fit in RAM");
        StageId::Disk
    } else if pcie_frac > 500_000 {
        text::add_str(&mut headline, "PCIe link to GPU ");
        text::add_number(&mut headline, pcie_busiest as u64);
        text::add_str(&mut headline, " is the bound");
        add_percent(&mut detail, pcie_frac);
        text::add_str(&mut detail, "% of the link, prompt batches are crossing the bus");
        StageId::Pcie
    } else if max_gpu_util >= 60_000_000 {
        text::add_str(&mut headline, "compute bound: prefill is matmul throughput");
        text::add_str(&mut detail, "GPU ");
        micro::add_whole(&mut detail, max_gpu_util);
        text::add_str(&mut detail, "% busy, memory controller ");
        micro::add_whole(&mut detail, max_mem_busy);
        text::add_str(&mut detail, "%");
        StageId::Prefill
    } else if cpu_side {
        text::add_str(&mut headline, "CPU-side layers are doing the prefill");
        text::add_str(&mut detail, "~");
        micro::add_tenths(&mut detail, bw.layout.cpu_bytes, 1_000_000_000);
        text::add_str(&mut detail, " GB of weights did not fit in VRAM; GPU only ");
        micro::add_whole(&mut detail, max_gpu_util);
        text::add_str(&mut detail, "% busy");
        StageId::Ram
    } else {
        text::add_str(&mut headline, "prefill");
        micro::add_whole(&mut detail, p.prefill_tps_smooth);
        text::add_str(&mut detail, " tok/s ingest");
        StageId::Prefill
    };
    proof {
        assert(headline@ =~= want.headline);
        assert(detail@ =~= want.detail);
    }
    verdict(Some(stage), &headline, &detail)
}

/// The verdict on a server that generates.
fn assess_decode(
    p: &PerfTracker,
    Ghost(rd): Ghost<Readings>,
    max_mem_busy: u64,
    busiest_gpu: usize,
    max_gpu_util: u64,
    pcie_frac: u64,
    pcie_busiest: usize,
    disk_busy: bool,
    cpu_side: bool,
) -> (r: Verdict)
    requires
        rd.max_mem_busy == max_mem_busy,
        rd.busiest_gpu == busiest_gpu,
        rd.max_gpu_util == max_gpu_util,
        rd.pcie_frac == pcie_frac,
        rd.pcie_busiest == pcie_busiest,
        rd.disk_busy == disk_busy,
        rd.cpu_side == cpu_side,
        pcie_frac <= micro::ONE,
    ensures
        r@ == judged_decode(p@, rd),
{
    let bw = &p.bw;
    let ghost want = judged_decode(p@, rd);
    let mut headline: Vec<char> = Vec::new();
    let mut detail: Vec<char> = Vec::new();
    let stage = if disk_busy {
        text::add_str(&mut headline, "weights are streaming from DISK every token");
        micro::add_whole(&mut detail, micro::max(bw.disk.value, bw.proc_disk_mb_s));
        text::add_str(&mut detail, " MB/s, ");
        micro::add_whole(&mut detail, bw.majflt_per_s);
        text::add_str(
            &mut detail,
            " major faults/s — add RAM, a smaller quant, or fewer CPU layers",
        );
        Some(StageId::Disk)
    } else if pcie_frac > 350_000 {
        text::add_str(&mut headline, "PCIe to GPU ");
        text::add_number(&mut headline, pcie_busiest as u64);
        text::add_str(&mut headline, " is the bound");
        add_percent(&mut detail, pcie_frac);
        text::add_str(
            &mut detail,
            "% of the link — weights or activations crossing the bus each token",
        );
        Some(StageId::Pcie)
    } else if max_mem_busy >= 75_000_000 {
        text::add_str(&mut headline, "VRAM bandwidth bound on GPU ");
        text::add_number(&mut headline, busiest_gpu as u64);
        text::add_str(&mut detail, "memory controller ");
        micro::add_whole(&mut detail, max_mem_busy);
        text::add_str(&mut detail, "% busy; ");
        micro::add_tenths(&mut detail, bw.layout.per_step().1, 1_000_000_000);
        text::add_str(&mut detail, " GB of weights per step — a smaller quant is faster");
        Some(StageId::Vram)
    } else if cpu_side && max_gpu_util < 60_000_000 {
        text::add_str(&mut headline, "RAM bound: CPU-side layers gate every token");
        text::add_str(&mut detail, "~");
        micro::add_tenths(&mut detail, bw.layout.cpu_bytes, 1_000_000_000);
        text::add_str(&mut detail, " GB of weights on the CPU side, ~");
        micro::add_tenths(&mut detail, bw.ram.value, 1_000_000);
        text::add_str(&mut detail, " GB/s from RAM; GPU only ");
        micro::add_whole(&mut detail, max_gpu_util);
        text::add_str(&mut detail, "% busy");
        Some(StageId::Ram)
    } else if max_gpu_util >= 85_000_000 {
        text::add_str(&mut headline, "GPU compute bound");
        text::add_str(&mut detail, "GPU ");
        micro::add_whole(&mut detail, max_gpu_util);
        text::add_str(&mut detail, "% busy with the memory controller at ");
        micro::add_whole(&mut detail, max_mem_busy);
        text::add_str(&mut detail, "% — kernels, not bandwidth");
        Some(StageId::Decode)
    } else {
        text::add_str(&mut headline, "no link saturated");
        text::add_str(&mut detail, "GPU ");
        micro::add_whole(&mut detail, max_gpu_util);
        text::add_str(&mut detail, "%, memory ");
        micro::add_whole(&mut detail, max_mem_busy);
        text::add_str(&mut detail, "%, PCIe ");
        add_percent(&mut detail, pcie_frac);
        text::add_str(&mut detail, "% — latency, sampling or host overhead between tokens");
        None
    };
    proof {
        assert(headline@ =~= want.headline);
        assert(detail@ =~= want.detail);
    }
    verdict(stage, &headline, &detail)
}

} // verus!
