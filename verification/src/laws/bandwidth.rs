//! Where the tokens wait, and where the weights are.
use crate::bandwidth::{highest, judged, last_highest, layout_of, on_card, on_cards, ubatch_at};
use crate::bandwidth::{fractions, the_busiest_is_highest, utilizations, values, StageId};
use crate::float::Single;
use crate::gguf;
use crate::gpu::GpuStats;
use crate::micro;
use crate::model_detect::DetectedModel;
use crate::perf::{Phase, Tracker};
use crate::text;
use vstd::prelude::*;

verus! {

/// Something is read from the disk: over 50 MB/s in all, over 20 MB/s for the
/// server, or over 50 major faults a second.
pub open spec fn disk_is_read(t: Tracker) -> bool {
    ||| t.bw.disk.value > 50_000_000
    ||| t.bw.proc_disk_mb_s > 20_000_000
    ||| t.bw.majflt_per_s > 50_000_000
}

/// One of the links carries more than `share` of what it can.
pub open spec fn a_link_is_above(t: Tracker, share: u64) -> bool {
    exists|i: int| 0 <= i < t.bw.pcie_rx.len() && (#[trigger] t.bw.pcie_rx[i]).frac() > share
}

/// One of the memory controllers is busy for `level` or more.
pub open spec fn a_controller_reaches(t: Tracker, level: u64) -> bool {
    exists|i: int| 0 <= i < t.bw.vram_busy.len() && (#[trigger] t.bw.vram_busy[i]).value >= level
}

/// One of the cards is utilized for `level` or more.
pub open spec fn a_card_reaches(gpus: Seq<GpuStats>, level: i64) -> bool {
    exists|i: int|
        0 <= i < gpus.len() && (#[trigger] gpus[i]).utilization_gpu.millionths() >= level
}

/// More than a fiftieth of the weights are on the CPU side.
pub open spec fn weights_on_the_cpu(t: Tracker) -> bool {
    t.bw.layout.known && 50 * t.bw.layout.cpu_bytes > t.bw.layout.total_bytes
}

/// `x` is the highest of `v`, or nothing where `v` is empty.
pub open spec fn tops(v: Seq<u64>, x: u64) -> bool {
    &&& forall|i: int| 0 <= i < v.len() ==> v[i] <= x
    &&& v.len() == 0 ==> x == 0
    &&& v.len() > 0 ==> v.contains(x)
}

proof fn lemma_tops(v: Seq<u64>)
    ensures
        tops(v, highest(v)),
{
    if v.len() > 0 {
        the_busiest_is_highest(v);
        assert(v[last_highest(v)] == highest(v));
    }
}

proof fn lemma_above(v: Seq<u64>, level: int)
    requires
        level > 0,
    ensures
        highest(v) >= level <==> exists|i: int| 0 <= i < v.len() && #[trigger] v[i] >= level,
{
    lemma_tops(v);
    if v.len() > 0 {
        the_busiest_is_highest(v);
        assert(v[last_highest(v)] == highest(v));
    }
}

proof fn lemma_signs(t: Tracker, gpus: Seq<GpuStats>)
    ensures
        forall|share: u64|
            share < u64::MAX ==> (#[trigger] a_link_is_above(t, share) <==> highest(
                fractions(t.bw.pcie_rx),
            ) > share),
        forall|level: u64|
            level > 0 ==> (#[trigger] a_controller_reaches(t, level) <==> highest(
                values(t.bw.vram_busy),
            ) >= level),
        forall|level: i64|
            level > 0 ==> (#[trigger] a_card_reaches(gpus, level) <==> highest(utilizations(gpus))
                >= level),
{
    let f = fractions(t.bw.pcie_rx);
    let b = values(t.bw.vram_busy);
    let u = utilizations(gpus);
    assert forall|share: u64| share < u64::MAX implies (#[trigger] a_link_is_above(t, share)
        <==> highest(f) > share) by {
        lemma_above(f, share + 1);
        if a_link_is_above(t, share) {
            let i = choose|i: int|
                0 <= i < t.bw.pcie_rx.len() && (#[trigger] t.bw.pcie_rx[i]).frac() > share;
            assert(f[i] >= share + 1);
        }
        if highest(f) > share {
            let i = choose|i: int| 0 <= i < f.len() && #[trigger] f[i] >= share + 1;
            assert(t.bw.pcie_rx[i].frac() > share);
        }
    }
    assert forall|level: u64| level > 0 implies (#[trigger] a_controller_reaches(t, level)
        <==> highest(b) >= level) by {
        lemma_above(b, level as int);
        if a_controller_reaches(t, level) {
            let i = choose|i: int|
                0 <= i < t.bw.vram_busy.len() && (#[trigger] t.bw.vram_busy[i]).value >= level;
            assert(b[i] >= level);
        }
        if highest(b) >= level {
            let i = choose|i: int| 0 <= i < b.len() && #[trigger] b[i] >= level;
            assert(t.bw.vram_busy[i].value >= level);
        }
    }
    assert forall|level: i64| level > 0 implies (#[trigger] a_card_reaches(gpus, level)
        <==> highest(u) >= level) by {
        lemma_above(u, level as int);
        if a_card_reaches(gpus, level) {
            let i = choose|i: int|
                0 <= i < gpus.len() && (#[trigger] gpus[i]).utilization_gpu.millionths() >= level;
            assert(u[i] >= level);
        }
        if highest(u) >= level {
            let i = choose|i: int| 0 <= i < u.len() && #[trigger] u[i] >= level;
            assert(gpus[i].utilization_gpu.millionths() >= level);
        }
    }
}

/// During prefill a disk that is read comes before all else, a link above half of
/// what it carries before the cards, and a card at 60 % or more before the layout of
/// the weights: RAM is named only where every card is below 60 % and more than a
/// fiftieth of the weights are on the CPU side.
pub proof fn prefill_is_judged_by_what_is_busy(t: Tracker, gpus: Seq<GpuStats>)
    requires
        t.phase == Phase::Prefill,
    ensures
        ({
            let stage = judged(t, gpus).stage;
            &&& stage == Some(StageId::Disk) <==> disk_is_read(t)
            &&& stage == Some(StageId::Pcie) <==> !disk_is_read(t) && a_link_is_above(t, 500_000)
            &&& stage == Some(StageId::Ram) <==> !disk_is_read(t) && !a_link_is_above(t, 500_000)
                && !a_card_reaches(gpus, 60_000_000) && weights_on_the_cpu(t)
            &&& !disk_is_read(t) && !a_link_is_above(t, 500_000) && (a_card_reaches(
                gpus,
                60_000_000,
            ) || !weights_on_the_cpu(t)) ==> stage == Some(StageId::Prefill)
        }),
{
    lemma_signs(t, gpus);
}

/// While a server generates, a disk that is read comes before all else, then a link
/// above 35 % of what it carries, then a memory controller at 75 % or more. RAM is
/// named where the CPU holds more than a fiftieth of the weights and no card reaches
/// 60 %, and compute where a card reaches 85 %.
pub proof fn decode_is_judged_by_what_is_busy(t: Tracker, gpus: Seq<GpuStats>)
    requires
        t.phase == Phase::Decode,
    ensures
        ({
            let stage = judged(t, gpus).stage;
            let carried = disk_is_read(t) || a_link_is_above(t, 350_000);
            let fed = carried || a_controller_reaches(t, 75_000_000);
            &&& stage == Some(StageId::Disk) <==> disk_is_read(t)
            &&& stage == Some(StageId::Pcie) <==> !disk_is_read(t) && a_link_is_above(t, 350_000)
            &&& stage == Some(StageId::Vram) <==> !carried && a_controller_reaches(t, 75_000_000)
            &&& stage == Some(StageId::Ram) <==> !fed && weights_on_the_cpu(t) && !a_card_reaches(
                gpus,
                60_000_000,
            )
            &&& stage == Some(StageId::Decode) <==> !fed && a_card_reaches(gpus, 85_000_000)
            &&& stage is None <==> !fed && !a_card_reaches(gpus, 85_000_000) && (a_card_reaches(
                gpus,
                60_000_000,
            ) || !weights_on_the_cpu(t))
        }),
{
    lemma_signs(t, gpus);
}

/// An idle server has no bound, but for the disk from which its weights are read,
/// once the host has been looked at.
pub proof fn an_idle_server_waits_for_the_disk_alone(t: Tracker, gpus: Seq<GpuStats>)
    requires
        t.phase == Phase::Idle,
    ensures
        judged(t, gpus).stage == if disk_is_read(t) && t.bw.host_seen {
            Some(StageId::Disk)
        } else {
            None
        },
{
}

/// The card that a verdict names is the one whose reading is the highest, and of
/// several the last.
pub open spec fn names_the_busiest(v: Seq<u64>, at: int) -> bool {
    &&& 0 <= at < v.len()
    &&& forall|i: int| 0 <= i < v.len() ==> v[i] <= v[at]
    &&& forall|i: int| at < i < v.len() ==> v[i] < v[at]
}

/// A verdict on a link names the card behind the fullest one, and says how full it is.
pub proof fn the_fullest_link_is_named(t: Tracker, gpus: Seq<GpuStats>)
    requires
        judged(t, gpus).stage == Some(StageId::Pcie),
    ensures
        exists|at: int|
            #![trigger t.bw.pcie_rx[at]]
            names_the_busiest(fractions(t.bw.pcie_rx), at) && {
                let shown = text::decimal(at as nat);
                let full = micro::whole_text((t.bw.pcie_rx[at].frac() * 100) as u64);
                if t.phase == Phase::Prefill {
                    &&& judged(t, gpus).headline == "PCIe link to GPU "@ + shown
                        + " is the bound"@
                    &&& judged(t, gpus).detail == full
                        + "% of the link, prompt batches are crossing the bus"@
                } else {
                    &&& judged(t, gpus).headline == "PCIe to GPU "@ + shown + " is the bound"@
                    &&& judged(t, gpus).detail == full
                        + "% of the link — weights or activations crossing the bus each token"@
                }
            },
{
    let f = fractions(t.bw.pcie_rx);
    lemma_above(f, 350_001);
    assert(highest(f) >= 350_001);
    the_busiest_is_highest(f);
    let at = last_highest(f);
    assert(t.bw.pcie_rx[at].frac() == f[at]);
    assert(names_the_busiest(f, at));
}

/// A verdict on a memory controller names the card with the busiest one, and says how
/// busy it is and what a step reads of the memory.
pub proof fn the_busiest_memory_is_named(t: Tracker, gpus: Seq<GpuStats>)
    requires
        judged(t, gpus).stage == Some(StageId::Vram),
    ensures
        exists|at: int|
            #![trigger t.bw.vram_busy[at]]
            names_the_busiest(values(t.bw.vram_busy), at) && judged(t, gpus).headline
                == "VRAM bandwidth bound on GPU "@ + text::decimal(at as nat) && judged(
                t,
                gpus,
            ).detail == "memory controller "@ + micro::whole_text(t.bw.vram_busy[at].value)
                + "% busy; "@ + micro::tenths_text(
                t.bw.layout.vram_bytes() as u64,
                1_000_000_000,
            ) + " GB of weights per step — a smaller quant is faster"@,
{
    let b = values(t.bw.vram_busy);
    lemma_above(b, 75_000_000);
    the_busiest_is_highest(b);
    let at = last_highest(b);
    assert(t.bw.vram_busy[at].value == b[at]);
    assert(names_the_busiest(b, at));
}

/// A verdict on RAM says how many weights the CPU holds and how busy the busiest card
/// is; while a server generates, also what comes from RAM.
pub proof fn a_verdict_on_ram_tells_the_weights(t: Tracker, gpus: Seq<GpuStats>)
    requires
        judged(t, gpus).stage == Some(StageId::Ram),
    ensures
        exists|u: u64|
            #![trigger micro::whole_text(u)]
            tops(utilizations(gpus), u) && judged(t, gpus).detail == "~"@ + micro::tenths_text(
                t.bw.layout.cpu_bytes,
                1_000_000_000,
            ) + (if t.phase == Phase::Prefill {
                " GB of weights did not fit in VRAM; GPU only "@
            } else {
                " GB of weights on the CPU side, ~"@ + micro::tenths_text(
                    t.bw.ram.value,
                    1_000_000,
                ) + " GB/s from RAM; GPU only "@
            }) + micro::whole_text(u) + "% busy"@,
{
    let u = highest(utilizations(gpus));
    lemma_tops(utilizations(gpus));
    assert(micro::whole_text(u) == micro::whole_text(u));
    if t.phase != Phase::Prefill {
        let a = "~"@ + micro::tenths_text(t.bw.layout.cpu_bytes, 1_000_000_000);
        let b = " GB of weights on the CPU side, ~"@;
        let c = micro::tenths_text(t.bw.ram.value, 1_000_000);
        let d = " GB/s from RAM; GPU only "@;
        assert(a + (b + c + d) =~= a + b + c + d);
    }
}

/// What the verdict on a computing server says of the cards is the highest
/// utilization and the highest reading of a memory controller.
pub proof fn a_verdict_on_compute_tells_the_busiest(t: Tracker, gpus: Seq<GpuStats>)
    requires
        t.phase != Phase::Idle,
        t.phase == Phase::Decode ==> judged(t, gpus).stage == Some(StageId::Decode),
        t.phase == Phase::Prefill ==> judged(t, gpus).stage == Some(StageId::Prefill)
            && a_card_reaches(gpus, 60_000_000),
    ensures
        exists|u: u64, b: u64|
            #![trigger micro::whole_text(u), micro::whole_text(b)]
            tops(utilizations(gpus), u) && tops(values(t.bw.vram_busy), b) && judged(
                t,
                gpus,
            ).detail == if t.phase == Phase::Prefill {
                "GPU "@ + micro::whole_text(u) + "% busy, memory controller "@
                    + micro::whole_text(b) + "%"@
            } else {
                "GPU "@ + micro::whole_text(u) + "% busy with the memory controller at "@
                    + micro::whole_text(b) + "% — kernels, not bandwidth"@
            },
{
    lemma_signs(t, gpus);
    let u = highest(utilizations(gpus));
    let b = highest(values(t.bw.vram_busy));
    lemma_tops(utilizations(gpus));
    lemma_tops(values(t.bw.vram_busy));
    assert(micro::whole_text(u) == micro::whole_text(u) && micro::whole_text(b)
        == micro::whole_text(b));
}

/// A step of a mixture of experts reads all that is neither expert nor embedding, and
/// of the experts the share that a token is routed through, rounded down.
pub proof fn a_step_reads_its_share_of_the_experts(m: DetectedModel, gpus: Seq<GpuStats>)
    requires
        m.gguf is Some,
        m.tensors is Some,
        0 < m.gguf->0.n_experts_used < m.gguf->0.n_experts,
        m.tensors->0.expert_bytes + m.tensors->0.embd_bytes <= m.tensors->0.total_bytes,
    ensures
        ({
            let t = m.tensors->0;
            let used = m.gguf->0.n_experts_used as int;
            let all = m.gguf->0.n_experts as int;
            layout_of(m, gpus).active_bytes == t.total_bytes - t.expert_bytes - t.embd_bytes
                + t.expert_bytes * used / all
        }),
{
    let t = m.tensors->0;
    let used = m.gguf->0.n_experts_used as int;
    let all = m.gguf->0.n_experts as int;
    gguf::active_bytes_are_bounded(t, all, used);
}

/// A step of a model without experts, or that routes a token through all of them,
/// reads everything but the embedding.
pub proof fn a_dense_step_reads_all_but_the_embedding(m: DetectedModel, gpus: Seq<GpuStats>)
    requires
        m.tensors is Some,
        m.gguf is None || m.gguf->0.n_experts_used == 0 || m.gguf->0.n_experts
            <= m.gguf->0.n_experts_used,
        m.tensors->0.expert_bytes + m.tensors->0.embd_bytes <= m.tensors->0.total_bytes,
    ensures
        layout_of(m, gpus).active_bytes == m.tensors->0.total_bytes - m.tensors->0.embd_bytes,
{
}

/// The first `n` proportions together.
pub open spec fn proportions_together(split: Seq<Single>, n: int) -> int
    decreases n,
{
    if n <= 0 {
        0
    } else {
        proportions_together(split, n - 1) + split[n - 1].millionths()
    }
}

/// What a card is to hold of `total` bytes, of which the proportions make up at least
/// one whole.
pub open spec fn part_of(total: u64, split: Seq<Single>, index: int) -> int {
    let sum = proportions_together(split, split.len() as int);
    if index >= split.len() || split[index].millionths() <= 0 {
        0
    } else if sum > 1_000_000 {
        total * split[index].millionths() / sum
    } else {
        total * split[index].millionths() / 1_000_000
    }
}

/// What the first `k` cards hold of `total` bytes: each its part, but no more than
/// the memory in use on it.
pub open spec fn held(total: u64, split: Seq<Single>, gpus: Seq<GpuStats>, k: int) -> int
    decreases k,
{
    if k <= 0 {
        0
    } else {
        let g = gpus[k - 1];
        let part = if split.len() == 0 {
            total as int / gpus.len() as int
        } else {
            part_of(total, split, g.index as int)
        };
        let used = g.mem_used_mb * 1024 * 1024;
        held(total, split, gpus, k - 1) + if part < used {
            part
        } else {
            used
        }
    }
}

proof fn lemma_together(split: Seq<Single>, n: int)
    requires
        n <= split.len(),
        forall|i: int| 0 <= i < split.len() ==> !(#[trigger] split[i]).nan(),
    ensures
        gguf::shares(split, n) == proportions_together(split, n),
        gguf::are_numbers(split, n),
    decreases n,
{
    if n > 0 {
        lemma_together(split, n - 1);
    }
}

proof fn lemma_held(total: u64, split: Seq<Single>, gpus: Seq<GpuStats>, k: int)
    requires
        0 <= k <= gpus.len(),
        forall|i: int| 0 <= i < split.len() ==> !(#[trigger] split[i]).nan(),
    ensures
        held(total, split, gpus, k) >= 0,
        on_cards(total, split, gpus, k) == if held(total, split, gpus, k) > u64::MAX {
            u64::MAX as int
        } else {
            held(total, split, gpus, k)
        },
    decreases k,
{
    if k > 0 {
        lemma_held(total, split, gpus, k - 1);
        lemma_together(split, split.len() as int);
        let g = gpus[k - 1];
        let at = g.index as int;
        let used = g.mem_used_mb * 1_048_576;
        assert(used == g.mem_used_mb * 1024 * 1024);
        let part = if split.len() == 0 {
            total as int / gpus.len() as int
        } else {
            part_of(total, split, at)
        };
        if split.len() == 0 {
            assert(0 <= total as int / gpus.len() as int <= total) by (nonlinear_arith)
                requires
                    total >= 0,
                    gpus.len() >= 1,
            ;
        } else if at < split.len() {
            let sum = gguf::share_total(split);
            let share = micro::positive(split[at].millionths()) as int;
            assert(total * share >= 0) by (nonlinear_arith)
                requires
                    total >= 0,
                    share >= 0,
            ;
            assert((total * share) / sum >= 0) by (nonlinear_arith)
                requires
                    total * share >= 0,
                    sum > 0,
            ;
            if share == 0 {
                assert(total * share == 0) by (nonlinear_arith)
                    requires
                        share == 0,
                ;
                assert(0int / sum == 0) by (nonlinear_arith)
                    requires
                        sum > 0,
                ;
            }
        }
        assert(part >= 0);
        assert(on_card(total, split, gpus.len(), g) == if part < micro::capped(used) {
            part
        } else {
            micro::capped(used) as int
        });
    }
}

/// The CPU holds what the cards do not: all of the weights where there is no card or
/// no layer is put on one, and otherwise what is left over from the parts of the
/// cards, each of which is at most the memory in use there.
pub proof fn the_cpu_holds_what_the_cards_do_not(m: DetectedModel, gpus: Seq<GpuStats>)
    requires
        m.tensors is Some,
        forall|i: int| 0 <= i < m.tensor_split@.len() ==> !(#[trigger] m.tensor_split@[i]).nan(),
    ensures
        ({
            let total = m.tensors->0.total_bytes;
            let cards = held(total, m.tensor_split@, gpus, gpus.len() as int);
            layout_of(m, gpus).cpu_bytes == if gpus.len() == 0 || (m.n_gpu_layers is Some
                && m.n_gpu_layers->0 == 0) {
                total as int
            } else if cards > total {
                0
            } else {
                total - cards
            }
        }),
        layout_of(m, gpus).known,
        layout_of(m, gpus).total_bytes == m.tensors->0.total_bytes,
{
    lemma_held(m.tensors->0.total_bytes, m.tensor_split@, gpus, gpus.len() as int);
}

/// A word is one of the flags that set the size of a micro-batch.
pub open spec fn sets_ubatch(w: Seq<char>) -> bool {
    w == "-ub"@ || w == "--ubatch-size"@ || text::has_prefix(w, "--ubatch-size="@)
}

/// The first number that a command line gives for its micro-batches is their size, in
/// whichever of the three forms it is given.
pub proof fn the_first_ubatch_counts(
    before: Seq<Seq<char>>,
    flag: Seq<char>,
    n: usize,
    rest: Seq<Seq<char>>,
)
    requires
        forall|i: int| 0 <= i < before.len() ==> !sets_ubatch(#[trigger] before[i]),
        flag == "-ub"@ || flag == "--ubatch-size"@,
    ensures
        ubatch_at(before + seq![flag, text::decimal(n as nat)] + rest, 0) == n,
        ubatch_at(before + seq!["--ubatch-size="@ + text::decimal(n as nat)] + rest, 0) == n,
        ubatch_at(before, 0) == 512,
{
    let number = text::decimal(n as nat);
    text::lemma_decimal_reads_back(n as nat);
    assert(number[0] != '+') by {
        assert(text::is_digit(number[0]));
    }
    let two = before + seq![flag, number] + rest;
    lemma_ubatch_skips(two, before.len() as int, 0);
    assert(two[before.len() as int] == flag);
    assert(two[before.len() as int + 1] == number);
    let linked = "--ubatch-size="@ + number;
    let one = before + seq![linked] + rest;
    lemma_ubatch_skips(one, before.len() as int, 0);
    assert(one[before.len() as int] == linked);
    assert(linked.skip("--ubatch-size="@.len() as int) =~= number);
    assert(linked.subrange(0, "--ubatch-size="@.len() as int) =~= "--ubatch-size="@);
    assert(linked != "-ub"@ && linked != "--ubatch-size"@) by {
        reveal_strlit("-ub");
        reveal_strlit("--ubatch-size");
        reveal_strlit("--ubatch-size=");
        assert(linked.len() > 14);
    }
    lemma_ubatch_skips(before, before.len() as int, 0);
}

proof fn lemma_ubatch_skips(toks: Seq<Seq<char>>, k: int, i: int)
    requires
        0 <= i <= k <= toks.len(),
        forall|j: int| 0 <= j < k ==> !sets_ubatch(#[trigger] toks[j]),
    ensures
        ubatch_at(toks, i) == ubatch_at(toks, k),
    decreases k - i,
{
    if i < k {
        assert(!sets_ubatch(toks[i]));
        lemma_ubatch_skips(toks, k, i + 1);
    }
}

/// A verdict on the disk says how much is read and, unless the server is idle, how many
/// faults there are; while a server generates, the higher of what is read in all and for
/// the server.
pub proof fn a_verdict_on_the_disk_tells_the_reads(t: Tracker, gpus: Seq<GpuStats>)
    requires
        judged(t, gpus).stage == Some(StageId::Disk),
    ensures
        exists|mb: u64|
            #![trigger micro::whole_text(mb)]
            ({
                let detail = judged(t, gpus).detail;
                let faults = micro::whole_text(t.bw.majflt_per_s);
                &&& t.phase != Phase::Decode ==> mb == t.bw.disk.value
                &&& t.phase == Phase::Decode ==> mb >= t.bw.disk.value && mb >= t.bw.proc_disk_mb_s
                    && (mb == t.bw.disk.value || mb == t.bw.proc_disk_mb_s)
                &&& t.phase == Phase::Idle ==> detail == micro::whole_text(mb)
                    + " MB/s into the page cache"@
                &&& t.phase == Phase::Prefill ==> detail == micro::whole_text(mb) + " MB/s, "@
                    + faults + " major faults/s — the model does not fit in RAM"@
                &&& t.phase == Phase::Decode ==> detail == micro::whole_text(mb) + " MB/s, "@
                    + faults
                    + " major faults/s — add RAM, a smaller quant, or fewer CPU layers"@
            }),
{
    let mb = if t.phase == Phase::Decode {
        micro::larger(t.bw.disk.value, t.bw.proc_disk_mb_s)
    } else {
        t.bw.disk.value
    };
    assert(micro::whole_text(mb) == micro::whole_text(mb));
}

/// A server that no stage holds back says how busy everything is at most; an idle one asks
/// for a request.
pub proof fn no_verdict_tells_every_reading(t: Tracker, gpus: Seq<GpuStats>)
    requires
        judged(t, gpus).stage is None,
    ensures
        t.phase == Phase::Idle ==> judged(t, gpus).headline == "idle"@,
        t.phase != Phase::Idle ==> exists|u: u64, b: u64, f: u64|
            #![trigger micro::whole_text(u), micro::whole_text(b), micro::whole_text(f)]
            tops(utilizations(gpus), u) && tops(values(t.bw.vram_busy), b) && (exists|g: u64|
                tops(fractions(t.bw.pcie_rx), g) && f == (#[trigger] (g * 100)) as u64) && judged(
                t,
                gpus,
            ).detail == "GPU "@ + micro::whole_text(u) + "%, memory "@ + micro::whole_text(b)
                + "%, PCIe "@ + micro::whole_text(f)
                + "% — latency, sampling or host overhead between tokens"@,
{
    let u = highest(utilizations(gpus));
    let b = highest(values(t.bw.vram_busy));
    let g = highest(fractions(t.bw.pcie_rx));
    let f = (g * 100) as u64;
    lemma_tops(utilizations(gpus));
    lemma_tops(values(t.bw.vram_busy));
    lemma_tops(fractions(t.bw.pcie_rx));
    assert(micro::whole_text(u) == micro::whole_text(u) && micro::whole_text(b)
        == micro::whole_text(b) && micro::whole_text(f) == micro::whole_text(f));
}

/// A layout takes the micro-batch of the command line; where the tensors are not known,
/// that is all it knows.
pub proof fn a_layout_without_tensors_knows_the_batch_alone(
    m: DetectedModel,
    gpus: Seq<GpuStats>,
)
    ensures
        layout_of(m, gpus).ubatch == ubatch_at(text::words(m.cmdline@), 0),
        layout_of(m, gpus).known == (m.tensors is Some),
        m.tensors is None ==> layout_of(m, gpus).total_bytes == 0 && layout_of(m, gpus).active_bytes
            == 0 && layout_of(m, gpus).cpu_bytes == 0,
{
}

} // verus!
