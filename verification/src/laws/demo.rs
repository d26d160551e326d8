//! What the synthetic servers, cards and host do.
use crate::demo::{accepted_of, bus_traffic, decode_rate, decode_step, drafted, expert_drawn, is_demo};
use crate::demo::{load_sum, peak_load, shared_load, DemoHost, DemoServer, Stage};
use crate::generator;
use crate::gpu::{demo_card, nudged, toward, DemoGpu};
use crate::laws::requests::at_most;
use crate::model_detect::DetectedModel;
use crate::observe::SpecMetrics;
use vstd::prelude::*;

verus! {

proof fn lemma_nearest(n: int, d: int)
    requires
        n >= 0,
        d > 0,
    ensures
        ({
            let q = (2 * n + d) / (2 * d);
            &&& q >= 0
            &&& 2 * q * d <= 2 * n + d < 2 * q * d + 2 * d
        }),
{
    let m = 2 * n + d;
    let e = 2 * d;
    vstd::arithmetic::div_mod::lemma_fundamental_div_mod(m, e);
    vstd::arithmetic::div_mod::lemma_mod_pos_bound(m, e);
    let q = m / e;
    assert(e * q == 2 * q * d) by (nonlinear_arith)
        requires
            e == 2 * d,
    ;
    assert(q >= 0) by (nonlinear_arith)
        requires
            m == e * q + m % e,
            m % e < e,
            m >= 0,
            e > 0,
    ;
}

/// A tick's tokens are those that its verification steps gave and the drafts that were
/// accepted with them, which are to the steps as the acceptance rate is to one, to the
/// nearest token.
pub proof fn accepted_drafts_follow_the_rate(step: usize, rate: u64)
    requires
        rate <= 1_000_000,
        step <= 1_000_000,
    ensures
        ({
            let accepted = accepted_of(step, rate);
            let steps = step - accepted;
            &&& 0 <= steps <= step
            &&& -(1_000_000 + rate) <= 2 * (accepted * 1_000_000 - steps * rate) <= 1_000_000 + rate
        }),
{
    let d = 1_000_000 + rate;
    let n = step * rate;
    assert(n >= 0) by (nonlinear_arith)
        requires
            n == step * rate,
            step >= 0,
            rate >= 0,
    ;
    assert(2 * step * rate == 2 * n) by (nonlinear_arith)
        requires
            n == step * rate,
    ;
    lemma_nearest(n, d);
    let q = (2 * n + d) / (2 * d);
    assert(0 <= q <= step) by (nonlinear_arith)
        requires
            2 * q * d <= 2 * n + d,
            n == step * rate,
            d == 1_000_000 + rate,
            rate <= 1_000_000,
            step >= 0,
            rate >= 0,
            q >= 0,
    ;
    assert(2 * (q * 1_000_000 - (step - q) * rate) == 2 * q * d - 2 * n) by (nonlinear_arith)
        requires
            n == step * rate,
            d == 1_000_000 + rate,
    ;
}

/// A synthetic server that drafts counts one drafted token and one decode for each
/// verification step, no more accepted tokens than steps, and all tokens of the tick as
/// predicted. One that does not counts a decode for each token and no draft.
pub proof fn draft_counters_go_together(m: SpecMetrics, step: usize, rate: u64)
    requires
        rate <= 1_000_000,
        step <= 1_000_000,
        m.draft_tokens <= 0x7fff_ffff_ffff_ffff,
        m.accepted <= 0x7fff_ffff_ffff_ffff,
        m.verify_steps <= 0x7fff_ffff_ffff_ffff,
        m.n_decode <= 0x7fff_ffff_ffff_ffff,
        m.tokens_predicted <= 0x7fff_ffff_ffff_ffff,
    ensures
        ({
            let with = drafted(m, true, step, rate);
            let without = drafted(m, false, step, rate);
            let steps = with.verify_steps - m.verify_steps;
            &&& steps == step - accepted_of(step, rate)
            &&& with.draft_tokens - m.draft_tokens == steps
            &&& with.n_decode - m.n_decode == steps
            &&& with.tokens_predicted - m.tokens_predicted == step
            &&& 0 <= with.accepted - m.accepted <= steps
            &&& accepted_of(step, rate) <= steps ==> with.accepted - m.accepted == accepted_of(
                step,
                rate,
            )
            &&& without.draft_tokens == m.draft_tokens
            &&& without.accepted == m.accepted
            &&& without.verify_steps == m.verify_steps
            &&& without.n_decode - m.n_decode == step
            &&& without.tokens_predicted - m.tokens_predicted == step
        }),
{
    accepted_drafts_follow_the_rate(step, rate);
}

/// A prompt leaves room for an answer of 600 tokens where the context is large enough, and
/// half of it at most comes from the cache. The request is a new one, and nothing of it has
/// been decoded.
pub proof fn a_prompt_leaves_room_for_the_answer(server: DemoServer)
    requires
        server.ctx_max >= 664,
        server.id_task < i64::MAX,
    ensures
        ({
            let (next, cold) = server.prompted();
            &&& next.prompt_tokens + 600 <= server.ctx_max
            &&& next.processing
            &&& next.decoded == 0
            &&& next.id_task == server.id_task + 1
            &&& next.prompt_processed == next.cached
            &&& 2 * next.cached <= next.prompt_tokens
            &&& next.cached <= server.cache_tokens
            &&& next.stage is Prefill
            &&& next.spec == server.spec
            &&& next.ctx_max == server.ctx_max
        }),
{
}

/// A tick of prefill takes in some of the prompt, and never more than is left; what it
/// takes in is what is routed.
pub proof fn prefill_takes_in_the_prompt(server: DemoServer, tps: u64)
    requires
        server.prompt_processed < server.prompt_tokens <= 9400,
        tps <= 12_500_000_000,
    ensures
        ({
            let (next, routed) = server.prefilled(tps);
            &&& server.prompt_processed < next.prompt_processed <= server.prompt_tokens
            &&& routed == next.prompt_processed - server.prompt_processed
            &&& next.decoded == server.decoded
            &&& next.stage == server.stage
        }),
{
    let s = generator::next_seed(server.seed);
    let bits = generator::drawn(s);
    generator::parts_are_within(bits, 300_000);
    let p = generator::part_of(bits, 300_000) as int;
    assert(0 <= tps * (850_000 + p) <= 12_500_000_000 * 1_150_000) by (nonlinear_arith)
        requires
            0 <= tps <= 12_500_000_000,
            0 <= p <= 300_000,
    ;
}

/// The decode rate is its base, times the wobble, and falls by a sixth over an answer.
pub proof fn answers_slow_down(base_tps: u64, wobble: u64, few: usize, many: usize, gen: usize)
    requires
        few <= many <= gen,
        0 < gen <= 540,
        base_tps <= 12_500_000_000,
        wobble <= 2_000_000,
    ensures
        decode_rate(base_tps, wobble, many, gen) <= decode_rate(base_tps, wobble, few, gen),
        decode_rate(base_tps, wobble, 0, gen) == base_tps * wobble / 1_000_000,
        decode_rate(base_tps, 1_000_000, gen, gen) == base_tps * 5 / 6,
{
    let b = base_tps * wobble / 1_000_000;
    assert(0 <= base_tps * wobble <= 12_500_000_000 * 2_000_000) by (nonlinear_arith)
        requires
            0 <= base_tps <= 12_500_000_000,
            0 <= wobble <= 2_000_000,
    ;
    let d = 6 * gen as int;
    assert(0 <= b * (d - many) <= b * (d - few) && b * (d - few) <= b * d) by (nonlinear_arith)
        requires
            b >= 0,
            0 <= few <= many <= d,
    ;
    vstd::arithmetic::div_mod::lemma_div_is_ordered(b * (d - many), b * (d - few), d);
    vstd::arithmetic::div_mod::lemma_div_is_ordered(b * (d - few), b * d, d);
    vstd::arithmetic::div_mod::lemma_div_is_ordered(0, b * (d - many), d);
    vstd::arithmetic::div_mod::lemma_div_by_multiple(b, d);
    assert(d - 0 == d);
    let a = base_tps as int;
    assert(base_tps * 1_000_000 / 1_000_000 == a);
    let g = gen as int;
    assert(a * (6 * g - g) == g * (a * 5)) by (nonlinear_arith);
    assert(6 * g == g * 6);
    vstd::arithmetic::div_mod::lemma_div_multiples_vanish_quotient(g, a * 5, 6);
}

/// A tick of decode gives a fifth of the rate, to the nearest token, but at least one, and
/// ends with the answer. What comes out is what is routed.
pub proof fn decode_gives_a_fifth_of_the_rate(
    server: DemoServer,
    gen: usize,
    base_tps: u64,
    ticks: u64,
    wobble: u64,
    rate: u64,
)
    requires
        server.decoded < gen <= 540,
        base_tps <= 12_500_000_000,
        wobble <= 2_000_000,
    ensures
        ({
            let tps = decode_rate(base_tps, wobble, server.decoded, gen);
            let step = decode_step(tps);
            let (next, tick) = server.decoding(gen, base_tps, ticks, wobble, rate);
            &&& step >= 1
            &&& step > 1 ==> -500_000 < step * 1_000_000 - tps / 5 <= 500_000
            &&& next.decoded == if server.decoded + step < gen {
                server.decoded + step
            } else {
                gen as int
            }
            &&& tick.routed == next.decoded - server.decoded
            &&& next.prompt_tokens == server.prompt_tokens
            &&& tick.reports && !tick.cold
            &&& 550_000 <= tick.load <= 900_000
        }),
{
    let tps = decode_rate(base_tps, wobble, server.decoded, gen);
    answers_slow_down(base_tps, wobble, 0, server.decoded, gen);
    assert(0 <= base_tps * wobble <= 12_500_000_000 * 2_000_000) by (nonlinear_arith)
        requires
            0 <= base_tps <= 12_500_000_000,
            0 <= wobble <= 2_000_000,
    ;
    assert(tps <= 25_000_000_000);
    let q = crate::micro::share(
        tps * 10,
        crate::micro::larger(base_tps, 1) * 13,
    ) as int;
    assert(0 <= q * 35 / 100 <= 350_000);
}

/// The stages of a synthetic server each tell their own load: next to none while it is
/// idle, nearly all during prefill, and little when an answer is over, which then is in
/// the cache with its prompt.
pub proof fn stages_tell_their_loads(server: DemoServer, wobble: u64, rate: u64)
    requires
        server.prompt_tokens + server.decoded <= 0xffff_ffff,
    ensures
        ({
            let (next, tick) = server.ticked(wobble, rate);
            &&& server.stage is Idle && server.stage->left > 0 ==> tick.load == 20_000
                && tick.routed == 0 && next.stage == (Stage::Idle {
                left: (server.stage->left - 1) as u64,
            }) && next.processing == server.processing
            &&& server.stage is Prefill && server.prompt_processed < server.prompt_tokens
                ==> tick.load == 950_000 && next.stage == server.stage
            &&& server.stage is Decode && server.decoded >= server.stage->gen ==> tick.load
                == 200_000 && !next.processing && next.stage == Stage::End && next.cache_tokens
                == server.prompt_tokens + server.decoded && !tick.reports
            &&& server.stage is End ==> next.stage is Idle && tick.load == 20_000
                && !next.processing && next.prompt_processed == 0
        }),
{
}

/// While the page cache is cold, each tick reads the same amount from the disk for the
/// server, with 1500 to 1900 major faults; else the server reads nothing.
pub proof fn a_cold_cache_is_read_from_disk(h: DemoHost)
    requires
        h.disk_bytes <= 0x7fff_ffff_ffff_ffff,
        h.proc_bytes <= 0x7fff_ffff_ffff_ffff,
        h.majflt <= 0x7fff_ffff_ffff_ffff,
    ensures
        ({
            let n = h.stepped();
            &&& h.cold_ticks > 0 ==> n.cold_ticks == h.cold_ticks - 1 && 1500 <= n.majflt - h.majflt
                <= 1900 && (n.proc_bytes == u64::MAX || n.disk_bytes == u64::MAX || n.proc_bytes
                - h.proc_bytes == n.disk_bytes - h.disk_bytes)
            &&& h.cold_ticks == 0 ==> n.cold_ticks == 0 && n.majflt == h.majflt && n.proc_bytes
                == h.proc_bytes && 0 <= n.disk_bytes - h.disk_bytes <= 400_000
            &&& n.n_gpus == h.n_gpus
        }),
{
    let bits = generator::drawn(generator::next_seed(h.seed));
    generator::parts_are_within(bits, 400);
    generator::parts_are_within(bits, 400_000);
}

/// The traffic to a card is that of its load, within 15 %: next to none where nothing is
/// processed, and most to the second card, which holds the layers that are moved. What
/// comes back is 12 % of it.
pub proof fn buses_follow_the_load(i: int, load: u64, processing: bool, bits: u64)
    requires
        0 <= i <= u32::MAX,
        load <= 1_000_000,
        bits < 0x1_0000_0000,
    ensures
        ({
            let (card, rx, tx) = bus_traffic(i, load, processing, bits);
            let base = if !processing {
                2_000_000
            } else if i == 1 {
                180_000_000 + 900 * load
            } else {
                40_000_000 + 120 * load
            };
            &&& card == i
            &&& 85 * base - 100 <= 100 * rx <= 115 * base
            &&& tx == rx * 12 / 100
        }),
{
    generator::parts_are_within(bits, 300_000);
    let p = generator::part_of(bits, 300_000) as int;
    let base = if !processing {
        2_000_000
    } else if i == 1 {
        180_000_000 + 900 * load
    } else {
        40_000_000 + 120 * load
    };
    assert(base * 850_000 <= base * (850_000 + p) <= base * 1_150_000) by (nonlinear_arith)
        requires
            base >= 0,
            0 <= p <= 300_000,
    ;
}

/// All loads together.
pub open spec fn loads_together(loads: Seq<u64>) -> int
    decreases loads.len(),
{
    if loads.len() == 0 {
        0
    } else {
        loads_together(loads.drop_last()) + loads.last()
    }
}

proof fn lemma_loads(loads: Seq<u64>)
    ensures
        load_sum(loads) == at_most(loads_together(loads)),
        forall|i: int| 0 <= i < loads.len() ==> loads[i] <= peak_load(loads),
        loads.len() > 0 ==> loads.contains(peak_load(loads)),
        0 <= loads_together(loads),
        peak_load(loads) <= loads_together(loads),
    decreases loads.len(),
{
    if loads.len() > 0 {
        let head = loads.drop_last();
        lemma_loads(head);
        assert forall|i: int| 0 <= i < loads.len() implies loads[i] <= peak_load(loads) by {
            if i < head.len() {
                assert(head[i] == loads[i]);
            }
        }
        if peak_load(loads) == loads.last() {
            assert(loads[loads.len() - 1] == peak_load(loads));
        } else {
            if head.len() > 0 {
                let k = choose|k: int| 0 <= k < head.len() && head[k] == peak_load(head);
                assert(loads[k] == peak_load(loads));
            }
        }
    }
}

/// Cards that several servers share are as busy as the busiest makes them, and 35 % of
/// what the others add, up to all.
pub proof fn shared_cards_add_up_their_servers(loads: Seq<u64>, busiest: int)
    requires
        0 <= busiest < loads.len(),
        forall|i: int| 0 <= i < loads.len() ==> loads[i] <= loads[busiest],
        loads_together(loads) <= u64::MAX,
    ensures
        ({
            let peak = loads[busiest] as int;
            let all = peak + (loads_together(loads) - peak) * 35 / 100;
            shared_load(loads) == if all > 1_000_000 {
                1_000_000
            } else {
                all
            }
        }),
{
    lemma_loads(loads);
    let k = choose|k: int| 0 <= k < loads.len() && loads[k] == peak_load(loads);
    assert(loads[k] <= loads[busiest]);
    assert(peak_load(loads) == loads[busiest]);
}

/// A synthetic server offers its part of the context, but at least 4096 tokens; each has a
/// process and a port of its own.
pub proof fn synthetic_servers_are_told_apart(
    m: DetectedModel,
    n: DetectedModel,
    ctx_max: usize,
    i: usize,
    j: usize,
)
    requires
        is_demo(m, ctx_max, i),
        is_demo(n, ctx_max, j),
        i < 57_456,
        j < 57_456,
        i != j,
    ensures
        m.pid != n.pid,
        m.port is Some && n.port is Some && m.port != n.port,
        m.ctx_max is Some && m.ctx_max->0 >= 4096,
        m.gguf is Some && m.ctx_max == Some(m.gguf->0.ctx_train),
        m.tensors is Some,
{
}

/// `v` lies within `by` of the way from `from` to `to` that `percent` of it makes up.
pub open spec fn pulled(from: int, to: int, percent: int, v: int, by: int) -> bool {
    -100 * by <= 100 * v - (100 * from + (to - from) * percent) <= 100 * by
}

proof fn lemma_pulled(cur: u64, target: u64, percent: u64, bits: u64, width: u64)
    requires
        cur <= 0x1_0000_0000_0000,
        target <= 0x1_0000_0000_0000,
        percent <= 100,
        bits < 0x1_0000_0000,
        2 <= width <= 0x1000_0000,
        width % 2 == 0,
    ensures
        ({
            let p = toward(cur, target, percent);
            let v = nudged(p, bits, width);
            &&& pulled(cur as int, target as int, percent as int, p, 1)
            &&& 0 <= p
            &&& p - width / 2 <= v <= p + width / 2
            &&& v >= 0
        }),
{
    let c = cur as int;
    let t = target as int;
    let k = percent as int;
    let up = if t >= c {
        (t - c) * k
    } else {
        (c - t) * k
    };
    assert(up >= 0 && (t >= c ==> up <= (t - c) * 100) && (t < c ==> up <= (c - t) * 100))
        by (nonlinear_arith)
        requires
            0 <= k <= 100,
            t >= c ==> up == (t - c) * k,
            t < c ==> up == (c - t) * k,
    ;
    assert((t - c) * k == -((c - t) * k)) by (nonlinear_arith);
    let x = bits * width;
    assert(0 <= x < 0x1_0000_0000 * width) by (nonlinear_arith)
        requires
            x == bits * width,
            0 <= bits < 0x1_0000_0000,
            width >= 1,
    ;
    assert(0 <= x / 0x1_0000_0000 <= width);
}

/// A synthetic card's utilization is pulled by 35 % toward that of its load, up to 7 %
/// off; its power by a quarter toward that of its utilization; its memory by a fifth
/// toward that of the load. The card stays the same.
pub proof fn cards_are_pulled_toward_their_load(g: DemoGpu, load: u64)
    requires
        g.wf(),
        load <= 1_000_000,
    ensures
        ({
            let n = g.stepped(load);
            let total = demo_card(g.index).0 as int;
            let pull = if load > 150_000 {
                load as int
            } else {
                150_000
            };
            &&& n.index == g.index
            &&& pulled(g.util as int, 92 * load + 3_000_000, 35, n.util as int, 7_000_001)
            &&& pulled(
                g.mem_used as int,
                total * 680_000 + total * pull * 22 / 100,
                20,
                n.mem_used as int,
                1,
            )
        }),
{
    let total = demo_card(g.index).0 as int;
    let s1 = generator::next_seed(g.seed);
    let target = load * 92 + 3_000_000;
    lemma_pulled(g.util, target as u64, 35, generator::drawn(s1), 14_000_000);
    let pull = if load > 150_000 {
        load as int
    } else {
        150_000
    };
    assert(0 <= total * pull <= 81920 * 1_000_000) by (nonlinear_arith)
        requires
            0 <= pull <= 1_000_000,
            0 <= total <= 81920,
    ;
    let memory = total * 680_000 + total * pull * 22 / 100;
    lemma_pulled(g.mem_used, memory as u64, 20, 0, 2);
}

/// The expert of a draw is one of the layer's favourite band of 24, which starts 37 on for
/// each layer, or any, as the draw says.
pub proof fn layers_have_their_favourites(il: usize, n_expert: usize, place: u64, choice: u64)
    requires
        0 < n_expert <= 0x7fff_ffff,
        il <= 0xffff,
        place < 0x1_0000_0000,
    ensures
        expert_drawn(il, n_expert, place, choice) < n_expert,
        generator::is_below(choice, 1_503_238_528) ==> exists|k: int|
            0 <= k <= 24 && expert_drawn(il, n_expert, place, choice) == #[trigger] ((37 * il
                + k) % n_expert as int),
{
    generator::parts_are_within(place, 24);
    let n = n_expert as int;
    let k = generator::part_of(place, 24) as int;
    let w = (il as u64).wrapping_mul(37) as int;
    assert(w == 37 * il);
    vstd::arithmetic::div_mod::lemma_add_mod_noop(37 * il, k, n);
    vstd::arithmetic::div_mod::lemma_mod_bound(37 * il + k, n);
    vstd::arithmetic::div_mod::lemma_mod_twice(k, n);
    vstd::arithmetic::div_mod::lemma_add_mod_noop((37 * il) % n, k, n);
    vstd::arithmetic::div_mod::lemma_mod_twice(37 * il, n);
    assert(((37 * il) % n + k) % n == (37 * il + k) % n);
}

/// A synthetic card's power is pulled by a quarter toward that of its utilization, its
/// temperature by 3 % toward that of its power, and its clock by two fifths toward the one
/// of a busy or an idle card; each is a little off, and stays within its bounds.
pub proof fn cards_warm_up_with_their_load(g: DemoGpu, load: u64)
    requires
        g.wf(),
        load <= 1_000_000,
    ensures
        ({
            let n = g.stepped(load);
            let clock = if n.util > 8_000_000 {
                970_000
            } else {
                350_000
            };
            &&& 50_000 <= n.power <= 1_000_000
            &&& 100_000 <= n.clock <= 1_000_000
            &&& n.util <= 100_000_000
            &&& pulled(g.temp as int, 42_000_000 + 38 * n.power, 3, n.temp as int, 150_001)
                || n.temp == 0
            &&& pulled(g.clock as int, clock, 40, n.clock as int, 10_001) || n.clock == 100_000
                || n.clock == 1_000_000
            &&& pulled(
                g.power as int,
                180_000 + n.util * 8 / 1000,
                25,
                n.power as int,
                20_001,
            ) || n.power == 50_000 || n.power == 1_000_000
        }),
{
    let n = g.stepped(load);
    let s1 = generator::next_seed(g.seed);
    let s2 = generator::next_seed(s1);
    let s3 = generator::next_seed(s2);
    let s4 = generator::next_seed(s3);
    lemma_pulled(
        g.util,
        (load * 92 + 3_000_000) as u64,
        35,
        generator::drawn(s1),
        14_000_000,
    );
    lemma_pulled(
        g.power,
        (180_000 + n.util * 8 / 1000) as u64,
        25,
        generator::drawn(s2),
        40_000,
    );
    lemma_pulled(g.temp, (42_000_000 + 38 * n.power) as u64, 3, generator::drawn(s3), 300_000);
    lemma_pulled(
        g.clock,
        if n.util > 8_000_000 {
            970_000
        } else {
            350_000
        },
        40,
        generator::drawn(s4),
        20_000,
    );
}

/// Of a synthetic server's file 31 % are resident as file pages and 37 % in all; all else
/// is as the host tells it.
pub proof fn resident_weights_scale_with_the_file(base: crate::host::Host, file_bytes: u64)
    requires
        file_bytes <= 0x1_0000_0000_0000,
    ensures
        ({
            let h = crate::demo::host_of_model(base, file_bytes);
            &&& h.rss_file_bytes == Some((file_bytes * 31 / 100) as u64)
            &&& h.rss_bytes == Some((file_bytes * 37 / 100) as u64)
            &&& h.disk_read_bytes == base.disk_read_bytes && h.proc_read_bytes
                == base.proc_read_bytes && h.proc_majflt == base.proc_majflt && h.pcie_mb_s
                == base.pcie_mb_s
        }),
{
}

/// A synthetic card shows the state of its walk: memory in use and free make up all of it,
/// the clock is the share of the top clock, and no other card has its index.
pub proof fn synthetic_cards_show_their_walk(s: crate::gpu::GpuStats, g: DemoGpu)
    requires
        s.shows(g),
        g.wf(),
        g.index <= u32::MAX,
    ensures
        s.index == g.index,
        s.mem_used_mb + s.mem_free_mb == s.mem_total_mb,
        s.mem_used_mb * 1_000_000 <= g.mem_used < (s.mem_used_mb + 1) * 1_000_000,
        s.clock_sm_mhz <= s.clock_sm_max_mhz,
        s.clock_sm_mhz * 1_000_000 <= g.clock * s.clock_sm_max_mhz < (s.clock_sm_mhz + 1)
            * 1_000_000,
        s.utilization_gpu == crate::decimal::of_millionths(g.util as nat),
        s.temperature == Some(crate::decimal::of_millionths(g.temp as nat)),
{
    let c = s.clock_sm_max_mhz as int;
    assert(0 <= g.clock * c <= 1_000_000 * c) by (nonlinear_arith)
        requires
            0 <= g.clock <= 1_000_000,
            c >= 0,
    ;
}

/// An answer has 40 to 540 tokens, at three to five quarters of the profile's rate. A
/// prompt goes in at 0.8 to 1.25 times the profile's rate, and a spell of idleness lasts 4
/// to 16 ticks.
pub proof fn requests_vary_around_their_profile(server: DemoServer)
    requires
        server.decode_tps <= 10_000,
        server.prefill_tps <= 10_000,
    ensures
        ({
            let next = server.generating();
            &&& next.stage is Decode
            &&& 40 <= next.stage->gen <= 540
            &&& server.decode_tps * 750_000 <= next.stage->base_tps <= server.decode_tps
                * 1_250_000
            &&& next.stage->ticks == 0
            &&& next.decoded == server.decoded && next.prompt_tokens == server.prompt_tokens
        }),
        ({
            let (next, cold) = server.prompted();
            &&& next.stage is Prefill
            &&& server.prefill_tps * 800_000 <= next.stage->tps <= server.prefill_tps * 1_250_000
        }),
        ({
            let next = server.resting();
            &&& next.stage is Idle
            &&& 4 <= next.stage->left <= 16
            &&& !next.processing
            &&& next.prompt_processed == 0
            &&& next.decoded == server.decoded
        }),
{
    let s1 = generator::next_seed(server.seed);
    let s2 = generator::next_seed(s1);
    let s3 = generator::next_seed(s2);
    generator::parts_are_within(generator::drawn(s1), 500);
    generator::parts_are_within(generator::drawn(s1), 12);
    generator::parts_are_within(generator::drawn(s2), 500_000);
    generator::parts_are_within(generator::drawn(s3), 450_000);
    let decode = generator::part_of(generator::drawn(s2), 500_000) as int;
    let prefill = generator::part_of(generator::drawn(s3), 450_000) as int;
    lemma_times(server.decode_tps as int, 750_000, decode, 500_000);
    lemma_times(server.prefill_tps as int, 800_000, prefill, 450_000);
}

proof fn lemma_times(tps: int, base: int, part: int, width: int)
    requires
        0 <= tps <= 10_000,
        0 <= part <= width <= 500_000,
        0 <= base <= 1_000_000,
    ensures
        tps * base <= tps * (base + part) <= tps * (base + width),
        0 <= tps * (base + part) <= 15_000_000_000,
{
    assert(tps * base <= tps * (base + part) <= tps * (base + width) && 0 <= tps * base && tps * (
    base + width) <= 10_000 * 1_500_000) by (nonlinear_arith)
        requires
            0 <= tps <= 10_000,
            0 <= part <= width <= 500_000,
            0 <= base <= 1_000_000,
    ;
}

/// A spell that is over turns to a prompt, a prompt that is in to an answer, an answer that
/// is out to its end, and the end to a spell; before that nothing turns.
pub proof fn stages_turn_in_order(server: DemoServer)
    ensures
        ({
            let (next, cold) = server.turned();
            &&& server.stage is Idle && server.stage->left > 0 ==> next == server && !cold
            &&& server.stage is Idle && server.stage->left == 0 ==> next == server.prompted().0
                && next.stage is Prefill
            &&& server.stage is Prefill && server.prompt_processed < server.prompt_tokens ==> next
                == server && !cold
            &&& server.stage is Prefill && server.prompt_processed >= server.prompt_tokens
                ==> next.stage is Decode && !cold
            &&& server.stage is Decode && server.decoded < server.stage->gen ==> next == server
                && !cold
            &&& server.stage is Decode && server.decoded >= server.stage->gen ==> next.stage is End
                && !cold
            &&& server.stage is End ==> next.stage is Idle && !cold
        }),
{
}

} // verus!
