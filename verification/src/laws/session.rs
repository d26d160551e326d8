//! What is told of a session: its requests, its settings, the events of the bridge.
use crate::config::{below, Args};
use crate::dashboard::{Endpoint, Pulse};
use crate::dblog::{first_unwritten, row_of, LogCursor};
use crate::gpu::GpuStats;
use crate::laws::listing::is_trim;
use crate::laws::requests::at_most;
use crate::llm::{seen_as, BridgeEvent, LlmEvent};
use crate::perf::{Drafts, RequestRecord, Tracker, WeightLayout};
use crate::text;
use vstd::prelude::*;

verus! {

/// A rate over more than 50 ms; shorter times tell none.
pub open spec fn over(tokens: int, nanos: int) -> int {
    if nanos > 50_000_000 {
        at_most(tokens * 1_000_000_000_000_000 / nanos)
    } else {
        0
    }
}

/// A request waited for its first token from its start on, lasts until its end or until
/// now, and its averages are the tokens that came out, or the prompt tokens that went in,
/// over the time of each.
pub proof fn a_request_tells_its_times(r: RequestRecord, now: u64)
    ensures
        r.first_token is None ==> r.waited() is None,
        r.first_token is Some && r.first_token->0 >= r.started ==> r.waited() == Some(
            (r.first_token->0 - r.started) as u64,
        ),
        r.ended is Some && r.ended->0 >= r.started ==> r.lasted(now) == r.ended->0 - r.started,
        r.ended is None && now >= r.started ==> r.lasted(now) == now - r.started,
        r.decode_average() == over(r.decoded as int, r.decode_nanos as int),
        r.prefill_average() == over(r.prefill_tokens as int, r.prefill_nanos as int),
{
}

/// The row of a request in the log tells what the request tells, and how long ago it
/// ended.
pub proof fn a_row_tells_its_request(r: RequestRecord, now: u64)
    ensures
        ({
            let row = row_of(r, now);
            &&& r.ended is Some && r.ended->0 <= now ==> row.ended_ago == now - r.ended->0
            &&& row.id_task == r.id_task
            &&& row.prompt_tokens == r.prompt_tokens
            &&& row.cached_tokens == r.cached_tokens
            &&& row.decoded == r.decoded
            &&& row.peak_decode_tps == r.peak_decode_tps
            &&& row.ttft is Some <==> r.first_token is Some
            &&& r.first_token is Some && r.first_token->0 >= r.started ==> row.ttft == Some(
                (r.first_token->0 - r.started) as u64,
            )
            &&& r.ended is Some && r.ended->0 >= r.started ==> row.duration == r.ended->0
                - r.started
            &&& row.avg_decode_tps == over(r.decoded as int, r.decode_nanos as int)
            &&& row.avg_prefill_tps == over(r.prefill_tokens as int, r.prefill_nanos as int)
        }),
{
}

/// Rows are due at first, and then whenever the time between two writes has passed.
pub proof fn rows_are_due_in_time(c: LogCursor, now: u64)
    ensures
        c.last is None ==> c.due(now),
        c.last is Some && now >= c.last->0 ==> (c.due(now) <==> now - c.last->0 >= c.every),
{
}

/// Of the requests in a history the newest are written: as many as have finished since
/// the last write.
pub proof fn the_newest_requests_are_written(seen: u64, finished: u64, len: usize)
    requires
        finished <= usize::MAX,
    ensures
        ({
            let new = if finished >= seen {
                finished - seen
            } else {
                finished as int
            };
            first_unwritten(seen, finished, len) == if new >= len {
                0
            } else {
                len - new
            }
        }),
{
}

/// Over a session the share of accepted drafts is that of the drafted tokens, and the
/// share of drafts that of all generated tokens.
pub proof fn sessions_tell_their_drafts(d: Drafts)
    ensures
        d.totals.draft_tokens > 0 ==> d.session_accepted() == at_most(
            d.totals.accepted * 1_000_000 / d.totals.draft_tokens as int,
        ),
        d.totals.draft_tokens == 0 ==> d.session_accepted() == 0,
        d.totals.tokens_predicted > 0 ==> d.session_drafted() == if d.totals.accepted
            >= d.totals.tokens_predicted {
            1_000_000
        } else {
            d.totals.accepted * 1_000_000 / d.totals.tokens_predicted as int
        },
        d.totals.tokens_predicted == 0 ==> d.session_drafted() == 0,
{
    if d.totals.tokens_predicted > 0 {
        crate::laws::rates::a_share_makes_up_its_part(
            d.totals.accepted,
            d.totals.tokens_predicted,
        );
    }
}

/// A step reads its active bytes as a share of all; where nothing is known, all.
pub proof fn a_step_reads_a_share(l: WeightLayout)
    ensures
        l.total_bytes == 0 ==> l.active_share() == 1_000_000,
        0 < l.total_bytes <= l.active_bytes ==> l.active_share() == 1_000_000,
        l.active_bytes < l.total_bytes ==> l.active_share() == l.active_bytes * 1_000_000
            / l.total_bytes as int,
{
    if l.total_bytes > 0 {
        crate::laws::rates::a_share_makes_up_its_part(l.active_bytes, l.total_bytes);
    }
}

/// The tokens of a joule are the tokens per second over the watts of all cards, where
/// these are more than one. A tracker is as old as the time since it was started.
pub proof fn energy_is_power_over_time(t: Tracker, now: u64)
    ensures
        t.total_power_w > 1_000_000 ==> t.tokens_per_energy() == at_most(
            t.decode_tps_smooth * 1_000_000 / t.total_power_w as int,
        ),
        t.total_power_w <= 1_000_000 ==> t.tokens_per_energy() == 0,
        now >= t.started ==> t.age(now) == now - t.started,
{
}

/// A card's memory in use is told in percent of all of it and in GB, its clock as a share
/// of the top clock.
pub proof fn a_card_tells_its_shares(g: GpuStats)
    ensures
        g.mem_total_mb > 0 ==> g.used_percent() == at_most(
            g.mem_used_mb * 100_000_000 / g.mem_total_mb as int,
        ),
        g.mem_total_mb == 0 ==> g.used_percent() == 0,
        g.used_gb() == at_most(g.mem_used_mb * 1_000_000 / 1024),
        g.total_gb() == at_most(g.mem_total_mb * 1_000_000 / 1024),
        g.clock_sm_max_mhz == 0 ==> g.clock_share() == 0,
        0 < g.clock_sm_max_mhz <= g.clock_sm_mhz ==> g.clock_share() == 1_000_000,
        g.clock_sm_mhz < g.clock_sm_max_mhz ==> g.clock_share() == g.clock_sm_mhz * 1_000_000
            / g.clock_sm_max_mhz as int,
{
    assert(g.mem_used_mb * (100 * 1_000_000) == g.mem_used_mb * 100_000_000);
    if g.clock_sm_max_mhz > 0 {
        crate::laws::rates::a_share_makes_up_its_part(
            g.clock_sm_mhz as u64,
            g.clock_sm_max_mhz as u64,
        );
    }
}

/// A server that has stopped answering is asked no more often than every two seconds, and
/// any other as often as was asked for.
pub proof fn lost_servers_are_asked_rarely(p: Pulse, poll: u64)
    ensures
        p.misses < 3 ==> p.waits(poll) == poll,
        p.misses >= 3 && poll < 2_000_000_000 ==> p.waits(poll) == 2_000_000_000,
        p.misses >= 3 && poll >= 2_000_000_000 ==> p.waits(poll) == poll,
        p.after(true).misses == 0,
        p.misses < 3 ==> p.after(false).misses == p.misses + 1,
{
}

/// An endpoint that answers stays as it is; the third silence closes it.
pub proof fn the_third_silence_closes_an_endpoint(e: Endpoint)
    requires
        e.wf(),
        e.open,
    ensures
        e.after(true) == e,
        e.after(false).misses == e.misses + 1,
        e.after(false).open <==> e.misses + 1 < 3,
{
}

/// A MoE panel shows the experts that the detected model uses, and as many as were asked
/// for only where that is not known.
pub proof fn the_model_tells_its_experts(
    d: crate::model_detect::DetectedModel,
    asked_for: usize,
)
    ensures
        crate::dashboard::experts_shown(None, asked_for) == asked_for,
        d.topology() is None ==> crate::dashboard::experts_shown(Some(d), asked_for) == asked_for,
        d.topology() is Some && d.topology()->0.n_experts_used > 0
            ==> crate::dashboard::experts_shown(Some(d), asked_for)
            == d.topology()->0.n_experts_used,
        d.topology() is Some && d.topology()->0.n_experts_used == 0
            ==> crate::dashboard::experts_shown(Some(d), asked_for) == asked_for,
{
}

/// Servers and cards are polled as often as was asked for, but no more often than every
/// 50 ms.
pub proof fn polls_are_fifty_milliseconds_apart(a: Args)
    ensures
        a.poll_ms <= 50 ==> a.poll_time() == 50_000_000,
        a.poll_ms > 50 ==> a.poll_time() == at_most(a.poll_ms * 1_000_000),
{
}

/// The running model is looked for where that was asked for, by the flag or in place of a
/// model.
pub proof fn the_running_model_is_looked_for_on_demand(a: Args)
    ensures
        a.detect_auto ==> a.detects(),
        a.model@ == "auto"@ ==> a.detects(),
        !a.detect_auto && a.model@ != "auto"@ ==> !a.detects(),
{
}

/// The list that names one card after the others.
pub open spec fn card_list(ids: Seq<usize>) -> Seq<char>
    decreases ids.len(),
{
    if ids.len() == 0 {
        Seq::empty()
    } else if ids.len() == 1 {
        text::decimal(ids[0] as nat)
    } else {
        card_list(ids.drop_last()).push(',') + text::decimal(ids.last() as nat)
    }
}

proof fn lemma_card_list(ids: Seq<usize>)
    requires
        ids.len() > 0,
    ensures
        ({
            let pieces = text::split_on(card_list(ids), ',');
            &&& pieces.len() == ids.len()
            &&& crate::config::indices_in(pieces, ids.len() as int) == ids
        }),
    decreases ids.len(),
{
    let n = ids.last() as nat;
    let w = text::decimal(n);
    text::lemma_decimal_reads_back(n);
    assert(text::is_digit(w[0]) && text::is_digit(w[w.len() - 1]));
    assert(is_trim(w));
    assert(text::trim_start(w) == w);
    assert(text::trim_end(w) == w);
    assert forall|i: int| 0 <= i < w.len() implies #[trigger] w[i] != ',' by {
        assert(text::is_digit(w[i]));
    }
    text::a_text_without_it_is_one_piece(w, ',');
    let pieces = text::split_on(card_list(ids), ',');
    if ids.len() == 1 {
        assert(ids =~= seq![ids[0]]);
        assert(crate::config::indices_in(pieces, 0) =~= Seq::empty());
        assert(crate::config::indices_in(pieces, 1) =~= ids);
    } else {
        let front = ids.drop_last();
        lemma_card_list(front);
        text::pieces_of_two_texts(card_list(front), ',', w);
        let before = text::split_on(card_list(front), ',');
        assert(pieces =~= before.push(w));
        lemma_same_front(before, pieces, before.len() as int);
        assert(crate::config::indices_in(pieces, ids.len() as int) =~= front.push(ids.last()));
        assert(front.push(ids.last()) =~= ids);
    }
}

proof fn lemma_same_front(a: Seq<Seq<char>>, b: Seq<Seq<char>>, n: int)
    requires
        n <= a.len(),
        n <= b.len(),
        forall|i: int| 0 <= i < n ==> a[i] == b[i],
    ensures
        crate::config::indices_in(a, n) == crate::config::indices_in(b, n),
    decreases n,
{
    if n > 0 {
        lemma_same_front(a, b, n - 1);
    }
}

/// A list of cards reads as the cards that it names, in their order; `all` names none and
/// so leaves out none.
pub proof fn card_lists_read_back(a: Args, ids: Seq<usize>)
    requires
        ids.len() > 0,
    ensures
        a.gpu@ == card_list(ids) ==> a.cards() == ids,
        a.gpu@ == "all"@ ==> a.cards().len() == 0,
{
    lemma_card_list(ids);
    if a.gpu@ == card_list(ids) {
        let list = card_list(ids);
        reveal_strlit("all");
        if list == "all"@ {
            // No digit stands first in "all".
            lemma_list_starts_with_a_digit(ids);
        }
    }
}

proof fn lemma_list_starts_with_a_digit(ids: Seq<usize>)
    requires
        ids.len() > 0,
    ensures
        card_list(ids).len() > 0,
        text::is_digit(card_list(ids)[0]),
    decreases ids.len(),
{
    if ids.len() == 1 {
        text::lemma_decimal_reads_back(ids[0] as nat);
        assert(text::is_digit(text::decimal(ids[0] as nat)[0]));
    } else {
        lemma_list_starts_with_a_digit(ids.drop_last());
    }
}

/// The script that was asked for is run, wherever it is; else the first that exists of
/// that below the working directory, that below the home, and that beside the program.
pub proof fn the_script_is_looked_for_in_order(
    a: Args,
    home: Seq<char>,
    program_dir: Seq<char>,
    existing: Seq<Seq<char>>,
)
    ensures
        ({
            let local = "src/llm/python_bridge.py"@;
            let script = a.script(home, program_dir, existing);
            &&& a.bridge is Some ==> script == a.bridge->0@
            &&& a.bridge is None && existing.contains(local) ==> script == local
            &&& a.bridge is None && !existing.contains(local) && existing.contains(
                below(home, local),
            ) ==> script == below(home, local)
            &&& a.bridge is None && !existing.contains(local) && !existing.contains(
                below(home, local),
            ) && existing.contains(below(program_dir, "python_bridge.py"@)) ==> script == below(
                program_dir,
                "python_bridge.py"@,
            )
            &&& a.bridge is None && existing.len() == 0 ==> script == local
        }),
        below(Seq::empty(), home) == home,
        program_dir.len() > 0 && program_dir.last() != '/' ==> below(program_dir, home)
            == program_dir + "/"@ + home,
{
}

/// The events of the bridge reach the screen as what they are, with what they say. A
/// model that does not tell its layers or heads has none, and one that does not tell its
/// context has 8192 tokens of it.
pub proof fn events_say_the_same_on_the_screen(e: BridgeEvent)
    ensures
        e matches BridgeEvent::Status { message } ==> seen_as(e) == LlmEvent::Status(message),
        e matches BridgeEvent::Error { message } ==> seen_as(e) == LlmEvent::Error(message),
        e matches BridgeEvent::Done { tokens_generated } ==> seen_as(e) == (LlmEvent::Done {
            tokens_generated,
        }),
        e matches BridgeEvent::Token { token_index, token_id, text } ==> seen_as(e) == (
        LlmEvent::Token { index: token_index, text }),
        e matches BridgeEvent::Attention { layer, head, query_pos, key_pos, weight } ==> seen_as(
            e,
        ) is Attention && seen_as(e)->Attention_0.layer == layer && seen_as(e)->Attention_0.head
            == head && seen_as(e)->Attention_0.query_pos == query_pos && seen_as(
            e,
        )->Attention_0.weight == weight,
        e matches BridgeEvent::ModelInfo { num_layers, num_heads, ctx_max, model } ==> seen_as(
            e,
        ) == (LlmEvent::ModelInfo {
            num_layers: if num_layers is Some {
                num_layers->0
            } else {
                0
            },
            num_heads: if num_heads is Some {
                num_heads->0
            } else {
                0
            },
            ctx_max: if ctx_max is Some {
                ctx_max->0
            } else {
                8192
            },
            model,
        }),
{
}

/// What a session shows of the model comes from the bridge's last word on it, with the
/// context kept where the bridge tells none; other events leave it as it is.
pub proof fn the_bridge_tells_the_model(
    s: crate::dashboard::Screen,
    layers: usize,
    heads: usize,
    ctx: usize,
    model: String,
    other: LlmEvent,
)
    requires
        !(other is ModelInfo),
    ensures
        ({
            let t = s.after(
                LlmEvent::ModelInfo { num_layers: layers, num_heads: heads, ctx_max: ctx, model },
            );
            let shown = if ctx > 0 {
                ctx
            } else {
                s.ctx_max
            };
            &&& t.num_layers == layers && t.num_heads == heads && t.ctx_max == shown
            &&& t.status == "loaded "@ + model@ + " ("@ + text::decimal(layers as nat) + "L × "@
                + text::decimal(heads as nat) + "H, ctx "@ + text::decimal(shown as nat) + ")"@
            &&& t.running == s.running && t.done == s.done
        }),
        s.after(other).num_layers == s.num_layers,
        s.after(other).num_heads == s.num_heads,
        s.after(other).ctx_max == s.ctx_max,
{
}

/// The status line says what the last event that has something to say says.
pub proof fn the_status_says_the_last_word(s: crate::dashboard::Screen, e: LlmEvent)
    ensures
        e is Status ==> s.after(e).status == e->Status_0@,
        e is Error ==> s.after(e).status == "error: "@ + e->Error_0@,
        e is Done ==> s.after(e).status == "done — generated "@ + text::decimal(
            e->tokens_generated as nat,
        ) + " tokens"@,
        e is Token || e is Attention ==> s.after(e) == s,
{
}

/// A session runs until an error comes, and is done once the bridge is: over any run of
/// events it is to close exactly where an error came and the bridge was never done.
pub proof fn errors_alone_close_a_session(
    s: crate::dashboard::Screen,
    events: Seq<LlmEvent>,
)
    requires
        s.running,
        !s.done,
    ensures
        ({
            let t = crate::dashboard::screen_after(s, events);
            &&& t.running <==> forall|i: int|
                0 <= i < events.len() ==> !((#[trigger] events[i]) is Error)
            &&& t.done <==> exists|i: int| 0 <= i < events.len() && (#[trigger] events[i]) is Done
            &&& t.over() <==> !t.running && !t.done
        }),
    decreases events.len(),
{
    if events.len() > 0 {
        let front = events.drop_last();
        errors_alone_close_a_session(s, front);
        let n = events.len() - 1;
        let before = crate::dashboard::screen_after(s, front);
        let t = crate::dashboard::screen_after(s, events);
        assert(events[n] == events.last());
        if before.done {
            let i = choose|i: int| 0 <= i < front.len() && (#[trigger] front[i]) is Done;
            assert(events[i] is Done);
        }
        if t.running {
            assert forall|i: int| 0 <= i < events.len() implies !((#[trigger] events[i]) is Error) by {
                if i < n {
                    assert(!(front[i] is Error));
                }
            }
        } else if !before.running {
            let i = choose|i: int| 0 <= i < front.len() && (#[trigger] front[i]) is Error;
            assert(events[i] is Error);
        } else {
            assert(events[n] is Error);
        }
        if exists|i: int| 0 <= i < events.len() && (#[trigger] events[i]) is Done {
            let i = choose|i: int| 0 <= i < events.len() && (#[trigger] events[i]) is Done;
            if i < n {
                assert(front[i] is Done);
            }
        }
    }
}

/// A session starts with what was detected: the context that the server was started with
/// before the one that the model was trained with. What a rescan finds replaces it, but
/// the context stays where the server was started with none.
pub proof fn a_session_shows_what_was_found(
    d: crate::model_detect::DetectedModel,
    s: crate::dashboard::Screen,
)
    ensures
        ({
            let t = crate::dashboard::Screen::first(Some(d), false);
            let u = s.rescanned(Some(d));
            &&& t.running && !t.done
            &&& d.ctx_max is Some ==> t.ctx_max == d.ctx_max->0 && u.ctx_max == d.ctx_max->0
            &&& d.ctx_max is None ==> u.ctx_max == s.ctx_max
            &&& d.ctx_max is None && d.topology() is Some ==> t.ctx_max
                == d.topology()->0.ctx_train
            &&& d.ctx_max is None && d.topology() is None ==> t.ctx_max == 0
            &&& d.topology() is Some ==> t.num_layers == d.topology()->0.n_layers && t.num_heads
                == d.topology()->0.n_heads && u.num_layers == t.num_layers && u.num_heads
                == t.num_heads
            &&& t.status == "attached to "@ + crate::model_detect::shown(d@)
            &&& u.running == s.running && u.done == s.done
        }),
        s.rescanned(None).num_layers == s.num_layers,
        s.rescanned(None).num_heads == s.num_heads,
        s.rescanned(None).ctx_max == s.ctx_max,
{
}

/// Of the cards only those stay whose index the list holds; an index that it does not
/// hold is left out.
pub proof fn listed_cards_stay(list: Seq<usize>, g: GpuStats)
    ensures
        crate::gpu::index_in(list)(g) <==> list.contains(g.index as usize),
{
}

/// Where no server is found, a session shows no model, and says so; a demo says what it
/// is.
pub proof fn an_empty_session_says_so()
    ensures
        ({
            let t = crate::dashboard::Screen::first(None, false);
            let u = crate::dashboard::Screen::first(None, true);
            &&& t.num_layers == 0 && t.num_heads == 0 && t.ctx_max == 0 && t.running && !t.done
            &&& u.num_layers == 0 && u.num_heads == 0 && u.ctx_max == 0 && u.running && !u.done
            &&& u.status == "demo: synthetic server, two synthetic GPUs"@
            &&& t.status
                == "no running LLM found (nvidia-smi / llama-server / ollama) — press r to rescan"@
        }),
{
}

} // verus!
