//! What a frame shows of the cards, the model and the server.
use crate::config::ViewMode;
use crate::dashboard::{asked, card_share, ids_of, new_routings, rest_of, used_share, util_of};
use crate::dashboard::{vram_of, weight_share, weights_of, Action, Endpoint, FadeSample, Key};
use crate::gpu::GpuStats;
use crate::laws::bandwidth::proportions_together;
use crate::laws::cards::told_once;
use crate::laws::requests::at_most;
use crate::float::Single;
use crate::model_detect::DetectedModel;
use crate::observe::{ExpertStats, LiveStats};
use crate::pipeline::{is_status, kept_tokens, shown_text, together, with_token};
use crate::text;
use vstd::prelude::*;

verus! {

proof fn lemma_reading(
    gpus: Seq<GpuStats>,
    split: Seq<Single>,
    file_mb: u64,
    k: int,
    j: int,
)
    requires
        told_once(gpus),
        0 <= j < k <= gpus.len(),
    ensures
        ({
            let g = gpus[j];
            let i = g.index as int;
            let w = weight_share(g, file_mb, card_share(split, gpus.len(), i));
            &&& util_of(gpus, k, i) == g.utilization_gpu
            &&& vram_of(gpus, k, i) == crate::dashboard::vram_percent(g)
            &&& weights_of(gpus, split, file_mb, k, i) == w
            &&& rest_of(gpus, split, file_mb, k, i) == used_share(g) - w
        }),
    decreases k,
{
    if j < k - 1 {
        assert(gpus[j].index != gpus[k - 1].index);
        lemma_reading(gpus, split, file_mb, k - 1, j);
    }
}

proof fn lemma_index_below(gpus: Seq<GpuStats>, k: int, j: int)
    requires
        0 <= j < k <= gpus.len(),
    ensures
        gpus[j].index < crate::perf::cards_upto(gpus, k),
    decreases k,
{
    if j < k - 1 {
        lemma_index_below(gpus, k - 1, j);
    }
}

/// The part of the weights that a card is to hold, in millionths: the same for all where
/// no proportions are given, else the card's proportion of all, which are at least one
/// whole.
pub open spec fn share_of_weights(split: Seq<Single>, cards: nat, i: int) -> int {
    let sum = proportions_together(split, split.len() as int);
    if split.len() == 0 {
        1_000_000int / cards as int
    } else if i >= split.len() || split[i].millionths() <= 0 {
        0
    } else if sum > 1_000_000 {
        split[i].millionths() * 1_000_000 / sum
    } else {
        split[i].millionths() * 1_000_000 / 1_000_000
    }
}

/// A card's place in the frame shows what the card told: how busy it is, and how much of
/// its memory is in use. The weights take the card's part of the file, but no more than
/// what is in use; the rest of what is in use makes up the difference.
pub proof fn cards_fill_their_places(
    f: FadeSample,
    detected: Option<DetectedModel>,
    gpus: Seq<GpuStats>,
    live: LiveStats,
    used: usize,
    buckets: usize,
    file_bytes: Option<u64>,
    j: int,
)
    requires
        f.shows(detected, gpus, live, used, buckets, file_bytes),
        told_once(gpus),
        0 <= j < gpus.len(),
        gpus[j].mem_total_mb > 0,
        detected matches Some(d) ==> forall|i: int|
            0 <= i < d.tensor_split@.len() ==> !(#[trigger] d.tensor_split@[i]).nan(),
    ensures
        ({
            let g = gpus[j];
            let i = g.index as int;
            let total = g.mem_total_mb as int;
            let in_use = at_most(g.mem_used_mb * 1_000_000 / total);
            let split = if detected is Some {
                detected->0.tensor_split@
            } else {
                Seq::empty()
            };
            let file_mb = if detected is None {
                0
            } else if detected->0.path is Some && file_bytes is Some {
                file_bytes->0 as int / 1_048_576
            } else {
                detected->0.mem_used_mb as int
            };
            let weights = at_most(file_mb * share_of_weights(split, gpus.len(), i) / total);
            &&& i < f.gpu_util@.len() && i < f.gpu_vram@.len() && i < f.weight_frac@.len() && i
                < f.kv_alloc_frac@.len()
            &&& f.gpu_util@[i] == g.utilization_gpu
            &&& f.gpu_vram@[i] == at_most(g.mem_used_mb * 100_000_000 / total)
            &&& f.weight_frac@[i] == if weights > in_use {
                in_use
            } else {
                weights
            }
            &&& f.weight_frac@[i] + f.kv_alloc_frac@[i] == in_use
        }),
{
    let g = gpus[j];
    let i = g.index as int;
    let n = gpus.len() as int;
    let split = crate::dashboard::split_in(detected);
    let file_mb = crate::dashboard::file_size_mb(detected, file_bytes);
    lemma_reading(gpus, split, file_mb, n, j);
    lemma_index_below(gpus, n, j);
    lemma_numbers(split, split.len() as int);
    let share = card_share(split, gpus.len(), i);
    assert(share == share_of_weights(split, gpus.len(), i)) by {
        if split.len() == 0 {
            assert(0 <= 1_000_000int / n <= 1_000_000) by (nonlinear_arith)
                requires
                    n >= 1,
            ;
        } else if i < split.len() {
            let a = crate::micro::positive(split[i].millionths()) as int;
            let t = crate::gguf::share_total(split);
            assert(0 <= a * 1_000_000 / t <= a) by (nonlinear_arith)
                requires
                    0 <= a,
                    1_000_000 <= t,
            ;
            if a == 0 {
                assert(a * 1_000_000 / t == 0);
            }
        }
    }
    assert(g.mem_used_mb * (100 * 1_000_000) == g.mem_used_mb * 100_000_000);
}

proof fn lemma_numbers(split: Seq<Single>, n: int)
    requires
        n <= split.len(),
        forall|i: int| 0 <= i < split.len() ==> !(#[trigger] split[i]).nan(),
    ensures
        crate::gguf::shares(split, n) == proportions_together(split, n),
        crate::gguf::are_numbers(split, n),
    decreases n,
{
    if n > 0 {
        lemma_numbers(split, n - 1);
    }
}

/// A layer is dark while the server does nothing. While it works, the layer is as bright
/// as its card is busy, but for a lowest and a highest brightness.
pub proof fn layers_glow_with_their_cards(
    f: FadeSample,
    detected: Option<DetectedModel>,
    gpus: Seq<GpuStats>,
    live: LiveStats,
    used: usize,
    buckets: usize,
    file_bytes: Option<u64>,
    l: int,
)
    requires
        f.shows(detected, gpus, live, used, buckets, file_bytes),
        told_once(gpus),
        0 <= l < f.layer_target@.len(),
    ensures
        f.layer_gpu@.len() == f.layer_target@.len(),
        !live.processing ==> f.layer_target@[l] == 0,
        live.processing ==> 80_000 <= f.layer_target@[l] <= 1_000_000,
        forall|j: int|
            0 <= j < gpus.len() && (#[trigger] gpus[j]).index == f.layer_gpu@[l] && live.processing
                ==> {
                let busy = gpus[j].utilization_gpu.millionths();
                f.layer_target@[l] == if busy < 8_000_000 {
                    80_000
                } else if busy >= 100_000_000 {
                    1_000_000
                } else {
                    busy as int / 100
                }
            },
{
    assert forall|j: int|
        0 <= j < gpus.len() && (#[trigger] gpus[j]).index == f.layer_gpu@[l]
            && live.processing implies ({
        let busy = gpus[j].utilization_gpu.millionths();
        f.layer_target@[l] == if busy < 8_000_000 {
            80_000
        } else if busy >= 100_000_000 {
            1_000_000
        } else {
            busy as int / 100
        }
    }) by {
        lemma_reading(gpus, Seq::empty(), 0, gpus.len() as int, j);
        assert(f.layer_gpu@[l] == gpus[j].index);
    }
}

/// A bucket of the context is filled where its middle lies in the used part.
pub proof fn buckets_fill_up_to_the_used_part(
    f: FadeSample,
    detected: Option<DetectedModel>,
    gpus: Seq<GpuStats>,
    live: LiveStats,
    used: usize,
    buckets: usize,
    file_bytes: Option<u64>,
    i: int,
)
    requires
        f.shows(detected, gpus, live, used, buckets, file_bytes),
        0 <= i < buckets,
    ensures
        ({
            let ctx = if live.ctx_max > 1 {
                live.ctx_max as int
            } else {
                1
            };
            &&& f.ctx_max == ctx
            &&& f.kv_filled@.len() == buckets
            &&& f.kv_filled@[i] <==> (2 * i + 1) * ctx < 2 * buckets * (used + 1)
        }),
{
    let ctx = f.ctx_max as int;
    let d = 2 * buckets as int;
    let p = (2 * i + 1) * ctx;
    assert(p >= 0) by (nonlinear_arith)
        requires
            p == (2 * i + 1) * ctx,
            i >= 0,
            ctx >= 0,
    ;
    vstd::arithmetic::div_mod::lemma_fundamental_div_mod(p, d);
    vstd::arithmetic::div_mod::lemma_mod_pos_bound(p, d);
    let q = p / d;
    assert((p < d * (used + 1)) == (q <= used)) by (nonlinear_arith)
        requires
            p == d * q + p % d,
            0 <= p % d < d,
    ;
    assert(f.kv_filled@[i] == crate::dashboard::bucket_filled(i, buckets as int, ctx, used as int));
}

/// A frame tells the state of the server as it is, and of the model at least one layer,
/// one head and one expert, and no fewer experts than are used.
pub proof fn a_frame_tells_the_server(
    f: FadeSample,
    detected: Option<DetectedModel>,
    gpus: Seq<GpuStats>,
    live: LiveStats,
    used: usize,
    buckets: usize,
    file_bytes: Option<u64>,
)
    requires
        f.shows(detected, gpus, live, used, buckets, file_bytes),
    ensures
        f.processing == live.processing,
        f.decoded == live.decoded,
        f.ctx_used == used,
        live.prompt_processed + live.decoded <= usize::MAX ==> f.token_step == live.prompt_processed
            + live.decoded,
        f.layer_target@.len() >= 1 && f.n_heads >= 1 && f.n_experts >= f.n_experts_used >= 1,
        detected matches Some(d) ==> (d.topology() matches Some(g) ==> {
            &&& g.n_layers > 0 ==> f.layer_target@.len() == g.n_layers
            &&& g.n_heads > 0 ==> f.n_heads == g.n_heads
            &&& g.n_experts_used > 0 ==> f.n_experts_used == g.n_experts_used
            &&& g.n_experts > g.n_experts_used > 0 ==> f.n_experts == g.n_experts
        }),
        gpus.len() == 0 ==> f.gpu_util@.len() == 1,
{
}

/// `q` and the escape key close the dashboard, and nothing else does. Each view has its
/// own key; `t` goes to the next theme; `r` looks for servers again, but in a demo, where
/// it does nothing. Every other key does nothing.
pub proof fn keys_ask_for_one_thing_each(key: Key, demo: bool)
    ensures
        asked(key, demo) == Action::Quit <==> key == Key::Esc || key == Key::Char('q'),
        asked(key, demo) == Action::Rescan <==> key == Key::Char('r') && !demo,
        asked(key, demo) == Action::NextTheme <==> key == Key::Char('t'),
        asked(key, demo) == Action::Show(ViewMode::All) <==> key == Key::Char('a'),
        asked(key, demo) == Action::Show(ViewMode::Perf) <==> key == Key::Char('p'),
        asked(key, demo) == Action::Show(ViewMode::Heatmap) <==> key == Key::Char('h'),
        asked(key, demo) == Action::Show(ViewMode::MoE) <==> key == Key::Char('m'),
        key != Key::Char('r') ==> asked(key, demo) == asked(key, !demo),
{
}

/// An endpoint is asked until it has stayed silent three times.
pub proof fn an_endpoint_is_forgiven_twice(e: Endpoint)
    requires
        e.wf(),
    ensures
        e.open <==> e.misses < 3,
        e.misses <= 3,
{
}

/// How many of a layer's routings are new: as many as there are new tokens, but no more
/// than the layer tells.
pub open spec fn fresh(e: ExpertStats, seen: u64, i: int) -> int {
    let new = if e.n_tokens > seen {
        e.n_tokens - seen
    } else {
        0
    };
    if new < e.layers@[i].tokens@.len() {
        new
    } else {
        e.layers@[i].tokens@.len() as int
    }
}

/// Of every layer with something new the latest routings flash, as many as there are new
/// tokens.
pub proof fn the_latest_routings_flash(e: ExpertStats, seen: u64, n: int, i: int)
    requires
        0 <= i < n <= e.layers@.len(),
        e.n_tokens <= usize::MAX,
        fresh(e, seen, i) > 0,
    ensures
        exists|k: int|
            0 <= k < new_routings(e, seen, n).len() && {
                let (layer, ids) = #[trigger] new_routings(e, seen, n)[k];
                let tokens = e.layers@[i].tokens@;
                &&& layer == e.layers@[i].il
                &&& ids.len() == fresh(e, seen, i)
                &&& forall|m: int|
                    0 <= m < ids.len() ==> #[trigger] ids[m] == tokens[tokens.len() - ids.len()
                        + m]@
            },
    decreases n,
{
    let all = new_routings(e, seen, n);
    let before = new_routings(e, seen, n - 1);
    if i == n - 1 {
        let tokens = e.layers@[i].tokens@;
        let take = fresh(e, seen, i);
        assert(crate::dashboard::routing_count(e.n_tokens, seen, tokens.len()) == take);
        let row = (e.layers@[i].il, ids_of(tokens.skip(tokens.len() - take)));
        assert(all == before.push(row));
        assert(all[before.len() as int] == row);
    } else {
        the_latest_routings_flash(e, seen, n - 1, i);
        let k = choose|k: int|
            0 <= k < before.len() && {
                let (layer, ids) = #[trigger] before[k];
                let tokens = e.layers@[i].tokens@;
                &&& layer == e.layers@[i].il
                &&& ids.len() == fresh(e, seen, i)
                &&& forall|m: int|
                    0 <= m < ids.len() ==> #[trigger] ids[m] == tokens[tokens.len() - ids.len()
                        + m]@
            };
        assert(all[k] == before[k]);
    }
}

/// Of generated text the last two hundred characters are shown. A single token with a
/// line feed is a status, and shown whole.
pub proof fn the_last_characters_are_shown(tokens: Seq<Seq<char>>)
    ensures
        ({
            let full = together(tokens);
            let status = tokens.len() == 1 && exists|i: int|
                0 <= i < tokens[0].len() && #[trigger] tokens[0][i] == '\n';
            &&& status || full.len() <= 200 ==> shown_text(tokens) == full && kept_tokens(tokens)
                == tokens
            &&& !status && full.len() > 200 ==> shown_text(tokens) == full.skip(full.len() - 200)
                && together(kept_tokens(tokens)) == full.skip(full.len() - 200)
        }),
{
    reveal_strlit("\n");
    if tokens.len() == 1 {
        let t = tokens[0];
        if exists|i: int| 0 <= i < t.len() && #[trigger] t[i] == '\n' {
            let i = choose|i: int| 0 <= i < t.len() && #[trigger] t[i] == '\n';
            assert(t.subrange(i, i + 1) =~= "\n"@);
            assert(text::has_at(t, "\n"@, i));
        }
        if text::has_part(t, "\n"@) {
            let i = choose|i: int| text::has_at(t, "\n"@, i);
            assert(t.subrange(i, i + 1)[0] == '\n');
            assert(t[i] == '\n');
        }
    }
    if !is_status(tokens) {
        crate::pipeline::the_end_of_the_text_is_kept(tokens);
    }
}

/// A token's text replaces that of the token with its index, or comes behind all of
/// them.
pub proof fn a_token_takes_its_place(tokens: Seq<Seq<char>>, index: int, s: Seq<char>)
    requires
        0 <= index,
    ensures
        index < tokens.len() ==> with_token(tokens, index, s).len() == tokens.len() && with_token(
            tokens,
            index,
            s,
        )[index] == s && forall|i: int|
            0 <= i < tokens.len() && i != index ==> with_token(tokens, index, s)[i] == tokens[i],
        index >= tokens.len() ==> with_token(tokens, index, s) == tokens.push(s) && together(
            with_token(tokens, index, s),
        ) == together(tokens) + s,
{
    assert(tokens.push(s).drop_last() =~= tokens);
}

proof fn lemma_untold(
    gpus: Seq<GpuStats>,
    split: Seq<Single>,
    file_mb: u64,
    k: int,
    i: int,
)
    requires
        0 <= k <= gpus.len(),
        crate::laws::cards::untold(gpus, k, i),
    ensures
        util_of(gpus, k, i) == (Single { bits: 0 }),
        vram_of(gpus, k, i) == 0,
        weights_of(gpus, split, file_mb, k, i) == 0,
        rest_of(gpus, split, file_mb, k, i) == 0,
    decreases k,
{
    if k > 0 {
        assert(gpus[k - 1].index != i);
        lemma_untold(gpus, split, file_mb, k - 1, i);
    }
}

/// The place of a card that is not told of is empty, and there is a place for every card
/// up to the highest index.
pub proof fn untold_cards_leave_their_places_empty(
    f: FadeSample,
    detected: Option<DetectedModel>,
    gpus: Seq<GpuStats>,
    live: LiveStats,
    used: usize,
    buckets: usize,
    file_bytes: Option<u64>,
    i: int,
)
    requires
        f.shows(detected, gpus, live, used, buckets, file_bytes),
        0 <= i < f.gpu_util@.len(),
        crate::laws::cards::untold(gpus, gpus.len() as int, i),
    ensures
        f.gpu_util@[i] == (Single { bits: 0 }),
        f.gpu_vram@[i] == 0,
        f.weight_frac@[i] == 0,
        f.kv_alloc_frac@[i] == 0,
{
    lemma_untold(
        gpus,
        crate::dashboard::split_in(detected),
        crate::dashboard::file_size_mb(detected, file_bytes),
        gpus.len() as int,
        i,
    );
}

} // verus!
