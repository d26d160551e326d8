//! What one frame of the dashboard is made from, and how events change it.
use crate::config::ViewMode;
use crate::float::Single;
use crate::gguf;
use crate::gpu::GpuStats;
use crate::llm::LlmEvent;
use crate::micro;
use crate::model_detect;
use crate::model_detect::DetectedModel;
use crate::observe::{ExpertStats, LiveStats};
use crate::perf;
use crate::pipeline::{ActivityAggregator, GeneratedText, TokenBuffer};
use crate::text;
use vstd::prelude::*;

verus! {

/// One frame's targets for everything on the screen that fades. Shares and
/// percentages are in millionths, but for what a card itself reported.
#[derive(Clone, Debug)]
pub struct FadeSample {
    pub layer_target: Vec<u64>,
    pub layer_gpu: Vec<usize>,
    pub kv_filled: Vec<bool>,
    pub processing: bool,
    pub decoded: usize,
    pub token_step: usize,
    /// The routings that flash in this frame, layer by layer.
    pub routing: Option<Vec<(usize, Vec<Vec<i32>>)>>,
    /// How busy each card says it is, in percent.
    pub gpu_util: Vec<Single>,
    pub gpu_vram: Vec<u64>,
    pub weight_frac: Vec<u64>,
    pub kv_alloc_frac: Vec<u64>,
    pub ctx_used: usize,
    pub ctx_max: usize,
    pub n_experts: usize,
    pub n_experts_used: usize,
    pub n_heads: usize,
}

pub open spec fn at_least_one(n: usize) -> usize {
    if n > 1 {
        n
    } else {
        1
    }
}

fn one_or_more(n: usize) -> (r: usize)
    ensures
        r == at_least_one(n),
        r >= 1,
{
    if n > 1 {
        n
    } else {
        1
    }
}

/// How many cards the frame has room for: one more than the highest index.
pub open spec fn card_count(gpus: Seq<GpuStats>) -> int {
    if gpus.len() == 0 {
        1
    } else {
        perf::cards_upto(gpus, gpus.len() as int)
    }
}

/// The reading of card `i` among the first `k` readings: that of the last one
/// with that index; 0 where there is none.
pub open spec fn util_of(gpus: Seq<GpuStats>, k: int, i: int) -> Single
    decreases k,
{
    if k <= 0 {
        Single { bits: 0 }
    } else if gpus[k - 1].index == i {
        gpus[k - 1].utilization_gpu
    } else {
        util_of(gpus, k - 1, i)
    }
}

/// The share of card `i`'s memory that is in use, in percent.
pub open spec fn vram_of(gpus: Seq<GpuStats>, k: int, i: int) -> u64
    decreases k,
{
    if k <= 0 {
        0
    } else if gpus[k - 1].index == i {
        vram_percent(gpus[k - 1])
    } else {
        vram_of(gpus, k - 1, i)
    }
}

pub open spec fn vram_percent(g: GpuStats) -> u64 {
    if g.mem_total_mb == 0 {
        0
    } else {
        micro::scaled(g.mem_used_mb as int, 100 * micro::ONE, g.mem_total_mb as int)
    }
}

/// How bright a layer is to be: as busy as its card, but visible, while the
/// server works.
pub open spec fn layer_glow(processing: bool, util: Single) -> u64 {
    let u = micro::positive(util.millionths()) / 100;
    if !processing {
        0
    } else if u < 80_000 {
        80_000
    } else if u > micro::ONE {
        micro::ONE
    } else {
        u
    }
}

/// Whether the middle of a bucket lies within the used part of the context.
pub open spec fn bucket_filled(i: int, buckets: int, ctx_max: int, used: int) -> bool {
    (2 * i + 1) * ctx_max / (2 * buckets) <= used
}

/// The part of the weights that card `i` is to hold; none where its proportion is
/// negative or no number.
pub open spec fn card_share(split: Seq<Single>, cards: nat, i: int) -> u64 {
    if split.len() == 0 {
        (micro::ONE as int / cards as int) as u64
    } else if i < split.len() {
        (micro::positive(split[i].millionths()) * micro::ONE / gguf::share_total(split)) as u64
    } else {
        0
    }
}

/// The share of a card's memory that is in use.
pub open spec fn used_share(g: GpuStats) -> u64 {
    if g.mem_total_mb == 0 {
        0
    } else {
        micro::ratio(g.mem_used_mb as int, g.mem_total_mb as int)
    }
}

/// The share of a card's memory that the weights take: the card's part of the
/// file, but no more than is in use.
pub open spec fn weight_share(g: GpuStats, file_mb: u64, share: u64) -> u64 {
    let w = if g.mem_total_mb == 0 {
        0
    } else {
        micro::scaled(file_mb as int, share as int, g.mem_total_mb as int)
    };
    if w > used_share(g) {
        used_share(g)
    } else {
        w
    }
}

/// The weights' share of card `i`, by the last of the first `k` readings of it.
pub open spec fn weights_of(
    gpus: Seq<GpuStats>,
    split: Seq<Single>,
    file_mb: u64,
    k: int,
    i: int,
) -> u64
    decreases k,
{
    if k <= 0 {
        0
    } else if gpus[k - 1].index == i {
        weight_share(gpus[k - 1], file_mb, card_share(split, gpus.len(), i))
    } else {
        weights_of(gpus, split, file_mb, k - 1, i)
    }
}

/// What of card `i`'s memory in use is not weights, by the last of the first `k`
/// readings of it.
pub open spec fn rest_of(
    gpus: Seq<GpuStats>,
    split: Seq<Single>,
    file_mb: u64,
    k: int,
    i: int,
) -> u64
    decreases k,
{
    if k <= 0 {
        0
    } else if gpus[k - 1].index == i {
        (used_share(gpus[k - 1]) - weight_share(
            gpus[k - 1],
            file_mb,
            card_share(split, gpus.len(), i),
        )) as u64
    } else {
        rest_of(gpus, split, file_mb, k - 1, i)
    }
}

/// The size of the served file in MB: that of the file, else the memory that the
/// process holds.
pub open spec fn file_size_mb(detected: Option<DetectedModel>, file_bytes: Option<u64>) -> u64 {
    match detected {
        None => 0,
        Some(d) => match (d.path, file_bytes) {
            (Some(_), Some(n)) => n / 1_048_576,
            _ => d.mem_used_mb,
        },
    }
}

pub open spec fn split_in(detected: Option<DetectedModel>) -> Seq<Single> {
    match detected {
        Some(d) => d.tensor_split@,
        None => Seq::empty(),
    }
}

pub open spec fn topology_in(detected: Option<DetectedModel>) -> Option<gguf::GgufInfo> {
    match detected {
        Some(d) => d.topology(),
        None => None,
    }
}

pub open spec fn layers_in(detected: Option<DetectedModel>) -> usize {
    at_least_one(
        match topology_in(detected) {
            Some(g) => g.n_layers,
            None => 0,
        },
    )
}

pub open spec fn heads_in(detected: Option<DetectedModel>) -> usize {
    at_least_one(
        match topology_in(detected) {
            Some(g) => g.n_heads,
            None => 0,
        },
    )
}

pub open spec fn experts_used_in(detected: Option<DetectedModel>) -> usize {
    at_least_one(
        match topology_in(detected) {
            Some(g) => g.n_experts_used,
            None => 0,
        },
    )
}

pub open spec fn experts_in(detected: Option<DetectedModel>) -> usize {
    let n = match topology_in(detected) {
        Some(g) => g.n_experts,
        None => 0,
    };
    if n > experts_used_in(detected) {
        n
    } else {
        experts_used_in(detected)
    }
}

impl FadeSample {
    /// The sample is that of a detected process, the cards, and the server's state.
    pub open spec fn shows(
        self,
        detected: Option<DetectedModel>,
        gpus: Seq<GpuStats>,
        live: LiveStats,
        used: usize,
        buckets: usize,
        file_bytes: Option<u64>,
    ) -> bool {
        let n = gpus.len() as int;
        let split = split_in(detected);
        let file_mb = file_size_mb(detected, file_bytes);
        let layers = layers_in(detected);
        &&& self.layer_gpu@.len() == layers
        &&& forall|l: int|
            0 <= l < layers ==> #[trigger] self.layer_gpu@[l] == gguf::device_of(
                l,
                layers as int,
                split,
            )
        &&& self.layer_target@.len() == layers
        &&& forall|l: int|
            0 <= l < layers ==> #[trigger] self.layer_target@[l] == layer_glow(
                live.processing,
                util_of(gpus, n, gguf::device_of(l, layers as int, split)),
            )
        &&& self.kv_filled@.len() == buckets
        &&& forall|i: int|
            0 <= i < buckets ==> #[trigger] self.kv_filled@[i] == bucket_filled(
                i,
                buckets as int,
                self.ctx_max as int,
                used as int,
            )
        &&& self.processing == live.processing
        &&& self.decoded == live.decoded
        &&& self.token_step == (if live.prompt_processed + live.decoded > usize::MAX {
            usize::MAX as int
        } else {
            live.prompt_processed + live.decoded
        })
        &&& self.routing is None
        &&& self.gpu_util@.len() == card_count(gpus)
        &&& forall|i: int|
            0 <= i < card_count(gpus) ==> #[trigger] self.gpu_util@[i] == util_of(gpus, n, i)
        &&& self.gpu_vram@.len() == card_count(gpus)
        &&& forall|i: int|
            0 <= i < card_count(gpus) ==> #[trigger] self.gpu_vram@[i] == vram_of(gpus, n, i)
        &&& self.weight_frac@.len() == card_count(gpus)
        &&& forall|i: int|
            0 <= i < card_count(gpus) ==> #[trigger] self.weight_frac@[i] == weights_of(
                gpus,
                split,
                file_mb,
                n,
                i,
            )
        &&& self.kv_alloc_frac@.len() == card_count(gpus)
        &&& forall|i: int|
            0 <= i < card_count(gpus) ==> #[trigger] self.kv_alloc_frac@[i] == rest_of(
                gpus,
                split,
                file_mb,
                n,
                i,
            )
        &&& self.ctx_used == used
        &&& self.ctx_max == at_least_one(live.ctx_max)
        &&& self.n_experts == experts_in(detected)
        &&& self.n_experts_used == experts_used_in(detected)
        &&& self.n_heads == heads_in(detected)
    }
}

/// The index of the last reading of card `i`.
pub open spec fn last_reading(gpus: Seq<GpuStats>, k: int, i: int) -> Option<int>
    decreases k,
{
    if k <= 0 {
        None
    } else if gpus[k - 1].index == i {
        Some(k - 1)
    } else {
        last_reading(gpus, k - 1, i)
    }
}

/// A card's memory in use is its weights and the rest of it: what a frame shows of
/// the two adds up to the share in use.
pub proof fn weights_and_rest_are_what_is_used(
    gpus: Seq<GpuStats>,
    split: Seq<Single>,
    file_mb: u64,
    k: int,
    i: int,
)
    ensures
        weights_of(gpus, split, file_mb, k, i) + rest_of(gpus, split, file_mb, k, i) == (
        match last_reading(gpus, k, i) {
            Some(j) => used_share(gpus[j]) as int,
            None => 0,
        }),
    decreases k,
{
    if k > 0 && gpus[k - 1].index != i {
        weights_and_rest_are_what_is_used(gpus, split, file_mb, k - 1, i);
    }
}

/// The buckets of the context fill from the front.
pub proof fn buckets_fill_from_the_front(i: int, j: int, buckets: int, ctx_max: int, used: int)
    requires
        0 <= i <= j,
        0 < buckets,
        0 <= ctx_max,
        bucket_filled(j, buckets, ctx_max, used),
    ensures
        bucket_filled(i, buckets, ctx_max, used),
{
    assert((2 * i + 1) * ctx_max <= (2 * j + 1) * ctx_max) by (nonlinear_arith)
        requires
            i <= j,
            0 <= ctx_max,
    ;
    vstd::arithmetic::div_mod::lemma_div_is_ordered(
        (2 * i + 1) * ctx_max,
        (2 * j + 1) * ctx_max,
        2 * buckets,
    );
}

/// The last reading of a card.
fn find_card(gpus: &[GpuStats], i: usize) -> (r: Option<usize>)
    ensures
        r is Some <==> last_reading(gpus@, gpus@.len() as int, i as int) is Some,
        r matches Some(j) ==> j < gpus.len() && last_reading(gpus@, gpus@.len() as int, i as int)
            == Some(j as int),
{
    let mut k: usize = gpus.len();
    while k > 0
        invariant
            k <= gpus.len(),
            last_reading(gpus@, k as int, i as int) == last_reading(
                gpus@,
                gpus@.len() as int,
                i as int,
            ),
        decreases k,
    {
        if gpus[k - 1].index as usize == i {
            return Some(k - 1);
        }
        k -= 1;
    }
    None
}

/// What a frame shows of a card comes from its last reading.
proof fn lemma_last_reading(gpus: Seq<GpuStats>, split: Seq<Single>, file_mb: u64, k: int, i: int)
    requires
        0 <= k <= gpus.len(),
    ensures
        match last_reading(gpus, k, i) {
            None => util_of(gpus, k, i).bits == 0 && vram_of(gpus, k, i) == 0 && weights_of(
                gpus,
                split,
                file_mb,
                k,
                i,
            ) == 0 && rest_of(gpus, split, file_mb, k, i) == 0,
            Some(j) => {
                let w = weight_share(gpus[j], file_mb, card_share(split, gpus.len(), i));
                &&& 0 <= j < k
                &&& gpus[j].index == i
                &&& util_of(gpus, k, i) == gpus[j].utilization_gpu
                &&& vram_of(gpus, k, i) == vram_percent(gpus[j])
                &&& weights_of(gpus, split, file_mb, k, i) == w
                &&& rest_of(gpus, split, file_mb, k, i) == used_share(gpus[j]) - w
            },
        },
    decreases k,
{
    if k > 0 && gpus[k - 1].index != i {
        lemma_last_reading(gpus, split, file_mb, k - 1, i);
    }
}

fn share_of_card(split: &Vec<Single>, cards: usize, i: usize) -> (r: u64)
    requires
        cards > 0,
    ensures
        r == card_share(split@, cards as nat, i as int),
{
    if split.len() == 0 {
        assert(micro::ONE as int / cards as int <= micro::ONE) by (nonlinear_arith)
            requires
                cards >= 1,
        ;
        micro::ONE / cards as u64
    } else if i < split.len() {
        let total = gguf::split_total(split.as_slice());
        let share: u64 = micro::above_zero(split[i].to_millionths());
        proof {
            let a = share as int;
            let t = total as int;
            assert(0 <= a * 1_000_000 / t <= a) by (nonlinear_arith)
                requires
                    0 <= a,
                    1_000_000 <= t,
            ;
        }
        ((share as u128) * (micro::ONE as u128) / total) as u64
    } else {
        0
    }
}

/// A card's memory: the weights' share, and the rest of what is in use.
fn memory_of(g: &GpuStats, file_mb: u64, share: u64) -> (r: (u64, u64))
    ensures
        r.0 == weight_share(*g, file_mb, share),
        r.1 == used_share(*g) - weight_share(*g, file_mb, share),
{
    let used: u64 = if g.mem_total_mb == 0 {
        0
    } else {
        micro::ratio_of(g.mem_used_mb, g.mem_total_mb)
    };
    let w: u64 = if g.mem_total_mb == 0 {
        0
    } else {
        micro::scale(file_mb, share, g.mem_total_mb)
    };
    let weights: u64 = if w > used {
        used
    } else {
        w
    };
    (weights, used - weights)
}

/// The buckets of the context that are filled.
fn filled_buckets(buckets: usize, ctx_max: usize, used: usize) -> (r: Vec<bool>)
    ensures
        r@.len() == buckets,
        forall|i: int|
            0 <= i < buckets ==> #[trigger] r@[i] == bucket_filled(
                i,
                buckets as int,
                ctx_max as int,
                used as int,
            ),
{
    let mut out: Vec<bool> = Vec::new();
    let mut i: usize = 0;
    while i < buckets
        invariant
            i <= buckets,
            out@.len() == i,
            forall|j: int|
                0 <= j < i ==> #[trigger] out@[j] == bucket_filled(
                    j,
                    buckets as int,
                    ctx_max as int,
                    used as int,
                ),
        decreases buckets - i,
    {
        let halves: u128 = 2 * (i as u128) + 1;
        let doubled: u128 = 2 * (buckets as u128);
        proof {
            let d = doubled as int;
            let p = halves * ctx_max;
            vstd::arithmetic::div_mod::lemma_fundamental_div_mod(p, d);
            vstd::arithmetic::div_mod::lemma_mod_pos_bound(p, d);
            let q = p / d;
            assert((p < d * (used + 1)) == (q <= used)) by (nonlinear_arith)
                requires
                    p == d * q + p % d,
                    0 <= p % d < d,
            ;
            assert(d * (used + 1) == (used + 1) * d) by (nonlinear_arith);
        }
        // The middle is within the used part where its whole part is.
        let beyond = micro::product_at_most(
            (used as u128) + 1,
            doubled,
            halves,
            ctx_max as u128,
        );
        out.push(!beyond);
        i += 1;
    }
    out
}

fn detected_info(detected: Option<&DetectedModel>) -> (r: (usize, usize, usize, usize))
    ensures
        r.0 == layers_in(model_of(detected)),
        r.1 == heads_in(model_of(detected)),
        r.2 == experts_in(model_of(detected)),
        r.3 == experts_used_in(model_of(detected)),
{
    let (layers, heads, experts, experts_used): (usize, usize, usize, usize) = match detected {
        Some(d) => (d.n_layers(), d.n_heads(), d.n_experts(), d.n_experts_used()),
        None => (0, 0, 0, 0),
    };
    let used = one_or_more(experts_used);
    (
        one_or_more(layers),
        one_or_more(heads),
        if experts > used {
            experts
        } else {
            used
        },
        used,
    )
}

pub open spec fn model_of(detected: Option<&DetectedModel>) -> Option<DetectedModel> {
    match detected {
        Some(d) => Some(*d),
        None => None,
    }
}

/// The per-card parts of a frame.
struct Cards {
    util: Vec<Single>,
    vram: Vec<u64>,
    weights: Vec<u64>,
    rest: Vec<u64>,
}

fn card_parts(gpus: &[GpuStats], split: &Vec<Single>, file_mb: u64, n_gpus: usize) -> (r: Cards)
    ensures
        r.util@.len() == n_gpus,
        r.vram@.len() == n_gpus,
        r.weights@.len() == n_gpus,
        r.rest@.len() == n_gpus,
        forall|i: int|
            0 <= i < n_gpus ==> #[trigger] r.util@[i] == util_of(gpus@, gpus@.len() as int, i),
        forall|i: int|
            0 <= i < n_gpus ==> #[trigger] r.vram@[i] == vram_of(gpus@, gpus@.len() as int, i),
        forall|i: int|
            0 <= i < n_gpus ==> #[trigger] r.weights@[i] == weights_of(
                gpus@,
                split@,
                file_mb,
                gpus@.len() as int,
                i,
            ),
        forall|i: int|
            0 <= i < n_gpus ==> #[trigger] r.rest@[i] == rest_of(
                gpus@,
                split@,
                file_mb,
                gpus@.len() as int,
                i,
            ),
{
    let ghost n = gpus@.len() as int;
    let mut util: Vec<Single> = Vec::new();
    let mut vram: Vec<u64> = Vec::new();
    let mut weights: Vec<u64> = Vec::new();
    let mut rest: Vec<u64> = Vec::new();
    let mut i: usize = 0;
    while i < n_gpus
        invariant
            i <= n_gpus,
            n == gpus@.len(),
            util@.len() == i,
            vram@.len() == i,
            weights@.len() == i,
            rest@.len() == i,
            forall|j: int| 0 <= j < i ==> #[trigger] util@[j] == util_of(gpus@, n, j),
            forall|j: int| 0 <= j < i ==> #[trigger] vram@[j] == vram_of(gpus@, n, j),
            forall|j: int|
                0 <= j < i ==> #[trigger] weights@[j] == weights_of(gpus@, split@, file_mb, n, j),
            forall|j: int|
                0 <= j < i ==> #[trigger] rest@[j] == rest_of(gpus@, split@, file_mb, n, j),
        decreases n_gpus - i,
    {
        proof {
            lemma_last_reading(gpus@, split@, file_mb, n, i as int);
        }
        match find_card(gpus, i) {
            Some(j) => {
                let g = &gpus[j];
                let share: u64 = share_of_card(split, gpus.len(), i);
                let (w, r) = memory_of(g, file_mb, share);
                util.push(g.utilization_gpu);
                vram.push(g.vram_percent());
                weights.push(w);
                rest.push(r);
            },
            None => {
                util.push(Single::zero());
                vram.push(0);
                weights.push(0);
                rest.push(0);
            },
        }
        i += 1;
    }
    Cards { util, vram, weights, rest }
}

/// Makes one frame's sample. `used` is how much of the context is in use, and
/// `file_bytes` the length of the served file, where it could be read.
pub fn fade_sample_from_live(
    detected: Option<&DetectedModel>,
    gpus: &[GpuStats],
    live: &LiveStats,
    used: usize,
    kv_buckets: usize,
    file_bytes: Option<u64>,
) -> (r: FadeSample)
    requires
        perf::cards_fit(gpus@),
    ensures
        r.shows(model_of(detected), gpus@, *live, used, kv_buckets, file_bytes),
{
    let ghost model = model_of(detected);
    let (n_layers, n_heads, n_experts, n_experts_used) = detected_info(detected);
    let none: Vec<Single> = Vec::new();
    let split: &Vec<Single> = match detected {
        Some(d) => &d.tensor_split,
        None => &none,
    };
    assert(split@ =~= split_in(model));
    let file_mb: u64 = match detected {
        None => 0,
        Some(d) => match (&d.path, file_bytes) {
            (Some(_), Some(n)) => n / 1_048_576,
            _ => d.mem_used_mb,
        },
    };
    let n_gpus: usize = if gpus.len() == 0 {
        1
    } else {
        perf::highest_card(gpus)
    };
    let cards = card_parts(gpus, split, file_mb, n_gpus);
    let mut layer_gpu: Vec<usize> = Vec::new();
    let mut layer_target: Vec<u64> = Vec::new();
    let mut l: usize = 0;
    while l < n_layers
        invariant
            l <= n_layers,
            layer_gpu@.len() == l,
            layer_target@.len() == l,
            forall|j: int|
                0 <= j < l ==> #[trigger] layer_gpu@[j] == gguf::device_of(
                    j,
                    n_layers as int,
                    split@,
                ),
            forall|j: int|
                0 <= j < l ==> #[trigger] layer_target@[j] == layer_glow(
                    live.processing,
                    util_of(
                        gpus@,
                        gpus@.len() as int,
                        gguf::device_of(j, n_layers as int, split@),
                    ),
                ),
        decreases n_layers - l,
    {
        let dev: usize = gguf::layer_device(l, n_layers, split.as_slice());
        proof {
            lemma_last_reading(gpus@, split@, 0, gpus@.len() as int, dev as int);
        }
        let util: Single = match find_card(gpus, dev) {
            Some(j) => gpus[j].utilization_gpu,
            None => Single::zero(),
        };
        let u: u64 = micro::above_zero(util.to_millionths()) / 100;
        let glow: u64 = if !live.processing {
            0
        } else if u < 80_000 {
            80_000
        } else if u > micro::ONE {
            micro::ONE
        } else {
            u
        };
        layer_gpu.push(dev);
        layer_target.push(glow);
        l += 1;
    }
    let ctx_max: usize = one_or_more(live.ctx_max);
    let kv_filled = filled_buckets(kv_buckets, ctx_max, used);
    FadeSample {
        layer_target,
        layer_gpu,
        kv_filled,
        processing: live.processing,
        decoded: live.decoded,
        token_step: live.prompt_processed.saturating_add(live.decoded),
        routing: None,
        gpu_util: cards.util,
        gpu_vram: cards.vram,
        weight_frac: cards.weights,
        kv_alloc_frac: cards.rest,
        ctx_used: used,
        ctx_max,
        n_experts,
        n_experts_used,
        n_heads,
    }
}

/// A key that the user pressed.
#[derive(Clone, Copy, Debug, PartialEq, Eq, Structural)]
pub enum Key {
    Char(char),
    Esc,
    Other,
}

/// What a key asks for.
#[derive(Clone, Copy, Debug, PartialEq, Eq, Structural)]
pub enum Action {
    Quit,
    Show(ViewMode),
    Rescan,
    NextTheme,
    Nothing,
}

/// What a key asks for. A demo has nothing to rescan.
pub open spec fn asked(key: Key, demo: bool) -> Action {
    match key {
        Key::Esc => Action::Quit,
        Key::Other => Action::Nothing,
        Key::Char(c) => if c == 'q' {
            Action::Quit
        } else if c == 'a' {
            Action::Show(ViewMode::All)
        } else if c == 'p' {
            Action::Show(ViewMode::Perf)
        } else if c == 'h' {
            Action::Show(ViewMode::Heatmap)
        } else if c == 'm' {
            Action::Show(ViewMode::MoE)
        } else if c == 'r' && !demo {
            Action::Rescan
        } else if c == 't' {
            Action::NextTheme
        } else {
            Action::Nothing
        },
    }
}

pub fn key_action(key: Key, demo: bool) -> (r: Action)
    ensures
        r == asked(key, demo),
{
    match key {
        Key::Esc => Action::Quit,
        Key::Other => Action::Nothing,
        Key::Char(c) => if c == 'q' {
            Action::Quit
        } else if c == 'a' {
            Action::Show(ViewMode::All)
        } else if c == 'p' {
            Action::Show(ViewMode::Perf)
        } else if c == 'h' {
            Action::Show(ViewMode::Heatmap)
        } else if c == 'm' {
            Action::Show(ViewMode::MoE)
        } else if c == 'r' && !demo {
            Action::Rescan
        } else if c == 't' {
            Action::NextTheme
        } else {
            Action::Nothing
        },
    }
}

/// How many misses an endpoint is forgiven.
pub const MISSES: u32 = 3;

/// An endpoint that not every server has. It is asked until it has failed three
/// times, and again after the server has changed.
#[derive(Clone, Copy, Debug, PartialEq, Eq, Structural)]
pub struct Endpoint {
    pub open: bool,
    pub misses: u32,
}

impl Endpoint {
    /// It is asked as long as it has not stayed silent too often.
    pub open spec fn wf(self) -> bool {
        self.misses <= MISSES && self.open == (self.misses < MISSES)
    }

    pub fn new() -> (r: Endpoint)
        ensures
            r == (Endpoint { open: true, misses: 0 }),
            r.wf(),
    {
        Endpoint { open: true, misses: 0 }
    }

    /// The endpoint once it has answered, or stayed silent.
    pub open spec fn after(self, ok: bool) -> Endpoint {
        let misses = if ok {
            self.misses as int
        } else {
            self.misses + 1
        };
        Endpoint { open: self.open && misses < MISSES, misses: misses as u32 }
    }

    /// Takes an answer, or its absence, of an endpoint that was asked.
    pub fn answered(&mut self, ok: bool)
        requires
            old(self).wf(),
            old(self).open,
        ensures
            *final(self) == old(self).after(ok),
            final(self).wf(),
            final(self).misses == (if ok {
                old(self).misses as int
            } else {
                old(self).misses + 1
            }),
    {
        if !ok {
            self.misses = self.misses + 1;
        }
        if self.misses >= MISSES {
            self.open = false;
        }
    }

    /// Another server answers now.
    pub fn reset(&mut self)
        ensures
            *final(self) == (Endpoint { open: true, misses: 0 }),
            final(self).wf(),
    {
        self.open = true;
        self.misses = 0;
    }
}

/// The shortest wait before a server is asked again that has stopped answering, in
/// nanoseconds.
pub const BACK_OFF: u64 = 2_000_000_000;

/// How a server that is asked again and again has answered. After three polls in a
/// row without an answer it counts as lost: it is shown idle and asked more rarely,
/// until it answers again.
#[derive(Clone, Copy, Debug, PartialEq, Eq, Structural)]
pub struct Pulse {
    /// The polls without an answer since the last answer; no more are counted than
    /// it takes to be lost.
    pub misses: u32,
}

/// The pulse after some polls, the latest last.
pub open spec fn pulse_after(p: Pulse, polls: Seq<bool>) -> Pulse
    decreases polls.len(),
{
    if polls.len() == 0 {
        p
    } else {
        pulse_after(p, polls.drop_last()).after(polls.last())
    }
}

impl Pulse {
    pub open spec fn wf(self) -> bool {
        self.misses <= MISSES
    }

    pub open spec fn after(self, ok: bool) -> Pulse {
        Pulse {
            misses: if ok {
                0
            } else if self.misses < MISSES {
                (self.misses + 1) as u32
            } else {
                self.misses
            },
        }
    }

    pub open spec fn lost(self) -> bool {
        self.misses >= MISSES
    }

    pub fn new() -> (r: Pulse)
        ensures
            r.wf(),
            r.misses == 0,
    {
        Pulse { misses: 0 }
    }

    /// Takes an answer, or its absence.
    pub fn polled(&mut self, ok: bool)
        requires
            old(self).wf(),
        ensures
            final(self).wf(),
            *final(self) == old(self).after(ok),
    {
        if ok {
            self.misses = 0;
        } else if self.misses < MISSES {
            self.misses = self.misses + 1;
        }
    }

    /// Whether the server has stopped answering.
    pub fn is_lost(&self) -> (r: bool)
        ensures
            r == self.lost(),
    {
        self.misses >= MISSES
    }

    /// The time until the next poll, where `poll` is the usual one.
    pub open spec fn waits(self, poll: u64) -> u64 {
        if self.lost() && poll < BACK_OFF {
            BACK_OFF
        } else {
            poll
        }
    }

    /// The time until the next poll, where `poll` is the usual one.
    pub fn wait(&self, poll: u64) -> (r: u64)
        ensures
            r == self.waits(poll),
            r == (if self.lost() && poll < BACK_OFF {
                BACK_OFF
            } else {
                poll
            }),
    {
        if self.is_lost() {
            micro::max(poll, BACK_OFF)
        } else {
            poll
        }
    }
}

/// What a lost server is taken to report: what it last did, and that it does
/// nothing now.
pub fn idle_sample(last: &LiveStats) -> (r: LiveStats)
    ensures
        !r.processing,
        r.slots_busy == 0,
        r.itl_sum == 0,
        r.ctx_max == last.ctx_max,
        r.prompt_tokens == last.prompt_tokens,
        r.prompt_processed == last.prompt_processed,
        r.cache_tokens == last.cache_tokens,
        r.decoded == last.decoded,
        r.id_task == last.id_task,
        r.spec_types@ == last.spec_types@,
        r.n_slots == last.n_slots,
{
    LiveStats {
        ctx_max: last.ctx_max,
        prompt_tokens: last.prompt_tokens,
        prompt_processed: last.prompt_processed,
        cache_tokens: last.cache_tokens,
        decoded: last.decoded,
        processing: false,
        id_task: last.id_task,
        spec_types: last.spec_types.clone(),
        n_slots: last.n_slots,
        slots_busy: 0,
        itl_sum: 0,
    }
}

/// A server is lost exactly when its last three polls went without an answer,
/// however it answered before; one answer is enough to find it again.
pub proof fn three_misses_lose_a_server(polls: Seq<bool>)
    ensures
        ({
            let p = pulse_after((Pulse { misses: 0 }), polls);
            let n = polls.len() as int;
            &&& p.wf()
            &&& p.lost() <==> n >= 3 && !polls[n - 1] && !polls[n - 2] && !polls[n - 3]
        }),
    decreases polls.len(),
{
    if polls.len() > 0 {
        three_misses_lose_a_server(polls.drop_last());
    }
    reveal_with_fuel(pulse_after, 4);
}

/// The sample that stands in for a lost server's ends its request and takes the
/// rates on the screen back to zero.
pub proof fn lost_servers_show_no_rate(
    t: perf::Tracker,
    s: LiveStats,
    now: u64,
    t0: u64,
    prev: perf::Counters,
)
    requires
        t.last_sample == Some((t0, prev)),
        !s.processing,
        s.itl_sum == 0,
    ensures
        t.observed(s, now).current is None,
        t.observed(s, now).phase == perf::Phase::Idle,
        t.observed(s, now).decode_tps == 0,
        t.observed(s, now).prefill_tps == 0,
{
    perf::a_stopped_server_is_idle(t, s, now, t0, prev);
}

/// The routings that arrived since `seen` tokens: of each layer its last ones, as
/// many as there are new tokens.
pub open spec fn new_routings(e: ExpertStats, seen: u64, n: int) -> Seq<(usize, Seq<Seq<i32>>)>
    decreases n,
{
    if n <= 0 {
        Seq::empty()
    } else {
        let before = new_routings(e, seen, n - 1);
        let l = e.layers@[n - 1];
        let take = routing_count(e.n_tokens, seen, l.tokens@.len());
        if take > 0 {
            before.push((l.il, ids_of(l.tokens@.skip(l.tokens@.len() - take))))
        } else {
            before
        }
    }
}

/// How many of a layer's `len` routings are new.
pub open spec fn routing_count(n_tokens: u64, seen: u64, len: nat) -> int {
    let new = perf::growth(n_tokens, seen);
    if new < len {
        new as int
    } else {
        len as int
    }
}

pub open spec fn ids_of(tokens: Seq<Vec<i32>>) -> Seq<Seq<i32>> {
    Seq::new(tokens.len(), |i: int| tokens[i]@)
}

pub open spec fn routings_view(list: Seq<(usize, Vec<Vec<i32>>)>) -> Seq<(usize, Seq<Seq<i32>>)> {
    Seq::new(list.len(), |i: int| (list[i].0, ids_of(list[i].1@)))
}

fn copy_ids(ids: &Vec<i32>) -> (r: Vec<i32>)
    ensures
        r@ == ids@,
{
    let mut out: Vec<i32> = Vec::new();
    let mut i: usize = 0;
    while i < ids.len()
        invariant
            i <= ids.len(),
            out@ == ids@.take(i as int),
        decreases ids.len() - i,
    {
        out.push(ids[i]);
        assert(out@ =~= ids@.take(i + 1));
        i += 1;
    }
    assert(out@ =~= ids@);
    out
}

fn copy_tail(tokens: &Vec<Vec<i32>>, from: usize) -> (r: Vec<Vec<i32>>)
    requires
        from <= tokens.len(),
    ensures
        ids_of(r@) == ids_of(tokens@.skip(from as int)),
{
    let mut out: Vec<Vec<i32>> = Vec::new();
    let mut i: usize = from;
    while i < tokens.len()
        invariant
            from <= i <= tokens.len(),
            out@.len() == i - from,
            forall|j: int| 0 <= j < out@.len() ==> #[trigger] out@[j]@ == tokens@[from + j]@,
        decreases tokens.len() - i,
    {
        out.push(copy_ids(&tokens[i]));
        i += 1;
    }
    assert(ids_of(out@) =~= ids_of(tokens@.skip(from as int)));
    out
}

/// The routings that flash: those that arrived since the previous poll, which had
/// seen `seen` tokens.
pub fn routing_update(e: &ExpertStats, seen: u64) -> (r: Vec<(usize, Vec<Vec<i32>>)>)
    ensures
        routings_view(r@) == new_routings(*e, seen, e.layers@.len() as int),
{
    let new: usize = e.n_tokens.saturating_sub(seen) as usize;
    let mut out: Vec<(usize, Vec<Vec<i32>>)> = Vec::new();
    let mut i: usize = 0;
    assert(routings_view(out@) =~= Seq::<(usize, Seq<Seq<i32>>)>::empty());
    while i < e.layers.len()
        invariant
            i <= e.layers.len(),
            new == perf::growth(e.n_tokens, seen),
            routings_view(out@) == new_routings(*e, seen, i as int),
        decreases e.layers.len() - i,
    {
        let l = &e.layers[i];
        let take: usize = if new < l.tokens.len() {
            new
        } else {
            l.tokens.len()
        };
        if take > 0 {
            let ghost before = routings_view(out@);
            let tail = copy_tail(&l.tokens, l.tokens.len() - take);
            let ghost row = (l.il, ids_of(tail@));
            out.push((l.il, tail));
            assert(routings_view(out@) =~= before.push(row));
        }
        i += 1;
    }
    out
}

/// A routing flashes once: a poll that saw no new token flashes nothing.
pub proof fn routings_flash_once(e: ExpertStats, n: int)
    requires
        0 <= n <= e.layers@.len(),
    ensures
        new_routings(e, e.n_tokens, n) == Seq::<(usize, Seq<Seq<i32>>)>::empty(),
    decreases n,
{
    if n > 0 {
        routings_flash_once(e, n - 1);
    }
}

/// What the events of the bridge have made of the screen.
#[derive(Debug)]
pub struct Session {
    pub num_layers: usize,
    pub num_heads: usize,
    pub ctx_max: usize,
    pub status: String,
    pub running: bool,
    pub done: bool,
    pub attention: TokenBuffer,
    pub aggregator: ActivityAggregator,
    pub generated: GeneratedText,
}

/// The line that tells what has been loaded.
pub open spec fn loaded_text(model: Seq<char>, layers: usize, heads: usize, ctx: usize) -> Seq<
    char,
> {
    "loaded "@ + model + " ("@ + text::decimal(layers as nat) + "L × "@ + text::decimal(
        heads as nat,
    ) + "H, ctx "@ + text::decimal(ctx as nat) + ")"@
}

/// The context that a session is first shown with: what the process was started
/// with, else what the model was trained with.
pub open spec fn first_context(detected: Option<DetectedModel>) -> usize {
    match detected {
        None => 0,
        Some(d) => match d.ctx_max {
            Some(n) => n,
            None => match d.topology() {
                Some(g) => g.ctx_train,
                None => 0,
            },
        },
    }
}

/// What the status line says at the start.
pub open spec fn first_status(demo: bool, detected: Option<DetectedModel>) -> Seq<char> {
    if demo {
        "demo: synthetic server, two synthetic GPUs"@
    } else {
        match detected {
            Some(d) => "attached to "@ + model_detect::shown(d@),
            None => "no running LLM found (nvidia-smi / llama-server / ollama) — press r to rescan"@,
        }
    }
}

/// What the events of the bridge have made of the head of the screen, as mathematical
/// values.
pub struct Screen {
    pub num_layers: usize,
    pub num_heads: usize,
    pub ctx_max: usize,
    pub status: Seq<char>,
    pub running: bool,
    pub done: bool,
}

impl Screen {
    /// The screen at the start.
    pub open spec fn first(detected: Option<DetectedModel>, demo: bool) -> Screen {
        Screen {
            num_layers: match topology_in(detected) {
                Some(g) => g.n_layers,
                None => 0,
            },
            num_heads: match topology_in(detected) {
                Some(g) => g.n_heads,
                None => 0,
            },
            ctx_max: first_context(detected),
            status: first_status(demo, detected),
            running: true,
            done: false,
        }
    }

    /// The screen after an event.
    pub open spec fn after(self, event: LlmEvent) -> Screen {
        match event {
            LlmEvent::Status(msg) => Screen { status: msg@, ..self },
            LlmEvent::ModelInfo { num_layers, num_heads, ctx_max, model } => {
                let ctx = if ctx_max > 0 {
                    ctx_max
                } else {
                    self.ctx_max
                };
                Screen {
                    num_layers,
                    num_heads,
                    ctx_max: ctx,
                    status: loaded_text(model@, num_layers, num_heads, ctx),
                    ..self
                }
            },
            LlmEvent::Done { tokens_generated } => Screen {
                status: "done — generated "@ + text::decimal(tokens_generated as nat)
                    + " tokens"@,
                done: true,
                ..self
            },
            LlmEvent::Error(msg) => Screen {
                status: "error: "@ + msg@,
                running: false,
                ..self
            },
            _ => self,
        }
    }

    /// The screen after a rescan.
    pub open spec fn rescanned(self, found: Option<DetectedModel>) -> Screen {
        match found {
            None => Screen { status: "re-scan: no running LLMs"@, ..self },
            Some(d) => Screen {
                num_layers: match d.topology() {
                    Some(g) => g.n_layers,
                    None => 0,
                },
                num_heads: match d.topology() {
                    Some(g) => g.n_heads,
                    None => 0,
                },
                ctx_max: match d.ctx_max {
                    Some(n) => n,
                    None => self.ctx_max,
                },
                status: "re-scanned: attached to "@ + model_detect::shown(d@),
                ..self
            },
        }
    }

    /// The dashboard is to close.
    pub open spec fn over(self) -> bool {
        !self.running && !self.done
    }
}

/// The screen after some events.
pub open spec fn screen_after(s: Screen, events: Seq<LlmEvent>) -> Screen
    decreases events.len(),
{
    if events.len() == 0 {
        s
    } else {
        screen_after(s, events.drop_last()).after(events.last())
    }
}

impl Session {
    pub open spec fn screen(self) -> Screen {
        Screen {
            num_layers: self.num_layers,
            num_heads: self.num_heads,
            ctx_max: self.ctx_max,
            status: self.status@,
            running: self.running,
            done: self.done,
        }
    }

    /// A session on a detected process.
    pub fn new(detected: Option<&DetectedModel>, demo: bool, window: usize) -> (r: Session)
        ensures
            r.screen() == Screen::first(model_of(detected), demo),
            r.num_layers == (match topology_in(model_of(detected)) {
                Some(g) => g.n_layers,
                None => 0,
            }),
            r.num_heads == (match topology_in(model_of(detected)) {
                Some(g) => g.n_heads,
                None => 0,
            }),
            r.ctx_max == first_context(model_of(detected)),
            r.status@ == first_status(demo, model_of(detected)),
            r.running,
            !r.done,
            r.attention.capacity == window,
            r.attention.data@.len() == 0,
            r.aggregator.wf(),
            forall|pos: usize| (#[trigger] r.aggregator.at(pos)) is None,
            r.generated.tokens@.len() == 0,
    {
        let (num_layers, num_heads, ctx_max): (usize, usize, usize) = match detected {
            None => (0, 0, 0),
            Some(d) => (
                d.n_layers(),
                d.n_heads(),
                match d.ctx_max {
                    Some(n) => n,
                    None => d.ctx_train(),
                },
            ),
        };
        let status = if demo {
            "demo: synthetic server, two synthetic GPUs".to_owned()
        } else {
            match detected {
                Some(d) => {
                    let mut out = text::chars_of("attached to ");
                    text::add_str(&mut out, d.to_text().as_str());
                    text::string_of(&out)
                },
                None =>
                "no running LLM found (nvidia-smi / llama-server / ollama) — press r to rescan".to_owned(),
            }
        };
        Session {
            num_layers,
            num_heads,
            ctx_max,
            status,
            running: true,
            done: false,
            attention: TokenBuffer::new(window),
            aggregator: ActivityAggregator::new(0, 0),
            generated: GeneratedText::new(),
        }
    }

    /// Takes over what a rescan found.
    pub fn rescanned(&mut self, found: Option<&DetectedModel>)
        ensures
            final(self).screen() == old(self).screen().rescanned(model_of(found)),
            found is None ==> final(self).status@ == "re-scan: no running LLMs"@
                && final(self).num_layers == old(self).num_layers && final(self).num_heads == old(
                self,
            ).num_heads && final(self).ctx_max == old(self).ctx_max,
            found matches Some(d) ==> {
                &&& final(self).status@ == "re-scanned: attached to "@ + model_detect::shown(d@)
                &&& final(self).num_layers == (match d.topology() {
                    Some(g) => g.n_layers,
                    None => 0,
                })
                &&& final(self).num_heads == (match d.topology() {
                    Some(g) => g.n_heads,
                    None => 0,
                })
                &&& final(self).ctx_max == (match d.ctx_max {
                    Some(n) => n,
                    None => old(self).ctx_max,
                })
            },
            final(self).running == old(self).running,
            final(self).done == old(self).done,
            final(self).attention == old(self).attention,
            final(self).aggregator == old(self).aggregator,
            final(self).generated == old(self).generated,
    {
        match found {
            None => {
                self.status = "re-scan: no running LLMs".to_owned();
            },
            Some(d) => {
                self.num_layers = d.n_layers();
                self.num_heads = d.n_heads();
                if let Some(c) = d.ctx_max {
                    self.ctx_max = c;
                }
                let mut out = text::chars_of("re-scanned: attached to ");
                text::add_str(&mut out, d.to_text().as_str());
                self.status = text::string_of(&out);
            },
        }
    }

    /// Takes an event of the bridge. A token closes the column of its position;
    /// an error stops the session.
    pub fn handle(&mut self, event: LlmEvent)
        requires
            old(self).aggregator.wf(),
        ensures
            final(self).screen() == old(self).screen().after(event),
            final(self).aggregator.wf(),
            match event {
                LlmEvent::Status(msg) => final(self).status@ == msg@,
                LlmEvent::ModelInfo { num_layers, num_heads, ctx_max, model } => {
                    &&& final(self).num_layers == num_layers
                    &&& final(self).num_heads == num_heads
                    &&& final(self).ctx_max == (if ctx_max > 0 {
                        ctx_max
                    } else {
                        old(self).ctx_max
                    })
                    &&& final(self).status@ == loaded_text(
                        model@,
                        num_layers,
                        num_heads,
                        final(self).ctx_max,
                    )
                    &&& forall|pos: usize| (#[trigger] final(self).aggregator.at(pos)) is None
                },
                LlmEvent::Attention(w) => {
                    &&& final(self).status@ == old(self).status@
                    &&& forall|pos: usize|
                        pos != w.query_pos ==> #[trigger] final(self).aggregator.at(pos) == old(
                            self,
                        ).aggregator.at(pos)
                    &&& final(self).aggregator.at(w.query_pos) matches Some(next)
                    &&& crate::pipeline::raises(
                        match old(self).aggregator.at(w.query_pos) {
                            Some(acts) => acts,
                            None => Seq::empty(),
                        },
                        w.layer,
                        w.head,
                        w.weight,
                        next,
                    )
                },
                LlmEvent::Token { index, text } => {
                    &&& final(self).status@ == old(self).status@
                    &&& text::strings(final(self).generated.tokens@)
                        == crate::pipeline::kept_tokens(
                        crate::pipeline::with_token(
                            text::strings(old(self).generated.tokens@),
                            index as int,
                            text@,
                        ),
                    )
                    &&& final(self).aggregator.at(index) is None
                    &&& forall|pos: usize|
                        pos != index ==> #[trigger] final(self).aggregator.at(pos) == old(
                            self,
                        ).aggregator.at(pos)
                    &&& match old(self).aggregator.at(index) {
                        None => final(self).attention == old(self).attention,
                        Some(acts) => exists|c: crate::pipeline::TokenColumn|
                            c.token_index == index && c.activities@ == acts
                                && #[trigger] perf::ringed(
                                old(self).attention.data@,
                                c,
                                old(self).attention.capacity as nat,
                            ) == final(self).attention.data@,
                    }
                },
                LlmEvent::Done { tokens_generated } => {
                    &&& final(self).status@ == "done — generated "@ + text::decimal(
                        tokens_generated as nat,
                    ) + " tokens"@
                },
                LlmEvent::Error(msg) => final(self).status@ == "error: "@ + msg@,
            },
            final(self).running == (old(self).running && !(event is Error)),
            final(self).done == (old(self).done || event is Done),
            !(event is ModelInfo) ==> final(self).num_layers == old(self).num_layers
                && final(self).num_heads == old(self).num_heads && final(self).ctx_max == old(
                self,
            ).ctx_max,
            !(event is ModelInfo || event is Attention || event is Token)
                ==> final(self).aggregator == old(self).aggregator,
            !(event is Token) ==> final(self).generated == old(self).generated
                && final(self).attention == old(self).attention,
            final(self).attention.capacity == old(self).attention.capacity,
    {
        match event {
            LlmEvent::ModelInfo { num_layers, num_heads, ctx_max, model } => {
                self.num_layers = num_layers;
                self.num_heads = num_heads;
                if ctx_max > 0 {
                    self.ctx_max = ctx_max;
                }
                self.aggregator = ActivityAggregator::new(num_layers, num_heads);
                let mut out = text::chars_of("loaded ");
                text::add_str(&mut out, model.as_str());
                text::add_str(&mut out, " (");
                text::add_number(&mut out, num_layers as u64);
                text::add_str(&mut out, "L × ");
                text::add_number(&mut out, num_heads as u64);
                text::add_str(&mut out, "H, ctx ");
                text::add_number(&mut out, self.ctx_max as u64);
                text::add_str(&mut out, ")");
                self.status = text::string_of(&out);
            },
            LlmEvent::Attention(weight) => {
                self.aggregator.process(weight);
            },
            LlmEvent::Token { index, text } => {
                self.generated.push(index, text);
                if let Some(col) = self.aggregator.finalize(index) {
                    let ghost c = col;
                    let ghost before = self.attention.data@;
                    self.attention.push(col);
                    assert(perf::ringed(before, c, self.attention.capacity as nat)
                        == self.attention.data@);
                }
            },
            LlmEvent::Status(msg) => {
                self.status = msg;
            },
            LlmEvent::Done { tokens_generated } => {
                let mut out = text::chars_of("done — generated ");
                text::add_number(&mut out, tokens_generated as u64);
                text::add_str(&mut out, " tokens");
                self.status = text::string_of(&out);
                self.done = true;
            },
            LlmEvent::Error(msg) => {
                let mut out = text::chars_of("error: ");
                text::add_str(&mut out, msg.as_str());
                self.status = text::string_of(&out);
                self.running = false;
            },
        }
    }

    /// Whether the dashboard is to close: after an error, unless the bridge was
    /// done before.
    pub fn is_over(&self) -> (r: bool)
        ensures
            r == self.screen().over(),
            r == (!self.running && !self.done),
    {
        !self.running && !self.done
    }
}

/// How many experts a MoE panel shows: those that the detected model uses, else
/// as many as were asked for.
pub open spec fn experts_shown(detected: Option<DetectedModel>, asked_for: usize) -> usize {
    match topology_in(detected) {
        Some(g) => if g.n_experts_used > 0 {
            g.n_experts_used
        } else {
            asked_for
        },
        None => asked_for,
    }
}

/// How many experts a MoE panel shows: those that the detected model uses, else
/// as many as were asked for.
pub fn moe_experts(detected: Option<&DetectedModel>, asked_for: usize) -> (r: usize)
    ensures
        r == experts_shown(model_of(detected), asked_for),
        r == (match topology_in(model_of(detected)) {
            Some(g) => if g.n_experts_used > 0 {
                g.n_experts_used
            } else {
                asked_for
            },
            None => asked_for,
        }),
{
    match detected {
        Some(d) => {
            let n: usize = d.n_experts_used();
            if n > 0 {
                n
            } else {
                asked_for
            }
        },
        None => asked_for,
    }
}

} // verus!
