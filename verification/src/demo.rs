//! Synthetic inference servers + GPUs so the dashboard runs without hardware.
//! `--demo-models N` starts N of them on one set of synthetic cards, which is
//! how the multi-model panels are exercised without a rack.
//!
//! Shares and rates are in millionths.
use crate::float::Single;
use crate::generator;
use crate::gguf::{GgufInfo, TensorSummary};
use crate::host::HostSample;
use crate::micro;
use crate::model_detect::DetectedModel;
use crate::observe::{ExpertLayer, ExpertStats, LiveStats, SpecMetrics};
use crate::text;
use std::collections::VecDeque;
use vstd::prelude::*;

verus! {

/// How one synthetic server behaves: its shape on paper and its speed.
#[derive(Clone, Debug)]
pub struct DemoProfile {
    pub name: String,
    pub file: String,
    pub arch: String,
    pub n_layers: usize,
    pub n_heads: usize,
    pub n_kv_heads: usize,
    pub n_experts: usize,
    pub n_experts_used: usize,
    pub n_mtp: usize,
    pub n_embd: usize,
    pub file_bytes: u64,
    pub expert_bytes: u64,
    pub embd_bytes: u64,
    pub mem_used_mb: u64,
    pub gpus: Vec<u32>,
    pub tensor_split: Vec<Single>,
    /// Decode tokens/s and prefill tokens/s the profile settles around.
    pub decode_tps: u64,
    pub prefill_tps: u64,
    /// The part of the context that the server offers, in percent.
    pub ctx_percent: u64,
}

/// A profile, as mathematical values.
pub struct Profile {
    pub name: Seq<char>,
    pub file: Seq<char>,
    pub arch: Seq<char>,
    pub n_layers: usize,
    pub n_heads: usize,
    pub n_kv_heads: usize,
    pub n_experts: usize,
    pub n_experts_used: usize,
    pub n_mtp: usize,
    pub n_embd: usize,
    pub file_bytes: u64,
    pub expert_bytes: u64,
    pub embd_bytes: u64,
    pub mem_used_mb: u64,
    pub gpus: Seq<u32>,
    pub tensor_split: Seq<Single>,
    pub decode_tps: u64,
    pub prefill_tps: u64,
    pub ctx_percent: u64,
}

impl View for DemoProfile {
    type V = Profile;

    open spec fn view(&self) -> Profile {
        Profile {
            name: self.name@,
            file: self.file@,
            arch: self.arch@,
            n_layers: self.n_layers,
            n_heads: self.n_heads,
            n_kv_heads: self.n_kv_heads,
            n_experts: self.n_experts,
            n_experts_used: self.n_experts_used,
            n_mtp: self.n_mtp,
            n_embd: self.n_embd,
            file_bytes: self.file_bytes,
            expert_bytes: self.expert_bytes,
            embd_bytes: self.embd_bytes,
            mem_used_mb: self.mem_used_mb,
            gpus: self.gpus@,
            tensor_split: self.tensor_split@,
            decode_tps: self.decode_tps,
            prefill_tps: self.prefill_tps,
            ctx_percent: self.ctx_percent,
        }
    }
}

/// How many profiles there are.
pub const PROFILES: usize = 4;

/// The profile of the synthetic server number `idx`; they come in turn.
pub open spec fn profile_of(idx: usize) -> Profile {
    let i = idx % PROFILES;
    if i == 0 {
        Profile {
            name: "Qwen3-Demo-35B-A3B"@,
            file: "/models/qwen3-demo-35b-a3b-Q4_K_M.gguf"@,
            arch: "qwen3moe"@,
            n_layers: 41,
            n_heads: 16,
            n_kv_heads: 4,
            n_experts: 256,
            n_experts_used: 8,
            n_mtp: 1,
            n_embd: 2048,
            file_bytes: 19_800_000_000,
            expert_bytes: 17_100_000_000,
            embd_bytes: 540_000_000,
            mem_used_mb: 18_900,
            gpus: seq![0u32, 1],
            tensor_split: seq![Single { bits: 0x427c_0000 }, Single { bits: 0x4214_0000 }],
            decode_tps: 48,
            prefill_tps: 1150,
            ctx_percent: 100,
        }
    } else if i == 1 {
        Profile {
            name: "Llama-Demo-8B-Instruct"@,
            file: "/models/llama-demo-8b-instruct-Q5_K_M.gguf"@,
            arch: "llama"@,
            n_layers: 32,
            n_heads: 32,
            n_kv_heads: 8,
            n_experts: 0,
            n_experts_used: 0,
            n_mtp: 0,
            n_embd: 4096,
            file_bytes: 5_700_000_000,
            expert_bytes: 0,
            embd_bytes: 420_000_000,
            mem_used_mb: 6_400,
            gpus: seq![0u32],
            tensor_split: Seq::empty(),
            decode_tps: 92,
            prefill_tps: 2600,
            ctx_percent: 25,
        }
    } else if i == 2 {
        Profile {
            name: "Gemma-Demo-2B"@,
            file: "/models/gemma-demo-2b-Q4_K_S.gguf"@,
            arch: "gemma2"@,
            n_layers: 26,
            n_heads: 8,
            n_kv_heads: 4,
            n_experts: 0,
            n_experts_used: 0,
            n_mtp: 0,
            n_embd: 2304,
            file_bytes: 1_600_000_000,
            expert_bytes: 0,
            embd_bytes: 230_000_000,
            mem_used_mb: 2_100,
            gpus: seq![1u32],
            tensor_split: Seq::empty(),
            decode_tps: 165,
            prefill_tps: 5200,
            ctx_percent: 12,
        }
    } else {
        Profile {
            name: "Mixtral-Demo-8x7B"@,
            file: "/models/mixtral-demo-8x7b-Q3_K_M.gguf"@,
            arch: "llama"@,
            n_layers: 32,
            n_heads: 32,
            n_kv_heads: 8,
            n_experts: 8,
            n_experts_used: 2,
            n_mtp: 0,
            n_embd: 4096,
            file_bytes: 22_500_000_000,
            expert_bytes: 19_400_000_000,
            embd_bytes: 300_000_000,
            mem_used_mb: 21_800,
            gpus: seq![0u32, 1],
            tensor_split: seq![Single { bits: 0x4248_0000 }, Single { bits: 0x4248_0000 }],
            decode_tps: 31,
            prefill_tps: 780,
            ctx_percent: 50,
        }
    }
}

/// The profile of the synthetic server number `idx`.
pub fn profile(idx: usize) -> (r: DemoProfile)
    ensures
        r@ == profile_of(idx),
{
    let i: usize = idx % PROFILES;
    let p = if i == 0 {
        DemoProfile {
            name: "Qwen3-Demo-35B-A3B".to_owned(),
            file: "/models/qwen3-demo-35b-a3b-Q4_K_M.gguf".to_owned(),
            arch: "qwen3moe".to_owned(),
            n_layers: 41,
            n_heads: 16,
            n_kv_heads: 4,
            n_experts: 256,
            n_experts_used: 8,
            n_mtp: 1,
            n_embd: 2048,
            file_bytes: 19_800_000_000,
            expert_bytes: 17_100_000_000,
            embd_bytes: 540_000_000,
            mem_used_mb: 18_900,
            gpus: vec![0, 1],
            tensor_split: vec![Single { bits: 0x427c_0000 }, Single { bits: 0x4214_0000 }],
            decode_tps: 48,
            prefill_tps: 1150,
            ctx_percent: 100,
        }
    } else if i == 1 {
        DemoProfile {
            name: "Llama-Demo-8B-Instruct".to_owned(),
            file: "/models/llama-demo-8b-instruct-Q5_K_M.gguf".to_owned(),
            arch: "llama".to_owned(),
            n_layers: 32,
            n_heads: 32,
            n_kv_heads: 8,
            n_experts: 0,
            n_experts_used: 0,
            n_mtp: 0,
            n_embd: 4096,
            file_bytes: 5_700_000_000,
            expert_bytes: 0,
            embd_bytes: 420_000_000,
            mem_used_mb: 6_400,
            gpus: vec![0],
            tensor_split: Vec::new(),
            decode_tps: 92,
            prefill_tps: 2600,
            ctx_percent: 25,
        }
    } else if i == 2 {
        DemoProfile {
            name: "Gemma-Demo-2B".to_owned(),
            file: "/models/gemma-demo-2b-Q4_K_S.gguf".to_owned(),
            arch: "gemma2".to_owned(),
            n_layers: 26,
            n_heads: 8,
            n_kv_heads: 4,
            n_experts: 0,
            n_experts_used: 0,
            n_mtp: 0,
            n_embd: 2304,
            file_bytes: 1_600_000_000,
            expert_bytes: 0,
            embd_bytes: 230_000_000,
            mem_used_mb: 2_100,
            gpus: vec![1],
            tensor_split: Vec::new(),
            decode_tps: 165,
            prefill_tps: 5200,
            ctx_percent: 12,
        }
    } else {
        DemoProfile {
            name: "Mixtral-Demo-8x7B".to_owned(),
            file: "/models/mixtral-demo-8x7b-Q3_K_M.gguf".to_owned(),
            arch: "llama".to_owned(),
            n_layers: 32,
            n_heads: 32,
            n_kv_heads: 8,
            n_experts: 8,
            n_experts_used: 2,
            n_mtp: 0,
            n_embd: 4096,
            file_bytes: 22_500_000_000,
            expert_bytes: 19_400_000_000,
            embd_bytes: 300_000_000,
            mem_used_mb: 21_800,
            gpus: vec![0, 1],
            tensor_split: vec![Single { bits: 0x4248_0000 }, Single { bits: 0x4248_0000 }],
            decode_tps: 31,
            prefill_tps: 780,
            ctx_percent: 50,
        }
    };
    proof {
        let want = profile_of(idx);
        assert(p.gpus@ =~= want.gpus);
        assert(p.tensor_split@ =~= want.tensor_split);
    }
    p
}

/// The context that a synthetic server offers.
pub open spec fn demo_context(ctx_max: usize, percent: u64) -> usize {
    let c = ctx_max * percent / 100;
    if c > 4096 {
        c as usize
    } else {
        4096
    }
}

/// A synthetic server's name. Repeats past the profile list get their own name so
/// the list stays legible.
pub open spec fn demo_name(idx: usize) -> Seq<char> {
    let p = profile_of(idx);
    if idx >= PROFILES {
        p.name + "#"@ + text::decimal((idx / PROFILES + 1) as nat)
    } else {
        p.name
    }
}

/// One more than the highest number of a synthetic server: its port is `8080`
/// and its number.
pub const MAX_DEMO: usize = 57_456;

/// A model is the synthetic server number `idx`.
pub open spec fn is_demo(m: DetectedModel, ctx_max: usize, idx: usize) -> bool {
    let p = profile_of(idx);
    let ctx = demo_context(ctx_max, p.ctx_percent);
    &&& m.name@ == demo_name(idx)
    &&& m.path matches Some(f) && f@ == p.file
    &&& m.pid == 4242 + idx
    &&& m.process_name@ == "llama-server"@
    &&& m.engine@ == "llama.cpp"@
    &&& m.gpu_indices@ == p.gpus
    &&& m.mem_used_mb == p.mem_used_mb
    &&& m.port == Some((8080 + idx) as u16)
    &&& m.ctx_max == Some(ctx)
    &&& (p.n_mtp > 0 ==> (m.spec_type matches Some(s) && s@ == "draft-mtp"@))
    &&& (p.n_mtp == 0 ==> m.spec_type is None)
    &&& m.n_gpu_layers == Some(99u32)
    &&& m.tensor_split@ == p.tensor_split
    &&& m.cmdline@ == "llama-server --demo --port "@ + text::decimal((8080 + idx) as nat)
    &&& m.hf is None
    &&& m.gguf matches Some(g) && {
        &&& g.name@ == p.name.map_values(
            |c: char| if c == '-' {
                ' '
            } else {
                c
            },
        )
        &&& g.architecture@ == p.arch
        &&& g.n_layers == p.n_layers
        &&& g.n_heads == p.n_heads
        &&& g.n_kv_heads == p.n_kv_heads
        &&& g.n_experts == p.n_experts
        &&& g.n_experts_used == p.n_experts_used
        &&& g.ctx_train == ctx
        &&& g.n_embd == p.n_embd
        &&& g.n_mtp == p.n_mtp
    }
    &&& m.tensors matches Some(t) && {
        &&& t.total_bytes == p.file_bytes
        &&& t.expert_bytes == p.expert_bytes
        &&& t.embd_bytes == p.embd_bytes
        &&& t.block_bytes@ == Seq::new(
            p.n_layers as nat,
            |i: int| (p.file_bytes as int / p.n_layers as int) as u64,
        )
        &&& t.n_tensors == 753
    }
}

/// The characters with every dash replaced by a space.
fn spaced(s: &[char]) -> (r: Vec<char>)
    ensures
        r@ == s@.map_values(
            |c: char| if c == '-' {
                ' '
            } else {
                c
            },
        ),
{
    let mut out: Vec<char> = Vec::new();
    let mut i: usize = 0;
    while i < s.len()
        invariant
            i <= s.len(),
            out@.len() == i,
            forall|j: int|
                0 <= j < i ==> out@[j] == (if s@[j] == '-' {
                    ' '
                } else {
                    s@[j]
                }),
        decreases s.len() - i,
    {
        let c = s[i];
        out.push(if c == '-' {
            ' '
        } else {
            c
        });
        i += 1;
    }
    assert(out@ =~= s@.map_values(
        |c: char| if c == '-' {
            ' '
        } else {
            c
        },
    ));
    out
}

fn demo_model_n(ctx_max: usize, idx: usize) -> (r: DetectedModel)
    requires
        idx < MAX_DEMO,
    ensures
        is_demo(r, ctx_max, idx),
{
    let p = profile(idx);
    let part: u128 = (ctx_max as u128) * (p.ctx_percent as u128) / 100;
    let ctx: usize = if part > 4096 {
        part as usize
    } else {
        4096
    };
    let mut name = text::chars_of(p.name.as_str());
    if idx >= PROFILES {
        text::add_str(&mut name, "#");
        text::add_number(&mut name, (idx / PROFILES + 1) as u64);
    }
    assert(name@ =~= demo_name(idx));
    let mut cmdline = text::chars_of("llama-server --demo --port ");
    text::add_number(&mut cmdline, (8080 + idx) as u64);
    let each: u64 = p.file_bytes / p.n_layers as u64;
    let mut block_bytes: Vec<u64> = Vec::new();
    let mut i: usize = 0;
    while i < p.n_layers
        invariant
            i <= p.n_layers,
            block_bytes@.len() == i,
            forall|j: int| 0 <= j < i ==> block_bytes@[j] == each,
        decreases p.n_layers - i,
    {
        block_bytes.push(each);
        i += 1;
    }
    assert(block_bytes@ =~= Seq::new(
        p.n_layers as nat,
        |i: int| (p.file_bytes as int / p.n_layers as int) as u64,
    ));
    DetectedModel {
        name: text::string_of(&name),
        path: Some(p.file),
        pid: 4242 + idx as u32,
        process_name: "llama-server".to_owned(),
        engine: "llama.cpp".to_owned(),
        gpu_indices: p.gpus,
        mem_used_mb: p.mem_used_mb,
        port: Some(8080 + idx as u16),
        ctx_max: Some(ctx),
        spec_type: if p.n_mtp > 0 {
            Some("draft-mtp".to_owned())
        } else {
            None
        },
        n_gpu_layers: Some(99),
        tensor_split: p.tensor_split,
        cmdline: text::string_of(&cmdline),
        gguf: Some(
            GgufInfo {
                name: text::string_of(&spaced(&text::chars_of(p.name.as_str()))),
                architecture: p.arch,
                n_layers: p.n_layers,
                n_heads: p.n_heads,
                n_kv_heads: p.n_kv_heads,
                n_experts: p.n_experts,
                n_experts_used: p.n_experts_used,
                ctx_train: ctx,
                n_embd: p.n_embd,
                n_mtp: p.n_mtp,
            },
        ),
        hf: None,
        // Shaped like a real file of that class: for an MoE most bytes are experts.
        tensors: Some(
            TensorSummary {
                total_bytes: p.file_bytes,
                expert_bytes: p.expert_bytes,
                embd_bytes: p.embd_bytes,
                block_bytes,
                n_tensors: 753,
            },
        ),
    }
}

/// The first synthetic server.
pub fn demo_model(ctx_max: usize) -> (r: DetectedModel)
    ensures
        is_demo(r, ctx_max, 0),
{
    demo_model_n(ctx_max, 0)
}

/// The synthetic servers for `--demo-models n`, cycling the profiles if asked
/// for more than there are.
pub fn demo_models(ctx_max: usize, n: usize) -> (r: Vec<DetectedModel>)
    requires
        n <= MAX_DEMO,
    ensures
        r@.len() == (if n > 1 {
            n as int
        } else {
            1
        }),
        forall|i: int| 0 <= i < r@.len() ==> is_demo(#[trigger] r@[i], ctx_max, i as usize),
{
    let count: usize = if n > 1 {
        n
    } else {
        1
    };
    let mut out: Vec<DetectedModel> = Vec::new();
    let mut i: usize = 0;
    while i < count
        invariant
            i <= count <= MAX_DEMO,
            out@.len() == i,
            forall|j: int| 0 <= j < i ==> is_demo(#[trigger] out@[j], ctx_max, j as usize),
        decreases count - i,
    {
        out.push(demo_model_n(ctx_max, i));
        i += 1;
    }
    out
}

/// Every synthetic server has a name of its own.
pub proof fn demo_names_differ(i: usize, j: usize)
    requires
        i != j,
    ensures
        demo_name(i) != demo_name(j),
{
    reveal_strlit("Qwen3-Demo-35B-A3B");
    reveal_strlit("Llama-Demo-8B-Instruct");
    reveal_strlit("Gemma-Demo-2B");
    reveal_strlit("Mixtral-Demo-8x7B");
    reveal_strlit("#");
    let p = profile_of(i).name;
    let q = profile_of(j).name;
    assert(demo_name(i)[0] == p[0]);
    assert(demo_name(j)[0] == q[0]);
    if i % PROFILES == j % PROFILES && demo_name(i) == demo_name(j) {
        assert(p == q);
        if i >= PROFILES && j >= PROFILES {
            let a = text::decimal((i / PROFILES + 1) as nat);
            let b = text::decimal((j / PROFILES + 1) as nat);
            let n = p.len() as int + 1;
            assert(demo_name(i).skip(n) =~= a);
            assert(demo_name(j).skip(n) =~= b);
            text::lemma_decimal_reads_back((i / PROFILES + 1) as nat);
            text::lemma_decimal_reads_back((j / PROFILES + 1) as nat);
        } else if i >= PROFILES {
            assert(demo_name(i).len() > p.len());
        } else if j >= PROFILES {
            assert(demo_name(j).len() > q.len());
        }
    }
}

/// A chance of 35 % as a draw is compared with it, in parts of 2^32.
pub const FAVOURED: u64 = 1_503_238_528;

/// The expert of one draw: with a chance of 35 % one of a layer's favourite band
/// of 24, else any.
pub open spec fn expert_drawn(il: usize, n_expert: usize, place: u64, choice: u64) -> usize {
    if generator::is_below(choice, FAVOURED) {
        (((il as u64).wrapping_mul(37) as int % n_expert as int + generator::part_of(place, 24))
            % n_expert as int) as usize
    } else {
        (generator::part_of(place, n_expert as u64) as int % n_expert as int) as usize
    }
}

/// The ids with one more, unless it is there.
pub open spec fn with_id(ids: Seq<i32>, e: i32) -> Seq<i32> {
    if ids.contains(e) {
        ids
    } else {
        ids.push(e)
    }
}

/// Different experts, all of them among `n_expert`.
pub open spec fn valid_ids(ids: Seq<i32>, n_expert: usize) -> bool {
    &&& forall|i: int, j: int| 0 <= i < j < ids.len() ==> ids[i] != ids[j]
    &&& forall|i: int| 0 <= i < ids.len() ==> 0 <= #[trigger] ids[i] < n_expert
}

/// The expert of the next two draws.
pub open spec fn next_expert(seed: u64, il: usize, n_expert: usize) -> i32 {
    let s1 = generator::next_seed(seed);
    let s2 = generator::next_seed(s1);
    expert_drawn(il, n_expert, generator::drawn(s1), generator::drawn(s2)) as i32
}

/// After `m` pairs of draws an expert comes up that is not among the ids.
pub open spec fn new_after(ids: Seq<i32>, seed: u64, il: usize, n_expert: usize, m: nat) -> bool {
    !ids.contains(next_expert(generator::after_pairs(seed, m), il, n_expert))
}

pub open spec fn first_new_after(
    ids: Seq<i32>,
    seed: u64,
    il: usize,
    n_expert: usize,
    m: nat,
) -> bool {
    &&& new_after(ids, seed, il, n_expert, m)
    &&& forall|j: nat| j < m ==> !#[trigger] new_after(ids, seed, il, n_expert, j)
}

/// How many pairs of draws bring up nothing but experts that are among the ids.
pub open spec fn draws_in_vain(ids: Seq<i32>, seed: u64, il: usize, n_expert: usize) -> nat {
    choose|m: nat| first_new_after(ids, seed, il, n_expert, m)
}

/// Some draw stands for an expert.
pub open spec fn comes_up(n_expert: usize, e: i32) -> bool {
    exists|place: u64|
        place < 0x1_0000_0000 && #[trigger] generator::part_of(place, n_expert as u64) as int
            % n_expert as int == e
}

/// `k` different experts come up.
pub open spec fn enough_come_up(n_expert: usize, k: usize) -> bool {
    exists|ids: Seq<i32>| #[trigger]
        valid_ids(ids, n_expert) && ids.len() >= k && forall|i: int|
            0 <= i < ids.len() ==> comes_up(n_expert, #[trigger] ids[i])
}

/// There are `k` experts to choose. Of up to four million every one comes up; beyond
/// that the draws are too coarse for some.
pub open spec fn can_route(n_expert: usize, k: usize) -> bool {
    k <= n_expert <= 0x7fff_ffff && (n_expert <= 0x40_0000 || enough_come_up(n_expert, k))
}

/// There are enough experts to choose `k` different ones, some of them chosen
/// already.
pub open spec fn can_choose(ids: Seq<i32>, n_expert: usize, k: usize) -> bool {
    valid_ids(ids, n_expert) && can_route(n_expert, k)
}

/// The experts of a routing, and the generator after it: draws are added until
/// there are `k`.
pub open spec fn routed_ids(
    ids: Seq<i32>,
    seed: u64,
    il: usize,
    n_expert: usize,
    k: usize,
) -> (Seq<i32>, u64)
    decreases k - ids.len(), draws_in_vain(ids, seed, il, n_expert),
    when can_choose(ids, n_expert, k)
{
    if ids.len() >= k {
        (ids, seed)
    } else {
        proof {
            draws_go_on(ids, seed, il, n_expert, k);
        }
        let s1 = generator::next_seed(seed);
        let s2 = generator::next_seed(s1);
        routed_ids(with_id(ids, next_expert(seed, il, n_expert)), s2, il, n_expert, k)
    }
}

fn holds_id(ids: &Vec<i32>, e: i32) -> (r: bool)
    ensures
        r == ids@.contains(e),
{
    let mut i: usize = 0;
    while i < ids.len()
        invariant
            i <= ids.len(),
            forall|j: int| 0 <= j < i ==> ids@[j] != e,
        decreases ids.len() - i,
    {
        if ids[i] == e {
            assert(ids@[i as int] == e);
            return true;
        }
        i += 1;
    }
    false
}

/// Where every expert from `0` to `e` is among different ids, there are `e` of
/// them.
proof fn lemma_enough(ids: Seq<i32>, e: int, n_expert: usize)
    requires
        valid_ids(ids, n_expert),
        0 <= e <= n_expert <= i32::MAX,
        forall|x: i32| 0 <= x < e ==> ids.contains(x),
    ensures
        ids.len() >= e,
{
    let range = Set::<i32>::new(|x: i32| 0 <= x < e);
    let have = ids.to_set();
    assert(range.subset_of(have));
    vstd::seq_lib::seq_to_set_is_finite::<i32>(ids);
    lemma_range_len(e);
    vstd::set_lib::lemma_len_subset(range, have);
    ids.lemma_cardinality_of_set();
}

proof fn lemma_range_len(e: int)
    requires
        0 <= e <= i32::MAX,
    ensures
        Set::<i32>::new(|x: i32| 0 <= x < e).finite(),
        Set::<i32>::new(|x: i32| 0 <= x < e).len() == e,
    decreases e,
{
    let s = Set::<i32>::new(|x: i32| 0 <= x < e);
    if e == 0 {
        assert(s =~= Set::<i32>::empty());
    } else {
        lemma_range_len(e - 1);
        let smaller = Set::<i32>::new(|x: i32| 0 <= x < e - 1);
        assert(s =~= smaller.insert((e - 1) as i32));
    }
}

proof fn lemma_expert_in_range(seed: u64, il: usize, n_expert: usize)
    requires
        0 < n_expert <= 0x7fff_ffff,
    ensures
        0 <= next_expert(seed, il, n_expert) < n_expert,
{
    let place = generator::drawn(generator::next_seed(seed));
    let far = generator::part_of(place, n_expert as u64) as int;
    let near = (il as u64).wrapping_mul(37) as int % n_expert as int + generator::part_of(
        place,
        24,
    );
    vstd::arithmetic::div_mod::lemma_mod_pos_bound(far, n_expert as int);
    vstd::arithmetic::div_mod::lemma_mod_pos_bound(
        (il as u64).wrapping_mul(37) as int,
        n_expert as int,
    );
    vstd::arithmetic::div_mod::lemma_mod_pos_bound(near, n_expert as int);
}

proof fn lemma_pairs_shift(seed: u64, m: nat)
    ensures
        generator::after_pairs(generator::next_seed(seed), m) == generator::next_seed(
            generator::after_pairs(seed, m),
        ),
    decreases m,
{
    if m > 0 {
        lemma_pairs_shift(seed, (m - 1) as nat);
    }
}

/// Of two states four apart, the draw after one of them lies beyond the first 35 %.
proof fn lemma_one_unfavoured(low: u64)
    requires
        low <= u64::MAX - 4,
        generator::is_below(generator::drawn(generator::next_seed(low)), FAVOURED),
    ensures
        !generator::is_below(generator::drawn(generator::next_seed((low + 4) as u64)), FAVOURED),
{
    let a = generator::next_seed(low);
    let b = generator::next_seed((low + 4) as u64);
    generator::four_states_on(low);
    let x = generator::drawn(a);
    let y = generator::drawn(b);
    generator::rounding_is_small(x as nat);
    generator::rounding_is_small(y as nat);
    assert(x / 0x100_0000 <= 255 && y / 0x100_0000 <= 255);
    assert(x <= FAVOURED + 255);
    assert(a < (FAVOURED + 256) * 0x1_0000_0000);
    assert(b == a + 7009800821677620404);
    assert(y >= 1_632_000_000);
}

/// A state of either parity that shows some bits, and after which a draw lies beyond
/// the first 35 %.
proof fn lemma_unfavoured(place: u64, parity: u64) -> (target: u64)
    requires
        place < 0x1_0000_0000,
        parity < 2,
    ensures
        generator::drawn(target) == place,
        target % 2 == parity,
        !generator::is_below(generator::drawn(generator::next_seed(target)), FAVOURED),
{
    let low = (place * 0x1_0000_0000 + parity) as u64;
    let high = (low + 4) as u64;
    assert(low / 0x1_0000_0000 == place && high / 0x1_0000_0000 == place);
    assert(low % 2 == parity && high % 2 == parity);
    if generator::is_below(generator::drawn(generator::next_seed(low)), FAVOURED) {
        lemma_one_unfavoured(low);
        high
    } else {
        low
    }
}

/// From any state of the generator every expert of a layer that some draw stands for
/// comes up, sooner or later.
pub proof fn every_expert_comes_up(seed: u64, il: usize, n_expert: usize, e: i32) -> (m: nat)
    requires
        0 < n_expert <= 0x7fff_ffff,
        comes_up(n_expert, e),
    ensures
        next_expert(generator::after_pairs(seed, m), il, n_expert) == e,
{
    let start = generator::next_seed(seed);
    let place = choose|place: u64|
        place < 0x1_0000_0000 && #[trigger] generator::part_of(place, n_expert as u64) as int
            % n_expert as int == e;
    let target = lemma_unfavoured(place, start % 2);
    let m = generator::pairs_reach_every_second_state(start, target);
    lemma_pairs_shift(seed, m);
    let far = generator::part_of(place, n_expert as u64) as int % n_expert as int;
    let choice = generator::drawn(generator::next_seed(target));
    assert(expert_drawn(il, n_expert, place, choice) == far as usize);
    m
}

/// Of up to four million experts every one comes up.
pub proof fn all_experts_come_up(n_expert: usize, e: i32)
    requires
        n_expert <= 0x40_0000,
        0 <= e < n_expert,
    ensures
        comes_up(n_expert, e),
{
    let place = generator::every_part_is_drawn(e as nat, n_expert as nat);
    vstd::arithmetic::div_mod::lemma_small_mod(e as nat, n_expert as nat);
    assert(generator::part_of(place, n_expert as u64) as int % n_expert as int == e);
}

/// Fewer ids than experts that come up leave one of those out.
proof fn lemma_one_left(ids: Seq<i32>, n_expert: usize, k: usize) -> (e: i32)
    requires
        can_choose(ids, n_expert, k),
        ids.len() < k,
    ensures
        comes_up(n_expert, e),
        !ids.contains(e),
{
    if n_expert <= 0x40_0000 {
        if forall|x: i32| 0 <= x < n_expert ==> ids.contains(x) {
            lemma_enough(ids, n_expert as int, n_expert);
        }
        let e = choose|x: i32| 0 <= x < n_expert && !ids.contains(x);
        all_experts_come_up(n_expert, e);
        e
    } else {
        let up = choose|up: Seq<i32>| #[trigger]
            valid_ids(up, n_expert) && up.len() >= k && forall|i: int|
                0 <= i < up.len() ==> comes_up(n_expert, #[trigger] up[i]);
        if forall|i: int| 0 <= i < up.len() ==> ids.contains(#[trigger] up[i]) {
            let have = ids.to_set();
            let want = up.to_set();
            assert(want.subset_of(have)) by {
                assert forall|x: i32| want.contains(x) implies have.contains(x) by {
                    assert(up.contains(x));
                }
            }
            vstd::seq_lib::seq_to_set_is_finite::<i32>(ids);
            vstd::set_lib::lemma_len_subset(want, have);
            ids.lemma_cardinality_of_set();
            assert(up.no_duplicates());
            up.unique_seq_to_set();
        }
        let i = choose|i: int| 0 <= i < up.len() && !ids.contains(#[trigger] up[i]);
        up[i]
    }
}

proof fn lemma_first_new(ids: Seq<i32>, seed: u64, il: usize, n_expert: usize, m: nat)
    requires
        new_after(ids, seed, il, n_expert, m),
    ensures
        first_new_after(ids, seed, il, n_expert, draws_in_vain(ids, seed, il, n_expert)),
    decreases m,
{
    if first_new_after(ids, seed, il, n_expert, m) {
    } else {
        let j = choose|j: nat| j < m && #[trigger] new_after(ids, seed, il, n_expert, j);
        lemma_first_new(ids, seed, il, n_expert, j);
    }
}

proof fn lemma_new_comes_up(ids: Seq<i32>, seed: u64, il: usize, n_expert: usize, k: usize)
    requires
        can_choose(ids, n_expert, k),
        ids.len() < k,
    ensures
        first_new_after(ids, seed, il, n_expert, draws_in_vain(ids, seed, il, n_expert)),
{
    let e = lemma_one_left(ids, n_expert, k);
    let m = every_expert_comes_up(seed, il, n_expert, e);
    assert(new_after(ids, seed, il, n_expert, m));
    lemma_first_new(ids, seed, il, n_expert, m);
}

proof fn lemma_pairs_from_the_front(seed: u64, m: nat)
    ensures
        generator::after_pairs(seed, m + 1) == generator::after_pairs(
            generator::next_seed(generator::next_seed(seed)),
            m,
        ),
    decreases m,
{
    reveal_with_fuel(generator::after_pairs, 2);
    if m > 0 {
        lemma_pairs_from_the_front(seed, (m - 1) as nat);
        assert((m - 1) as nat + 1 == m);
    }
}

/// Two more draws bring a new expert, or the next new one closer.
pub proof fn draws_go_on(ids: Seq<i32>, seed: u64, il: usize, n_expert: usize, k: usize)
    requires
        can_choose(ids, n_expert, k),
        ids.len() < k,
    ensures
        ({
            let s2 = generator::next_seed(generator::next_seed(seed));
            let next = with_id(ids, next_expert(seed, il, n_expert));
            &&& can_choose(next, n_expert, k)
            &&& next.len() <= k
            &&& next.len() > ids.len() || (next == ids && draws_in_vain(ids, s2, il, n_expert)
                < draws_in_vain(ids, seed, il, n_expert))
        }),
{
    let s2 = generator::next_seed(generator::next_seed(seed));
    let e = next_expert(seed, il, n_expert);
    lemma_expert_in_range(seed, il, n_expert);
    if ids.contains(e) {
        lemma_new_comes_up(ids, seed, il, n_expert, k);
        lemma_new_comes_up(ids, s2, il, n_expert, k);
        let here = draws_in_vain(ids, seed, il, n_expert);
        let there = draws_in_vain(ids, s2, il, n_expert);
        assert(generator::after_pairs(seed, 0) == seed);
        assert(!new_after(ids, seed, il, n_expert, 0));
        assert(here > 0);
        let closer = (here - 1) as nat;
        lemma_pairs_from_the_front(seed, closer);
        assert(closer + 1 == here);
        assert(new_after(ids, s2, il, n_expert, closer));
        assert(there <= closer);
    } else {
        let next = ids.push(e);
        assert forall|i: int, j: int| 0 <= i < j < next.len() implies next[i] != next[j] by {
            if j == ids.len() && next[i] == e {
                assert(ids[i] == e);
            }
        }
    }
}

/// Chooses the experts of one token in one layer.
fn choose_experts(seed: &mut u64, il: usize, n_expert: usize, k: usize) -> (r: Vec<i32>)
    requires
        can_route(n_expert, k),
    ensures
        (r@, *final(seed)) == routed_ids(Seq::empty(), *old(seed), il, n_expert, k),
        valid_ids(r@, n_expert),
        r@.len() == k,
{
    let ghost goal = routed_ids(Seq::empty(), *seed, il, n_expert, k);
    let mut ids: Vec<i32> = Vec::new();
    assert(ids@ =~= Seq::<i32>::empty());
    while ids.len() < k
        invariant
            can_route(n_expert, k),
            ids@.len() <= k,
            valid_ids(ids@, n_expert),
            routed_ids(ids@, *seed, il, n_expert, k) == goal,
        decreases k - ids.len(), draws_in_vain(ids@, *seed, il, n_expert),
    {
        let ghost start = *seed;
        let ghost before = ids@;
        proof {
            draws_go_on(before, start, il, n_expert, k);
            lemma_expert_in_range(start, il, n_expert);
        }
        // Skewed draw: a third of picks land in a per-layer "favourite" band.
        let place = generator::draw(seed);
        let choice = generator::draw(seed);
        let e: u64 = if generator::below(choice, FAVOURED) {
            let near: u64 = generator::part(place, 24);
            ((il as u64).wrapping_mul(37) % n_expert as u64 + near) % n_expert as u64
        } else {
            generator::part(place, n_expert as u64) % n_expert as u64
        };
        let e: i32 = e as i32;
        assert(e == next_expert(start, il, n_expert));
        if !holds_id(&ids, e) {
            ids.push(e);
        }
        assert(ids@ == with_id(before, e));
    }
    ids
}

/// How many of some routings chose an expert.
pub open spec fn times_chosen(ring: Seq<Seq<i32>>, e: i32) -> nat
    decreases ring.len(),
{
    if ring.len() == 0 {
        0
    } else {
        times_chosen(ring.drop_last(), e) + if ring.last().contains(e) {
            1nat
        } else {
            0
        }
    }
}

pub open spec fn ring_view(ring: Seq<Vec<i32>>) -> Seq<Seq<i32>> {
    Seq::new(ring.len(), |i: int| ring[i]@)
}

/// The last `n` items of a list.
pub open spec fn newest(list: Seq<Seq<i32>>, n: nat) -> Seq<Seq<i32>> {
    if list.len() > n {
        list.skip(list.len() - n)
    } else {
        list
    }
}

/// The window of a layer's statistics, in tokens.
pub const WINDOW: usize = 256;

/// How many of a layer's latest routings are told.
pub const TOLD: usize = 16;

/// A layer counts, for each expert, how many of the routings in its window chose
/// it, and tells the latest of them.
pub open spec fn layer_counts(layer: ExpertLayer, ring: Seq<Seq<i32>>, n_expert: usize) -> bool {
    &&& layer.recent@.len() == n_expert
    &&& ring.len() <= WINDOW
    &&& ring_view(layer.tokens@) == newest(ring, TOLD as nat)
    &&& forall|i: int| 0 <= i < ring.len() ==> valid_ids(#[trigger] ring[i], n_expert)
    &&& forall|e: int|
        0 <= e < n_expert ==> #[trigger] layer.recent@[e] == times_chosen(ring, e as i32)
}

/// One more, or one less, for each of some experts.
fn count_ids(recent: &mut Vec<u32>, ids: &Vec<i32>, up: bool)
    requires
        valid_ids(ids@, old(recent)@.len() as usize),
        old(recent)@.len() <= 0x7fff_ffff,
        up ==> forall|e: int|
            0 <= e < old(recent)@.len() ==> #[trigger] old(recent)@[e] < u32::MAX,
        !up ==> forall|e: int|
            0 <= e < old(recent)@.len() && ids@.contains(e as i32) ==> #[trigger] old(recent)@[e]
                > 0,
    ensures
        final(recent)@.len() == old(recent)@.len(),
        forall|e: int|
            0 <= e < old(recent)@.len() ==> #[trigger] final(recent)@[e] == (if !ids@.contains(
                e as i32,
            ) {
                old(recent)@[e] as int
            } else if up {
                old(recent)@[e] + 1
            } else {
                old(recent)@[e] - 1
            }),
{
    let ghost start = recent@;
    let mut i: usize = 0;
    while i < ids.len()
        invariant
            i <= ids.len(),
            start == old(recent)@,
            start.len() <= 0x7fff_ffff,
            recent@.len() == start.len(),
            valid_ids(ids@, start.len() as usize),
            up ==> forall|e: int| 0 <= e < start.len() ==> #[trigger] start[e] < u32::MAX,
            !up ==> forall|e: int|
                0 <= e < start.len() && ids@.contains(e as i32) ==> #[trigger] start[e] > 0,
            forall|e: int|
                0 <= e < start.len() ==> #[trigger] recent@[e] == (if !ids@.take(
                    i as int,
                ).contains(e as i32) {
                    start[e] as int
                } else if up {
                    start[e] + 1
                } else {
                    start[e] - 1
                }),
        decreases ids.len() - i,
    {
        let ghost done = ids@.take(i as int);
        let ghost next = ids@.take(i + 1);
        let ghost before = recent@;
        let e: usize = ids[i] as usize;
        proof {
            assert(0 <= ids@[i as int] < start.len());
            assert(!done.contains(ids@[i as int])) by {
                if done.contains(ids@[i as int]) {
                    let j = choose|j: int| 0 <= j < done.len() && done[j] == ids@[i as int];
                    assert(ids@[j] == ids@[i as int]);
                }
            }
            assert(ids@.contains(ids@[i as int]));
            assert(before[e as int] == start[e as int]);
            assert(ids@.contains(e as i32));
        }
        let n: u32 = if up {
            recent[e] + 1
        } else {
            recent[e] - 1
        };
        recent.set(e, n);
        proof {
            assert(next =~= done.push(ids@[i as int]));
            assert forall|x: int| 0 <= x < start.len() implies #[trigger] recent@[x] == (
            if !next.contains(x as i32) {
                start[x] as int
            } else if up {
                start[x] + 1
            } else {
                start[x] - 1
            }) by {
                assert(before[x] == (if !done.contains(x as i32) {
                    start[x] as int
                } else if up {
                    start[x] + 1
                } else {
                    start[x] - 1
                }));
                if x == e {
                    assert(next[i as int] == x as i32);
                    assert(next.contains(x as i32));
                } else {
                    assert(next.contains(x as i32) == done.contains(x as i32)) by {
                        if next.contains(x as i32) {
                            let j = choose|j: int| 0 <= j < next.len() && next[j] == x as i32;
                            if j < i {
                                assert(done[j] == x as i32);
                            } else {
                                assert(ids@[i as int] == x as i32);
                            }
                        }
                        if done.contains(x as i32) {
                            let j = choose|j: int| 0 <= j < done.len() && done[j] == x as i32;
                            assert(next[j] == x as i32);
                        }
                    }
                }
            }
        }
        i += 1;
    }
    assert(ids@.take(ids@.len() as int) =~= ids@);
}

proof fn lemma_times_bounded(ring: Seq<Seq<i32>>, e: i32)
    ensures
        times_chosen(ring, e) <= ring.len(),
    decreases ring.len(),
{
    if ring.len() > 0 {
        lemma_times_bounded(ring.drop_last(), e);
    }
}

/// The count without the oldest routing.
proof fn lemma_times_without_first(ring: Seq<Seq<i32>>, e: i32)
    requires
        ring.len() > 0,
    ensures
        times_chosen(ring, e) == times_chosen(ring.drop_first(), e) + if ring[0].contains(e) {
            1nat
        } else {
            0
        },
    decreases ring.len(),
{
    if ring.len() > 1 {
        lemma_times_without_first(ring.drop_last(), e);
        assert(ring.drop_last().drop_first() =~= ring.drop_first().drop_last());
        assert(ring.drop_first().last() == ring.last());
    } else {
        assert(ring.drop_last() =~= Seq::<Seq<i32>>::empty());
        assert(ring.drop_first() =~= Seq::<Seq<i32>>::empty());
        assert(times_chosen(Seq::<Seq<i32>>::empty(), e) == 0);
    }
}

fn same_ids(ids: &Vec<i32>) -> (r: Vec<i32>)
    ensures
        r@ == ids@,
{
    let mut out: Vec<i32> = Vec::new();
    let mut i: usize = 0;
    while i < ids.len()
        invariant
            i <= ids.len(),
            out@ == ids@.take(i as int),
        decreases ids.len() - i,
    {
        out.push(ids[i]);
        assert(out@ =~= ids@.take(i + 1));
        i += 1;
    }
    assert(out@ =~= ids@);
    out
}

/// A list of the latest items with one more: the oldest one leaves where there
/// are more than `cap`.
pub open spec fn latest(list: Seq<Seq<i32>>, ids: Seq<i32>, cap: nat) -> Seq<Seq<i32>> {
    let all = list.push(ids);
    if all.len() > cap {
        all.drop_first()
    } else {
        all
    }
}

/// Notes a routing in a layer's statistics.
fn note_routing(layer: &mut ExpertLayer, ring: &mut VecDeque<Vec<i32>>, ids: &Vec<i32>)
    requires
        layer_counts(*old(layer), ring_view(old(ring)@), old(layer).recent@.len() as usize),
        valid_ids(ids@, old(layer).recent@.len() as usize),
        old(layer).recent@.len() <= 0x7fff_ffff,
    ensures
        ring_view(final(ring)@) == latest(ring_view(old(ring)@), ids@, WINDOW as nat),
        final(layer).recent@.len() == old(layer).recent@.len(),
        layer_counts(*final(layer), ring_view(final(ring)@), old(layer).recent@.len() as usize),
        final(layer).il == old(layer).il,
        final(layer).n_tokens == micro::capped(old(layer).n_tokens + 1),
{
    let ghost n = layer.recent@.len();
    let ghost r0 = ring_view(ring@);
    let ghost t0 = ring_view(layer.tokens@);
    proof {
        assert forall|e: int| 0 <= e < n implies #[trigger] layer.recent@[e] < u32::MAX by {
            lemma_times_bounded(r0, e as i32);
        }
    }
    count_ids(&mut layer.recent, ids, true);
    ring.push_back(same_ids(ids));
    let ghost r1 = ring_view(ring@);
    proof {
        assert(r1 =~= r0.push(ids@));
        assert(r1.drop_last() =~= r0);
        assert forall|e: int| 0 <= e < n implies #[trigger] layer.recent@[e] == times_chosen(
            r1,
            e as i32,
        ) by {}
        assert forall|i: int| 0 <= i < r1.len() implies valid_ids(
            #[trigger] r1[i],
            n as usize,
        ) by {
            if i < r0.len() {
                assert(r1[i] == r0[i]);
            }
        }
    }
    if ring.len() > WINDOW {
        match ring.pop_front() {
            Some(old_ids) => {
                let ghost r2 = ring_view(ring@);
                proof {
                    assert(r2 =~= r1.drop_first());
                    assert(r1[0] == old_ids@);
                    assert(valid_ids(r1[0], n as usize));
                    assert forall|e: int|
                        0 <= e < n && old_ids@.contains(e as i32) implies #[trigger] layer.recent@[e]
                        > 0 by {
                        lemma_times_without_first(r1, e as i32);
                    }
                }
                let ghost before = layer.recent@;
                count_ids(&mut layer.recent, &old_ids, false);
                proof {
                    assert forall|e: int| 0 <= e < n implies #[trigger] layer.recent@[e]
                        == times_chosen(r2, e as i32) by {
                        lemma_times_without_first(r1, e as i32);
                        assert(before[e] == times_chosen(r1, e as i32));
                    }
                    assert forall|i: int| 0 <= i < r2.len() implies valid_ids(
                        #[trigger] r2[i],
                        n as usize,
                    ) by {
                        assert(r2[i] == r1[i + 1]);
                    }
                }
            },
            None => {},
        }
    }
    layer.n_tokens = layer.n_tokens.saturating_add(1);
    layer.tokens.push(same_ids(ids));
    let ghost t1 = ring_view(layer.tokens@);
    assert(t1 =~= t0.push(ids@));
    if layer.tokens.len() > TOLD {
        let _ = layer.tokens.remove(0);
        assert(ring_view(layer.tokens@) =~= t1.drop_first());
    }
    assert(ring_view(layer.tokens@) =~= newest(ring_view(ring@), TOLD as nat));
}

/// Stand-in for the server's router: a skewed but stable preference per layer
/// (real MoEs are lopsided), refreshed one token at a time.
#[derive(Clone, Debug)]
pub struct DemoExperts {
    pub n_expert: usize,
    pub k: usize,
    pub stats: ExpertStats,
    pub ring: Vec<VecDeque<Vec<i32>>>,
}

/// The rings of all layers.
pub open spec fn rings_view(rings: Seq<VecDeque<Vec<i32>>>) -> Seq<Seq<Seq<i32>>> {
    Seq::new(rings.len(), |i: int| ring_view(rings[i]@))
}

/// The routings in each layer's window, and the generator, after one more token
/// has been routed through the first `n` layers.
pub open spec fn token_routed(
    rings: Seq<Seq<Seq<i32>>>,
    seed: u64,
    n_expert: usize,
    k: usize,
    n: int,
) -> (Seq<Seq<Seq<i32>>>, u64)
    decreases n,
{
    if n <= 0 {
        (rings, seed)
    } else {
        let (before, s) = token_routed(rings, seed, n_expert, k, n - 1);
        let (ids, t) = routed_ids(
            Seq::empty(),
            s,
            (n - 1) as usize,
            n_expert,
            k,
        );
        (before.update(n - 1, latest(before[n - 1], ids, WINDOW as nat)), t)
    }
}

/// The routings in each layer's window, and the generator, after `n` more tokens.
pub open spec fn tokens_routed(
    rings: Seq<Seq<Seq<i32>>>,
    seed: u64,
    n_expert: usize,
    k: usize,
    n: int,
) -> (Seq<Seq<Seq<i32>>>, u64)
    decreases n,
{
    if n <= 0 {
        (rings, seed)
    } else {
        let (before, s) = tokens_routed(rings, seed, n_expert, k, n - 1);
        token_routed(before, s, n_expert, k, rings.len() as int)
    }
}

/// How many of `n` tokens are in a window.
pub open spec fn in_window(n: u64) -> nat {
    if n < WINDOW as u64 {
        n as nat
    } else {
        WINDOW as nat
    }
}

/// A window holds the routings of the latest of `n` tokens, of `k` experts each.
pub open spec fn holds_latest(ring: Seq<Seq<i32>>, k: usize, n: u64) -> bool {
    &&& ring.len() == in_window(n)
    &&& forall|i: int| 0 <= i < ring.len() ==> (#[trigger] ring[i]).len() == k
}

impl DemoExperts {
    /// Every layer counts the routings in its window, which are those of the latest
    /// tokens, of `k` experts each; it has seen every token, and there are enough
    /// experts to choose from.
    pub open spec fn wf(self) -> bool {
        &&& self.counts()
        &&& forall|l: int|
            0 <= l < self.ring@.len() ==> holds_latest(
                ring_view((#[trigger] self.ring@[l])@),
                self.k,
                self.stats.n_tokens,
            )
        &&& forall|l: int|
            0 <= l < self.ring@.len() ==> (#[trigger] self.stats.layers@[l]).n_tokens
                == self.stats.n_tokens
        &&& forall|l: int|
            0 <= l < self.ring@.len() ==> (#[trigger] self.stats.layers@[l]).il == l
    }

    pub open spec fn counts(self) -> bool {
        &&& can_route(self.n_expert, self.k)
        &&& self.stats.n_expert == self.n_expert
        &&& self.stats.n_expert_used == self.k
        &&& self.stats.window == WINDOW
        &&& self.stats.layers@.len() == self.ring@.len()
        &&& forall|l: int|
            0 <= l < self.ring@.len() ==> layer_counts(
                #[trigger] self.stats.layers@[l],
                ring_view(self.ring@[l]@),
                self.n_expert,
            )
    }

    pub fn new(n_layers: usize, n_expert: usize, k: usize) -> (r: DemoExperts)
        requires
            can_route(n_expert, k),
        ensures
            r.wf(),
            r.n_expert == n_expert,
            r.k == k,
            r.stats.n_tokens == 0,
            r.ring@.len() == n_layers,
            forall|l: int| 0 <= l < n_layers ==> (#[trigger] r.ring@[l])@.len() == 0,
    {
        let mut layers: Vec<ExpertLayer> = Vec::new();
        let mut ring: Vec<VecDeque<Vec<i32>>> = Vec::new();
        let mut il: usize = 0;
        while il < n_layers
            invariant
                il <= n_layers,
                can_route(n_expert, k),
                layers@.len() == il,
                ring@.len() == il,
                forall|l: int| 0 <= l < il ==> (#[trigger] ring@[l])@.len() == 0,
                forall|l: int|
                    0 <= l < il ==> (#[trigger] layers@[l]).il == l && layers@[l].n_tokens == 0
                        && layer_counts(
                        layers@[l],
                        ring_view(ring@[l]@),
                        n_expert,
                    ),
            decreases n_layers - il,
        {
            let mut recent: Vec<u32> = Vec::new();
            let mut e: usize = 0;
            while e < n_expert
                invariant
                    e <= n_expert,
                    recent@.len() == e,
                    forall|x: int| 0 <= x < e ==> recent@[x] == 0,
                decreases n_expert - e,
            {
                recent.push(0);
                e += 1;
            }
            let layer = ExpertLayer { il, n_tokens: 0, tokens: Vec::new(), recent };
            let none: VecDeque<Vec<i32>> = VecDeque::new();
            proof {
                assert(ring_view(layer.tokens@) =~= Seq::<Seq<i32>>::empty());
                assert(ring_view(none@) =~= Seq::<Seq<i32>>::empty());
                assert(layer_counts(layer, ring_view(none@), n_expert));
            }
            layers.push(layer);
            ring.push(none);
            il += 1;
        }
        DemoExperts {
            n_expert,
            k,
            stats: ExpertStats { n_expert, n_expert_used: k, n_tokens: 0, window: WINDOW, layers },
            ring,
        }
    }

    /// Routes one token through every layer.
    fn route_token(&mut self, seed: &mut u64)
        requires
            old(self).wf(),
        ensures
            final(self).wf(),
            final(self).n_expert == old(self).n_expert,
            final(self).k == old(self).k,
            final(self).ring@.len() == old(self).ring@.len(),
            final(self).stats.n_tokens == micro::capped(old(self).stats.n_tokens + 1),
            (rings_view(final(self).ring@), *final(seed)) == token_routed(
                rings_view(old(self).ring@),
                *old(seed),
                old(self).n_expert,
                old(self).k,
                old(self).ring@.len() as int,
            ),
    {
        let ghost start = rings_view(self.ring@);
        let ghost s0 = *seed;
        self.stats.n_tokens = self.stats.n_tokens.saturating_add(1);
        let mut il: usize = 0;
        while il < self.ring.len()
            invariant
                il <= self.ring.len(),
                self.counts(),
                forall|l: int|
                    0 <= l < self.ring@.len() ==> (#[trigger] self.stats.layers@[l]).il == l,
                forall|l: int|
                    0 <= l < self.ring@.len() ==> (#[trigger] self.stats.layers@[l]).n_tokens == (
                    if l < il {
                        self.stats.n_tokens
                    } else {
                        old(self).stats.n_tokens
                    }),
                forall|l: int|
                    0 <= l < self.ring@.len() ==> holds_latest(
                        ring_view((#[trigger] self.ring@[l])@),
                        self.k,
                        if l < il {
                            self.stats.n_tokens
                        } else {
                            old(self).stats.n_tokens
                        },
                    ),
                self.n_expert == old(self).n_expert,
                self.k == old(self).k,
                self.ring@.len() == old(self).ring@.len(),
                self.stats.n_tokens == micro::capped(old(self).stats.n_tokens + 1),
                start == rings_view(old(self).ring@),
                s0 == *old(seed),
                (rings_view(self.ring@), *seed) == token_routed(
                    start,
                    s0,
                    self.n_expert,
                    self.k,
                    il as int,
                ),
            decreases self.ring.len() - il,
        {
            let ghost before = rings_view(self.ring@);
            let ghost layers = self.stats.layers@;
            let ghost rings = self.ring@;
            let ids = choose_experts(seed, il, self.n_expert, self.k);
            assert(layer_counts(
                self.stats.layers@[il as int],
                ring_view(self.ring@[il as int]@),
                self.n_expert,
            ));
            note_routing(&mut self.stats.layers[il], &mut self.ring[il], &ids);
            proof {
                assert(rings_view(self.ring@) =~= before.update(
                    il as int,
                    latest(before[il as int], ids@, WINDOW as nat),
                ));
                assert forall|l: int| 0 <= l < self.ring@.len() implies layer_counts(
                    #[trigger] self.stats.layers@[l],
                    ring_view(self.ring@[l]@),
                    self.n_expert,
                ) by {
                    if l != il {
                        assert(self.stats.layers@[l] == layers[l]);
                        assert(self.ring@[l] == rings[l]);
                    }
                }
                assert forall|l: int| 0 <= l < self.ring@.len() implies holds_latest(
                    ring_view((#[trigger] self.ring@[l])@),
                    self.k,
                    if l < il + 1 {
                        self.stats.n_tokens
                    } else {
                        old(self).stats.n_tokens
                    },
                ) by {
                    let was = ring_view(rings[l]@);
                    assert(holds_latest(
                        was,
                        self.k,
                        if l < il {
                            self.stats.n_tokens
                        } else {
                            old(self).stats.n_tokens
                        },
                    ));
                    if l == il {
                        let all = was.push(ids@);
                        assert forall|i: int| 0 <= i < all.len() implies (#[trigger] all[i]).len()
                            == self.k by {
                            if i < was.len() {
                                assert(all[i] == was[i]);
                            }
                        }
                        let now = ring_view(self.ring@[l]@);
                        assert(now == latest(was, ids@, WINDOW as nat));
                        assert forall|i: int| 0 <= i < now.len() implies (#[trigger] now[i]).len()
                            == self.k by {
                            if all.len() > WINDOW {
                                assert(now[i] == all[i + 1]);
                            } else {
                                assert(now[i] == all[i]);
                            }
                        }
                    } else {
                        assert(self.ring@[l] == rings[l]);
                    }
                }
            }
            il += 1;
        }
    }

    /// Routes tokens through every layer.
    pub fn route(&mut self, n_tokens: usize, seed: u64) -> (r: u64)
        requires
            old(self).wf(),
        ensures
            final(self).wf(),
            final(self).n_expert == old(self).n_expert,
            final(self).k == old(self).k,
            final(self).ring@.len() == old(self).ring@.len(),
            final(self).stats.n_tokens == micro::capped(old(self).stats.n_tokens + n_tokens),
            (rings_view(final(self).ring@), r) == tokens_routed(
                rings_view(old(self).ring@),
                seed,
                old(self).n_expert,
                old(self).k,
                n_tokens as int,
            ),
    {
        let ghost start = rings_view(self.ring@);
        let mut s: u64 = seed;
        let mut i: usize = 0;
        while i < n_tokens
            invariant
                i <= n_tokens,
                self.wf(),
                self.n_expert == old(self).n_expert,
                self.k == old(self).k,
                start == rings_view(old(self).ring@),
                self.ring@.len() == start.len(),
                self.ring@.len() == old(self).ring@.len(),
                self.stats.n_tokens == micro::capped(old(self).stats.n_tokens + i),
                (rings_view(self.ring@), s) == tokens_routed(
                    start,
                    seed,
                    self.n_expert,
                    self.k,
                    i as int,
                ),
            decreases n_tokens - i,
        {
            self.route_token(&mut s);
            i += 1;
        }
        s
    }
}

/// The sum of some counts.
pub open spec fn sum_of(counts: Seq<u32>) -> int
    decreases counts.len(),
{
    if counts.len() == 0 {
        0
    } else {
        sum_of(counts.drop_last()) + counts.last()
    }
}

/// How often the experts below `n` were chosen together.
spec fn chosen_below(ring: Seq<Seq<i32>>, n: int) -> int
    decreases n,
{
    if n <= 0 {
        0
    } else {
        chosen_below(ring, n - 1) + times_chosen(ring, (n - 1) as i32)
    }
}

/// How many of the experts below `n` are among some ids.
spec fn members_below(ids: Seq<i32>, n: int) -> int
    decreases n,
{
    if n <= 0 {
        0
    } else {
        members_below(ids, n - 1) + if ids.contains((n - 1) as i32) {
            1int
        } else {
            0
        }
    }
}

proof fn lemma_sum_is_chosen(counts: Seq<u32>, ring: Seq<Seq<i32>>)
    requires
        counts.len() <= 0x7fff_ffff,
        forall|e: int|
            0 <= e < counts.len() ==> #[trigger] counts[e] == times_chosen(ring, e as i32),
    ensures
        sum_of(counts) == chosen_below(ring, counts.len() as int),
    decreases counts.len(),
{
    if counts.len() > 0 {
        let front = counts.drop_last();
        assert forall|e: int| 0 <= e < front.len() implies #[trigger] front[e] == times_chosen(
            ring,
            e as i32,
        ) by {
            assert(front[e] == counts[e]);
        }
        lemma_sum_is_chosen(front, ring);
    }
}

proof fn lemma_chosen_by_one_more(ring: Seq<Seq<i32>>, n: int)
    requires
        ring.len() > 0,
    ensures
        chosen_below(ring, n) == chosen_below(ring.drop_last(), n) + members_below(ring.last(), n),
    decreases n,
{
    if n > 0 {
        lemma_chosen_by_one_more(ring, n - 1);
    }
}

proof fn lemma_member_added(ids: Seq<i32>, x: i32, n: int)
    requires
        !ids.contains(x),
        0 <= n <= 0x7fff_ffff,
        0 <= x,
    ensures
        members_below(ids.push(x), n) == members_below(ids, n) + if x < n {
            1int
        } else {
            0
        },
    decreases n,
{
    if n > 0 {
        lemma_member_added(ids, x, n - 1);
        let e = (n - 1) as i32;
        let more = ids.push(x);
        if ids.contains(e) {
            let j = choose|j: int| 0 <= j < ids.len() && ids[j] == e;
            assert(more[j] == e);
        }
        if e == x {
            assert(more[ids.len() as int] == e);
        } else if more.contains(e) {
            let j = choose|j: int| 0 <= j < more.len() && more[j] == e;
            assert(ids[j] == e);
        }
    }
}

proof fn lemma_no_members(n: int)
    ensures
        members_below(Seq::empty(), n) == 0,
    decreases n,
{
    if n > 0 {
        lemma_no_members(n - 1);
    }
}

/// Different experts are as many as their ids.
proof fn lemma_members(ids: Seq<i32>, n_expert: usize)
    requires
        valid_ids(ids, n_expert),
        n_expert <= 0x7fff_ffff,
    ensures
        members_below(ids, n_expert as int) == ids.len(),
    decreases ids.len(),
{
    if ids.len() == 0 {
        assert(ids =~= Seq::<i32>::empty());
        lemma_no_members(n_expert as int);
    } else {
        let front = ids.drop_last();
        let x = ids.last();
        assert forall|i: int| 0 <= i < front.len() implies 0 <= #[trigger] front[i] < n_expert by {
            assert(front[i] == ids[i]);
        }
        lemma_members(front, n_expert);
        assert(ids =~= front.push(x));
        assert(0 <= ids[ids.len() - 1] < n_expert);
        assert(!front.contains(x)) by {
            if front.contains(x) {
                let j = choose|j: int| 0 <= j < front.len() && front[j] == x;
                assert(ids[j] == ids[ids.len() - 1]);
            }
        }
        lemma_member_added(front, x, n_expert as int);
    }
}

proof fn lemma_chosen_total(ring: Seq<Seq<i32>>, n_expert: usize, k: usize)
    requires
        n_expert <= 0x7fff_ffff,
        forall|i: int| 0 <= i < ring.len() ==> valid_ids(#[trigger] ring[i], n_expert),
        forall|i: int| 0 <= i < ring.len() ==> (#[trigger] ring[i]).len() == k,
    ensures
        chosen_below(ring, n_expert as int) == k * ring.len(),
    decreases ring.len(),
{
    if ring.len() == 0 {
        assert(ring =~= Seq::<Seq<i32>>::empty());
        lemma_nothing_chosen(n_expert as int);
        assert(k * 0 == 0);
    } else {
        let front = ring.drop_last();
        assert forall|i: int| 0 <= i < front.len() implies valid_ids(
            #[trigger] front[i],
            n_expert,
        ) && front[i].len() == k by {
            assert(front[i] == ring[i]);
        }
        lemma_chosen_total(front, n_expert, k);
        lemma_chosen_by_one_more(ring, n_expert as int);
        assert(valid_ids(ring[ring.len() - 1], n_expert));
        lemma_members(ring.last(), n_expert);
        assert(ring[ring.len() - 1].len() == k);
        assert(k * ring.len() == k * (ring.len() - 1) + k) by (nonlinear_arith);
    }
}

proof fn lemma_nothing_chosen(n: int)
    ensures
        chosen_below(Seq::empty(), n) == 0,
    decreases n,
{
    if n > 0 {
        lemma_nothing_chosen(n - 1);
    }
}

/// After `n_tokens` tokens every layer has seen each of them, tells the routings of
/// the latest 16 at most, of `k` different experts each, and its histogram is that
/// of the latest 256 at most: its counts add up to `k` for each of those.
pub proof fn histograms_add_up(x: DemoExperts, l: int)
    requires
        x.wf(),
        0 <= l < x.ring@.len(),
    ensures
        ({
            let layer = x.stats.layers@[l];
            let ring = ring_view(x.ring@[l]@);
            let told = ring_view(layer.tokens@);
            &&& layer.n_tokens == x.stats.n_tokens
            &&& told.len() == (if x.stats.n_tokens < TOLD as u64 {
                x.stats.n_tokens as nat
            } else {
                TOLD as nat
            })
            &&& forall|i: int|
                0 <= i < told.len() ==> (#[trigger] told[i]).len() == x.k && valid_ids(
                    told[i],
                    x.n_expert,
                )
            &&& ring.len() == in_window(x.stats.n_tokens)
            &&& layer.recent@.len() == x.n_expert
            &&& forall|e: int|
                0 <= e < x.n_expert ==> #[trigger] layer.recent@[e] == times_chosen(
                    ring,
                    e as i32,
                )
            &&& sum_of(layer.recent@) == x.k * in_window(x.stats.n_tokens)
        }),
{
    let layer = x.stats.layers@[l];
    let ring = ring_view(x.ring@[l]@);
    let told = ring_view(layer.tokens@);
    assert(holds_latest(ring_view(x.ring@[l]@), x.k, x.stats.n_tokens));
    assert(layer_counts(layer, ring, x.n_expert));
    assert forall|i: int| 0 <= i < told.len() implies (#[trigger] told[i]).len() == x.k
        && valid_ids(told[i], x.n_expert) by {
        let j = i + ring.len() - told.len();
        assert(told[i] == ring[j]);
    }
    lemma_sum_is_chosen(layer.recent@, ring);
    lemma_chosen_total(ring, x.n_expert, x.k);
}

/// Host counters for the demo: a page-cache miss burst on cold requests,
/// PCIe traffic proportional to load (the second card holds offloaded
/// layers so it sees more), and a fixed resident set.
#[derive(Clone, Copy, Debug, PartialEq, Eq, Structural)]
pub struct DemoHost {
    pub n_gpus: usize,
    pub seed: u64,
    pub disk_bytes: u64,
    pub proc_bytes: u64,
    pub majflt: u64,
    pub cold_ticks: u32,
}

/// `a + b`, capped.
pub open spec fn plus(a: u64, b: u64) -> u64 {
    micro::capped(a + b)
}

/// The traffic to and from card `i` at a load, in MB/s.
pub open spec fn bus_traffic(i: int, load: u64, processing: bool, bits: u64) -> (u32, u64, u64) {
    let base = if !processing {
        2_000_000
    } else if i == 1 {
        180_000_000 + 900 * load
    } else {
        40_000_000 + 120 * load
    };
    let rx = (base * (850_000 + generator::part_of(bits, 300_000)) / 1_000_000) as u64;
    (i as u32, rx, (rx * 12 / 100) as u64)
}

/// The generator after `n` draws.
pub open spec fn seed_after(seed: u64, n: int) -> u64
    decreases n,
{
    if n <= 0 {
        seed
    } else {
        generator::next_seed(seed_after(seed, n - 1))
    }
}

impl DemoHost {
    /// The counters one tick on.
    pub open spec fn stepped(self) -> DemoHost {
        let s = generator::next_seed(self.seed);
        let bits = generator::drawn(s);
        let h = DemoHost { seed: seed_after(s, self.n_gpus as int), ..self };
        if self.cold_ticks > 0 {
            // 0.2 s at ~1.4 GB/s.
            let burst = generator::part_above(240_000_000, bits, 80_000_000);
            DemoHost {
                cold_ticks: (self.cold_ticks - 1) as u32,
                disk_bytes: plus(self.disk_bytes, burst),
                proc_bytes: plus(self.proc_bytes, burst),
                majflt: plus(self.majflt, (1500 + generator::part_of(bits, 400)) as u64),
                ..h
            }
        } else {
            DemoHost { disk_bytes: plus(self.disk_bytes, generator::part_of(bits, 400_000)), ..h }
        }
    }

    pub fn new(n_gpus: usize) -> (r: DemoHost)
        ensures
            r == (DemoHost {
                n_gpus,
                seed: 0xD1CE_5EED,
                disk_bytes: 40_000_000_000,
                proc_bytes: 2_000_000_000,
                majflt: 1200,
                cold_ticks: 0,
            }),
    {
        DemoHost {
            n_gpus,
            seed: 0xD1CE_5EED,
            disk_bytes: 40_000_000_000,
            proc_bytes: 2_000_000_000,
            majflt: 1200,
            cold_ticks: 0,
        }
    }

    /// One tick of the counters.
    pub fn step(&mut self, load: u64, processing: bool) -> (r: HostSample)
        requires
            load <= micro::ONE,
            old(self).n_gpus <= u32::MAX,
        ensures
            *final(self) == old(self).stepped(),
            r.disk_read_bytes == Some(final(self).disk_bytes),
            r.proc_read_bytes == Some(final(self).proc_bytes),
            r.proc_majflt == Some(final(self).majflt),
            r.rss_file_bytes == Some(6_100_000_000u64),
            r.rss_bytes == Some(7_300_000_000u64),
            r.mem_total_bytes == Some(64_000_000_000u64),
            r.mem_available_bytes == Some(41_000_000_000u64),
            r.page_cache_bytes == Some(22_000_000_000u64),
            r.pcie_ok,
            r.pcie_mb_s@.len() == old(self).n_gpus,
            forall|i: int|
                0 <= i < old(self).n_gpus ==> #[trigger] r.pcie_mb_s@[i] == bus_traffic(
                    i,
                    load,
                    processing,
                    generator::drawn(seed_after(generator::next_seed(old(self).seed), i + 1)),
                ),
    {
        let mut seed: u64 = self.seed;
        let bits: u64 = generator::draw(&mut seed);
        let ghost s = seed;
        if self.cold_ticks > 0 {
            self.cold_ticks = self.cold_ticks - 1;
            // 0.2 s at ~1.4 GB/s.
            let burst: u64 = generator::part_from(240_000_000, bits, 80_000_000);
            self.disk_bytes = self.disk_bytes.saturating_add(burst);
            self.proc_bytes = self.proc_bytes.saturating_add(burst);
            self.majflt = self.majflt.saturating_add(1500 + generator::part(bits, 400));
        } else {
            self.disk_bytes = self.disk_bytes.saturating_add(generator::part(bits, 400_000));
        }
        let mut pcie_mb_s: Vec<(u32, u64, u64)> = Vec::new();
        let mut i: usize = 0;
        while i < self.n_gpus
            invariant
                i <= self.n_gpus <= u32::MAX,
                load <= micro::ONE,
                seed == seed_after(s, i as int),
                pcie_mb_s@.len() == i,
                forall|j: int|
                    0 <= j < i ==> #[trigger] pcie_mb_s@[j] == bus_traffic(
                        j,
                        load,
                        processing,
                        generator::drawn(seed_after(s, j + 1)),
                    ),
            decreases self.n_gpus - i,
        {
            let bits: u64 = generator::draw(&mut seed);
            assert(seed == seed_after(s, i + 1));
            let base: u64 = if !processing {
                2_000_000
            } else if i == 1 {
                180_000_000 + 900 * load
            } else {
                40_000_000 + 120 * load
            };
            let factor: u64 = 850_000 + generator::part(bits, 300_000);
            assert(0 <= base * factor <= 1_080_000_000 * 1_150_000) by (nonlinear_arith)
                requires
                    0 <= base <= 1_080_000_000,
                    0 <= factor <= 1_150_000,
            ;
            let rx: u64 = base * factor / 1_000_000;
            pcie_mb_s.push((i as u32, rx, rx * 12 / 100));
            i += 1;
        }
        self.seed = seed;
        HostSample {
            disk_read_bytes: Some(self.disk_bytes),
            proc_read_bytes: Some(self.proc_bytes),
            proc_majflt: Some(self.majflt),
            rss_file_bytes: Some(6_100_000_000),
            rss_bytes: Some(7_300_000_000),
            mem_total_bytes: Some(64_000_000_000),
            mem_available_bytes: Some(41_000_000_000),
            page_cache_bytes: Some(22_000_000_000),
            pcie_mb_s,
            pcie_ok: true,
        }
    }
}

/// The counters never go back.
pub proof fn host_counters_only_grow(h: DemoHost)
    ensures
        h.stepped().disk_bytes >= h.disk_bytes,
        h.stepped().proc_bytes >= h.proc_bytes,
        h.stepped().majflt >= h.majflt,
{
    let bits = generator::drawn(generator::next_seed(h.seed));
    assert(0 <= bits * 400_000 / 0x1_0000_0000 <= u64::MAX);
    assert(0 <= bits * 80_000_000 / 0x1_0000_0000 <= u64::MAX);
    assert(0 <= bits * 400 / 0x1_0000_0000 <= u64::MAX);
}

/// One model's own view of the host: its resident weights scale with its file.
pub open spec fn host_of_model(base: crate::host::Host, file_bytes: u64) -> crate::host::Host {
    crate::host::Host {
        rss_file_bytes: Some(micro::scaled(file_bytes as int, 31, 100)),
        rss_bytes: Some(micro::scaled(file_bytes as int, 37, 100)),
        ..base
    }
}

/// One model's own view of the host: its resident weights scale with its file.
pub fn host_for_model(base: &HostSample, file_bytes: u64) -> (r: HostSample)
    ensures
        r@ == host_of_model(base@, file_bytes),
        r@ == (crate::host::Host {
            rss_file_bytes: Some(micro::scaled(file_bytes as int, 31, 100)),
            rss_bytes: Some(micro::scaled(file_bytes as int, 37, 100)),
            ..base@
        }),
{
    let mut s = base.copy();
    s.rss_file_bytes = Some(micro::scale(file_bytes, 31, 100));
    s.rss_bytes = Some(micro::scale(file_bytes, 37, 100));
    s
}

/// The highest of some loads.
pub open spec fn peak_load(loads: Seq<u64>) -> u64
    decreases loads.len(),
{
    if loads.len() == 0 {
        0
    } else {
        micro::larger(peak_load(loads.drop_last()), loads.last())
    }
}

/// The sum of some loads.
pub open spec fn load_sum(loads: Seq<u64>) -> u64
    decreases loads.len(),
{
    if loads.len() == 0 {
        0
    } else {
        plus(load_sum(loads.drop_last()), loads.last())
    }
}

/// The load of cards that several servers share: the busiest sets the floor, the
/// rest push the cards the rest of the way up.
pub open spec fn shared_load(loads: Seq<u64>) -> u64 {
    let peak = peak_load(loads);
    let more = peak + (load_sum(loads) - peak) * 35 / 100;
    if more > micro::ONE {
        micro::ONE
    } else {
        more as u64
    }
}

proof fn lemma_peak_in_sum(loads: Seq<u64>)
    ensures
        peak_load(loads) <= load_sum(loads),
    decreases loads.len(),
{
    if loads.len() > 0 {
        lemma_peak_in_sum(loads.drop_last());
    }
}

/// Cards are at least as busy as their busiest server makes them.
pub proof fn shared_cards_are_as_busy_as_the_busiest(loads: Seq<u64>)
    requires
        peak_load(loads) <= micro::ONE,
    ensures
        peak_load(loads) <= shared_load(loads) <= micro::ONE,
{
    lemma_peak_in_sum(loads);
}

/// Shared between the synthetic servers and the synthetic hardware: the cards
/// have to react to every model at once, not just the one in front.
#[derive(Clone, Debug)]
pub struct DemoShared {
    /// Current load 0..1 contributed by each server.
    pub loads: Vec<u64>,
    /// Ticks of page-cache-miss disk burst still owed, from any server.
    pub cold_ticks: u32,
}

impl DemoShared {
    pub fn new(servers: usize) -> (r: DemoShared)
        ensures
            r.loads@ == Seq::new(servers as nat, |i: int| 0u64),
            r.cold_ticks == 0,
    {
        let mut loads: Vec<u64> = Vec::new();
        let mut i: usize = 0;
        while i < servers
            invariant
                i <= servers,
                loads@.len() == i,
                forall|j: int| 0 <= j < i ==> loads@[j] == 0,
            decreases servers - i,
        {
            loads.push(0);
            i += 1;
        }
        assert(loads@ =~= Seq::new(servers as nat, |i: int| 0u64));
        DemoShared { loads, cold_ticks: 0 }
    }

    /// Takes a server's load.
    pub fn set_load(&mut self, idx: usize, load: u64)
        ensures
            final(self).loads@ == (if idx < old(self).loads@.len() {
                old(self).loads@.update(idx as int, load)
            } else {
                old(self).loads@
            }),
            final(self).cold_ticks == old(self).cold_ticks,
    {
        if idx < self.loads.len() {
            self.loads.set(idx, load);
        }
    }

    /// A request found part of the model evicted from the page cache.
    pub fn set_cold(&mut self)
        ensures
            final(self).cold_ticks == (if old(self).cold_ticks > 3 {
                old(self).cold_ticks
            } else {
                3
            }),
            final(self).loads == old(self).loads,
    {
        if self.cold_ticks < 3 {
            self.cold_ticks = 3;
        }
    }

    /// One tick of the hardware: its load, and whether the disk is read.
    pub fn tick(&mut self) -> (r: (u64, bool))
        ensures
            r.0 == shared_load(old(self).loads@),
            r.0 <= micro::ONE,
            r.1 == (old(self).cold_ticks > 0),
            final(self).loads == old(self).loads,
            final(self).cold_ticks == (if old(self).cold_ticks > 0 {
                old(self).cold_ticks - 1
            } else {
                0
            }),
    {
        let mut peak: u64 = 0;
        let mut sum: u64 = 0;
        let mut i: usize = 0;
        assert(self.loads@.take(0) =~= Seq::<u64>::empty());
        while i < self.loads.len()
            invariant
                i <= self.loads.len(),
                *self == *old(self),
                peak == peak_load(self.loads@.take(i as int)),
                sum == load_sum(self.loads@.take(i as int)),
            decreases self.loads.len() - i,
        {
            assert(self.loads@.take(i + 1).drop_last() =~= self.loads@.take(i as int));
            peak = micro::max(peak, self.loads[i]);
            sum = sum.saturating_add(self.loads[i]);
            i += 1;
        }
        assert(self.loads@.take(self.loads@.len() as int) =~= self.loads@);
        proof {
            lemma_peak_in_sum(self.loads@);
        }
        let more: u128 = peak as u128 + ((sum - peak) as u128) * 35 / 100;
        let load: u64 = if more > micro::ONE as u128 {
            micro::ONE
        } else {
            more as u64
        };
        let cold = self.cold_ticks > 0;
        self.cold_ticks = self.cold_ticks.saturating_sub(1);
        (load, cold)
    }
}

/// What a synthetic server is about to do.
#[derive(Clone, Copy, Debug, PartialEq, Eq, Structural)]
pub enum Stage {
    /// So many ticks of idleness are left.
    Idle { left: u64 },
    /// A prompt is being processed, at so many tokens a second.
    Prefill { tps: u64 },
    /// So many tokens are to be generated, around so many a second; so many ticks
    /// have passed.
    Decode { gen: usize, base_tps: u64, ticks: u64 },
    /// The request is over.
    End,
}

/// One synthetic server: idle → prefill → decode, forever, at its profile's speed.
#[derive(Clone, Copy, Debug, PartialEq, Eq, Structural)]
pub struct DemoServer {
    pub stage: Stage,
    pub seed: u64,
    pub ctx_max: usize,
    pub decode_tps: u64,
    pub prefill_tps: u64,
    pub drafts: bool,
    pub id_task: i64,
    pub cache_tokens: usize,
    pub processing: bool,
    pub prompt_tokens: usize,
    pub cached: usize,
    pub prompt_processed: usize,
    pub decoded: usize,
    pub spec: SpecMetrics,
}

/// What one tick of a synthetic server tells the others.
#[derive(Clone, Copy, Debug, PartialEq, Eq, Structural)]
pub struct Tick {
    /// The server's load.
    pub load: u64,
    /// Part of the model was evicted from the page cache.
    pub cold: bool,
    /// How many tokens were routed.
    pub routed: usize,
    /// The draft counters and the routing are told too.
    pub reports: bool,
}

/// The ticks of an idle spell.
pub open spec fn idle_ticks(bits: u64) -> u64 {
    (4 + generator::part_of(bits, 12)) as u64
}

/// The length of a prompt, which leaves room for an answer.
pub open spec fn prompt_length(bits: u64, ctx_max: usize) -> usize {
    let p = generator::part_above(400, bits, 9000);
    let room = if ctx_max > 664 {
        ctx_max - 600
    } else {
        64
    };
    if p < room {
        p as usize
    } else {
        room as usize
    }
}

/// The tokens of a tick of prefill.
pub open spec fn prefill_step(tps: u64, bits: u64) -> usize {
    let n = tps * (850_000 + generator::part_of(bits, 300_000)) / 5_000_000_000_000;
    if n > 1 {
        n as usize
    } else {
        1
    }
}

/// The rate of a tick of decode: the base rate, wobbling, and slower towards the
/// end.
pub open spec fn decode_rate(base_tps: u64, wobble: u64, decoded: usize, gen: usize) -> u64 {
    (base_tps * wobble / 1_000_000 * (6 * gen - decoded) / (6 * gen)) as u64
}

/// The tokens of a tick of decode: a fifth of the rate, to the nearest token.
pub open spec fn decode_step(tps: u64) -> usize {
    let n = (tps / 5 + 500_000) / 1_000_000;
    if n > 1 {
        n as usize
    } else {
        1
    }
}

/// How many of a tick's tokens were accepted drafts. MTP depth 1: every
/// verification step drafts one token.
pub open spec fn accepted_of(step: usize, rate: u64) -> u64 {
    ((2 * step * rate + (1_000_000 + rate)) / (2 * (1_000_000 + rate))) as u64
}

/// The draft counters after a tick of decode.
pub open spec fn drafted(m: SpecMetrics, drafts: bool, step: usize, rate: u64) -> SpecMetrics {
    let accepted = accepted_of(step, rate);
    let steps = (step - accepted) as u64;
    SpecMetrics {
        draft_tokens: if drafts {
            plus(m.draft_tokens, steps)
        } else {
            m.draft_tokens
        },
        accepted: if drafts {
            plus(
                m.accepted,
                if accepted < steps {
                    accepted
                } else {
                    steps
                },
            )
        } else {
            m.accepted
        },
        verify_steps: if drafts {
            plus(m.verify_steps, steps)
        } else {
            m.verify_steps
        },
        n_decode: if drafts {
            plus(m.n_decode, steps)
        } else {
            plus(m.n_decode, step as u64)
        },
        tokens_predicted: plus(m.tokens_predicted, step as u64),
    }
}

/// The load of a tick of decode.
pub open spec fn decode_load(tps: u64, base_tps: u64) -> u64 {
    (550_000 + micro::share(tps * 10, micro::larger(base_tps, 1) * 13) * 35 / 100) as u64
}

impl DemoServer {
    /// Counters within their requests.
    pub open spec fn wf(self) -> bool {
        &&& self.prompt_processed <= self.prompt_tokens <= 9400
        &&& self.cached <= self.prompt_tokens
        &&& self.decode_tps <= 10_000
        &&& self.prefill_tps <= 10_000
        &&& match self.stage {
            Stage::Idle { left } => left <= 16,
            Stage::Prefill { tps } => tps <= 12_500_000_000 && self.processing && self.decoded == 0,
            Stage::Decode { gen, base_tps, ticks } => 40 <= gen <= 540 && self.decoded <= gen
                && base_tps <= 12_500_000_000 && ticks <= self.decoded && self.processing,
            Stage::End => self.decoded <= 540,
        }
    }

    /// A server about to begin with an idle spell.
    pub open spec fn resting(self) -> DemoServer {
        let s = generator::next_seed(self.seed);
        DemoServer {
            seed: s,
            stage: Stage::Idle { left: idle_ticks(generator::drawn(s)) },
            processing: false,
            prompt_processed: 0,
            ..self
        }
    }

    /// A server that has taken a prompt, and whether part of the model has to be
    /// read again.
    pub open spec fn prompted(self) -> (DemoServer, bool) {
        let s1 = generator::next_seed(self.seed);
        let s2 = generator::next_seed(s1);
        let s3 = generator::next_seed(s2);
        let s4 = generator::next_seed(s3);
        let prompt = prompt_length(generator::drawn(s1), self.ctx_max);
        let cached = if generator::is_below(generator::drawn(s2), 0x8000_0000) {
            if self.cache_tokens < prompt / 2 {
                self.cache_tokens
            } else {
                prompt / 2
            }
        } else {
            0
        };
        let server = DemoServer {
            seed: s4,
            stage: Stage::Prefill {
                tps: (self.prefill_tps * (800_000 + generator::part_of(generator::drawn(s3), 450_000))) as u64,
            },
            id_task: if self.id_task < i64::MAX {
                (self.id_task + 1) as i64
            } else {
                self.id_task
            },
            processing: true,
            prompt_tokens: prompt,
            cached,
            prompt_processed: cached,
            decoded: 0,
            ..self
        };
        (server, generator::is_below(generator::drawn(s4), 0x4000_0000))
    }

    /// A tick of prefill.
    pub open spec fn prefilled(self, tps: u64) -> (DemoServer, usize) {
        let s = generator::next_seed(self.seed);
        let next = self.prompt_processed + prefill_step(tps, generator::drawn(s));
        let processed = if next < self.prompt_tokens {
            next as usize
        } else {
            self.prompt_tokens
        };
        (
            DemoServer { seed: s, prompt_processed: processed, ..self },
            (processed - self.prompt_processed) as usize,
        )
    }

    /// A server that starts to generate.
    pub open spec fn generating(self) -> DemoServer {
        let s1 = generator::next_seed(self.seed);
        let s2 = generator::next_seed(s1);
        DemoServer {
            seed: s2,
            stage: Stage::Decode {
                gen: (40 + generator::part_of(generator::drawn(s1), 500)) as usize,
                base_tps: (self.decode_tps * (750_000 + generator::part_of(generator::drawn(s2), 500_000))) as u64,
                ticks: 0,
            },
            ..self
        }
    }

    /// A tick of decode.
    pub open spec fn decoding(
        self,
        gen: usize,
        base_tps: u64,
        ticks: u64,
        wobble: u64,
        rate: u64,
    ) -> (DemoServer, Tick) {
        let tps = decode_rate(base_tps, wobble, self.decoded, gen);
        let step = decode_step(tps);
        let decoded = if self.decoded + step < gen {
            (self.decoded + step) as usize
        } else {
            gen
        };
        (
            DemoServer {
                stage: Stage::Decode { gen, base_tps, ticks: (ticks + 1) as u64 },
                decoded,
                spec: drafted(self.spec, self.drafts, step, rate),
                ..self
            },
            Tick {
                load: decode_load(tps, base_tps),
                cold: false,
                routed: (decoded - self.decoded) as usize,
                reports: true,
            },
        )
    }

    /// The stage that a tick belongs to: a spell, a prompt or an answer that is
    /// over gives way to the next.
    pub open spec fn turned(self) -> (DemoServer, bool) {
        match self.stage {
            Stage::Idle { left } => if left == 0 {
                self.prompted()
            } else {
                (self, false)
            },
            Stage::Prefill { tps } => if self.prompt_processed >= self.prompt_tokens {
                (self.generating(), false)
            } else {
                (self, false)
            },
            Stage::Decode { gen, base_tps, ticks } => if self.decoded >= gen {
                (DemoServer { stage: Stage::End, ..self }, false)
            } else {
                (self, false)
            },
            Stage::End => (self.resting(), false),
        }
    }

    /// One tick of the server.
    pub open spec fn ticked(self, wobble: u64, rate: u64) -> (DemoServer, Tick) {
        let (server, cold) = self.turned();
        match server.stage {
            Stage::Idle { left } => (
                DemoServer {
                    stage: Stage::Idle {
                        left: if left > 0 {
                            (left - 1) as u64
                        } else {
                            0
                        },
                    },
                    ..server
                },
                Tick { load: 20_000, cold, routed: 0, reports: true },
            ),
            Stage::Prefill { tps } => {
                let (next, routed) = server.prefilled(tps);
                (next, Tick { load: 950_000, cold, routed, reports: true })
            },
            Stage::Decode { gen, base_tps, ticks } => server.decoding(
                gen,
                base_tps,
                ticks,
                wobble,
                rate,
            ),
            Stage::End => (
                DemoServer {
                    cache_tokens: (server.prompt_tokens + server.decoded) as usize,
                    processing: false,
                    prompt_processed: 0,
                    ..server
                },
                Tick { load: 200_000, cold, routed: 0, reports: false },
            ),
        }
    }

    /// The synthetic server number `idx` on a model of that profile.
    pub fn new(idx: usize, ctx_max: usize, n_mtp: usize) -> (r: DemoServer)
        requires
            idx < MAX_DEMO,
        ensures
            r.wf(),
            r == (DemoServer {
                stage: Stage::End,
                seed: (0x9E37_79B9_7F4A_7C15u64).wrapping_add(
                    ((idx + 1) as u64).wrapping_mul(0x9E37_79B9),
                ),
                ctx_max,
                decode_tps: profile_of(idx).decode_tps,
                prefill_tps: profile_of(idx).prefill_tps,
                drafts: n_mtp > 0,
                id_task: (1000 + idx * 100) as i64,
                cache_tokens: 0,
                processing: false,
                prompt_tokens: 0,
                cached: 0,
                prompt_processed: 0,
                decoded: 0,
                spec: SpecMetrics {
                    draft_tokens: 0,
                    accepted: 0,
                    verify_steps: 0,
                    n_decode: 0,
                    tokens_predicted: 0,
                },
            }).resting(),
    {
        let p = profile(idx);
        // Each server gets its own seed so they do not move in lockstep.
        let mut server = DemoServer {
            stage: Stage::End,
            seed: (0x9E37_79B9_7F4A_7C15u64).wrapping_add(
                ((idx + 1) as u64).wrapping_mul(0x9E37_79B9),
            ),
            ctx_max,
            decode_tps: p.decode_tps,
            prefill_tps: p.prefill_tps,
            drafts: n_mtp > 0,
            id_task: 1000 + idx as i64 * 100,
            cache_tokens: 0,
            processing: false,
            prompt_tokens: 0,
            cached: 0,
            prompt_processed: 0,
            decoded: 0,
            spec: SpecMetrics::default(),
        };
        server.rest();
        server
    }

    /// Begins an idle spell.
    fn rest(&mut self)
        requires
            old(self).prompt_tokens <= 9400,
            old(self).cached <= old(self).prompt_tokens,
            old(self).decode_tps <= 10_000,
            old(self).prefill_tps <= 10_000,
        ensures
            *final(self) == old(self).resting(),
            final(self).wf(),
    {
        let mut seed: u64 = self.seed;
        let bits: u64 = generator::draw(&mut seed);
        self.seed = seed;
        self.stage = Stage::Idle { left: 4 + generator::part(bits, 12) };
        self.processing = false;
        self.prompt_processed = 0;
    }

    /// Takes a prompt; tells whether part of the model has to be read again.
    fn prompt(&mut self) -> (cold: bool)
        requires
            old(self).wf(),
        ensures
            (*final(self), cold) == old(self).prompted(),
            final(self).wf(),
            final(self).stage is Prefill,
            final(self).prompt_processed < final(self).prompt_tokens,
    {
        let mut seed: u64 = self.seed;
        let bits: u64 = generator::draw(&mut seed);
        let long: usize = generator::part_from(400, bits, 9000) as usize;
        let room: usize = if self.ctx_max > 664 {
            self.ctx_max - 600
        } else {
            64
        };
        let prompt: usize = if long < room {
            long
        } else {
            room
        };
        let half = generator::below(generator::draw(&mut seed), 0x8000_0000);
        let cached: usize = if half {
            if self.cache_tokens < prompt / 2 {
                self.cache_tokens
            } else {
                prompt / 2
            }
        } else {
            0
        };
        let bits: u64 = generator::draw(&mut seed);
        let factor: u64 = 800_000 + generator::part(bits, 450_000);
        assert(0 <= self.prefill_tps * factor <= 10_000 * 1_250_000) by (nonlinear_arith)
            requires
                0 <= self.prefill_tps <= 10_000,
                0 <= factor <= 1_250_000,
        ;
        let tps: u64 = self.prefill_tps * factor;
        // One request in four finds part of the model evicted from the
        // page cache, so the disk meter has something real to show.
        let cold = generator::below(generator::draw(&mut seed), 0x4000_0000);
        self.seed = seed;
        self.stage = Stage::Prefill { tps };
        if self.id_task < i64::MAX {
            self.id_task = self.id_task + 1;
        }
        self.processing = true;
        self.prompt_tokens = prompt;
        self.cached = cached;
        self.prompt_processed = cached;
        self.decoded = 0;
        cold
    }

    /// A tick of prefill; tells how many tokens were processed.
    fn prefill(&mut self, tps: u64) -> (routed: usize)
        requires
            old(self).wf(),
            tps <= 12_500_000_000,
            old(self).stage == (Stage::Prefill { tps }),
        ensures
            (*final(self), routed) == old(self).prefilled(tps),
            final(self).wf(),
    {
        let mut seed: u64 = self.seed;
        let bits: u64 = generator::draw(&mut seed);
        self.seed = seed;
        let factor: u64 = 850_000 + generator::part(bits, 300_000);
        assert(0 <= tps * factor <= 12_500_000_000 * 1_150_000) by (nonlinear_arith)
            requires
                0 <= tps <= 12_500_000_000,
                0 <= factor <= 1_150_000,
        ;
        let n: u64 = tps * factor / 5_000_000_000_000;
        let step: usize = if n > 1 {
            n as usize
        } else {
            1
        };
        let before: usize = self.prompt_processed;
        let next: usize = before + step;
        self.prompt_processed = if next < self.prompt_tokens {
            next
        } else {
            self.prompt_tokens
        };
        self.prompt_processed - before
    }

    /// Starts to generate.
    fn generate(&mut self)
        requires
            old(self).wf(),
            old(self).stage is Prefill,
        ensures
            *final(self) == old(self).generating(),
            final(self).wf(),
            final(self).stage is Decode,
    {
        let mut seed: u64 = self.seed;
        let bits: u64 = generator::draw(&mut seed);
        let gen: usize = 40 + generator::part(bits, 500) as usize;
        let bits: u64 = generator::draw(&mut seed);
        let factor: u64 = 750_000 + generator::part(bits, 500_000);
        assert(0 <= self.decode_tps * factor <= 10_000 * 1_250_000) by (nonlinear_arith)
            requires
                0 <= self.decode_tps <= 10_000,
                0 <= factor <= 1_250_000,
        ;
        self.seed = seed;
        self.stage = Stage::Decode { gen, base_tps: self.decode_tps * factor, ticks: 0 };
    }
}

/// No more drafts are accepted than there are tokens.
proof fn lemma_accepted(step: int, rate: int)
    requires
        1 <= step <= 1_000_000,
        0 <= rate <= 1_000_000,
    ensures
        0 <= (2 * step * rate + (1_000_000 + rate)) / (2 * (1_000_000 + rate)) <= step,
{
    let d = 2 * (1_000_000 + rate);
    let n = 2 * step * rate + (1_000_000 + rate);
    assert(0 <= n <= step * d) by (nonlinear_arith)
        requires
            n == 2 * step * rate + (1_000_000 + rate),
            d == 2 * (1_000_000 + rate),
            1 <= step,
            0 <= rate <= 1_000_000,
    ;
    vstd::arithmetic::div_mod::lemma_div_is_ordered(0, n, d);
    vstd::arithmetic::div_mod::lemma_div_is_ordered(n, step * d, d);
    vstd::arithmetic::div_mod::lemma_div_by_multiple(step, d);
}

/// The draft counters after a tick of decode.
fn add_drafts(m: SpecMetrics, drafts: bool, step: usize, rate: u64) -> (r: SpecMetrics)
    requires
        1 <= step <= 1_000_000,
        rate <= micro::ONE,
    ensures
        r == drafted(m, drafts, step, rate),
{
    let mut m = m;
    proof {
        lemma_accepted(step as int, rate as int);
        assert(0 <= 2 * step * rate <= 2 * 1_000_000 * 1_000_000) by (nonlinear_arith)
            requires
                1 <= step <= 1_000_000,
                0 <= rate <= 1_000_000,
        ;
    }
    let accepted: u64 = (2 * step as u64 * rate + (1_000_000 + rate)) / (2 * (1_000_000 + rate));
    let steps: u64 = step as u64 - accepted;
    if drafts {
        m.verify_steps = m.verify_steps.saturating_add(steps);
        m.draft_tokens = m.draft_tokens.saturating_add(steps);
        m.accepted = m.accepted.saturating_add(
            if accepted < steps {
                accepted
            } else {
                steps
            },
        );
        m.n_decode = m.n_decode.saturating_add(steps);
    } else {
        m.n_decode = m.n_decode.saturating_add(step as u64);
    }
    m.tokens_predicted = m.tokens_predicted.saturating_add(step as u64);
    m
}

impl DemoServer {
    /// A tick of decode.
    fn decode(&mut self, gen: usize, base_tps: u64, ticks: u64, wobble: u64, rate: u64) -> (r: Tick)
        requires
            old(self).wf(),
            old(self).stage == (Stage::Decode { gen, base_tps, ticks }),
            old(self).decoded < gen,
            wobble <= 2 * micro::ONE,
            rate <= micro::ONE,
        ensures
            (*final(self), r) == old(self).decoding(gen, base_tps, ticks, wobble, rate),
            final(self).wf(),
            r.load <= micro::ONE,
    {
        let left: u64 = 6 * gen as u64 - self.decoded as u64;
        assert(0 <= base_tps * wobble <= 12_500_000_000 * 2_000_000) by (nonlinear_arith)
            requires
                0 <= base_tps <= 12_500_000_000,
                0 <= wobble <= 2_000_000,
        ;
        let fast: u64 = base_tps * wobble / 1_000_000;
        assert(0 <= fast * left <= 25_000_000_000 * 3240) by (nonlinear_arith)
            requires
                0 <= fast <= 25_000_000_000,
                0 <= left <= 3240,
        ;
        let whole: u64 = 6 * gen as u64;
        assert(fast * left / whole as int <= 25_000_000_000 * 3240) by (nonlinear_arith)
            requires
                0 <= fast * left <= 25_000_000_000 * 3240,
                whole >= 1,
        ;
        let tps: u64 = fast * left / whole;
        assert(tps == decode_rate(base_tps, wobble, self.decoded, gen));
        let n: u64 = (tps / 5 + 500_000) / 1_000_000;
        let step: usize = if n > 1 {
            n as usize
        } else {
            1
        };
        assert(tps <= 25_000_000_000) by (nonlinear_arith)
            requires
                tps == fast * left / whole as int,
                0 <= fast <= 25_000_000_000,
                0 <= left <= whole,
                whole >= 1,
        ;
        let before: usize = self.decoded;
        self.decoded = if before + step < gen {
            before + step
        } else {
            gen
        };
        self.stage = Stage::Decode { gen, base_tps, ticks: ticks + 1 };
        self.spec = add_drafts(self.spec, self.drafts, step, rate);
        let part: u64 = micro::share_of(tps * 10, micro::max(base_tps, 1) * 13);
        Tick {
            load: 550_000 + part * 35 / 100,
            cold: false,
            routed: self.decoded - before,
            reports: true,
        }
    }

    /// One tick of the server. `wobble` is how its rate swings around the base
    /// rate, and `rate` the share of drafts that are accepted.
    pub fn tick(&mut self, wobble: u64, rate: u64) -> (r: Tick)
        requires
            old(self).wf(),
            wobble <= 2 * micro::ONE,
            rate <= micro::ONE,
        ensures
            (*final(self), r) == old(self).ticked(wobble, rate),
            final(self).wf(),
            r.load <= micro::ONE,
    {
        let mut cold = false;
        match self.stage {
            Stage::Idle { left } => {
                if left == 0 {
                    cold = self.prompt();
                }
            },
            Stage::Prefill { tps } => {
                if self.prompt_processed >= self.prompt_tokens {
                    self.generate();
                }
            },
            Stage::Decode { gen, base_tps, ticks } => {
                if self.decoded >= gen {
                    self.stage = Stage::End;
                }
            },
            Stage::End => {
                self.rest();
            },
        }
        match self.stage {
            Stage::Idle { left } => {
                self.stage = Stage::Idle {
                    left: if left > 0 {
                        left - 1
                    } else {
                        0
                    },
                };
                Tick { load: 20_000, cold, routed: 0, reports: true }
            },
            Stage::Prefill { tps } => {
                let routed: usize = self.prefill(tps);
                Tick { load: 950_000, cold, routed, reports: true }
            },
            Stage::Decode { gen, base_tps, ticks } => self.decode(
                gen,
                base_tps,
                ticks,
                wobble,
                rate,
            ),
            Stage::End => {
                self.cache_tokens = self.prompt_tokens + self.decoded;
                self.processing = false;
                self.prompt_processed = 0;
                Tick { load: 200_000, cold, routed: 0, reports: false }
            },
        }
    }

    /// The server's state as it reports it.
    pub fn live(&self) -> (r: LiveStats)
        ensures
            r.ctx_max == self.ctx_max,
            r.prompt_tokens == self.prompt_tokens,
            r.prompt_processed == self.prompt_processed,
            r.cache_tokens == self.cached,
            r.decoded == self.decoded,
            r.processing == self.processing,
            r.id_task == (if self.prompt_tokens > 0 {
                self.id_task
            } else {
                0
            }),
            r.spec_types@ == (if self.drafts {
                "none,draft-mtp"@
            } else {
                "none"@
            }),
            r.n_slots == 1,
            r.slots_busy == (if self.processing {
                1int
            } else {
                0
            }),
            r.itl_sum == 0,
    {
        LiveStats {
            ctx_max: self.ctx_max,
            prompt_tokens: self.prompt_tokens,
            prompt_processed: self.prompt_processed,
            cache_tokens: self.cached,
            decoded: self.decoded,
            processing: self.processing,
            // No task has run before the first prompt.
            id_task: if self.prompt_tokens > 0 {
                self.id_task
            } else {
                0
            },
            spec_types: if self.drafts {
                "none,draft-mtp".to_owned()
            } else {
                "none".to_owned()
            },
            n_slots: 1,
            slots_busy: if self.processing {
                1
            } else {
                0
            },
            itl_sum: 0,
        }
    }
}

/// A server goes on: a tick of prefill or of decode moves its counter, up to the
/// end of the prompt or of the answer.
pub proof fn servers_go_on(server: DemoServer, wobble: u64, rate: u64)
    requires
        server.wf(),
        wobble <= 2 * micro::ONE,
        rate <= micro::ONE,
    ensures
        ({
            let (next, tick) = server.ticked(wobble, rate);
            match server.stage {
                Stage::Prefill { tps } => server.prompt_processed < server.prompt_tokens
                    ==> server.prompt_processed < next.prompt_processed <= server.prompt_tokens
                    && tick.routed == next.prompt_processed - server.prompt_processed,
                Stage::Decode { gen, base_tps, ticks } => server.decoded < gen ==> server.decoded
                    < next.decoded <= gen && tick.routed == next.decoded - server.decoded,
                _ => true,
            }
        }),
{
    match server.stage {
        Stage::Prefill { tps } => {
            let bits = generator::drawn(generator::next_seed(server.seed));
            let f = 850_000 + generator::part_of(bits, 300_000);
            generator::parts_are_within(bits, 300_000);
            let n = tps * f / 5_000_000_000_000;
            assert(0 <= tps * f <= 12_500_000_000 * 1_150_000) by (nonlinear_arith)
                requires
                    0 <= tps <= 12_500_000_000,
                    0 <= f <= 1_150_000,
            ;
            assert(prefill_step(tps, bits) >= 1);
        },
        Stage::Decode { gen, base_tps, ticks } => {
            let fast = base_tps * wobble / 1_000_000;
            let left = 6 * gen - server.decoded;
            let whole = 6 * gen;
            assert(0 <= base_tps * wobble <= 12_500_000_000 * 2_000_000) by (nonlinear_arith)
                requires
                    0 <= base_tps <= 12_500_000_000,
                    0 <= wobble <= 2_000_000,
            ;
            if server.decoded < gen {
                assert(0 <= fast * left / whole <= 25_000_000_000) by (nonlinear_arith)
                    requires
                        0 <= fast <= 25_000_000_000,
                        0 <= left <= whole,
                        whole >= 1,
                ;
                assert(decode_step(decode_rate(base_tps, wobble, server.decoded, gen)) >= 1);
            }
        },
        _ => {},
    }
}

} // verus!
