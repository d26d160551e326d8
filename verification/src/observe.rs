//! What an inference server reports of itself.
use vstd::prelude::*;

verus! {

/// The state of a server's slots.
#[derive(Clone, Debug)]
pub struct LiveStats {
    pub ctx_max: usize,
    pub prompt_tokens: usize,
    pub prompt_processed: usize,
    pub cache_tokens: usize,
    pub decoded: usize,
    pub processing: bool,
    pub id_task: i64,
    pub spec_types: String,
    pub n_slots: usize,
    pub slots_busy: usize,
    /// The sum of the times between the tokens of the request, in nanoseconds; 0
    /// where the server does not tell it. A server whose counters move on
    /// completion alone tells it then.
    pub itl_sum: u64,
}

impl Default for LiveStats {
    fn default() -> (r: LiveStats)
        ensures
            r.ctx_max == 0,
            r.prompt_tokens == 0,
            r.prompt_processed == 0,
            r.cache_tokens == 0,
            r.decoded == 0,
            !r.processing,
            r.id_task == 0,
            r.spec_types@ == Seq::<char>::empty(),
            r.n_slots == 0,
            r.slots_busy == 0,
            r.itl_sum == 0,
    {
        LiveStats {
            ctx_max: 0,
            prompt_tokens: 0,
            prompt_processed: 0,
            cache_tokens: 0,
            decoded: 0,
            processing: false,
            id_task: 0,
            spec_types: String::new(),
            n_slots: 0,
            slots_busy: 0,
            itl_sum: 0,
        }
    }
}

/// Cumulative counters of speculative decoding.
#[derive(Clone, Copy, Debug, PartialEq, Eq, Structural)]
pub struct SpecMetrics {
    pub draft_tokens: u64,
    pub accepted: u64,
    pub verify_steps: u64,
    pub n_decode: u64,
    pub tokens_predicted: u64,
}

impl Default for SpecMetrics {
    fn default() -> (r: SpecMetrics)
        ensures
            r == (SpecMetrics {
                draft_tokens: 0,
                accepted: 0,
                verify_steps: 0,
                n_decode: 0,
                tokens_predicted: 0,
            }),
    {
        SpecMetrics {
            draft_tokens: 0,
            accepted: 0,
            verify_steps: 0,
            n_decode: 0,
            tokens_predicted: 0,
        }
    }
}

/// The routing of one MoE layer.
#[derive(Clone, Debug)]
pub struct ExpertLayer {
    pub il: usize,
    pub n_tokens: u64,
    /// The experts of the latest tokens, oldest first.
    pub tokens: Vec<Vec<i32>>,
    /// How often each expert was chosen in the window.
    pub recent: Vec<u32>,
}

/// The routing of all MoE layers.
#[derive(Clone, Debug)]
pub struct ExpertStats {
    pub n_expert: usize,
    pub n_expert_used: usize,
    pub n_tokens: u64,
    pub window: usize,
    pub layers: Vec<ExpertLayer>,
}

} // verus!
