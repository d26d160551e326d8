use llm_visuals::config::ViewMode;
use llm_visuals::dashboard::{
    fade_sample_from_live, idle_sample, key_action, moe_experts, routing_update, Action, Endpoint,
    Key, Pulse, Session, BACK_OFF,
};
use llm_visuals::demo::{demo_model, demo_models};
use llm_visuals::float::Single;
use llm_visuals::gpu::GpuStats;
use llm_visuals::llm::LlmEvent;
use llm_visuals::observe::{ExpertLayer, ExpertStats, LiveStats};
use llm_visuals::perf::{PerfTracker, Phase};
use llm_visuals::pipeline::AttentionWeight;

fn single(x: f32) -> Single {
    Single::from_bits(x.to_bits())
}

fn gpu(index: u32, util: i64, used: u64, total: u64) -> GpuStats {
    GpuStats {
        index,
        utilization_gpu: single(util as f32),
        mem_used_mb: used,
        mem_total_mb: total,
        ..Default::default()
    }
}

#[test]
fn a_frame_of_a_split_model() {
    let m = demo_model(32_768);
    let gpus = vec![gpu(0, 50, 6_000, 8_000), gpu(1, 3, 10_000, 12_000)];
    let live = LiveStats {
        ctx_max: 1000,
        prompt_processed: 300,
        decoded: 50,
        processing: true,
        ..Default::default()
    };
    let s = fade_sample_from_live(Some(&m), &gpus, &live, 350, 10, Some(8_388_608_000));
    assert_eq!(s.layer_gpu.len(), 41);
    assert_eq!((s.layer_gpu[0], s.layer_gpu[25], s.layer_gpu[40]), (0, 0, 1));
    assert_eq!((s.layer_target[0], s.layer_target[40]), (500_000, 80_000));
    // The middles of the first four buckets are 50, 150, 250 and 350.
    assert_eq!(
        s.kv_filled,
        vec![true, true, true, true, false, false, false, false, false, false]
    );
    assert_eq!(s.token_step, 350);
    assert_eq!(s.gpu_util, vec![single(50.0), single(3.0)]);
    assert_eq!(s.gpu_vram[0], 75_000_000);
    // 8000 MB of weights, 63 % of them on the first card of 8000 MB.
    assert_eq!(s.weight_frac[0], 630_000);
    assert_eq!(s.kv_alloc_frac[0], 120_000);
    assert_eq!(s.weight_frac[0] + s.kv_alloc_frac[0], 750_000);
    assert_eq!((s.n_experts, s.n_experts_used, s.n_heads), (256, 8, 16));
    assert_eq!((s.ctx_used, s.ctx_max), (350, 1000));
}

#[test]
fn a_frame_of_negative_readings() {
    let mut m = demo_model(32_768);
    m.tensor_split = vec![single(-1.0), single(2.0)];
    let gpus = vec![gpu(0, -5, 4_000, 8_000), gpu(1, 60, 6_000, 8_000)];
    let live = LiveStats { processing: true, ..Default::default() };
    let s = fade_sample_from_live(Some(&m), &gpus, &live, 0, 1, Some(1_048_576_000));
    assert!(s.layer_gpu.iter().all(|d| *d == 1));
    assert_eq!(s.gpu_util, vec![single(-5.0), single(60.0)]);
    // The proportions add up to one, so the second card is to hold twice the file.
    assert_eq!(s.weight_frac, vec![0, 250_000]);
    assert_eq!(s.kv_alloc_frac, vec![500_000, 500_000]);
    assert!(s.routing.is_none());
    m.tensor_split = vec![single(2.0), single(-1.0)];
    let s = fade_sample_from_live(Some(&m), &gpus, &live, 0, 1, None);
    assert!(s.layer_gpu.iter().all(|d| *d == 0));
    assert!(s.layer_target.iter().all(|t| *t == 80_000));
    // No layer ends within a sum that is no number.
    m.tensor_split = vec![single(1.0), single(f32::NAN), single(9.0)];
    let s = fade_sample_from_live(Some(&m), &gpus, &live, 0, 1, None);
    assert!(s.layer_gpu.iter().all(|d| *d == 0));
    m.tensor_split = vec![single(f32::NAN), single(1.0), single(9.0)];
    let s = fade_sample_from_live(Some(&m), &gpus, &live, 0, 1, None);
    assert!(s.layer_gpu.iter().all(|d| *d == 2));
}

#[test]
fn a_frame_of_nothing() {
    let s = fade_sample_from_live(None, &[], &LiveStats::default(), 0, 2, None);
    assert_eq!(s.layer_target, vec![0]);
    assert_eq!(s.layer_gpu, vec![0]);
    assert_eq!(s.gpu_util, vec![single(0.0)]);
    assert_eq!(s.weight_frac, vec![0]);
    assert_eq!(s.ctx_max, 1);
    assert_eq!(s.kv_filled, vec![true, true]);
    assert_eq!((s.n_experts, s.n_experts_used, s.n_heads), (1, 1, 1));
}

#[test]
fn weights_take_no_more_than_is_used() {
    let mut m = demo_models(32_768, 2).remove(1);
    m.path = None;
    // The process holds 6400 MB; the card shows 1000 of 8000 MB in use.
    let s = fade_sample_from_live(Some(&m), &[gpu(2, 0, 1000, 8000)], &LiveStats::default(), 0, 0, None);
    assert_eq!(s.weight_frac, vec![0, 0, 125_000]);
    assert_eq!(s.kv_alloc_frac, vec![0, 0, 0]);
    let s = fade_sample_from_live(Some(&m), &[gpu(0, 0, 8000, 8000), gpu(1, 0, 5, 0)], &LiveStats::default(), 0, 0, None);
    assert_eq!(s.weight_frac, vec![400_000, 0]);
    assert_eq!(s.kv_alloc_frac, vec![600_000, 0]);
}

#[test]
fn keys_and_what_they_ask_for() {
    assert_eq!(key_action(Key::Esc, false), Action::Quit);
    assert_eq!(key_action(Key::Char('q'), true), Action::Quit);
    assert_eq!(key_action(Key::Char('a'), false), Action::Show(ViewMode::All));
    assert_eq!(key_action(Key::Char('p'), false), Action::Show(ViewMode::Perf));
    assert_eq!(key_action(Key::Char('h'), false), Action::Show(ViewMode::Heatmap));
    assert_eq!(key_action(Key::Char('m'), false), Action::Show(ViewMode::MoE));
    assert_eq!(key_action(Key::Char('r'), false), Action::Rescan);
    assert_eq!(key_action(Key::Char('r'), true), Action::Nothing);
    assert_eq!(key_action(Key::Char('t'), true), Action::NextTheme);
    assert_eq!(key_action(Key::Char('Q'), true), Action::Nothing);
    assert_eq!(key_action(Key::Other, true), Action::Nothing);
}

#[test]
fn endpoints_are_forgiven_twice() {
    let mut e = Endpoint::new();
    e.answered(false);
    e.answered(true);
    e.answered(false);
    assert!(e.open);
    e.answered(false);
    assert!(!e.open);
    e.reset();
    assert!(e.open);
    assert_eq!(e.misses, 0);
}

#[test]
fn lost_servers_are_asked_more_rarely() {
    const POLL: u64 = 200_000_000;
    let mut p = Pulse::new();
    let mut lost: Vec<bool> = Vec::new();
    for ok in [false, false, true, false, false, false, false, true] {
        p.polled(ok);
        lost.push(p.is_lost());
        assert_eq!(p.wait(POLL), if p.is_lost() { 2_000_000_000 } else { POLL });
        assert_eq!(p.wait(2 * BACK_OFF), 2 * BACK_OFF);
    }
    assert_eq!(lost, vec![false, false, false, false, false, true, true, false]);
}

#[test]
fn lost_servers_are_shown_idle() {
    let busy = LiveStats {
        ctx_max: 4096,
        prompt_tokens: 10,
        prompt_processed: 10,
        cache_tokens: 2,
        decoded: 40,
        processing: true,
        id_task: 3,
        spec_types: "draft-mtp".into(),
        n_slots: 2,
        slots_busy: 1,
        itl_sum: 5,
    };
    let mut perf = PerfTracker::new(0);
    perf.observe(&LiveStats { decoded: 10, ..busy.clone() }, 1_000_000_000);
    perf.observe(&busy, 2_000_000_000);
    assert!(perf.decode_tps > 0);
    let idle = idle_sample(&busy);
    assert!(!idle.processing);
    assert_eq!((idle.slots_busy, idle.n_slots, idle.itl_sum), (0, 2, 0));
    assert_eq!((idle.ctx_max, idle.decoded, idle.id_task), (4096, 40, 3));
    assert_eq!((idle.prompt_tokens, idle.prompt_processed, idle.cache_tokens), (10, 10, 2));
    assert_eq!(idle.spec_types, "draft-mtp");
    perf.observe(&idle, 3_000_000_000);
    assert_eq!(perf.phase, Phase::Idle);
    assert_eq!(perf.decode_tps, 0);
    assert!(perf.current.is_none());
}

#[test]
fn only_new_routings_flash() {
    let layer = |il: usize, n: i32| ExpertLayer {
        il,
        n_tokens: 9,
        tokens: (0..n).map(|i| vec![i, i + 10]).collect(),
        recent: vec![],
    };
    let e = ExpertStats {
        n_expert: 64,
        n_expert_used: 2,
        n_tokens: 9,
        window: 256,
        layers: vec![layer(3, 4), layer(5, 0), layer(7, 1)],
    };
    assert_eq!(
        routing_update(&e, 7),
        vec![(3, vec![vec![2, 12], vec![3, 13]]), (7, vec![vec![0, 10]])]
    );
    assert!(routing_update(&e, 9).is_empty());
    assert!(routing_update(&e, 90).is_empty());
    assert_eq!(routing_update(&e, 0)[0].1.len(), 4);
}

#[test]
fn sessions_start_with_a_status() {
    let m = demo_model(32_768);
    let s = Session::new(Some(&m), false, 3);
    assert_eq!((s.num_layers, s.num_heads, s.ctx_max), (41, 16, 32_768));
    assert_eq!(
        s.status,
        "attached to Qwen3-Demo-35B-A3B (PID 4242 · llama.cpp · GPU 0,1 · 18900 MB)"
    );
    assert!(!s.is_over());
    let s = Session::new(Some(&m), true, 3);
    assert_eq!(s.status, "demo: synthetic server, two synthetic GPUs");
    let s = Session::new(None, false, 3);
    assert_eq!(
        s.status,
        "no running LLM found (nvidia-smi / llama-server / ollama) — press r to rescan"
    );
    let mut m = m;
    m.ctx_max = None;
    if let Some(g) = &mut m.gguf {
        g.ctx_train = 77;
    }
    assert_eq!(Session::new(Some(&m), false, 3).ctx_max, 77);
}

#[test]
fn rescans_take_over() {
    let mut s = Session::new(None, false, 3);
    s.rescanned(None);
    assert_eq!(s.status, "re-scan: no running LLMs");
    let m = demo_models(32_768, 2).remove(1);
    s.rescanned(Some(&m));
    assert_eq!(
        s.status,
        "re-scanned: attached to Llama-Demo-8B-Instruct (PID 4243 · llama.cpp · GPU 0 · 6400 MB)"
    );
    assert_eq!((s.num_layers, s.num_heads, s.ctx_max), (32, 32, 8192));
}

#[test]
fn events_change_a_session() {
    let mut s = Session::new(None, false, 1);
    s.handle(LlmEvent::Status("loading".into()));
    assert_eq!(s.status, "loading");
    s.handle(LlmEvent::ModelInfo { num_layers: 12, num_heads: 8, ctx_max: 0, model: "gpt2".into() });
    assert_eq!(s.status, "loaded gpt2 (12L × 8H, ctx 0)");
    s.handle(LlmEvent::ModelInfo { num_layers: 12, num_heads: 8, ctx_max: 1024, model: "gpt2".into() });
    assert_eq!(s.status, "loaded gpt2 (12L × 8H, ctx 1024)");
    let weight = |query_pos| AttentionWeight {
        layer: 1,
        head: 2,
        query_pos,
        key_pos: 0,
        weight: Single::from_bits(0.5f32.to_bits()),
    };
    s.handle(LlmEvent::Attention(weight(0)));
    s.handle(LlmEvent::Attention(weight(1)));
    s.handle(LlmEvent::Token { index: 0, text: "Once".into() });
    s.handle(LlmEvent::Token { index: 1, text: " upon".into() });
    s.handle(LlmEvent::Token { index: 2, text: " a".into() });
    assert_eq!(s.generated.to_string(), "Once upon a");
    assert_eq!(s.attention.iter().count(), 1, "the window holds one column");
    assert_eq!(s.attention.iter().next().unwrap().token_index, 1);
    s.handle(LlmEvent::Error("broken".into()));
    assert_eq!(s.status, "error: broken");
    assert!(s.is_over());
    s.handle(LlmEvent::Done { tokens_generated: 3 });
    assert_eq!(s.status, "done — generated 3 tokens");
    assert!(!s.is_over());
}

#[test]
fn experts_on_the_panel() {
    let models = demo_models(32_768, 2);
    assert_eq!(moe_experts(Some(&models[0]), 4), 8);
    assert_eq!(moe_experts(Some(&models[1]), 4), 4);
    assert_eq!(moe_experts(None, 5), 5);
}
