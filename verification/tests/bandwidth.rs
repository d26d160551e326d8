use llm_visuals::bandwidth::{assess, ubatch_from, weight_layout, StageId};
use llm_visuals::float::Single;
use llm_visuals::gguf::TensorSummary;
use llm_visuals::gpu::GpuStats;
use llm_visuals::host::HostSample;
use llm_visuals::observe::LiveStats;
use llm_visuals::perf::{PerfTracker, Phase, WeightLayout};

const MS: u64 = 1_000_000;
const T0: u64 = 5_000_000_000;

fn micros(x: f32) -> u64 {
    (x as f64 * 1e6).round() as u64
}

fn decoding() -> (PerfTracker, u64) {
    let mut p = PerfTracker::new(T0);
    let slot = |d: usize| LiveStats {
        ctx_max: 4096,
        prompt_tokens: 100,
        prompt_processed: 100,
        decoded: d,
        processing: true,
        id_task: 1,
        ..Default::default()
    };
    p.observe(&slot(0), T0);
    p.observe(&slot(10), T0 + 200 * MS);
    (p, T0 + 200 * MS)
}

fn single(x: f32) -> Single {
    Single::from_bits(x.to_bits())
}

fn gpu(util: f32, mem: f32, used_mb: u64) -> GpuStats {
    GpuStats {
        index: 0,
        utilization_gpu: single(util),
        utilization_mem: single(mem),
        mem_total_mb: 24_000,
        mem_used_mb: used_mb,
        pcie_gen: 3,
        pcie_width: 16,
        ..Default::default()
    }
}

#[test]
fn vram_bound_when_memory_controller_saturated() {
    let (mut p, now) = decoding();
    let g = vec![gpu(70.0, 92.0, 20_000)];
    p.observe_gpu(&g, now);
    let v = assess(&p, &g);
    assert_eq!(v.stage, Some(StageId::Vram));
}

#[test]
fn disk_wins_over_everything() {
    let (mut p, now) = decoding();
    let g = vec![gpu(90.0, 95.0, 20_000)];
    p.observe_gpu(&g, now);
    let s = |b: u64| HostSample {
        disk_read_bytes: Some(b),
        ..Default::default()
    };
    p.observe_host(&s(0), now);
    p.observe_host(&s(400_000_000), now + 200 * MS);
    assert_eq!(assess(&p, &g).stage, Some(StageId::Disk));
}

#[test]
fn cpu_side_layers_flagged_when_gpu_idle() {
    let (mut p, now) = decoding();
    let g = vec![gpu(20.0, 15.0, 8_000)];
    p.observe_gpu(&g, now);
    let layout = WeightLayout {
        known: true,
        total_bytes: 25_000_000_000,
        active_bytes: 24_000_000_000,
        cpu_bytes: 6_000_000_000,
        ubatch: 512,
    };
    p.tick_bandwidth(&layout, now, 200 * MS);
    let v = assess(&p, &g);
    assert_eq!(v.stage, Some(StageId::Ram));
    assert!(v.detail.contains("6.0 GB"));
}

#[test]
fn layout_puts_the_remainder_on_the_cpu() {
    let mut m = llm_visuals::demo::demo_model(4096);
    m.tensor_split = vec![];
    m.tensors = Some(TensorSummary {
        total_bytes: 25_000_000_000,
        expert_bytes: 0,
        embd_bytes: 1_000_000_000,
        block_bytes: vec![],
        n_tensors: 1,
    });
    m.cmdline = "llama-server -ub 256".into();
    // Two cards holding 7.8 G and 11.8 G: 12.5 G share each, clamped.
    let gpus = vec![gpu(0.0, 0.0, 7_800), GpuStats { index: 1, ..gpu(0.0, 0.0, 11_800) }];
    let l = weight_layout(Some(&m), &gpus);
    assert!(l.known);
    assert_eq!(l.ubatch, 256);
    let on_gpu = (7_800u64 + 11_800) * 1024 * 1024;
    assert_eq!(l.cpu_bytes, 25_000_000_000 - on_gpu);
    assert_eq!(l.active_bytes, 24_000_000_000);
    assert_eq!(weight_layout(None, &gpus).known, false);
}

#[test]
fn layout_follows_the_proportions() {
    let mut m = llm_visuals::demo::demo_model(4096);
    m.tensor_split = vec![single(63.0), single(37.0)];
    m.tensors = Some(TensorSummary {
        total_bytes: 1_000_000_000,
        expert_bytes: 0,
        embd_bytes: 0,
        block_bytes: vec![],
        n_tensors: 1,
    });
    // The first card has room for its 630 MB, the second for 100 MiB only.
    let gpus = vec![gpu(0.0, 0.0, 7_800), GpuStats { index: 1, ..gpu(0.0, 0.0, 100) }];
    let l = weight_layout(Some(&m), &gpus);
    assert_eq!(l.cpu_bytes, 1_000_000_000 - 630_000_000 - 100 * 1024 * 1024);
    m.n_gpu_layers = Some(0);
    assert_eq!(weight_layout(Some(&m), &gpus).cpu_bytes, 1_000_000_000);
    m.n_gpu_layers = None;
    assert_eq!(weight_layout(Some(&m), &[]).cpu_bytes, 1_000_000_000);
    m.tensors = None;
    let l = weight_layout(Some(&m), &gpus);
    assert!(!l.known);
    assert_eq!(l.ubatch, 512);
}

#[test]
fn ubatch_is_the_first_that_can_be_read() {
    assert_eq!(ubatch_from("llama-server"), 512);
    assert_eq!(ubatch_from("llama-server --ubatch-size 64 -ub 32"), 64);
    assert_eq!(ubatch_from("llama-server --ubatch-size=128"), 128);
    assert_eq!(ubatch_from("llama-server -ub many --ubatch-size=16"), 16);
    assert_eq!(ubatch_from("llama-server -ub"), 512);
}

#[test]
fn verdicts_in_words() {
    let mut p = PerfTracker::new(T0);
    let v = assess(&p, &[]);
    assert_eq!(v.stage, None);
    assert_eq!(v.headline, "idle");
    assert_eq!(v.detail, "send a request to see where the tokens wait");
    let s = |b: u64| HostSample {
        disk_read_bytes: Some(b),
        proc_majflt: Some(b / 1_000_000),
        ..Default::default()
    };
    p.observe_host(&s(0), T0);
    p.observe_host(&s(300_000_000), T0 + 200 * MS);
    let v = assess(&p, &[]);
    assert_eq!(v.stage, Some(StageId::Disk));
    assert_eq!(v.headline, "loading weights from disk");
    assert_eq!(v.detail, "1500 MB/s into the page cache");
    p.phase = Phase::Decode;
    let v = assess(&p, &[]);
    assert_eq!(v.headline, "weights are streaming from DISK every token");
    assert_eq!(
        v.detail,
        "1500 MB/s, 1500 major faults/s — add RAM, a smaller quant, or fewer CPU layers"
    );
    p.phase = Phase::Prefill;
    let v = assess(&p, &[]);
    assert_eq!(v.headline, "paging weights from disk during prefill");
    assert_eq!(v.detail, "1500 MB/s, 1500 major faults/s — the model does not fit in RAM");
}

#[test]
fn prefill_verdicts() {
    let mut p = PerfTracker::new(T0);
    p.phase = Phase::Prefill;
    p.prefill_tps_smooth = 1_234_500_000;
    let v = assess(&p, &[]);
    assert_eq!(v.stage, Some(StageId::Prefill));
    assert_eq!(v.detail, "1234 tok/s ingest");
    let g = vec![gpu(62.0, 15.5, 8_000)];
    p.observe_gpu(&g, T0);
    let v = assess(&p, &g);
    assert_eq!(v.headline, "compute bound: prefill is matmul throughput");
    assert_eq!(v.detail, "GPU 62% busy, memory controller 16%");
    p.bw.layout = WeightLayout {
        known: true,
        total_bytes: 20_000_000_000,
        active_bytes: 2_000_000_000,
        cpu_bytes: 3_250_000_000,
        ubatch: 512,
    };
    let g = vec![gpu(30.0, 10.0, 8_000)];
    let v = assess(&p, &g);
    assert_eq!(v.stage, Some(StageId::Ram));
    assert_eq!(v.detail, "~3.2 GB of weights did not fit in VRAM; GPU only 30% busy");
    p.bw.pcie_rx[0].value = p.bw.pcie_rx[0].scale() * 3 / 4;
    let v = assess(&p, &g);
    assert_eq!(v.stage, Some(StageId::Pcie));
    assert_eq!(v.headline, "PCIe link to GPU 0 is the bound");
    assert_eq!(v.detail, "75% of the link, prompt batches are crossing the bus");
}

#[test]
fn decode_verdicts() {
    let (mut p, now) = decoding();
    let g = vec![gpu(90.0, 40.0, 8_000)];
    p.observe_gpu(&g, now);
    let v = assess(&p, &g);
    assert_eq!(v.stage, Some(StageId::Decode));
    assert_eq!(
        v.detail,
        "GPU 90% busy with the memory controller at 40% — kernels, not bandwidth"
    );
    let g = vec![gpu(50.0, 40.0, 8_000)];
    p.observe_gpu(&g, now);
    let v = assess(&p, &g);
    assert_eq!(v.stage, None);
    assert_eq!(v.headline, "no link saturated");
    assert_eq!(
        v.detail,
        "GPU 50%, memory 40%, PCIe 0% — latency, sampling or host overhead between tokens"
    );
    p.bw.pcie_rx[0].value = p.bw.pcie_rx[0].scale() * 2 / 5;
    let v = assess(&p, &g);
    assert_eq!(v.stage, Some(StageId::Pcie));
    assert_eq!(
        v.detail,
        "40% of the link — weights or activations crossing the bus each token"
    );
}

#[test]
fn streams_make_up_what_a_step_reads() {
    for (i, m) in llm_visuals::demo::demo_models(32_768, 4).iter().enumerate() {
        let gpus = vec![gpu(0.0, 0.0, 900 * i as u64), GpuStats { index: 1, ..gpu(0.0, 0.0, 4_000) }];
        let l = weight_layout(Some(m), &gpus);
        let (ram, vram) = l.per_step();
        assert!(l.cpu_bytes <= l.total_bytes && l.active_bytes <= l.total_bytes);
        assert_eq!(ram + vram, l.active_bytes);
    }
}
