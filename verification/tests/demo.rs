use llm_visuals::demo::{
    demo_model, demo_models, host_for_model, profile, DemoExperts, DemoHost, DemoServer,
    DemoShared, Stage, FAVOURED,
};
use llm_visuals::generator::{below, draw, part, part_from};
use llm_visuals::host::HostSample;

#[test]
fn servers_of_the_demo() {
    let list = demo_models(32_768, 6);
    assert_eq!(list.len(), 6);
    let names: Vec<&str> = list.iter().map(|m| m.name.as_str()).collect();
    assert_eq!(
        names,
        vec![
            "Qwen3-Demo-35B-A3B",
            "Llama-Demo-8B-Instruct",
            "Gemma-Demo-2B",
            "Mixtral-Demo-8x7B",
            "Qwen3-Demo-35B-A3B#2",
            "Llama-Demo-8B-Instruct#2",
        ]
    );
    assert_eq!(list[5].pid, 4247);
    assert_eq!(list[5].port, Some(8085));
    assert_eq!(list[5].cmdline, "llama-server --demo --port 8085");
    assert_eq!(list[1].ctx_max, Some(8192));
    assert_eq!(list[2].ctx_max, Some(4096), "12 % would be less than 4096");
    assert_eq!(list[0].spec_type.as_deref(), Some("draft-mtp"));
    assert_eq!(list[1].spec_type, None);
    assert_eq!(list[0].gguf.as_ref().unwrap().name, "Qwen3 Demo 35B A3B");
    let t = list[0].tensors.as_ref().unwrap();
    assert_eq!(t.block_bytes.len(), 41);
    assert_eq!(t.block_bytes[7], 19_800_000_000 / 41);
    assert_eq!(demo_models(32_768, 0).len(), 1);
    assert_eq!(demo_model(32_768).name, names[0]);
    assert_eq!(profile(3).decode_tps, 31);
    assert_eq!(profile(4).name, profile(0).name);
}

#[test]
fn a_server_goes_through_its_stages() {
    let mut s = DemoServer::new(0, 32_768, 1);
    let mut seen = Vec::new();
    let mut served = 0;
    let mut last = s.id_task;
    for _ in 0..2000 {
        let before = s;
        let t = s.tick(1_000_000, 620_000);
        let kind = match s.stage {
            Stage::Idle { .. } => 'i',
            Stage::Prefill { .. } => 'p',
            Stage::Decode { .. } => 'd',
            Stage::End => 'e',
        };
        if seen.last() != Some(&kind) {
            seen.push(kind);
        }
        let live = s.live();
        match kind {
            'i' => {
                assert_eq!((t.load, t.routed), (20_000, 0));
                assert!(!live.processing);
            }
            'p' => {
                assert_eq!(t.load, 950_000);
                assert!(live.prompt_processed <= live.prompt_tokens);
                assert_eq!(live.decoded, 0);
                assert!(t.routed >= 1);
            }
            'd' => {
                assert_eq!(t.routed, s.decoded - before.decoded);
                assert!(t.load >= 550_000 && t.load <= 900_000);
            }
            _ => {
                assert_eq!(t.load, 200_000);
                assert!(!t.reports);
                assert_eq!(s.cache_tokens, s.prompt_tokens + s.decoded);
                served += 1;
            }
        }
        assert!(s.id_task == last || s.id_task == last + 1);
        last = s.id_task;
        assert!(s.spec.accepted <= s.spec.draft_tokens);
        assert!(s.spec.tokens_predicted >= s.spec.accepted + s.spec.verify_steps);
    }
    assert_eq!(seen[..6], ['i', 'p', 'd', 'e', 'i', 'p']);
    assert!(served > 5);
    assert!(s.spec.draft_tokens > 0);
}

#[test]
fn servers_without_drafts_count_decodes_only() {
    let mut s = DemoServer::new(1, 8192, 0);
    for _ in 0..500 {
        s.tick(1_000_000, 620_000);
    }
    assert_eq!(s.spec.draft_tokens, 0);
    assert_eq!(s.spec.n_decode, s.spec.tokens_predicted);
    assert_eq!(s.live().spec_types, "none");
    assert_eq!(s.live().n_slots, 1);
}

#[test]
fn small_contexts_get_small_prompts() {
    let mut s = DemoServer::new(2, 500, 0);
    for _ in 0..400 {
        s.tick(1_000_000, 0);
        assert!(s.prompt_tokens <= 64);
    }
}

#[test]
fn routings_are_distinct_experts() {
    let mut e = DemoExperts::new(3, 16, 4);
    let seed = e.route(300, 42);
    assert_ne!(seed, 42);
    assert_eq!(e.stats.n_tokens, 300);
    for l in &e.stats.layers {
        assert_eq!(l.n_tokens, 300);
        assert_eq!(l.tokens.len(), 16);
        for ids in &l.tokens {
            assert_eq!(ids.len(), 4);
            for (i, a) in ids.iter().enumerate() {
                assert!((0..16).contains(a));
                assert!(!ids[i + 1..].contains(a));
            }
        }
        let total: u32 = l.recent.iter().sum();
        assert_eq!(total, 256 * 4, "the window holds 256 tokens");
    }
    let mut again = DemoExperts::new(3, 16, 4);
    assert_eq!(again.route(300, 42), seed);
    let mut all = DemoExperts::new(1, 2, 2);
    all.route(5, 1);
    assert_eq!(all.stats.layers[0].recent, vec![5, 5]);
}

#[test]
fn histograms_count_the_window() {
    let mut e = DemoExperts::new(2, 8, 3);
    let mut seed = 9;
    for total in [10u64, 110, 310] {
        let more = (total - e.stats.n_tokens) as usize;
        seed = e.route(more, seed);
        let held = total.min(256) as u32;
        for l in &e.stats.layers {
            assert_eq!(l.recent.iter().sum::<u32>(), 3 * held);
            assert_eq!(l.tokens.len() as u64, total.min(16));
        }
    }
}

#[test]
fn every_expert_can_be_needed() {
    // With all experts chosen, each draw goes on until the last one has come up.
    let mut e = DemoExperts::new(2, 400, 400);
    e.route(2, 77);
    for l in &e.stats.layers {
        assert_eq!(l.recent, vec![2; 400]);
        let mut ids = l.tokens[1].clone();
        ids.sort();
        assert_eq!(ids, (0..400).collect::<Vec<i32>>());
    }
    let mut seed: u64 = 5;
    assert_eq!(draw(&mut seed), (5u64.wrapping_mul(6364136223846793005) + 1) >> 32);
}

fn next_f(seed: &mut u64) -> f32 {
    *seed = seed.wrapping_mul(6364136223846793005).wrapping_add(1);
    ((*seed >> 32) as u32 as f32) / (u32::MAX as f32)
}

#[test]
fn draws_in_single_precision() {
    let mut seed: u64 = 31;
    let mut tried: Vec<u32> = vec![0, 1, 0xffff_ff7f, 0xffff_ff80, u32::MAX, 0x5999_9980, 0x5999_9999];
    tried.extend([0x7fff_ffbf, 0x7fff_ffc0, 0x3fff_ffdf, 0x3fff_ffe0, 0x0100_0001, 0x0100_0003]);
    for _ in 0..2000 {
        tried.push(draw(&mut seed) as u32);
    }
    for bits in tried {
        let r = bits as f32 / (u32::MAX as f32);
        let b = bits as u64;
        for width in [1u64, 12, 24, 256, 500, 9000, 400_000, 80_000_000] {
            assert_eq!(part(b, width), (r * width as f32) as u64, "{bits} {width}");
        }
        assert_eq!(part_from(400, b, 9000), (400.0 + r * 9000.0) as u64, "{bits}");
        let burst = (240_000_000.0 + 80_000_000.0 * r) as u64;
        assert_eq!(part_from(240_000_000, b, 80_000_000), burst, "{bits}");
        assert_eq!(below(b, 0x8000_0000), r < 0.5, "{bits}");
        assert_eq!(below(b, 0x4000_0000), r < 0.25, "{bits}");
        assert_eq!(below(b, FAVOURED), r < 0.35, "{bits}");
    }
}

#[test]
fn routings_follow_the_draws() {
    let (layers, n, k) = (3usize, 256usize, 8usize);
    let mut e = DemoExperts::new(layers, n, k);
    let mut seed: u64 = 0x9E37_79B9_7F4A_7C15;
    let after = e.route(400, seed);
    let mut latest: Vec<Vec<Vec<i32>>> = vec![vec![]; layers];
    for _ in 0..400 {
        for (il, told) in latest.iter_mut().enumerate() {
            let mut ids: Vec<i32> = vec![];
            while ids.len() < k {
                let r = next_f(&mut seed);
                let id = if next_f(&mut seed) < 0.35 {
                    ((il * 37) % n + (r * 24.0) as usize) % n
                } else {
                    (r * n as f32) as usize % n
                } as i32;
                if !ids.contains(&id) {
                    ids.push(id);
                }
            }
            told.push(ids);
        }
    }
    assert_eq!(after, seed);
    for (l, told) in e.stats.layers.iter().zip(&latest) {
        assert_eq!(l.tokens, told[400 - 16..]);
    }
}

#[test]
fn host_counters_of_the_demo() {
    let mut h = DemoHost::new(2);
    let a = h.step(0, false);
    assert_eq!(a.proc_read_bytes, Some(2_000_000_000));
    assert_eq!(a.pcie_mb_s.len(), 2);
    for (_, rx, tx) in &a.pcie_mb_s {
        assert!((1_700_000..=2_300_000).contains(rx));
        assert_eq!(*tx, rx * 12 / 100);
    }
    h.cold_ticks = 1;
    let b = h.step(1_000_000, true);
    assert_eq!(h.cold_ticks, 0);
    assert!(b.proc_read_bytes.unwrap() >= 2_240_000_000);
    assert!(b.disk_read_bytes.unwrap() > a.disk_read_bytes.unwrap());
    assert!(b.proc_majflt.unwrap() >= 2700);
    assert!(b.pcie_mb_s[1].1 > b.pcie_mb_s[0].1, "the second card sees more");
}

#[test]
fn a_models_own_view_of_the_host() {
    let base = HostSample { pcie_mb_s: vec![(0, 1, 2)], pcie_ok: true, ..Default::default() };
    let s = host_for_model(&base, 1_000_000_000);
    assert_eq!(s.rss_file_bytes, Some(310_000_000));
    assert_eq!(s.rss_bytes, Some(370_000_000));
    assert_eq!(s.pcie_mb_s, vec![(0, 1, 2)]);
    assert!(s.pcie_ok);
}

#[test]
fn shared_cards_follow_every_server() {
    let mut sh = DemoShared::new(2);
    assert_eq!(sh.tick(), (0, false));
    sh.set_load(0, 400_000);
    sh.set_load(1, 200_000);
    sh.set_load(9, 1_000_000);
    sh.set_cold();
    assert_eq!(sh.tick(), (470_000, true));
    sh.set_load(1, 1_000_000);
    assert_eq!(sh.tick(), (1_000_000, true));
    sh.set_cold();
    assert_eq!(sh.cold_ticks, 3);
    for _ in 0..3 {
        assert!(sh.tick().1);
    }
    assert!(!sh.tick().1);
}
