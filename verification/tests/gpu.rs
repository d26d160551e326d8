use llm_visuals::float::Single;
use llm_visuals::gpu::{
    failure_reason, filter_gpus, first_line, parse_csv, read_table, DemoGpu, GpuMonitor, GpuStats,
};

fn value(x: Single) -> f32 {
    f32::from_bits(x.bits)
}

fn single(x: f32) -> Single {
    Single::from_bits(x.to_bits())
}

fn units(n: u64) -> f32 {
    n as f32 / 1e6
}

#[test]
fn parse_real_nvidia_smi_line() {
    let csv = "0, NVIDIA GeForce GTX 1070, 8192, 7885, 307, 26, 12, 148.04, 151.00, 61, 1873, 1911, 3802, 29, 3, 8\n\
               1, Tesla P100-PCIE-12GB, 12288, 11799, 489, 32, 5, 46.44, 250.00, 53, 1189, 1328, 715, [N/A], 3, 16\n";
    let s = parse_csv(csv);
    assert_eq!(s.len(), 2);
    assert_eq!(s[0].clock_sm_mhz, 1873);
    assert_eq!(s[0].clock_sm_max_mhz, 1911);
    assert_eq!(s[0].fan_pct.map(value), Some(29.0));
    assert_eq!(s[0].pcie_width, 8);
    assert_eq!(s[1].fan_pct.map(value), None);
    assert_eq!(s[1].short_name(), "P100");
    assert_eq!(s[0].short_name(), "GTX 1070");
}

#[test]
fn demo_walk_is_bounded() {
    let mut g = DemoGpu::new(1);
    for _ in 0..200 {
        let s = g.step(900_000);
        assert!((0.0..=100.0).contains(&value(s.utilization_gpu)));
        assert!(s.mem_used_mb <= s.mem_total_mb);
        assert!(value(s.power_watts) <= value(s.power_max_watts));
    }
    assert!(value(g.step(900_000).utilization_gpu) > 50.0);
}

#[test]
fn filter_gpus_empty_keeps_all() {
    let stats = vec![DemoGpu::new(0).step(500_000), DemoGpu::new(1).step(500_000)];
    assert_eq!(filter_gpus(stats.clone(), &[]).len(), 2);
    assert_eq!(filter_gpus(stats, &[1]).len(), 1);
}

#[test]
fn filtering_keeps_the_order() {
    let stats: Vec<GpuStats> = [3u32, 0, 2, 1]
        .iter()
        .map(|i| GpuStats { index: *i, ..Default::default() })
        .collect();
    let kept: Vec<u32> = filter_gpus(stats, &[1, 3]).iter().map(|g| g.index).collect();
    assert_eq!(kept, vec![3, 1]);
}

#[test]
fn cells_that_hold_no_number() {
    let s = parse_csv("\n  \nonly, three, cells\n 7 , Card , [N/A], -5, 1e3, nan, 3.5, inf, , [N/A]\r\n");
    assert_eq!(s.len(), 1);
    let g = &s[0];
    assert_eq!(g.index, 7);
    assert_eq!(g.name, "Card");
    assert_eq!(g.mem_total_mb, 0);
    assert_eq!(g.mem_used_mb, 0);
    assert_eq!(g.mem_free_mb, 1000);
    assert!(g.utilization_gpu.is_nan());
    assert_eq!(value(g.utilization_mem), 3.5);
    assert_eq!(value(g.power_watts), f32::INFINITY);
    assert_eq!(value(g.power_max_watts), 1.0);
    assert_eq!(g.temperature, None);
    assert_eq!(g.fan_pct, None);
    assert_eq!(g.pcie_gen, 0);
    assert_eq!(g.vram_percent(), 0);
    assert_eq!(g.clock_frac(), 0);
    assert_eq!(g.power_frac(), 1_000_000);
}

#[test]
fn readings_below_zero() {
    let s = parse_csv("-2, Card, 10.9, 1e1, -0.5, -3, -0.25, -1.5, -7, -4.5, 5000000000, 1, 1, -1");
    let g = &s[0];
    assert_eq!((g.index, g.mem_total_mb, g.mem_used_mb, g.mem_free_mb), (0, 10, 10, 0));
    assert_eq!(value(g.utilization_gpu), -3.0);
    assert_eq!(value(g.utilization_mem), -0.25);
    assert_eq!(value(g.power_watts), -1.5);
    assert_eq!(value(g.power_max_watts), 1.0);
    assert_eq!(g.power_frac(), 0);
    assert_eq!(g.temperature, Some(single(-4.5)));
    assert_eq!(g.fan_pct, Some(single(-1.0)));
    assert_eq!(g.clock_sm_mhz, 5_000_000_000f32 as u64 as u32);
}

#[test]
fn shares_of_a_card() {
    let g = GpuStats {
        mem_total_mb: 8192,
        mem_used_mb: 2048,
        power_watts: single(75.5),
        power_max_watts: single(151.0),
        clock_sm_mhz: 3,
        clock_sm_max_mhz: 4,
        ..Default::default()
    };
    assert_eq!(units(g.vram_percent()), 25.0);
    assert_eq!(units(g.vram_gb()), 2.0);
    assert_eq!(units(g.vram_total_gb()), 8.0);
    assert_eq!(units(g.power_frac()), 0.5);
    assert_eq!(units(g.clock_frac()), 0.75);
    assert_eq!(GpuStats::default().power_frac(), 0);
    assert_eq!(GpuMonitor::new().interval, 200_000_000);
}

#[test]
fn short_names() {
    let name = |s: &str| GpuStats { name: s.into(), ..Default::default() }.short_name();
    assert_eq!(name("NVIDIA A100-SXM4-80GB"), "A100");
    assert_eq!(name("NVIDIA NVIDIA GeForce RTX 4090 "), "RTX 4090");
    assert_eq!(name(""), "");
}

#[test]
fn failures_in_their_own_words() {
    assert_eq!(
        failure_reason(b"\n  \nFailed to initialize NVML\nmore", b"output"),
        Some("Failed to initialize NVML".into())
    );
    assert_eq!(failure_reason(b" \n", b"output\n"), Some("output".into()));
    assert_eq!(failure_reason(b"", b"\n\n"), None);
    assert_eq!(failure_reason(b"bad \xff byte", b""), Some("bad \u{fffd} byte".into()));
    assert_eq!(first_line(" \r\n x \r\n"), Some(" x ".into()));
}

#[test]
fn tables_are_read_from_bytes() {
    let s = read_table(b"1, Card \xff, 1, 2, 3, 4, 5, 6, 7, 8");
    assert_eq!(s.len(), 1);
    assert_eq!(s[0].name, "Card \u{fffd}");
}

#[test]
fn demo_cards_by_number() {
    let s = DemoGpu::new(0).step(0);
    assert_eq!(s.name, "NVIDIA GeForce GTX 1070");
    assert_eq!(s.mem_total_mb, 8192);
    assert_eq!(s.pcie_width, 8);
    assert!(s.fan_pct.is_some());
    let s = DemoGpu::new(1).step(1_000_000);
    assert_eq!(s.clock_mem_mhz, 715);
    assert_eq!(s.fan_pct, None);
    assert_eq!(DemoGpu::new(7).step(0).name, "GPU 7");
}
