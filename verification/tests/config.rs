use llm_visuals::config::{Args, ViewMode};

#[test]
fn view_modes_by_name() {
    assert_eq!(ViewMode::default(), ViewMode::All);
    assert_eq!(ViewMode::All.label(), "dashboard");
    assert_eq!(ViewMode::Perf.label(), "perf");
    assert_eq!(ViewMode::Heatmap.label(), "layers");
    assert_eq!(ViewMode::MoE.label(), "moe");
}

#[test]
fn default_arguments() {
    let a = Args::default();
    assert_eq!(a.model, "auto");
    assert_eq!(a.prompt, "Once upon a time");
    assert_eq!(a.max_tokens, 64);
    assert_eq!(a.theme, "defrag");
    assert_eq!(a.window, 80);
    assert_eq!(a.moe_experts, 4);
    assert!(a.auto_detect());
    assert!(a.gpu_indices().is_empty());
    assert_eq!(a.poll_nanos(), 200_000_000);
}

#[test]
fn detection_on_request() {
    let a = Args { model: "gpt2".into(), ..Default::default() };
    assert!(!a.auto_detect());
    let a = Args { detect_auto: true, ..a };
    assert!(a.auto_detect());
}

#[test]
fn gpu_lists() {
    let list = |s: &str| Args { gpu: s.into(), ..Default::default() }.gpu_indices();
    assert_eq!(list("0, 2,x,,+1 "), vec![0, 2, 1]);
    assert_eq!(list("none"), Vec::<usize>::new());
    assert_eq!(list("99999999999999999999,7"), vec![7]);
}

#[test]
fn polls_are_not_too_frequent() {
    let ms = |n: u64| Args { poll_ms: n, ..Default::default() }.poll_nanos();
    assert_eq!(ms(0), 50_000_000);
    assert_eq!(ms(51), 51_000_000);
    assert_eq!(ms(u64::MAX), u64::MAX);
}

#[test]
fn where_the_bridge_is() {
    let local = "src/llm/python_bridge.py".to_string();
    let installed = "/opt/x/src/llm/python_bridge.py".to_string();
    let beside = "/usr/bin/python_bridge.py".to_string();
    let places = Args::bridge_places("/opt/x", "/usr/bin");
    assert_eq!(places, vec![local.clone(), installed.clone(), beside.clone()]);
    assert_eq!(Args::bridge_places("/opt/x/", "/usr/bin/"), places);
    let a = Args::default();
    let script = |existing: &[String]| a.bridge_script("/opt/x", "/usr/bin", existing);
    assert_eq!(script(&places), local);
    assert_eq!(script(&[beside.clone(), installed.clone()]), installed);
    assert_eq!(script(&[beside.clone()]), beside);
    assert_eq!(script(&[]), local);
    let a = Args { bridge: Some("b.py".into()), ..Default::default() };
    assert_eq!(a.bridge_script("/opt/x", "/usr/bin", &places), "b.py");
}
