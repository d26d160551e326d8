use llm_visuals::float::Single;
use llm_visuals::gguf::GgufInfo;
use llm_visuals::model_detect::{
    addresses_in, collect_models, engine_from, engine_named, gpu_uuid_index_map, hf_config_topology,
    is_interpreter, is_model_ref, is_self, join_cmdline, looks_like_llm, mentions_engine,
    model_places, names_a_model, names_interpreter, nvidia_compute_apps, parse_cmdline,
    published_port, rank_models, refers_to_model, settle_models, ComputeApp, DetectedModel, HfConfig, ModelFiles,
};

fn single(x: f32) -> Single {
    Single::from_bits(x.to_bits())
}

#[test]
fn parse_llama_server_cmdline() {
    let cmd = "/home/dingo/models/llama.cpp/build/bin/llama-server --model /home/dingo/models/Qwen3.6-35B-A3B-MTP-UD-Q3_K_XL.gguf --alias qwen3.6-35b-a3b --host 0.0.0.0 --port 8080 --n-gpu-layers 99 --tensor-split 63,37 --spec-type draft-mtp --ctx-size 98304";
    let p = parse_cmdline("llama-server", cmd);
    assert_eq!(p.name, "qwen3.6-35b-a3b");
    assert_eq!(p.port, Some(8080));
    assert_eq!(p.ctx_max, Some(98304));
    assert_eq!(p.spec_type.as_deref(), Some("draft-mtp"));
    let split: Vec<f32> = p.tensor_split.iter().map(|s| f32::from_bits(s.bits)).collect();
    assert_eq!(split, vec![63.0, 37.0]);
    assert_eq!(p.engine, "llama.cpp");
    assert!(p.path.unwrap().ends_with("Qwen3.6-35B-A3B-MTP-UD-Q3_K_XL.gguf"));
}

#[test]
fn module_flags_are_not_models() {
    // `-m` after an interpreter runs a module; these are not LLM servers.
    assert!(!looks_like_llm("python3", "/usr/bin/python3 -m http.server 8470", &[]));
    assert!(!looks_like_llm(
        "gjs",
        "/usr/bin/gjs -m /usr/share/gnome-shell/org.gnome.Shell.Notifications",
        &[]
    ));
    assert!(!looks_like_llm(
        "python3",
        "/usr/local/bin/python3 -m uvicorn open_webui.main:app --host 0.0.0.0",
        &[]
    ));
    // A real server naming a weights file still matches.
    assert!(looks_like_llm(
        "llama-server",
        "/opt/bin/llama-server -m /models/Qwen3-4B-Q6_K.gguf -c 8192",
        &[]
    ));
    assert!(looks_like_llm("serve", "./serve --model-path mistralai/Mistral-7B", &[]));
}

#[test]
fn extract_model_equals_form() {
    let p = parse_cmdline("python3", "python3 serve.py --model=gpt2");
    assert_eq!(p.name, "gpt2");
}

#[test]
fn later_options_win() {
    let p = parse_cmdline(
        "/opt/Ollama",
        "x --port 80 --port=nope -c 10 --ctx_size +20 -ngl 5 --tensor_split=1.5,x,.5 --spec_type a -m",
    );
    assert_eq!(p.engine, "ollama");
    assert_eq!(p.name, "Ollama");
    assert_eq!(p.port, Some(11434), "a port that cannot be read is no port");
    assert_eq!(p.ctx_max, Some(20));
    assert_eq!(p.n_gpu_layers, Some(5));
    assert_eq!(p.tensor_split, vec![single(1.5), single(0.5)]);
    let q = parse_cmdline("llama-server", "llama-server --tensor-split -1,2,1e-9,inf");
    assert_eq!(q.tensor_split, vec![single(-1.0), single(2.0), single(1e-9), single(f32::INFINITY)]);
    assert_eq!(p.spec_type.as_deref(), Some("a"));
    assert_eq!(p.path, None);
    let p = parse_cmdline("serve", "serve --port 70000 --alias=a=b --model");
    assert_eq!(p.port, None);
    assert_eq!(p.name, "a=b");
    let p = parse_cmdline("", "llama-server --model ..");
    assert_eq!(p.name, "..");
    assert_eq!(p.port, Some(8080));
}

#[test]
fn engines_by_name() {
    assert_eq!(engine_from("LLAMA-Server", ""), "llama.cpp");
    assert_eq!(engine_from("x", "y/Ollama serve"), "ollama");
    assert_eq!(engine_from("python", "-m vLLM"), "vllm");
    assert_eq!(engine_from("", "sglang"), "sglang");
    assert_eq!(engine_from("exllama", ""), "exllamav2");
    assert_eq!(engine_from("serve", ""), "llm");
    assert_eq!(engine_named("my llama.cpp"), "llama.cpp");
    assert!(mentions_engine("", "x.gguf"));
    assert!(!mentions_engine("VLLM", ""));
}

#[test]
fn interpreters_by_name() {
    assert!(is_interpreter("/usr/bin/Python3.12"));
    assert!(is_interpreter("node.exe"));
    assert!(is_interpreter("C:/x/BASH.EXE"));
    assert!(!is_interpreter("/usr/bin/nodes"));
    assert!(!is_interpreter(".."));
    assert!(names_interpreter("uvx"));
    assert!(!names_interpreter("UV"));
}

#[test]
fn what_a_model_reference_looks_like() {
    let dirs = vec!["/models/qwen".to_string()];
    assert!(is_model_ref("/a/B.GGUF", &[]));
    assert!(is_model_ref("w.safetensors", &[]));
    assert!(!is_model_ref("/models/qwen", &[]));
    assert!(is_model_ref("/models/qwen", &dirs));
    assert!(is_model_ref("org/name", &[]));
    assert!(!is_model_ref("a/b", &[]));
    assert!(is_model_ref("é/b", &[]));
    assert!(!is_model_ref("org/name/x", &[]));
    assert!(is_model_ref("org/na.me", &[]));
    assert!(is_model_ref("Qwen/Qwen2.5-7B-Instruct", &[]));
    assert!(!is_model_ref("o.rg/name", &[]));
    assert!(!is_model_ref("", &[]));
    assert!(refers_to_model("x", ".bin", &[]));
}

#[test]
fn places_to_look_up() {
    let cmd = "serve --model=/a/b -m ./c --model-path org/name --model ~/d.bin";
    assert_eq!(model_places(cmd), vec!["/a/b", "./c"]);
    assert!(names_a_model(cmd, &[]));
    assert!(!names_a_model("serve -m /a/b", &[]));
    assert!(names_a_model("serve -m /a/b", &["/a/b".into()]));
    assert!(!names_a_model("bash -m /a/b", &["/a/b".into()]));
    assert!(model_places("bash -m /a/b").is_empty());
    assert!(!names_a_model("", &[]));
}

#[test]
fn the_dashboard_is_not_a_server() {
    assert!(is_self(7, 7, ""));
    assert!(is_self(1, 7, "/x/llm-visuals --model a"));
    assert!(!is_self(1, 7, "llama-server"));
}

#[test]
fn command_lines_from_raw_arguments() {
    assert_eq!(join_cmdline(b""), None);
    assert_eq!(join_cmdline(b"\0\0"), Some("".into()));
    assert_eq!(join_cmdline(b"llama-server\0-m\0\0a b\0"), Some("llama-server -m a b".into()));
    assert_eq!(join_cmdline(b"x\xff"), Some("x\u{fffd}".into()));
}

#[test]
fn compute_processes_of_the_table() {
    let gpus = gpu_uuid_index_map(b"0, GPU-a\n1, GPU-b\nx, GPU-c\nlonely\n3, GPU-a\n");
    assert_eq!(gpus, vec![("GPU-a".to_string(), 0), ("GPU-b".into(), 1), ("GPU-a".into(), 3)]);
    let apps = nvidia_compute_apps(
        b"GPU-b, 10, llama-server, 7000\n\n  \nGPU-a, 11, vllm, [N/A]\nGPU-x, 12, \xff, 5, more\nGPU-a, -1, x, 1\nshort, 1, x\n",
        &gpus,
    );
    let seen: Vec<(u32, String, u32, u64)> = apps
        .iter()
        .map(|a| (a.pid, a.process_name.clone(), a.gpu_index, a.mem_used_mb))
        .collect();
    assert_eq!(
        seen,
        vec![
            (10, "llama-server".to_string(), 1, 7000),
            (11, "vllm".into(), 3, 0),
            (12, "\u{fffd}".into(), 0, 5),
        ]
    );
}

fn app(pid: u32, name: &str, gpu_index: u32, mem_used_mb: u64) -> ComputeApp {
    ComputeApp { pid, process_name: name.into(), gpu_index, mem_used_mb }
}

fn found() -> Vec<DetectedModel> {
    let apps = vec![
        (app(10, "llama-server", 1, 7000), Some("llama-server -m /m/a.gguf --port 9000".to_string())),
        (app(11, "Xorg", 0, 100), None),
        (app(10, "llama-server", 0, u64::MAX), Some("other".into())),
        (app(10, "llama-server", 1, 1), None),
        (app(12, "vllm", 0, 50), None),
        (app(99, "vllm", 0, 50), None),
    ];
    let table = vec![
        (10, "llama-server".to_string(), "llama-server".to_string()),
        (13, "ollama".into(), "ollama serve".into()),
        (14, "bash".into(), "bash".into()),
        (13, "ollama".into(), "ollama serve".into()),
        (15, "x".into(), "llm-visuals --model a.gguf".into()),
    ];
    collect_models(&apps, &table, 99, &[])
}

#[test]
fn processes_are_listed_once_each() {
    let models = found();
    let pids: Vec<u32> = models.iter().map(|m| m.key()).collect();
    assert_eq!(pids, vec![10, 12, 13]);
    assert_eq!(models[0].gpu_indices, vec![1, 0]);
    assert_eq!(models[0].mem_used_mb, u64::MAX);
    assert_eq!(models[0].port, Some(9000));
    assert_eq!(models[0].name, "a");
    assert_eq!(models[0].cmdline, "llama-server -m /m/a.gguf --port 9000");
    assert_eq!(models[1].cmdline, "vllm");
    assert_eq!(models[2].port, Some(11434));
    assert_eq!(models[2].mem_used_mb, 0);
}

#[test]
fn detection_settles_and_ranks() {
    let models = found();
    assert_eq!(models[0].gguf_path().as_deref(), Some("/m/a.gguf"));
    assert_eq!(models[1].gguf_path(), None);
    let files: Vec<ModelFiles> = models
        .iter()
        .map(|m| ModelFiles {
            info: if m.pid == 10 {
                Some(GgufInfo { name: "Inner".into(), n_layers: 41, ..Default::default() })
            } else {
                None
            },
            tensors: None,
            hf: if m.pid == 12 {
                Some(GgufInfo { n_layers: 40, n_heads: 16, ..Default::default() })
            } else {
                None
            },
        })
        .collect();
    let shown = settle_models(models, files);
    let pids: Vec<u32> = shown.iter().map(|m| m.pid).collect();
    assert_eq!(pids, vec![10, 12], "the idle daemon is hidden");
    assert_eq!(shown[0].gpu_indices, vec![0, 1]);
    assert_eq!(shown[0].name, "a");
    assert_eq!(shown[0].n_layers(), 41);
    assert_eq!(shown[1].n_layers(), 40, "the config of the directory stands in");
    assert_eq!(shown[1].n_heads(), 16);
    assert_eq!(shown[1].n_experts(), 0);
    assert_eq!(shown[1].n_experts_used(), 0);
    assert_eq!(shown[1].ctx_train(), 0);
}

#[test]
fn a_header_names_what_has_no_name() {
    let mut m = found().remove(2);
    assert!(m.is_idle_daemon());
    for (name, want) in [("", "Inner"), ("[kworker]", "Inner"), ("llama-server", "Inner"), ("mine", "mine")] {
        m.name = name.into();
        m.attach_gguf(GgufInfo { name: "Inner".into(), ..Default::default() }, None);
        assert_eq!(m.name, want);
    }
    assert!(!m.is_idle_daemon());
}

#[test]
fn shown_processes_are_listed_once() {
    let gpus = [2u32, 0, 2, 1];
    let apps: Vec<(ComputeApp, Option<String>)> = gpus
        .iter()
        .map(|g| (app(7, "llama-server", *g, 10), Some("llama-server -m /m/a.gguf".to_string())))
        .chain([(app(8, "vllm", 1, 99), None)])
        .collect();
    let table = vec![(7, "llama-server".into(), "llama-server".into())];
    let models = collect_models(&apps, &table, 1, &[]);
    let files = models.iter().map(|_| ModelFiles { info: None, tensors: None, hf: None }).collect();
    let shown = settle_models(models, files);
    let pids: Vec<u32> = shown.iter().map(|m| m.pid).collect();
    assert_eq!(pids, vec![8, 7]);
    assert_eq!(shown[1].gpu_indices, vec![0, 1, 2]);
}

#[test]
fn ranking_by_memory_then_model_then_engine() {
    let base = found().remove(2);
    let with = |pid: u32, mem: u64, path: Option<&str>, engine: &str| {
        let mut m = base.clone();
        m.pid = pid;
        m.mem_used_mb = mem;
        m.path = path.map(|p| p.to_string());
        m.engine = engine.into();
        m
    };
    let list = vec![
        with(1, 0, None, "ollama"),
        with(2, 0, Some("x"), "ollama"),
        with(3, 0, Some("x"), "llm"),
        with(4, 5, None, "ollama"),
        with(5, 0, Some("x"), "vllm"),
        with(6, 0, Some("y"), "sglang"),
        with(7, u64::MAX, None, "llm"),
    ];
    let pids: Vec<u32> = rank_models(list).iter().map(|m| m.pid).collect();
    assert_eq!(pids, vec![7, 4, 5, 6, 3, 2]);
    let idle = vec![with(1, 0, None, "ollama"), with(2, 0, None, "llama.cpp")];
    let pids: Vec<u32> = rank_models(idle).iter().map(|m| m.pid).collect();
    assert_eq!(pids, vec![2, 1], "idle daemons alone stay");
}

#[test]
fn short_names_of_models() {
    let mut m = found().remove(0);
    let mut short = |n: &str| {
        m.name = n.into();
        m.short_name()
    };
    assert_eq!(short("Qwen3-8B-UD-Q4_K_XL"), "Qwen3-8B");
    assert_eq!(short(" models--org/Llama-3-8B-q5-gguf "), "Llama-3-8B");
    assert_eq!(short("Q4"), "Q4");
    assert_eq!(short("gemma-2b-K-M"), "gemma-2b");
    assert_eq!(short("Qwen"), "Qwen");
}

#[test]
fn the_line_that_shows_a_process() {
    let models = found();
    assert_eq!(models[1].to_text(), "vllm (PID 12 · vllm · GPU 0 · 50 MB)");
    assert_eq!(models[2].to_text(), "ollama (PID 13 · ollama · GPU ? · 0 MB)");
    let mut m = models[1].clone();
    m.gpu_indices = vec![0, 1];
    assert_eq!(m.to_text(), "vllm (PID 12 · vllm · GPU 0,1 · 50 MB)");
}

#[test]
fn topology_from_a_config() {
    let flat = HfConfig {
        num_hidden_layers: Some(40),
        num_attention_heads: Some(16),
        num_key_value_heads: None,
        num_experts: Some(256),
        num_experts_per_tok: Some(8),
        max_position_embeddings: Some(262144),
    };
    let info = hf_config_topology(flat, None).unwrap();
    assert_eq!(
        (info.n_layers, info.n_heads, info.n_kv_heads, info.n_experts, info.n_experts_used),
        (40, 16, 16, 256, 8)
    );
    assert_eq!(info.ctx_train, 262144);
    let nothing = HfConfig {
        num_hidden_layers: None,
        num_attention_heads: None,
        num_key_value_heads: None,
        num_experts: None,
        num_experts_per_tok: None,
        max_position_embeddings: None,
    };
    assert_eq!(hf_config_topology(nothing, Some(flat)).unwrap().n_layers, 40);
    assert!(hf_config_topology(nothing, None).is_none());
    // Each field of the text model comes before the wrapper's.
    let text = HfConfig { num_hidden_layers: Some(48), num_experts: Some(0), ..nothing };
    let info = hf_config_topology(flat, Some(text)).unwrap();
    assert_eq!(
        (info.n_layers, info.n_heads, info.n_experts, info.n_experts_used, info.ctx_train),
        (48, 16, 0, 8, 262144)
    );
}

#[test]
fn a_served_directory_is_the_path() {
    let cmd = "/usr/bin/python3 /opt/vllm/bin/vllm serve /models/Qwen3-8B --port 8010";
    let p = parse_cmdline("python3", cmd);
    assert_eq!(p.path.as_deref(), Some("/models/Qwen3-8B"));
    assert_eq!(p.name, "Qwen3-8B");
    assert_eq!(p.port, Some(8010));
    // The program is not what it serves, and neither is an option's value.
    assert_eq!(parse_cmdline("vllm", "/opt/vllm/bin/vllm --port 8010").path, None);
    let cmd = "vllm serve --chat-template /etc/chat.jinja /models/Qwen3-8B";
    assert_eq!(parse_cmdline("vllm", cmd).path.as_deref(), Some("/models/Qwen3-8B"));
    let cmd = "vllm serve /models/a --model /models/b";
    assert_eq!(parse_cmdline("vllm", cmd).path.as_deref(), Some("/models/b"));
}

#[test]
fn servers_in_every_launch_form() {
    for (name, cmd) in [
        ("vllm", "/opt/venv/bin/vllm serve /models/Qwen3-8B"),
        ("python3", "python3 /opt/venv/bin/vllm serve /models/Qwen3-8B"),
        ("pt_main_thread", "python3 -m vllm.entrypoints.openai.api_server --model /models/Qwen3-8B"),
    ] {
        assert!(looks_like_llm(name, cmd, &[]));
        let p = parse_cmdline(name, cmd);
        assert_eq!(p.engine, "vllm");
        assert_eq!(p.path.as_deref(), Some("/models/Qwen3-8B"));
    }
}

#[test]
fn options_in_one_word_or_two() {
    for (flag, value) in [
        ("--model", "/m/a.gguf"),
        ("--alias", "a"),
        ("--port", "9001"),
        ("--ctx-size", "4096"),
        ("--tensor-split", "3,1"),
    ] {
        let two = parse_cmdline("llama-server", &format!("llama-server {flag} {value} -x"));
        let one = parse_cmdline("llama-server", &format!("llama-server {flag}={value} -x"));
        assert_eq!(two.name, one.name);
        assert_eq!(two.path, one.path);
        assert_eq!(two.port, one.port);
        assert_eq!(two.ctx_max, one.ctx_max);
        assert_eq!(two.tensor_split, one.tensor_split);
        assert_eq!(two.engine, one.engine);
    }
}

fn proxy(host_port: u16, ip: &str, container_port: u16) -> String {
    format!(
        "/usr/bin/docker-proxy -proto tcp -host-ip 0.0.0.0 -host-port {host_port} \
         -container-ip {ip} -container-port {container_port}"
    )
}

#[test]
fn containers_publish_several_ports() {
    let lines = vec![
        "/usr/bin/vllm -host-port 1 -container-ip 172.17.0.2 -container-port 8000".to_string(),
        proxy(9090, "172.17.0.2", 9400),
        proxy(7000, "172.17.0.3", 8000),
        proxy(18000, "172.17.0.2", 8000),
        proxy(18001, "172.17.0.2", 8000),
    ];
    let inside = vec!["127.0.0.1".to_string(), "172.17.0.2".to_string()];
    assert_eq!(published_port(&lines, &inside, 8000), Some(18000));
    assert_eq!(published_port(&lines, &inside, 9400), Some(9090));
    assert_eq!(published_port(&lines, &inside, 8001), None);
    assert_eq!(published_port(&lines, &[], 8000), None);
    let bare = vec!["docker-proxy -container-port".to_string(), String::new()];
    assert_eq!(published_port(&bare, &inside, 8000), None);

    let mut m = parse_model(None);
    m.publish(&lines, &inside);
    assert_eq!(m.port, Some(18000), "a server that names no port listens on 8000");
    let mut m = parse_model(Some(9400));
    m.publish(&lines, &inside);
    assert_eq!(m.port, Some(9090));
    let mut m = parse_model(Some(1234));
    m.publish(&lines, &inside);
    assert_eq!(m.port, Some(1234));
}

fn parse_model(port: Option<u16>) -> DetectedModel {
    DetectedModel { port, ..found().remove(0) }
}

#[test]
fn addresses_of_a_routing_table() {
    let table = "Main:\n  +-- 0.0.0.0/0 3 0 5\n     |-- 0.0.0.0\n        /0 universe UNICAST\n     |-- 172.17.0.2\n        /32 host LOCAL\n";
    assert_eq!(addresses_in(table), vec!["0.0.0.0", "172.17.0.2"]);
    assert!(addresses_in("").is_empty());
}
