use llm_visuals::float::Single;
use llm_visuals::gguf::{
    layer_device, read_info, read_tensor_summary, GgufError, GgufInfo, TensorSummary,
};

struct Header {
    bytes: Vec<u8>,
}

impl Header {
    fn new(version: u32, tensors: u64, entries: u64) -> Header {
        let mut bytes = b"GGUF".to_vec();
        bytes.extend(version.to_le_bytes());
        bytes.extend(tensors.to_le_bytes());
        bytes.extend(entries.to_le_bytes());
        Header { bytes }
    }

    fn text(mut self, s: &[u8]) -> Header {
        self.bytes.extend((s.len() as u64).to_le_bytes());
        self.bytes.extend(s);
        self
    }

    fn raw(mut self, b: &[u8]) -> Header {
        self.bytes.extend(b);
        self
    }

    fn entry(self, key: &str, ty: u32, value: &[u8]) -> Header {
        self.text(key.as_bytes()).raw(&ty.to_le_bytes()).raw(value)
    }

    fn string(self, key: &str, value: &str) -> Header {
        self.text(key.as_bytes()).raw(&8u32.to_le_bytes()).text(value.as_bytes())
    }

    fn tensor(self, name: &str, dims: &[u64], offset: u64) -> Header {
        let mut h = self.text(name.as_bytes()).raw(&(dims.len() as u32).to_le_bytes());
        for d in dims {
            h = h.raw(&d.to_le_bytes());
        }
        h.raw(&0u32.to_le_bytes()).raw(&offset.to_le_bytes())
    }
}

fn single(x: f32) -> Single {
    Single::from_bits(x.to_bits())
}

#[test]
fn tensor_split_63_37() {
    let split = [63.0, 37.0].map(single);
    assert_eq!(layer_device(0, 41, &split), 0);
    assert_eq!(layer_device(25, 41, &split), 0);
    assert_eq!(layer_device(40, 41, &split), 1);
}

#[test]
fn layers_without_a_split_live_on_the_first_device() {
    assert_eq!(layer_device(7, 10, &[]), 0);
    assert_eq!(layer_device(7, 0, &[1.0, 1.0].map(single)), 0);
    // Shares that add up to less than one are measured against one.
    assert_eq!(layer_device(0, 2, &[0.25, 0.25].map(single)), 0);
    assert_eq!(layer_device(1, 2, &[0.25, 0.25].map(single)), 1);
    assert_eq!(layer_device(usize::MAX, usize::MAX, &[f32::MAX, f32::MAX].map(single)), 1);
    // A negative share takes from those before it.
    assert_eq!(layer_device(0, 4, &[-1.0, 2.0].map(single)), 1);
    assert_eq!(layer_device(3, 4, &[2.0, -1.0].map(single)), 0);
    let devices: Vec<usize> = (0..8).map(|l| layer_device(l, 8, &[1.0, 2.0, 1.0].map(single))).collect();
    assert_eq!(devices, vec![0, 0, 1, 1, 1, 1, 2, 2]);
}

#[test]
fn active_bytes_scales_experts_only() {
    let t = TensorSummary {
        total_bytes: 1000,
        expert_bytes: 800,
        embd_bytes: 50,
        block_bytes: vec![],
        n_tensors: 3,
    };
    assert_eq!(t.active_bytes_per_token(0, 0), 950);
    assert_eq!(t.active_bytes_per_token(256, 8), 150 + 25);
}

#[test]
fn active_bytes_never_exceed_the_total() {
    let t = TensorSummary {
        total_bytes: u64::MAX,
        expert_bytes: u64::MAX,
        embd_bytes: 7,
        block_bytes: vec![],
        n_tensors: 1,
    };
    assert_eq!(t.active_bytes_per_token(3, 2), u64::MAX / 3 * 2);
    assert_eq!(t.active_bytes_per_token(2, 3), u64::MAX);
    assert!(t.active_bytes_per_token(8, 1) <= t.active_bytes_per_token(8, 2));
}

#[test]
fn info_of_a_moe_header() {
    let h = Header::new(3, 0, 11)
        .string("general.architecture", "qwen3moe")
        .string("general.name", "Qwen3 Test")
        .entry("qwen3moe.block_count", 4, &41u32.to_le_bytes())
        .entry("qwen3moe.attention.head_count", 10, &16u64.to_le_bytes())
        .entry("qwen3moe.expert_count", 2, &256u16.to_le_bytes())
        .entry("qwen3moe.expert_used_count", 0, &[8])
        .entry("qwen3moe.context_length", 5, &32768i32.to_le_bytes())
        .entry("qwen3moe.embedding_length", 6, &2048.75f32.to_le_bytes())
        .entry("qwen3moe.nextn_predict_layers", 12, &1.0f64.to_le_bytes())
        .entry("tokenizer.ggml.model", 99, &[])
        .raw(&[]);
    let info = read_info(&h.bytes, "/models/x.gguf").unwrap();
    assert_eq!(info.name, "Qwen3 Test");
    assert_eq!(info.architecture, "qwen3moe");
    assert_eq!(info.n_layers, 41);
    assert_eq!(info.n_heads, 16);
    assert_eq!(info.n_kv_heads, 16);
    assert_eq!(info.n_experts, 256);
    assert_eq!(info.n_experts_used, 8);
    assert_eq!(info.ctx_train, 32768);
    assert_eq!(info.n_embd, 2048);
    assert_eq!(info.n_mtp, 1);
    assert!(info.is_moe());
    assert!(!GgufInfo::default().is_moe());
}

#[test]
fn names_and_layers_fall_back() {
    let h = Header::new(2, 0, 3)
        .string("general.basename", "base")
        .entry("llama.block_count", 1, &[32])
        .entry("attention.head_count", 11, &(-1i64).to_le_bytes());
    let info = read_info(&h.bytes, "/models/x.gguf").unwrap();
    assert_eq!(info.name, "base");
    assert_eq!(info.architecture, "");
    assert_eq!(info.n_layers, 32);
    assert_eq!(info.n_heads, 0);
    let h = Header::new(2, 0, 0);
    assert_eq!(read_info(&h.bytes, "/models/Qwen3-4B.gguf").unwrap().name, "Qwen3-4B");
    assert_eq!(read_info(&h.bytes, "..").unwrap().name, "");
}

#[test]
fn the_first_value_of_a_key_counts() {
    let h = Header::new(3, 0, 3)
        .entry("expert_count", 7, &[1])
        .entry("expert_count", 4, &5u32.to_le_bytes())
        .entry("context_length", 6, &(-0.0f32).to_le_bytes());
    let info = read_info(&h.bytes, "m").unwrap();
    assert_eq!(info.n_experts, 0, "a flag is no count");
    assert_eq!(info.ctx_train, 0);
}

#[test]
fn arrays_are_walked_over() {
    // An array of two arrays of strings, then one more entry.
    let inner = |s: &str| {
        let mut b = 8u32.to_le_bytes().to_vec();
        b.extend(1u64.to_le_bytes());
        b.extend((s.len() as u64).to_le_bytes());
        b.extend(s.as_bytes());
        b
    };
    let mut arr = 9u32.to_le_bytes().to_vec();
    arr.extend(2u64.to_le_bytes());
    arr.extend(inner("abc"));
    arr.extend(inner(""));
    let h = Header::new(3, 0, 2).entry("list", 9, &arr).entry("block_count", 3, &(-1i16).to_le_bytes());
    assert_eq!(read_info(&h.bytes, "m").unwrap().n_layers, 0);
    let h = Header::new(3, 0, 2).entry("list", 9, &arr).entry("block_count", 3, &7i16.to_le_bytes());
    assert_eq!(read_info(&h.bytes, "m").unwrap().n_layers, 7);
}

#[test]
fn malformed_text_is_replaced() {
    let h = Header::new(3, 0, 1).text(b"general.name").raw(&8u32.to_le_bytes()).text(&[0x61, 0xff, 0x62]);
    assert_eq!(read_info(&h.bytes, "m").unwrap().name, "a\u{fffd}b");
}

#[test]
fn header_errors() {
    assert_eq!(read_info(b"GGU", "m").unwrap_err(), GgufError::Truncated);
    assert_eq!(read_info(b"GGML....", "m").unwrap_err(), GgufError::NotGguf);
    let h = Header::new(1, 0, 0);
    assert_eq!(read_info(&h.bytes, "m").unwrap_err(), GgufError::UnsupportedVersion(1));
    let h = Header::new(3, 0, 1).raw(&1_000_001u64.to_le_bytes());
    assert_eq!(read_info(&h.bytes, "m").unwrap_err(), GgufError::StringTooLarge);
    let h = Header::new(3, 0, 1).entry("k", 13, &[]);
    assert_eq!(read_info(&h.bytes, "m").unwrap_err(), GgufError::UnknownValueType(13));
    let h = Header::new(3, 1, 0).text(b"t").raw(&9u32.to_le_bytes());
    assert_eq!(read_tensor_summary(&h.bytes, 100).unwrap_err(), GgufError::BadDimensionCount);
    assert_eq!(GgufError::Truncated.message(), "failed to fill whole buffer");
    assert_eq!(GgufError::NotGguf.message(), "not a GGUF file");
    assert_eq!(GgufError::UnsupportedVersion(1).message(), "unsupported GGUF version 1");
    assert_eq!(GgufError::StringTooLarge.message(), "GGUF string too large");
    assert_eq!(GgufError::UnknownValueType(13).message(), "unknown GGUF value type 13");
    assert_eq!(GgufError::BadDimensionCount.message(), "bad tensor dimension count");
}

fn table() -> Header {
    Header::new(3, 5, 2)
        .entry("general.alignment", 4, &64u32.to_le_bytes())
        .string("tokenizer.ggml.model", "gpt2")
        .tensor("output.weight", &[4, 4], 900)
        .tensor("token_embd.weight", &[4], 0)
        .tensor("blk.0.attn_q.weight", &[4], 100)
        .tensor("blk.2.ffn_up_exps.weight", &[4], 300)
        .tensor("blk.x.bad", &[], 700)
}

#[test]
fn tensor_sizes_come_from_the_gaps() {
    let h = table();
    let data_start = (h.bytes.len() as u64 + 63) / 64 * 64;
    let t = read_tensor_summary(&h.bytes, data_start + 1000).unwrap();
    assert_eq!(t.n_tensors, 5);
    assert_eq!(t.total_bytes, 1000);
    assert_eq!(t.embd_bytes, 100);
    assert_eq!(t.expert_bytes, 400);
    assert_eq!(t.block_bytes, vec![200, 0, 400]);
    // A file that ends before the last tensor gives it no bytes.
    let t = read_tensor_summary(&h.bytes, 0).unwrap();
    assert_eq!(t.total_bytes, 900);
}

#[test]
fn a_longer_prefix_reads_the_same() {
    let h = table();
    let file_len = 10_000;
    let whole = read_tensor_summary(&h.bytes, file_len).unwrap();
    for n in 0..h.bytes.len() {
        let r = read_tensor_summary(&h.bytes[..n], file_len);
        assert_eq!(r.unwrap_err(), GgufError::Truncated);
    }
    let mut more = h.bytes.clone();
    more.extend([7u8; 300]);
    let t = read_tensor_summary(&more, file_len).unwrap();
    assert_eq!(t.total_bytes, whole.total_bytes);
    assert_eq!(t.block_bytes, whole.block_bytes);
}

#[test]
fn equal_offsets_keep_their_order() {
    let h = Header::new(3, 3, 0)
        .tensor("blk.1.a", &[], 10)
        .tensor("blk.0.a", &[], 10)
        .tensor("blk.3.a", &[], 0);
    let data_start = (h.bytes.len() as u64 + 31) / 32 * 32;
    let t = read_tensor_summary(&h.bytes, data_start + 25).unwrap();
    assert_eq!(t.block_bytes, vec![15, 0, 0, 10]);
    assert_eq!(t.total_bytes, 25);
}

#[test]
fn the_order_of_the_tensor_table_does_not_matter() {
    let rows = [("blk.0.a", 96u64), ("blk.1.ffn_exps", 0), ("token_embd", 32), ("blk.0.b", 160)];
    let read = |order: [usize; 4]| {
        let mut h = Header::new(3, 4, 0);
        for i in order {
            h = h.tensor(rows[i].0, &[1], rows[i].1);
        }
        let data_start = (h.bytes.len() as u64 + 31) / 32 * 32;
        read_tensor_summary(&h.bytes, data_start + 200).unwrap()
    };
    let t = read([0, 1, 2, 3]);
    assert_eq!(t.block_bytes, vec![104, 32]);
    assert_eq!((t.total_bytes, t.expert_bytes), (200, 32));
    assert!(t.block_bytes.iter().sum::<u64>() <= t.total_bytes);
    for order in [[3, 2, 1, 0], [1, 0, 3, 2], [2, 3, 0, 1]] {
        let u = read(order);
        assert_eq!(u.block_bytes, t.block_bytes);
        assert_eq!((u.total_bytes, u.expert_bytes, u.embd_bytes), (200, 32, t.embd_bytes));
    }
}
