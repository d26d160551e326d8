use llm_visuals::float::Single;
use llm_visuals::llm::{bridge_args, line_event, map_event, BridgeEvent, LlmEvent};

#[test]
fn events_as_the_screen_sees_them() {
    let e = map_event(BridgeEvent::Status { message: "hi".into() });
    assert!(matches!(e, LlmEvent::Status(m) if m == "hi"));
    let e = map_event(BridgeEvent::ModelInfo {
        num_layers: Some(3),
        num_heads: None,
        ctx_max: None,
        model: "m".into(),
    });
    assert!(matches!(
        e,
        LlmEvent::ModelInfo { num_layers: 3, num_heads: 0, ctx_max: 8192, model } if model == "m"
    ));
    let e = map_event(BridgeEvent::Attention {
        layer: 1,
        head: 2,
        query_pos: 3,
        key_pos: -4,
        weight: Single::from_bits(1.5f32.to_bits()),
    });
    assert!(matches!(
        e,
        LlmEvent::Attention(w) if w.layer == 1 && w.head == 2 && w.query_pos == 3
            && w.key_pos == 0 && w.weight.bits == 1.5f32.to_bits()
    ));
    let e = map_event(BridgeEvent::Token { token_index: 5, token_id: 6, text: "t".into() });
    assert!(matches!(e, LlmEvent::Token { index: 5, text } if text == "t"));
    let e = map_event(BridgeEvent::Done { tokens_generated: 7 });
    assert!(matches!(e, LlmEvent::Done { tokens_generated: 7 }));
    let e = map_event(BridgeEvent::Error { message: "no".into() });
    assert!(matches!(e, LlmEvent::Error(m) if m == "no"));
}

#[test]
fn lines_of_the_bridge() {
    assert!(line_event(" \t ", Err("EOF".into())).is_none());
    let e = line_event("{x", Err("expected".into()));
    assert!(matches!(e, Some(LlmEvent::Error(m)) if m == "Bad JSON from bridge: expected | line={x"));
    let e = line_event("{}", Ok(BridgeEvent::Done { tokens_generated: 1 }));
    assert!(matches!(e, Some(LlmEvent::Done { tokens_generated: 1 })));
}

#[test]
fn arguments_of_the_bridge() {
    assert_eq!(
        bridge_args("gpt2", "Once upon a time", 64),
        vec!["--model", "gpt2", "--prompt", "Once upon a time", "--max-tokens", "64"]
    );
}
