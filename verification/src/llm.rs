//! The events of the Python bridge that streams a model's attention weights.
use crate::float::Single;
use crate::pipeline::AttentionWeight;
use crate::text;
use vstd::prelude::*;

verus! {

/// Events emitted by the Python HF bridge (JSONL on stdout)
#[derive(Clone, Debug)]
pub enum BridgeEvent {
    Status { message: String },
    ModelInfo {
        num_layers: Option<usize>,
        num_heads: Option<usize>,
        ctx_max: Option<usize>,
        model: String,
    },
    Attention { layer: usize, head: usize, query_pos: usize, key_pos: i64, weight: Single },
    Token { token_index: usize, token_id: u32, text: String },
    Done { tokens_generated: usize },
    Error { message: String },
}

/// High-level events for the UI / aggregator
#[derive(Clone, Debug)]
pub enum LlmEvent {
    Status(String),
    ModelInfo { num_layers: usize, num_heads: usize, ctx_max: usize, model: String },
    Attention(AttentionWeight),
    Token { index: usize, text: String },
    Done { tokens_generated: usize },
    Error(String),
}

pub open spec fn count_or(n: Option<usize>, default: usize) -> usize {
    match n {
        Some(n) => n,
        None => default,
    }
}

/// The event that the UI sees for an event of the bridge. A model that does not
/// tell its context has one of 8192 tokens.
pub open spec fn seen_as(event: BridgeEvent) -> LlmEvent {
    match event {
        BridgeEvent::Status { message } => LlmEvent::Status(message),
        BridgeEvent::ModelInfo { num_layers, num_heads, ctx_max, model } => LlmEvent::ModelInfo {
            num_layers: count_or(num_layers, 0),
            num_heads: count_or(num_heads, 0),
            ctx_max: count_or(ctx_max, 8192),
            model,
        },
        BridgeEvent::Attention { layer, head, query_pos, key_pos, weight } => LlmEvent::Attention(
            AttentionWeight { layer, head, query_pos, key_pos: 0, weight },
        ),
        BridgeEvent::Token { token_index, token_id, text } => LlmEvent::Token {
            index: token_index,
            text,
        },
        BridgeEvent::Done { tokens_generated } => LlmEvent::Done { tokens_generated },
        BridgeEvent::Error { message } => LlmEvent::Error(message),
    }
}

/// Maps an event of the bridge to what the UI sees.
pub fn map_event(event: BridgeEvent) -> (r: LlmEvent)
    ensures
        r == seen_as(event),
{
    match event {
        BridgeEvent::Status { message } => LlmEvent::Status(message),
        BridgeEvent::ModelInfo { num_layers, num_heads, ctx_max, model } => LlmEvent::ModelInfo {
            num_layers: num_layers.unwrap_or(0),
            num_heads: num_heads.unwrap_or(0),
            ctx_max: ctx_max.unwrap_or(8192),
            model,
        },
        BridgeEvent::Attention { layer, head, query_pos, key_pos: _, weight } =>
        LlmEvent::Attention(AttentionWeight { layer, head, query_pos, key_pos: 0, weight }),
        BridgeEvent::Token { token_index, token_id: _, text } => LlmEvent::Token {
            index: token_index,
            text,
        },
        BridgeEvent::Done { tokens_generated } => LlmEvent::Done { tokens_generated },
        BridgeEvent::Error { message } => LlmEvent::Error(message),
    }
}

/// What the UI sees for a line of the bridge, once it has been parsed: nothing
/// for a blank line, the event, or the words in which the parser refused it.
pub fn line_event(line: &str, parsed: Result<BridgeEvent, String>) -> (r: Option<LlmEvent>)
    ensures
        r is None <==> text::trimmed(line@).len() == 0,
        text::trimmed(line@).len() > 0 ==> match parsed {
            Ok(event) => r == Some(seen_as(event)),
            Err(e) => r matches Some(LlmEvent::Error(m)) && m@ == "Bad JSON from bridge: "@ + e@
                + " | line="@ + line@,
        },
{
    let chars = text::chars_of(line);
    if text::is_blank(&chars) {
        return None;
    }
    match parsed {
        Ok(event) => Some(map_event(event)),
        Err(e) => {
            let mut out = text::chars_of("Bad JSON from bridge: ");
            text::add_str(&mut out, e.as_str());
            text::add_str(&mut out, " | line=");
            text::add_all(&mut out, &chars);
            Some(LlmEvent::Error(text::string_of(&out)))
        },
    }
}

/// The arguments of the bridge script.
pub fn bridge_args(model: &str, prompt: &str, max_tokens: usize) -> (r: Vec<String>)
    ensures
        text::strings(r@) == seq![
            "--model"@,
            model@,
            "--prompt"@,
            prompt@,
            "--max-tokens"@,
            text::decimal(max_tokens as nat),
        ],
{
    let mut out: Vec<String> = Vec::new();
    out.push("--model".to_owned());
    out.push(model.to_owned());
    out.push("--prompt".to_owned());
    out.push(prompt.to_owned());
    out.push("--max-tokens".to_owned());
    out.push(text::string_of(&text::decimal_of(max_tokens as u64)));
    assert(text::strings(out@) =~= seq![
        "--model"@,
        model@,
        "--prompt"@,
        prompt@,
        "--max-tokens"@,
        text::decimal(max_tokens as nat),
    ]);
    out
}

} // verus!
