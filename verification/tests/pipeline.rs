use llm_visuals::float::Single;
use llm_visuals::pipeline::{
    ActivityAggregator, AttentionWeight, GeneratedText, TokenBuffer, TokenColumn,
};

fn single(x: f32) -> Single {
    Single::from_bits(x.to_bits())
}

fn value(x: Single) -> f32 {
    f32::from_bits(x.bits)
}

#[test]
fn generated_text_truncates_on_char_boundary() {
    let mut t = GeneratedText::new();
    t.push(0, "é".repeat(250));
    let s = t.to_string();
    assert_eq!(s.chars().count(), 200);
    assert!(s.is_char_boundary(0));
    assert!(s.is_char_boundary(s.len()));
}

#[test]
fn generated_text_of_several_tokens() {
    let mut t = GeneratedText::new();
    assert!(t.is_empty());
    t.push(5, "a".into());
    t.push(9, "b".into());
    t.push(0, "c".into());
    assert_eq!(t.tokens, vec!["c", "b"]);
    assert_eq!(t.to_string(), "cb");
    assert!(!t.is_empty());
    t.push(2, "x".repeat(300));
    assert_eq!(t.to_string(), "x".repeat(200));
}

#[test]
fn a_status_blob_is_shown_whole() {
    let mut t = GeneratedText::new();
    let blob = format!("{}\n{}", "a".repeat(150), "b".repeat(150));
    t.push(0, blob.clone());
    assert_eq!(t.to_string(), blob);
}

#[test]
fn the_end_of_a_long_text_is_kept() {
    let mut t = GeneratedText::new();
    for i in 0..250usize {
        t.push(i, if i < 100 { "a".into() } else { "b".into() });
    }
    let kept = format!("{}{}", "a".repeat(50), "b".repeat(150));
    assert_eq!(t.to_string(), kept);
    assert_eq!(t.tokens.concat(), kept);
    // A token keeps its place.
    assert_eq!(t.tokens.len(), 250);
    t.push(249, "c".into());
    assert_eq!(t.tokens.concat(), format!("{}{}c", "a".repeat(50), "b".repeat(149)));
}

#[test]
fn aggregator_finalize_builds_dense_column() {
    let mut agg = ActivityAggregator::new(2, 2);
    for layer in 0..2 {
        for head in 0..2 {
            agg.process(AttentionWeight {
                layer,
                head,
                query_pos: 3,
                key_pos: 0,
                weight: single(0.4 + head as f32 * 0.1),
            });
        }
    }
    let col = agg.finalize(3).expect("column");
    assert_eq!(col.activities.len(), 4);
    assert!(col.activities.iter().all(|a| value(a.intensity) >= 0.4));
}

#[test]
fn the_highest_weight_of_a_head_counts() {
    let mut agg = ActivityAggregator::new(0, 0);
    let mut put = |layer, head, query_pos, w: f32| {
        agg.process(AttentionWeight { layer, head, query_pos, key_pos: 0, weight: single(w) })
    };
    put(1, 0, 0, 0.2);
    put(0, 7, 0, f32::NAN);
    put(1, 0, 0, 0.9);
    put(1, 0, 0, 0.5);
    put(0, 2, 0, -3.0);
    put(4, 4, 8, 0.1);
    let col = agg.finalize(0).unwrap();
    assert_eq!(col.token_index, 0);
    let heads: Vec<(usize, usize, f32)> = col
        .activities
        .iter()
        .map(|a| (a.layer, a.head, value(a.intensity)))
        .collect();
    assert_eq!(heads, vec![(0, 2, 0.0), (0, 7, 0.0), (1, 0, 0.9)]);
    assert!(agg.finalize(0).is_none());
    assert!(agg.finalize(5).is_none());
    assert_eq!(agg.finalize(8).unwrap().activities.len(), 1);
}

#[test]
fn columns_in_any_order_of_weights() {
    let weights = [
        (1, 0, 0.25),
        (0, 3, 0.5),
        (1, 0, 0.75),
        (1, 0, -0.0),
        (0, 3, f32::NAN),
        (2, 2, -1.0),
        (0, 3, 0.125),
    ];
    let column = |order: &[usize]| {
        let mut agg = ActivityAggregator::new(3, 4);
        for i in order {
            let (layer, head, w) = weights[*i];
            agg.process(AttentionWeight { layer, head, query_pos: 6, key_pos: *i, weight: single(w) });
            agg.process(AttentionWeight { layer, head, query_pos: 7, key_pos: 0, weight: single(1.0) });
        }
        let c = agg.finalize(6).unwrap();
        assert!(agg.finalize(6).is_none());
        assert!(agg.finalize(7).is_some());
        c.activities
    };
    let first = column(&[0, 1, 2, 3, 4, 5, 6]);
    let seen: Vec<(usize, usize, f32)> =
        first.iter().map(|a| (a.layer, a.head, value(a.intensity))).collect();
    assert_eq!(seen, vec![(0, 3, 0.5), (1, 0, 0.75), (2, 2, 0.0)]);
    assert_eq!(column(&[6, 5, 4, 3, 2, 1, 0]), first);
    assert_eq!(column(&[3, 4, 2, 0, 6, 1, 5, 2, 2]), first);
}

#[test]
fn token_buffer_is_bounded() {
    let mut b = TokenBuffer::new(2);
    for i in 0..5 {
        b.push(TokenColumn {
            token_index: i,
            activities: vec![],
        });
    }
    assert_eq!(b.iter().count(), 2);
    assert_eq!(b.iter().next().unwrap().token_index, 3);
}

#[test]
fn token_buffer_starts_empty() {
    let mut b = TokenBuffer::new(0);
    assert!(b.is_empty());
    b.push(TokenColumn { token_index: 1, activities: vec![] });
    b.push(TokenColumn { token_index: 2, activities: vec![] });
    assert_eq!(b.iter().count(), 1);
    assert_eq!(b.iter().next().unwrap().token_index, 2);
    assert!(!b.is_empty());
}
