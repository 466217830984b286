use rag_service::score::to_score;
use rag_service::search::aggregate;
use std::collections::HashMap;

fn owner(pairs: &[(u64, u128)]) -> HashMap<u64, u128> {
    pairs.iter().cloned().collect()
}

fn hits(pairs: &[(u64, f32)]) -> Vec<(u64, u32)> {
    pairs.iter().map(|(id, x)| (*id, x.to_bits())).collect()
}

fn score(raw: f32) -> f32 {
    f32::from_bits(to_score(raw.to_bits()))
}

fn plain_score(raw: f32) -> f32 {
    ((raw + 1.0) / 2.0).clamp(0.0, 1.0)
}

#[test]
fn groups_chunks_by_tag_taking_max() {
    let t1: u128 = 0x11;
    let t2: u128 = 0x22;
    let owner = owner(&[(1, t1), (2, t1), (3, t2)]);
    let hits = aggregate(&hits(&[(1, 0.8), (2, 0.2), (3, 0.4)]), &owner, 10, None);
    assert_eq!(hits.len(), 2);
    assert_eq!(hits[0].tag, t1, "t1 应取最高分");
    assert!((f32::from_bits(hits[0].score) - score(0.8)).abs() < 1e-6);
    assert_eq!(hits[1].tag, t2);
}

#[test]
fn respects_k_and_min_score() {
    let t: u128 = 0x33;
    let owner = owner(&[(1, t)]);
    let hits = aggregate(&hits(&[(1, 0.1)]), &owner, 10, Some(0.8f32.to_bits()));
    assert!(
        hits.is_empty(),
        "相似度 {} 应被 min_score 过滤",
        score(0.1)
    );
}

#[test]
fn unknown_chunk_skipped() {
    let t: u128 = 0x44;
    let owner = owner(&[(1, t)]);
    let hits = aggregate(&hits(&[(1, 0.2), (99, 0.1)]), &owner, 10, None);
    assert_eq!(hits.len(), 1);
}

#[test]
fn the_best_k_come_first() {
    let owner = owner(&[(1, 1), (2, 2), (3, 3), (4, 4)]);
    let all = hits(&[(1, -0.5), (2, 0.9), (3, 0.1), (4, 0.5)]);
    let top = aggregate(&all, &owner, 3, None);
    let tags: Vec<u128> = top.iter().map(|h| h.tag).collect();
    assert_eq!(tags, vec![2, 4, 3]);
    assert_eq!(f32::from_bits(top[0].score), 0.95);
    assert!(aggregate(&all, &owner, 0, None).is_empty());
    let some = aggregate(&all, &owner, 10, Some(0.55f32.to_bits()));
    let tags: Vec<u128> = some.iter().map(|h| h.tag).collect();
    assert_eq!(tags, vec![2, 4, 3]);
    assert!(aggregate(&all, &owner, 10, Some(f32::NAN.to_bits())).is_empty());
}

#[test]
fn a_chunk_without_a_number_counts_last() {
    let owner = owner(&[(1, 1), (2, 2), (3, 2)]);
    let out = aggregate(
        &hits(&[(1, f32::NAN), (2, f32::NAN), (3, -1.0)]),
        &owner,
        10,
        None,
    );
    assert_eq!(out.len(), 2);
    assert_eq!(out[0].tag, 2);
    assert_eq!(f32::from_bits(out[0].score), 0.0);
    assert_eq!(out[1].tag, 1);
    assert_eq!(f32::from_bits(out[1].score), f32::MIN);
}

#[test]
fn scores_of_chosen_similarities() {
    for (raw, want) in [
        (-1.0f32, 0.0f32),
        (0.0, 0.5),
        (-0.0, 0.5),
        (1.0, 1.0),
        (0.5, 0.75),
        (-0.5, 0.25),
        (2.0, 1.0),
        (-7.5, 0.0),
        (f32::INFINITY, 1.0),
        (f32::NEG_INFINITY, 0.0),
        (f32::MAX, 1.0),
        (f32::MIN, 0.0),
        (1.0e-45, 0.5),
        (0.99999994, 1.0),
        (-0.99999994, 2.9802322e-8),
    ] {
        assert_eq!(score(raw).to_bits(), want.to_bits(), "{raw}");
    }
    assert!(score(f32::NAN).is_nan());
}

#[test]
fn scores_are_those_of_single_precision_arithmetic() {
    let mut pattern: u32 = 1;
    for _ in 0..2_000_000 {
        pattern = pattern.wrapping_mul(1_664_525).wrapping_add(1_013_904_223);
        let raw = f32::from_bits(pattern);
        if !raw.is_nan() {
            assert_eq!(score(raw).to_bits(), plain_score(raw).to_bits(), "{raw:e}");
        }
    }
    for exponent in 90u32..128 {
        for fraction in [0u32, 1, 2, 3, 0x3f_ffff, 0x40_0000, 0x40_0001, 0x7f_fffe, 0x7f_ffff] {
            for sign in [0u32, 0x8000_0000] {
                let raw = f32::from_bits(sign + exponent * 0x80_0000 + fraction);
                assert_eq!(score(raw).to_bits(), plain_score(raw).to_bits(), "{raw:e}");
            }
        }
    }
}

#[test]
fn greater_similarities_have_no_lesser_scores() {
    let mut last = 0.0f32;
    for i in -1200..1200 {
        let s = score(i as f32 / 1000.0);
        assert!(s >= last && (0.0..=1.0).contains(&s));
        last = s;
    }
}
