//! The distributor and the collector, exercised on concrete values.

use steg::collect::collect_payload;
use steg::collect::strip_fill;
use steg::distribute::plan_distribution;

#[test]
fn plan_pops_from_the_end() {
    let payload: Vec<u8> = vec![1, 2, 3, 4, 5, 6];
    let plan = plan_distribution(&payload, 10, 2);
    assert_eq!(plan.leftover, 0);
    let chunks: Vec<Vec<u8>> = plan.chunks;
    assert_eq!(chunks, vec![vec![6, 5], vec![4, 3], vec![2, 1]]);
}

#[test]
fn plan_exact_multiple_uses_exact_count_and_no_fill() {
    let payload: Vec<u8> = vec![9; 12];
    let plan = plan_distribution(&payload, 100, 4);
    assert_eq!(plan.chunks.len(), 3);
    assert_eq!(plan.leftover, 0);
    for chunk in &plan.chunks {
        assert_eq!(chunk, &vec![9, 9, 9, 9]);
    }
}

#[test]
fn plan_one_byte_over_pads_last_chunk() {
    let payload: Vec<u8> = vec![7; 13];
    let plan = plan_distribution(&payload, 100, 4);
    assert_eq!(plan.chunks.len(), 4);
    assert_eq!(plan.leftover, 0);
    assert_eq!(plan.chunks[3], vec![7, 0, 0, 0]);
}

#[test]
fn plan_shortfall_uses_every_file() {
    let payload: Vec<u8> = vec![1, 2, 3, 4, 5, 6, 7, 8, 9, 10];
    let plan = plan_distribution(&payload, 3, 2);
    assert_eq!(plan.chunks.len(), 3);
    assert_eq!(plan.leftover, 4);
    assert_eq!(plan.chunks, vec![vec![10, 9], vec![8, 7], vec![6, 5]]);
}

#[test]
fn plan_empty_payload_uses_no_file() {
    let payload: Vec<u8> = Vec::new();
    let plan = plan_distribution(&payload, 5, 3);
    assert_eq!(plan.chunks.len(), 0);
    assert_eq!(plan.leftover, 0);
}

#[test]
fn collect_reads_tails_in_order_then_reverses() {
    let contents: Vec<Vec<u8>> = vec![vec![0, 6, 5], vec![0, 4, 3], vec![0, 2, 1]];
    let collected = collect_payload(&contents, None, 2);
    assert_eq!(collected, vec![1, 2, 3, 4, 5, 6]);
}

#[test]
fn collect_short_file_yields_what_exists() {
    let contents: Vec<Vec<u8>> = vec![vec![5], vec![], vec![9, 8, 7]];
    let collected = collect_payload(&contents, None, 2);
    assert_eq!(collected, vec![7, 8, 5]);
}

#[test]
fn collect_honors_file_count() {
    let contents: Vec<Vec<u8>> = vec![vec![2, 1], vec![4, 3], vec![6, 5]];
    let collected = collect_payload(&contents, Some(2), 2);
    assert_eq!(collected, vec![3, 4, 1, 2]);
    let all = collect_payload(&contents, Some(99), 2);
    assert_eq!(all, vec![5, 6, 3, 4, 1, 2]);
}

#[test]
fn strip_fill_removes_every_zero() {
    let bytes: Vec<u8> = vec![0, 7, 0, 0, 9, 0];
    assert_eq!(strip_fill(&bytes), vec![7, 9]);
}

#[test]
fn strip_fill_keeps_everything_else() {
    let bytes: Vec<u8> = vec![1, 2, 3];
    assert_eq!(strip_fill(&bytes), vec![1, 2, 3]);
}
