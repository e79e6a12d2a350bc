//! The batch planner's chunk arithmetic and partition, and the pool
//! model's accounting.

use shellcheck_all::planner::{chunk_size, plan_chunks};
use shellcheck_all::pool::PoolState;

fn files(names: &[&str]) -> Vec<Vec<u8>> {
    names.iter().map(|n| n.as_bytes().to_vec()).collect()
}

#[test]
fn chunk_size_formula() {
    // floor(len / (workers * 16)) + 1
    assert_eq!(chunk_size(0, 1), 1);
    assert_eq!(chunk_size(15, 1), 1);
    assert_eq!(chunk_size(16, 1), 2);
    assert_eq!(chunk_size(100, 2), 4);
    assert_eq!(chunk_size(1000, 4), 16);
}

#[test]
fn planner_degenerates_to_one_chunk() {
    // fewer files than worker slots: everything in one chunk
    let fs = files(&["a.sh", "b.sh", "c.sh"]);
    let s = chunk_size(fs.len(), 4);
    assert_eq!(s, 1);
    let chunks = plan_chunks(&fs, 3);
    assert_eq!(chunks.len(), 1);
    assert_eq!(chunks[0], fs);
}

#[test]
fn planner_partitions_exactly() {
    let names: Vec<String> = (0..10).map(|i| format!("f{}.sh", i)).collect();
    let fs: Vec<Vec<u8>> = names.iter().map(|n| n.as_bytes().to_vec()).collect();
    let chunks = plan_chunks(&fs, 3);
    // ceil(10 / 3) = 4 chunks: sizes 3,3,3,1
    assert_eq!(chunks.len(), 4);
    assert_eq!(chunks[0].len(), 3);
    assert_eq!(chunks[1].len(), 3);
    assert_eq!(chunks[2].len(), 3);
    assert_eq!(chunks[3].len(), 1);
    let flat: Vec<Vec<u8>> = chunks.into_iter().flatten().collect();
    assert_eq!(flat, fs);
}

#[test]
fn planner_exact_division_has_no_ragged_tail() {
    let fs = files(&["a", "b", "c", "d", "e", "f"]);
    let chunks = plan_chunks(&fs, 2);
    assert_eq!(chunks.len(), 3);
    for c in &chunks {
        assert_eq!(c.len(), 2);
    }
    let flat: Vec<Vec<u8>> = chunks.into_iter().flatten().collect();
    assert_eq!(flat, fs);
}

#[test]
fn pool_accounting_keeps_the_bound() {
    // two slots, four tasks: the running count never passes the capacity
    let mut p = PoolState::new(2);
    for _ in 0..4 {
        p.spawn();
    }
    assert_eq!(p.pending, 4);
    assert_eq!(p.running, 0);
    p.start();
    p.start();
    // both slots taken; a third start is not enabled until one finishes
    assert_eq!(p.running, 2);
    assert!(p.running <= p.capacity);
    p.finish();
    assert_eq!(p.running, 1);
    p.start();
    assert_eq!(p.running, 2);
    assert!(p.running <= p.capacity);
    p.finish();
    p.finish();
    p.start();
    p.finish();
    assert_eq!(p.pending, 0);
    assert_eq!(p.running, 0);
    assert_eq!(p.done, 4);
    assert!(!p.drained());
    for _ in 0..4 {
        p.take();
    }
    assert!(p.drained());
}

#[test]
fn pool_supports_resubmission_mid_drain() {
    // a completion may trigger new spawns while others still run
    let mut p = PoolState::new(1);
    p.spawn();
    p.start();
    p.finish();
    p.take();
    // the consumer reacts by submitting two retries
    p.spawn();
    p.spawn();
    p.start();
    assert!(p.running <= p.capacity);
    p.finish();
    p.start();
    p.finish();
    p.take();
    p.take();
    assert!(p.drained());
}
