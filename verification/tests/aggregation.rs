use std::collections::HashMap;
use vnt::aggregate::{aggregate_logs, flatten_logs, split_records};
use vnt::circuit::{aggregation_hash_chain, pad_new_logs};
use vnt::crypto::hash_U2;
use vnt::types::{CLog, Log};
use vnt::zk;

fn log(id: i32, flow: i32, hop: i32) -> Log {
    Log::new(id, flow, 0, 3, 1, 64, hop)
}

fn step(prev: [u8; 32], l: &Log) -> [u8; 32] {
    let packed = zk::Log::<u32>::from_record(l).pack();
    hash_U2(&vec![prev, packed]).unwrap()
}

#[test]
fn flatten_keeps_table_order() {
    let t = vec![vec![log(1, 1, 1)], vec![], vec![log(2, 2, 1), log(3, 1, 2)]];
    let f = flatten_logs(&t);
    let ids: Vec<i32> = f.iter().map(|l| l.id).collect();
    assert_eq!(ids, vec![1, 2, 3]);
}

#[test]
fn aggregate_new_and_existing_users() {
    let existing_chain = step([0u8; 32], &log(100, 7, 1));
    let mut map = HashMap::new();
    map.insert(7, CLog::new(1, 7, existing_chain.to_vec()));
    let a = log(11, 7, 2);
    let b = log(12, 9, 1);
    let c = log(13, 9, 2);
    let order = aggregate_logs(&mut map, &vec![vec![a, b], vec![c]]);
    assert_eq!(order, vec![9]);
    assert_eq!(map.len(), 2);
    let r7 = &map[&7];
    assert_eq!(r7.id, 1);
    assert_eq!(r7.user_id, 7);
    assert_eq!(r7.hash_chain, step(existing_chain, &a).to_vec());
    let r9 = &map[&9];
    assert_eq!(r9.id, 12);
    assert_eq!(r9.user_id, 9);
    assert_eq!(r9.hash_chain, step(step([0u8; 32], &b), &c).to_vec());
}

#[test]
fn aggregate_in_two_rounds_matches_one() {
    let logs1 = vec![vec![log(1, 1, 1), log(2, 2, 1)]];
    let logs2 = vec![vec![log(3, 1, 2)], vec![log(4, 3, 1)]];
    let mut once = HashMap::new();
    let all = vec![logs1[0].clone(), logs2[0].clone(), logs2[1].clone()];
    let order_once = aggregate_logs(&mut once, &all);
    let mut twice = HashMap::new();
    let mut order_twice = aggregate_logs(&mut twice, &logs1);
    order_twice.extend(aggregate_logs(&mut twice, &logs2));
    assert_eq!(order_once, vec![1, 2, 3]);
    assert_eq!(order_once, order_twice);
    for k in [1, 2, 3] {
        assert_eq!(once[&k].hash_chain, twice[&k].hash_chain);
        assert_eq!(once[&k].id, twice[&k].id);
    }
}

#[test]
fn split_updates_and_inserts() {
    let mut old = HashMap::new();
    old.insert(1, CLog::new(1, 1, vec![1]));
    let mut clogs = HashMap::new();
    clogs.insert(1, CLog::new(1, 1, vec![2]));
    clogs.insert(5, CLog::new(3, 5, vec![3]));
    clogs.insert(6, CLog::new(4, 6, vec![4]));
    let (update, insert, order) = split_records(&clogs, &old, &vec![6, 1, 5]);
    assert_eq!(update.len(), 1);
    assert_eq!(update[&1].hash_chain, vec![2]);
    assert_eq!(insert.len(), 2);
    assert_eq!(insert[&5].id, 3);
    assert_eq!(insert[&6].id, 4);
    assert_eq!(order, vec![6, 5]);
    assert!(update.keys().all(|k| !insert.contains_key(k)));
}

#[test]
fn padding_to_batches_and_steps() {
    let t0: Vec<Log> = (1..=3).map(|i| log(i, 1, 1)).collect();
    let t1: Vec<Log> = (4..=13).map(|i| log(i, 2, 1)).collect();
    let t2: Vec<Log> = vec![];
    let (raw, batch_padding, step_padding) = pad_new_logs(&vec![t0, t1, t2], 10, 3);
    assert_eq!(batch_padding, 7);
    assert_eq!(step_padding, 10);
    assert_eq!(raw.len(), 30);
    assert_eq!(raw[0].id, 1);
    assert!(raw[3].is_empty());
    assert!(raw[9].is_empty());
    assert_eq!(raw[10].id, 4);
    assert_eq!(raw[19].id, 13);
    assert!(raw[20..].iter().all(|l| l.is_empty()));
}

#[test]
fn hash_chain_over_batches() {
    let (raw, _, _) = pad_new_logs(&vec![vec![log(1, 1, 1), log(2, 1, 2), log(3, 2, 1)]], 2, 2);
    assert_eq!(raw.len(), 4);
    let (chain, n_steps) = aggregation_hash_chain(&raw, 2, 2);
    assert_eq!(n_steps, 1);
    let mut expected = [0u8; 32];
    for b in raw.chunks(2) {
        let packed: Vec<[u8; 32]> = b.iter().map(|l| l.pack()).collect();
        let bh = hash_U2(&packed).unwrap();
        expected = hash_U2(&vec![expected, bh]).unwrap();
    }
    assert_eq!(chain, expected);
    assert_ne!(chain, [0u8; 32]);
}

#[test]
fn split_after_aggregation_covers_every_record() {
    let mut old = HashMap::new();
    old.insert(7, CLog::new(1, 7, step([0u8; 32], &log(100, 7, 1)).to_vec()));
    let mut clogs = old.clone();
    let order = aggregate_logs(&mut clogs, &vec![vec![log(2, 9, 1), log(3, 7, 2)], vec![log(4, 8, 1)]]);
    assert_eq!(order, vec![9, 8]);
    let (update, insert, inserted) = split_records(&clogs, &old, &order);
    assert_eq!(inserted, order);
    let mut keys: Vec<i32> = update.keys().chain(insert.keys()).copied().collect();
    keys.sort();
    let mut all: Vec<i32> = clogs.keys().copied().collect();
    all.sort();
    assert_eq!(keys, all);
}
