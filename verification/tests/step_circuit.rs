use std::collections::HashMap;
use vnt::aggregation_circuit::{update_clogs, update_for_log, AggregationCircuit, ClogUpdate, Update};
use vnt::crypto::{hash_U1, hash_U2};
use vnt::zk::{u64_to_repr, CompressedLog, Log};

fn elem(v: u8) -> [u8; 32] {
    let mut a = [0u8; 32];
    a[0] = v;
    a
}

fn clog(idx: usize, user: u8, chain: [u8; 32]) -> CompressedLog<[u8; 32]> {
    CompressedLog { merkle_idx: idx, user_id: elem(user), hash_chain: chain }
}

fn leaf(c: &CompressedLog<[u8; 32]>) -> [u8; 32] {
    hash_U1(&vec![c.user_id, c.hash_chain]).unwrap()
}

fn h2(a: [u8; 32], b: [u8; 32]) -> [u8; 32] {
    hash_U2(&vec![a, b]).unwrap()
}

fn raw(user: u32) -> Log<u32> {
    Log { id: 1, user_id: user, src: 0, dst: 2, pred: 1, packet_size: 40, hop_cnt: 1 }
}

fn setup() -> (AggregationCircuit, [u8; 32], [u8; 32]) {
    let old = clog(0, 5, elem(9));
    let other = clog(1, 6, elem(3));
    let log = raw(5);
    let new_chain = h2(old.hash_chain, log.pack());
    let new = clog(0, 5, new_chain);
    let root = h2(leaf(&old), leaf(&other));
    let new_root = h2(leaf(&new), leaf(&other));
    let update = Update {
        raw_log: log,
        clog_update: ClogUpdate { idx: 0, siblings: vec![leaf(&other)], old_clog: old, new_clog: new },
    };
    (AggregationCircuit { batches: vec![vec![update]], step_count: 0 }, root, new_root)
}

#[test]
fn step_updates_root_chain_and_counter() {
    let (circuit, root, new_root) = setup();
    let state = [root, root, [0u8; 32], u64_to_repr(0)];
    let packed = circuit.batches[0][0].raw_log.pack();
    let batch_hash = hash_U2(&vec![packed]).unwrap();
    let expected = [root, new_root, h2([0u8; 32], batch_hash), u64_to_repr(1)];
    assert_eq!(circuit.next_state(&state, 1), Some(expected));
}

#[test]
fn step_refuses_a_wrong_old_root() {
    let (circuit, root, new_root) = setup();
    let state = [new_root, new_root, [0u8; 32], u64_to_repr(0)];
    assert_eq!(circuit.next_state(&state, 1), None);
    let state = [root, root, [0u8; 32], u64_to_repr(1)];
    assert_eq!(circuit.next_state(&state, 1), None);
    let state = [root, root, elem(1), u64_to_repr(0)];
    assert_eq!(circuit.next_state(&state, 1), None);
}

#[test]
fn step_refuses_a_chain_that_does_not_extend() {
    let (mut circuit, root, _) = setup();
    circuit.batches[0][0].clog_update.new_clog.hash_chain = elem(4);
    let state = [root, root, [0u8; 32], u64_to_repr(0)];
    assert_eq!(circuit.next_state(&state, 1), None);
}

#[test]
fn later_steps_start_anywhere() {
    let (mut circuit, root, new_root) = setup();
    circuit.step_count = 3;
    let state = [elem(7), root, elem(2), u64_to_repr(3)];
    let out = circuit.next_state(&state, 1).unwrap();
    assert_eq!(out[0], elem(7));
    assert_eq!(out[1], new_root);
    assert_eq!(out[3], u64_to_repr(4));
}

#[test]
fn new_user_takes_the_next_position() {
    let mut m: HashMap<u64, CompressedLog<[u8; 32]>> = HashMap::new();
    m.insert(5, clog(0, 5, elem(9)));
    let log = raw(8);
    let (old, new) = update_clogs(&mut m, &log);
    assert_eq!(old.merkle_idx, 1);
    assert_eq!(old.user_id, [0u8; 32]);
    assert_eq!(old.hash_chain, [0u8; 32]);
    assert_eq!(new.merkle_idx, 1);
    assert_eq!(new.user_id, u64_to_repr(8));
    assert_eq!(new.hash_chain, h2([0u8; 32], log.pack()));
    assert_eq!(m.len(), 2);
    assert_eq!(m[&8].hash_chain, new.hash_chain);
}

#[test]
fn existing_user_extends_its_chain() {
    let mut m: HashMap<u64, CompressedLog<[u8; 32]>> = HashMap::new();
    m.insert(5, clog(3, 5, elem(9)));
    let log = raw(5);
    let (old, new) = update_clogs(&mut m, &log);
    assert_eq!(old.merkle_idx, 3);
    assert_eq!(old.hash_chain, elem(9));
    assert_eq!(new.merkle_idx, 3);
    assert_eq!(new.user_id, elem(5));
    assert_eq!(new.hash_chain, h2(elem(9), log.pack()));
    assert_eq!(m.len(), 1);
}

#[test]
fn empty_log_is_a_no_op_at_the_last_position() {
    let mut m: HashMap<u64, CompressedLog<[u8; 32]>> = HashMap::new();
    m.insert(5, clog(0, 5, elem(9)));
    let empty = Log::<u32>::empty();
    let (old, new) = update_for_log(&mut m, &empty, 15);
    assert_eq!(old.merkle_idx, (1 << 15) - 1);
    assert_eq!(new.merkle_idx, old.merkle_idx);
    assert_eq!(new.hash_chain, [0u8; 32]);
    assert_eq!(m.len(), 1);
    let (before, changed) = update_for_log(&mut m, &raw(5), 15);
    assert_eq!(before.merkle_idx, 0);
    assert_eq!(before.hash_chain, elem(9));
    assert_eq!(changed.merkle_idx, 0);
    assert_eq!(changed.hash_chain, h2(elem(9), raw(5).pack()));
    let (fresh_before, fresh) = update_for_log(&mut m, &raw(6), 15);
    assert_eq!(fresh_before.merkle_idx, 1);
    assert_eq!(fresh_before.user_id, [0u8; 32]);
    assert_eq!(fresh_before.hash_chain, [0u8; 32]);
    assert_eq!(fresh.merkle_idx, 1);
    assert_eq!(fresh.user_id, u64_to_repr(6));
    assert_eq!(fresh.hash_chain, h2([0u8; 32], raw(6).pack()));
}

#[test]
fn two_steps_chain_their_states() {
    let (first, root, new_root) = setup();
    let state = [root, root, [0u8; 32], u64_to_repr(0)];
    let mid = first.next_state(&state, 1).unwrap();
    let old = clog(0, 5, first.batches[0][0].clog_update.new_clog.hash_chain);
    let other = clog(1, 6, elem(3));
    let log = raw(5);
    let new = clog(0, 5, h2(old.hash_chain, log.pack()));
    let update = Update {
        raw_log: log,
        clog_update: ClogUpdate { idx: 0, siblings: vec![leaf(&other)], old_clog: old, new_clog: new },
    };
    assert_eq!(mid[1], new_root);
    let second = AggregationCircuit { batches: vec![vec![update]], step_count: 1 };
    let end = second.next_state(&mid, 1).unwrap();
    assert_eq!(end[0], root);
    assert_eq!(end[1], h2(leaf(&new), leaf(&other)));
    assert_eq!(end[3], u64_to_repr(2));
}
