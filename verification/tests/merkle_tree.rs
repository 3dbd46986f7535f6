use sha2::{Digest, Sha256};
use vnt::crypto::{hash_U1, hash_U2};
use vnt::merkle::{merkle_root_from_digests, merkle_root_from_leaves, path_computed_root};
use vnt::types::CLog;
use vnt::zk::{hash_to_field_elements, records_root, ConsistencyCircuit};

fn leaf(v: u8) -> [u8; 32] {
    let mut a = [0u8; 32];
    a[0] = v;
    a
}

fn h1(v: [u8; 32]) -> [u8; 32] {
    hash_U1(&vec![v]).unwrap()
}

fn h2(l: [u8; 32], r: [u8; 32]) -> [u8; 32] {
    hash_U2(&vec![l, r]).unwrap()
}

#[test]
fn root_of_three_leaves_height_two() {
    let leaves = vec![leaf(1), leaf(2), leaf(3)];
    let empty = h1([0u8; 32]);
    let expected = h2(h2(h1(leaf(1)), h1(leaf(2))), h2(h1(leaf(3)), empty));
    assert_eq!(merkle_root_from_leaves(&leaves, 2), Some(expected));
}

#[test]
fn root_of_full_tree() {
    let leaves = vec![leaf(1), leaf(2), leaf(3), leaf(4)];
    let expected = h2(h2(h1(leaf(1)), h1(leaf(2))), h2(h1(leaf(3)), h1(leaf(4))));
    assert_eq!(merkle_root_from_leaves(&leaves, 2), Some(expected));
}

#[test]
fn root_of_one_leaf_height_three() {
    let e0 = h1([0u8; 32]);
    let e1 = h2(e0, e0);
    let e2 = h2(e1, e1);
    let expected = h2(h2(h2(h1(leaf(9)), e0), e1), e2);
    assert_eq!(merkle_root_from_leaves(&vec![leaf(9)], 3), Some(expected));
}

#[test]
fn zero_leaves_padding_keeps_root() {
    let a = merkle_root_from_leaves(&vec![leaf(5), leaf(6), leaf(7)], 3);
    let b = merkle_root_from_leaves(&vec![leaf(5), leaf(6), leaf(7), [0u8; 32]], 3);
    assert_eq!(a, b);
}

#[test]
fn no_leaves_no_root() {
    assert_eq!(merkle_root_from_leaves(&vec![], 4), None);
}

fn half(h: &[u8]) -> [u8; 32] {
    let mut a = [0u8; 32];
    a[..16].copy_from_slice(h);
    a
}

fn chain(v: u8) -> Vec<u8> {
    leaf(v).to_vec()
}

fn record_digest(user: i32, c: &[u8]) -> [u8; 32] {
    let ue = vnt::zk::u64_to_repr(user as u64);
    hash_U1(&vec![ue, c.try_into().unwrap()]).unwrap()
}

#[test]
fn consistency_accepts_the_records_root() {
    let clogs = vec![CLog::new(1, 7, chain(1)), CLog::new(2, -3, chain(2)), CLog::new(3, 9, chain(3))];
    let preimage = ConsistencyCircuit::clogs_to_bytes(&clogs);
    assert_eq!(preimage.len(), 108);
    let hash = ConsistencyCircuit::hash_clogs(&clogs);
    assert_eq!(hash, vnt::query::query_clogs_hash(&clogs));
    let circuit = ConsistencyCircuit::new(preimage, hash, 0);
    let digests = circuit.record_digests().unwrap();
    let expected_leaves: Vec<[u8; 32]> = clogs.iter().map(|c| record_digest(c.user_id, &c.hash_chain)).collect();
    assert_eq!(digests, expected_leaves);
    let root = records_root(&clogs, 15).unwrap();
    assert_eq!(merkle_root_from_digests(&digests, 15), Some(root));
    let (hi, lo) = (half(&hash[..16]), half(&hash[16..]));
    let zero_step = [0u8; 32];
    assert!(circuit.accepts(&root, &hi, &lo, &zero_step));
    let (hi128, lo128) = hash_to_field_elements(&hash);
    assert_eq!(u128::from_le_bytes(hi[..16].try_into().unwrap()), hi128);
    assert_eq!(u128::from_le_bytes(lo[..16].try_into().unwrap()), lo128);
    let mut bad_root = root;
    bad_root[0] ^= 1;
    assert!(!circuit.accepts(&bad_root, &hi, &lo, &zero_step));
    assert!(!circuit.accepts(&root, &lo, &hi, &zero_step));
    let mut one = [0u8; 32];
    one[0] = 1;
    assert!(!circuit.accepts(&root, &hi, &lo, &one));
    let later = ConsistencyCircuit::new(circuit.preimage.clone(), hash, 1);
    assert!(later.accepts(&root, &hi, &lo, &one));
    let wrong = ConsistencyCircuit::new(circuit.preimage.clone(), [0u8; 32], 0);
    assert!(!wrong.accepts(&root, &hi, &lo, &zero_step));
}

#[test]
fn records_root_of_two_records_height_one() {
    let clogs = vec![CLog::new(1, 4, chain(5)), CLog::new(2, 6, chain(7))];
    let expected = h2(record_digest(4, &chain(5)), record_digest(6, &chain(7)));
    assert_eq!(records_root(&clogs, 1), Some(expected));
    assert_eq!(records_root(&[], 3), None);
    assert_eq!(records_root(&[CLog::new(1, 4, vec![1, 2])], 3), None);
    assert_eq!(records_root(&[CLog::new(1, 4, vec![0xff; 32])], 3), None);
}

#[test]
fn consistency_needs_a_whole_record() {
    let preimage: Vec<u8> = vec![1, 2, 3];
    let hash: [u8; 32] = Sha256::digest(&preimage).into();
    let circuit = ConsistencyCircuit::new(preimage, hash, 0);
    assert_eq!(circuit.record_digests(), Some(vec![]));
    assert!(!circuit.accepts(&[0u8; 32], &half(&hash[..16]), &half(&hash[16..]), &[0u8; 32]));
}

#[test]
fn consistency_rejects_a_chain_that_is_no_field_element() {
    let clogs = vec![CLog::new(1, 4, vec![0xff; 32])];
    let preimage = ConsistencyCircuit::clogs_to_bytes(&clogs);
    let hash: [u8; 32] = Sha256::digest(&preimage).into();
    let circuit = ConsistencyCircuit::new(preimage, hash, 0);
    assert_eq!(circuit.record_digests(), None);
    assert!(!circuit.accepts(&[0u8; 32], &half(&hash[..16]), &half(&hash[16..]), &[0u8; 32]));
}

#[test]
fn every_leaf_path_leads_to_the_root() {
    let leaves = vec![leaf(1), leaf(2), leaf(3)];
    let root = merkle_root_from_leaves(&leaves, 2).unwrap();
    let empty = h1([0u8; 32]);
    let (n0, n1, n2, n3) = (h1(leaf(1)), h1(leaf(2)), h1(leaf(3)), empty);
    let (l, r) = (h2(n0, n1), h2(n2, n3));
    // Siblings from the root down, index bits from the root down.
    let cases = vec![
        (leaf(1), vec![false, false], vec![r, n1]),
        (leaf(2), vec![false, true], vec![r, n0]),
        (leaf(3), vec![true, false], vec![l, n3]),
        ([0u8; 32], vec![true, true], vec![l, n2]),
    ];
    for (v, bits, sibs) in cases {
        assert_eq!(path_computed_root(&vec![v], &bits, &sibs), Some(root));
    }
}

#[test]
fn path_with_wrong_turn_misses_the_root() {
    let leaves = vec![leaf(1), leaf(2)];
    let root = merkle_root_from_leaves(&leaves, 1).unwrap();
    let got = path_computed_root(&vec![leaf(1)], &vec![true], &vec![h1(leaf(2))]);
    assert_eq!(got, Some(h2(h1(leaf(2)), h1(leaf(1)))));
    assert_ne!(got, Some(root));
}

#[test]
fn path_of_empty_path_is_the_leaf_digest() {
    let v = vec![leaf(4), leaf(5)];
    assert_eq!(path_computed_root(&v, &vec![], &vec![]), hash_U1(&v));
}

#[test]
fn path_rejects_non_canonical_sibling() {
    let bad = [0xffu8; 32];
    assert_eq!(path_computed_root(&vec![leaf(1)], &vec![false], &vec![bad]), None);
    assert_eq!(path_computed_root(&vec![bad], &vec![false], &vec![leaf(1)]), None);
}

#[test]
fn past_capacity_the_last_whole_block_gives_the_root() {
    let three = vec![leaf(1), leaf(2), leaf(3)];
    assert_eq!(merkle_root_from_leaves(&three, 1), Some(h2(h1(leaf(1)), h1(leaf(2)))));
    let five = vec![leaf(1), leaf(2), leaf(3), leaf(4), leaf(5)];
    assert_eq!(merkle_root_from_leaves(&five, 1), Some(h2(h1(leaf(3)), h1(leaf(4)))));
    assert_eq!(merkle_root_from_leaves(&vec![leaf(7), leaf(8)], 0), Some(h1(leaf(8))));
}

#[test]
fn consistency_step_carries_the_state_and_counts_up() {
    let clogs = vec![CLog::new(1, 7, chain(1)), CLog::new(2, 8, chain(2))];
    let hash = ConsistencyCircuit::hash_clogs(&clogs);
    let circuit = ConsistencyCircuit::new(ConsistencyCircuit::clogs_to_bytes(&clogs), hash, 0);
    let root = records_root(&clogs, 15).unwrap();
    let (hi, lo) = (half(&hash[..16]), half(&hash[16..]));
    let z = [root, hi, lo, [0u8; 32]];
    let mut one = [0u8; 32];
    one[0] = 1;
    assert_eq!(circuit.next_state(&z), Some([root, hi, lo, one]));
    assert_eq!(circuit.next_state(&[root, hi, lo, one]), None);
    let mut bad = root;
    bad[1] ^= 1;
    assert_eq!(circuit.next_state(&[bad, hi, lo, [0u8; 32]]), None);
}
