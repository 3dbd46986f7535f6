use sha2::{Digest, Sha256};
use vnt::crypto::{hash_U1, hash_U2};
use vnt::types::CLog;
use vnt::zk::{hash_to_field_elements, scalar_to_u64, CompressedLog, ConsistencyCircuit, Log};

fn sample() -> Log<u32> {
    Log { id: 1, user_id: 2, src: 3, dst: 4, pred: 5, packet_size: 0x0102_0304, hop_cnt: 7 }
}

#[test]
fn pack_layout() {
    let p = sample().pack();
    let mut expected = [0u8; 32];
    for (i, v) in [1u32, 2, 3, 4, 5, 0x0102_0304, 7].iter().enumerate() {
        expected[4 * i..4 * i + 4].copy_from_slice(&v.to_le_bytes());
    }
    assert_eq!(p, expected);
    assert_eq!(&p[28..], &[0, 0, 0, 0]);
}

#[test]
fn pack_of_empty_is_zero() {
    assert_eq!(Log::<u32>::empty().pack(), [0u8; 32]);
    assert!(Log::<u32>::empty().is_empty());
    assert!(!sample().is_empty());
}

#[test]
fn from_record_reinterprets_fields() {
    let r = vnt::types::Log::new(10, 20, -1, 3, 4, 5, 6);
    let z = Log::<u32>::from_record(&r);
    assert_eq!(z.id, 10);
    assert_eq!(z.user_id, 20);
    assert_eq!(z.src, u32::MAX);
    assert_eq!(z.hop_cnt, 6);
}

#[test]
fn log_fields_in_order() {
    let l = sample();
    let f: Vec<u32> = l.fields().into_iter().copied().collect();
    assert_eq!(f, vec![1, 2, 3, 4, 5, 0x0102_0304, 7]);
}

#[test]
fn compressed_log_zero_and_pack() {
    let z = CompressedLog::zero(5);
    assert_eq!(z.merkle_idx, 5);
    assert_eq!(z.user_id, [0u8; 32]);
    let mut uid = [0u8; 32];
    uid[0] = 9;
    let c = CompressedLog { merkle_idx: 1, user_id: uid, hash_chain: [3u8; 32] };
    assert_eq!(c.pack(), vec![uid, [3u8; 32]]);
    assert_eq!(c.fields(), vec![&uid]);
}

#[test]
fn scalar_low_bits() {
    let mut n = [0u8; 32];
    n[0] = 0x01;
    n[1] = 0x02;
    n[7] = 0x80;
    n[8] = 0xff;
    assert_eq!(scalar_to_u64(&n), 0x8000_0000_0000_0201);
}

#[test]
fn hash_halves() {
    let mut h = [0u8; 32];
    h[0] = 1;
    h[15] = 0x10;
    h[16] = 2;
    h[31] = 0xff;
    let (hi, lo) = hash_to_field_elements(&h);
    assert_eq!(hi, 1 + (0x10u128 << 120));
    assert_eq!(lo, 2 + (0xffu128 << 120));
}

#[test]
fn clogs_bytes_and_hash() {
    let clogs = vec![CLog::new(1, 2, vec![7, 8]), CLog::new(-1, 3, vec![])];
    let bytes = ConsistencyCircuit::clogs_to_bytes(&clogs);
    assert_eq!(bytes, vec![2, 0, 0, 0, 7, 8, 3, 0, 0, 0]);
    assert_eq!(ConsistencyCircuit::hash_clogs(&clogs), vnt::query::query_clogs_hash(&clogs));
    let expected: [u8; 32] = Sha256::digest(&bytes).into();
    assert_eq!(ConsistencyCircuit::hash_clogs(&clogs), expected);
    let c = ConsistencyCircuit::new(bytes.clone(), expected, 0);
    assert_eq!(c.preimage, bytes);
    assert_eq!(c.step, 0);
}

#[test]
fn poseidon_accepts_only_canonical_elements() {
    let zero = [0u8; 32];
    let h = hash_U2(&vec![zero, zero]).expect("canonical inputs");
    assert_ne!(h, zero);
    assert!(h[31] < 0x31);
    assert_eq!(hash_U2(&vec![zero, zero]), Some(h));
    let too_big = [0xffu8; 32];
    assert_eq!(hash_U2(&vec![zero, too_big]), None);
    let h1 = hash_U1(&vec![zero]).expect("canonical input");
    assert_ne!(h1, zero);
    assert_ne!(h1, h);
}

#[test]
fn compressed_from_record() {
    let chain = hash_U2(&vec![[0u8; 32], [0u8; 32]]).unwrap();
    let c = CompressedLog::from_record(&CLog::new(3, -1, chain.to_vec()));
    assert_eq!(c.merkle_idx, 2);
    let mut uid = [0u8; 32];
    uid[..8].copy_from_slice(&u64::MAX.to_le_bytes());
    assert_eq!(c.user_id, uid);
    assert_eq!(c.hash_chain, chain);
}

#[test]
fn poseidon_of_no_elements() {
    let e2 = hash_U2(&vec![]).expect("no element to reject");
    let e1 = hash_U1(&vec![]).expect("no element to reject");
    assert_ne!(e2, hash_U2(&vec![[0u8; 32]]).unwrap());
    assert_ne!(e1, hash_U1(&vec![[0u8; 32]]).unwrap());
}
