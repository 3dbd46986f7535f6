use sha2::{Digest, Sha256};
use vnt::query::{
    compute_hash, concat_all, table_commitment, find_hash_chain, first_hash_mismatch, query_clogs_hash,
    query_message, run_query,
};
use vnt::types::{CLog, QueryPrivateInput};

fn sha(bytes: &[u8]) -> [u8; 32] {
    Sha256::digest(bytes).into()
}

#[test]
fn compute_hash_known_value() {
    let h = compute_hash(&vec![b"a".to_vec(), b"bc".to_vec()]);
    assert_eq!(
        hex::encode(h),
        "ba7816bf8f01cfea414140de5dae2223b00361a396177a9cb410ff61f20015ad"
    );
}

#[test]
fn compute_hash_of_nothing() {
    let h = compute_hash(&vec![]);
    assert_eq!(
        hex::encode(h),
        "e3b0c44298fc1c149afbf4c8996fb92427ae41e4649b934ca495991b7852b855"
    );
}

#[test]
fn concat_all_in_order() {
    assert_eq!(concat_all(&vec![vec![1, 2], vec![], vec![3]]), vec![1, 2, 3]);
}

#[test]
fn hash_mismatch_detection() {
    let tables = vec![vec![vec![1u8, 2]], vec![vec![3u8]], vec![]];
    let good = vec![sha(&[1, 2]), sha(&[3]), sha(&[])];
    assert_eq!(first_hash_mismatch(&tables, &good), None);
    let mut bad = good.clone();
    bad[1][0] ^= 1;
    assert_eq!(first_hash_mismatch(&tables, &bad), Some(1));
    let short = vec![sha(&[1, 2])];
    assert_eq!(first_hash_mismatch(&tables, &short), Some(1));
}

#[test]
fn query_hash_covers_user_and_chain() {
    let clogs = vec![CLog::new(1, 2, vec![9, 9]), CLog::new(2, -1, vec![7])];
    let mut expected = Vec::new();
    expected.extend_from_slice(&2i32.to_le_bytes());
    expected.extend_from_slice(&[9, 9]);
    expected.extend_from_slice(&(-1i32).to_le_bytes());
    expected.extend_from_slice(&[7]);
    assert_eq!(query_clogs_hash(&clogs), sha(&expected));
}

#[test]
fn last_matching_chain_wins() {
    let clogs = vec![
        CLog::new(1, 4, vec![1]),
        CLog::new(2, 5, vec![2]),
        CLog::new(3, 4, vec![3, 3]),
    ];
    assert_eq!(find_hash_chain(&clogs, 4), vec![3, 3]);
    assert_eq!(find_hash_chain(&clogs, 5), vec![2]);
    assert_eq!(find_hash_chain(&clogs, 6), Vec::<u8>::new());
}

#[test]
fn query_message_format() {
    assert_eq!(query_message(3, &vec![1, 20]), "user_id 3 hash_chain: [1, 20]");
    assert_eq!(query_message(-3, &vec![]), "user_id -3 hash_chain: []");
}

#[test]
fn run_query_reports_user_chain() {
    let input = QueryPrivateInput {
        clogs: vec![CLog::new(1, 0, vec![5, 6]), CLog::new(2, 1, vec![7])],
        cur_root: [0u8; 32],
        user_id: 0,
    };
    let journal = run_query(&input);
    assert!(journal.success);
    assert_eq!(journal.message, "user_id 0 hash_chain: [5, 6]");
}

#[test]
fn query_selects_the_only_record_of_a_user() {
    let clogs = vec![
        CLog::new(1, 4, vec![1]),
        CLog::new(2, 5, vec![2, 2]),
        CLog::new(3, 6, vec![3]),
    ];
    for c in clogs.iter() {
        assert_eq!(find_hash_chain(&clogs, c.user_id), c.hash_chain);
    }
    assert!(find_hash_chain(&clogs, 7).is_empty());
}

#[test]
fn empty_table_gets_no_commitment() {
    assert_eq!(table_commitment(&vec![]), None);
    assert_eq!(table_commitment(&vec![vec![1u8], vec![2u8]]), Some(sha(&[1, 2])));
}
