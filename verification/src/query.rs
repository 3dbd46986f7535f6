//! The computations of the zero-knowledge guests: checking the committed log
//! hashes, and answering a query over the aggregated records.
use vstd::prelude::*;

use crate::crypto::{sha256, sha256_digest};
use crate::encoding::{i32_le, push_all, push_i32_le};
use crate::text::{bytes_list_str, int_str, push_bytes_list, push_int, push_str};
use crate::types::{CLog, QueryJournal, QueryPrivateInput};

verus! {

/// The concatenation of byte strings.
pub open spec fn concat_bytes(parts: Seq<Vec<u8>>) -> Seq<u8>
    decreases parts.len(),
{
    if parts.len() == 0 {
        Seq::empty()
    } else {
        concat_bytes(parts.drop_last()) + parts.last()@
    }
}

/// The concatenation of byte strings, in order.
pub fn concat_all(parts: &Vec<Vec<u8>>) -> (r: Vec<u8>)
    ensures
        r@ == concat_bytes(parts@),
{
    let mut out: Vec<u8> = Vec::new();
    let mut i: usize = 0;
    while i < parts.len()
        invariant
            0 <= i <= parts.len(),
            out@ == concat_bytes(parts@.subrange(0, i as int)),
        decreases parts.len() - i,
    {
        push_all(&mut out, parts[i].as_slice());
        proof {
            let pre = parts@.subrange(0, i as int);
            let post = parts@.subrange(0, i + 1);
            assert(post.drop_last() =~= pre);
        }
        i = i + 1;
    }
    assert(parts@.subrange(0, parts.len() as int) =~= parts@);
    out
}

/// The SHA-256 hash of a router's log table: the hasher absorbs the
/// serialization of each log in turn, which is the hash of their concatenation.
pub fn compute_hash(serialized_logs: &Vec<Vec<u8>>) -> (r: [u8; 32])
    ensures
        r@ == sha256(concat_bytes(serialized_logs@)),
{
    let bytes = concat_all(serialized_logs);
    sha256_digest(bytes.as_slice())
}

/// The commitment to a router's table: the hash of its serialized logs, or
/// nothing for a table without logs, which gets no commitment.
pub fn table_commitment(serialized_logs: &Vec<Vec<u8>>) -> (r: Option<[u8; 32]>)
    ensures
        serialized_logs.len() == 0 ==> r is None,
        serialized_logs.len() > 0 ==> (r matches Some(h) && h@ == sha256(concat_bytes(serialized_logs@))),
{
    if serialized_logs.len() == 0 {
        None
    } else {
        Some(compute_hash(serialized_logs))
    }
}

/// Whether table `i`'s committed hash is present and matches its logs.
pub open spec fn table_hash_ok(tables: Seq<Vec<Vec<u8>>>, hashes: Seq<[u8; 32]>, i: int) -> bool {
    i < hashes.len() && hashes[i]@ == sha256(concat_bytes(tables[i]@))
}

/// The first table whose logs do not hash to its committed hash (or that has
/// no committed hash), or `None` when every table matches.
pub fn first_hash_mismatch(tables: &Vec<Vec<Vec<u8>>>, hashes: &Vec<[u8; 32]>) -> (r: Option<usize>)
    ensures
        r is None <==> forall|i: int| 0 <= i < tables.len() ==> table_hash_ok(tables@, hashes@, i),
        r matches Some(i) ==> i < tables.len() && !table_hash_ok(tables@, hashes@, i as int) && forall|
            j: int,
        | 0 <= j < i ==> table_hash_ok(tables@, hashes@, j),
{
    let mut i: usize = 0;
    while i < tables.len()
        invariant
            0 <= i <= tables.len(),
            forall|j: int| 0 <= j < i ==> table_hash_ok(tables@, hashes@, j),
        decreases tables.len() - i,
    {
        let computed = compute_hash(&tables[i]);
        if i >= hashes.len() {
            assert(!table_hash_ok(tables@, hashes@, i as int));
            return Some(i);
        }
        let expected = hashes[i];
        let mut same = true;
        let mut b: usize = 0;
        while b < 32
            invariant
                0 <= b <= 32,
                same == (forall|k: int| 0 <= k < b ==> computed@[k] == expected@[k]),
            decreases 32 - b,
        {
            if computed[b] != expected[b] {
                same = false;
            }
            b = b + 1;
        }
        proof {
            if same {
                assert(computed@ =~= expected@);
            } else {
                assert(computed@ != expected@);
            }
        }
        if !same {
            assert(!table_hash_ok(tables@, hashes@, i as int));
            return Some(i);
        }
        i = i + 1;
    }
    None
}

/// The bytes that the query guest hashes: each record's user id in
/// little-endian order, then its hash chain.
pub open spec fn query_bytes(clogs: Seq<CLog>) -> Seq<u8>
    decreases clogs.len(),
{
    if clogs.len() == 0 {
        Seq::empty()
    } else {
        query_bytes(clogs.drop_last()) + i32_le(clogs.last().user_id) + clogs.last().hash_chain@
    }
}

/// The SHA-256 hash over the records that the query guest reports.
pub fn query_clogs_hash(clogs: &[CLog]) -> (r: [u8; 32])
    ensures
        r@ == sha256(query_bytes(clogs@)),
{
    let mut bytes: Vec<u8> = Vec::new();
    let mut i: usize = 0;
    while i < clogs.len()
        invariant
            0 <= i <= clogs.len(),
            bytes@ == query_bytes(clogs@.subrange(0, i as int)),
        decreases clogs.len() - i,
    {
        push_i32_le(&mut bytes, clogs[i].user_id);
        push_all(&mut bytes, clogs[i].hash_chain.as_slice());
        proof {
            let pre = clogs@.subrange(0, i as int);
            let post = clogs@.subrange(0, i + 1);
            assert(post.drop_last() =~= pre);
        }
        i = i + 1;
    }
    assert(clogs@.subrange(0, clogs.len() as int) =~= clogs@);
    sha256_digest(bytes.as_slice())
}

/// The hash chain of the last record of a user, or nothing when the user has none.
pub open spec fn user_chain(clogs: Seq<CLog>, user_id: i32) -> Seq<u8>
    decreases clogs.len(),
{
    if clogs.len() == 0 {
        Seq::empty()
    } else if clogs.last().user_id == user_id {
        clogs.last().hash_chain@
    } else {
        user_chain(clogs.drop_last(), user_id)
    }
}

/// The query selects the chain of a user's record (`SELECT hash_chain FROM
/// clogs WHERE user_id = u`): when exactly one record belongs to the user,
/// its chain is the answer; when none does, the answer is empty.
pub proof fn lemma_user_chain_of_record(clogs: Seq<CLog>, user_id: i32)
    ensures
        (forall|j: int| 0 <= j < clogs.len() ==> #[trigger] clogs[j].user_id != user_id)
            ==> user_chain(clogs, user_id).len() == 0,
        forall|k: int|
            0 <= k < clogs.len() && #[trigger] clogs[k].user_id == user_id && (forall|j: int|
                0 <= j < clogs.len() && j != k ==> clogs[j].user_id != user_id) ==> user_chain(
                clogs,
                user_id,
            ) == clogs[k].hash_chain@,
    decreases clogs.len(),
{
    if clogs.len() > 0 {
        let pre = clogs.drop_last();
        lemma_user_chain_of_record(pre, user_id);
        assert forall|j: int| 0 <= j < pre.len() implies pre[j] == clogs[j] by {}
        assert forall|k: int|
            0 <= k < clogs.len() && #[trigger] clogs[k].user_id == user_id && (forall|j: int|
                0 <= j < clogs.len() && j != k ==> clogs[j].user_id != user_id) implies user_chain(
                clogs,
                user_id,
            ) == clogs[k].hash_chain@ by {
            if k < clogs.len() - 1 {
                assert(clogs.last().user_id != user_id);
                assert(pre[k].user_id == user_id);
                assert forall|j: int| 0 <= j < pre.len() && j != k implies pre[j].user_id != user_id by {
                    assert(pre[j] == clogs[j]);
                }
            }
        }
        if forall|j: int| 0 <= j < clogs.len() ==> #[trigger] clogs[j].user_id != user_id {
            assert(clogs[clogs.len() - 1].user_id != user_id);
            assert forall|j: int| 0 <= j < pre.len() implies #[trigger] pre[j].user_id != user_id by {
                assert(pre[j] == clogs[j]);
            }
        }
    }
}

/// Selects the hash chain of a user: the last matching record wins.
pub fn find_hash_chain(clogs: &[CLog], user_id: i32) -> (r: Vec<u8>)
    ensures
        r@ == user_chain(clogs@, user_id),
{
    let mut hash_chain: Vec<u8> = Vec::new();
    let mut i: usize = 0;
    while i < clogs.len()
        invariant
            0 <= i <= clogs.len(),
            hash_chain@ == user_chain(clogs@.subrange(0, i as int), user_id),
        decreases clogs.len() - i,
    {
        proof {
            let pre = clogs@.subrange(0, i as int);
            let post = clogs@.subrange(0, i + 1);
            assert(post.drop_last() =~= pre);
        }
        if clogs[i].user_id == user_id {
            hash_chain = clogs[i].hash_chain.clone();
        }
        i = i + 1;
    }
    assert(clogs@.subrange(0, clogs.len() as int) =~= clogs@);
    hash_chain
}

/// The answer line of a query.
pub open spec fn query_message_text(user_id: i32, chain: Seq<u8>) -> Seq<char> {
    "user_id "@ + int_str(user_id as int) + " hash_chain: "@ + bytes_list_str(chain)
}

/// `user_id <id> hash_chain: [b0, b1, ...]`
pub fn query_message(user_id: i32, hash_chain: &Vec<u8>) -> (r: String)
    ensures
        r@ == query_message_text(user_id, hash_chain@),
{
    let mut s = String::new();
    push_str(&mut s, "user_id ");
    push_int(&mut s, user_id as i64);
    push_str(&mut s, " hash_chain: ");
    push_bytes_list(&mut s, hash_chain);
    s
}

/// Answers a query: the journal always reports success, with the hash chain
/// of the queried user (empty when the user has no record).
pub fn run_query(input: &QueryPrivateInput) -> (r: QueryJournal)
    ensures
        r.success,
        r.message@ == query_message_text(input.user_id, user_chain(input.clogs@, input.user_id)),
{
    let hash_chain = find_hash_chain(input.clogs.as_slice(), input.user_id);
    let message = query_message(input.user_id, &hash_chain);
    QueryJournal { success: true, message }
}

} // verus!
