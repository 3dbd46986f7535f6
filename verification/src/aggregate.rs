//! Aggregation of new router logs into per-user records: each user's record
//! carries a Poseidon hash chain over that user's logs, in arrival order.
use std::collections::HashMap;
use vstd::prelude::*;

use crate::crypto::{hash_U2, is_scalar_repr, poseidon_u2, reprs};
use crate::encoding::{le_value, lemma_le_value_zeros, to_array32, to_vec32};
use crate::types::{CLog, CLogView, Log};
use crate::zk::{self, zk_log};

verus! {

broadcast use vstd::std_specs::hash::group_hash_axioms;

/// The encoding of the field element zero, where every chain starts.
pub open spec fn zero_repr() -> Seq<u8> {
    Seq::new(32, |i: int| 0u8)
}

/// One link of a hash chain: the hash of the previous link and the packed log.
pub open spec fn chain_step(prev: Seq<u8>, log: Log) -> Seq<u8> {
    poseidon_u2(seq![prev, zk_log(log).packed()])
}

/// A hash chain continued over a sequence of logs.
pub open spec fn chain_over(start: Seq<u8>, logs: Seq<Log>) -> Seq<u8>
    decreases logs.len(),
{
    if logs.len() == 0 {
        start
    } else {
        chain_step(chain_over(start, logs.drop_last()), logs.last())
    }
}

/// The logs of one user (flow), in order.
pub open spec fn logs_of(logs: Seq<Log>, user: i32) -> Seq<Log>
    decreases logs.len(),
{
    if logs.len() == 0 {
        Seq::empty()
    } else if logs.last().flow_id == user {
        logs_of(logs.drop_last(), user).push(logs.last())
    } else {
        logs_of(logs.drop_last(), user)
    }
}

/// Whether some log belongs to the user.
pub open spec fn has_user(logs: Seq<Log>, user: i32) -> bool {
    exists|i: int| 0 <= i < logs.len() && #[trigger] logs[i].flow_id == user
}

/// All router tables' logs, table after table.
pub open spec fn flatten(tables: Seq<Vec<Log>>) -> Seq<Log>
    decreases tables.len(),
{
    if tables.len() == 0 {
        Seq::empty()
    } else {
        flatten(tables.drop_last()) + tables.last()@
    }
}

/// The records, by their contents.
pub open spec fn records_view(m: Map<i32, CLog>) -> Map<i32, CLogView> {
    m.map_values(|c: CLog| c@)
}

/// The records after one more log: an existing record extends its chain, a
/// new user starts a record with the log's id and a chain from zero.
pub open spec fn aggregate_step(m: Map<i32, CLogView>, log: Log) -> Map<i32, CLogView> {
    let k = log.flow_id;
    if m.contains_key(k) {
        m.insert(k, (m[k].0, m[k].1, chain_step(m[k].2, log)))
    } else {
        m.insert(k, (log.id, k, chain_step(zero_repr(), log)))
    }
}

/// The records after a sequence of logs.
pub open spec fn aggregate_model(m: Map<i32, CLogView>, logs: Seq<Log>) -> Map<i32, CLogView>
    decreases logs.len(),
{
    if logs.len() == 0 {
        m
    } else {
        aggregate_step(aggregate_model(m, logs.drop_last()), logs.last())
    }
}

/// The users that a sequence of logs adds, in the order of their first log.
pub open spec fn insertion_model(m: Map<i32, CLogView>, logs: Seq<Log>) -> Seq<i32>
    decreases logs.len(),
{
    if logs.len() == 0 {
        Seq::empty()
    } else {
        let prev = insertion_model(m, logs.drop_last());
        if aggregate_model(m, logs.drop_last()).contains_key(logs.last().flow_id) {
            prev
        } else {
            prev.push(logs.last().flow_id)
        }
    }
}

/// Every record that some log will extend holds a canonical field element.
pub open spec fn chains_ready(m: Map<i32, CLogView>, logs: Seq<Log>) -> bool {
    forall|k: i32| #[trigger] m.contains_key(k) && has_user(logs, k) ==> is_scalar_repr(m[k].2)
}

/// The logs of all tables in one vector, table after table.
pub fn flatten_logs(tables: &Vec<Vec<Log>>) -> (r: Vec<Log>)
    ensures
        r@ == flatten(tables@),
{
    let mut out: Vec<Log> = Vec::new();
    let mut i: usize = 0;
    while i < tables.len()
        invariant
            0 <= i <= tables.len(),
            out@ == flatten(tables@.subrange(0, i as int)),
        decreases tables.len() - i,
    {
        let table = &tables[i];
        let ghost before = out@;
        let mut j: usize = 0;
        while j < table.len()
            invariant
                0 <= j <= table.len(),
                out@ == before + table@.subrange(0, j as int),
            decreases table.len() - j,
        {
            out.push(table[j]);
            j = j + 1;
            assert(out@ =~= before + table@.subrange(0, j as int));
        }
        proof {
            let pre = tables@.subrange(0, i as int);
            let post = tables@.subrange(0, i + 1);
            assert(post.drop_last() =~= pre);
            assert(table@.subrange(0, table.len() as int) =~= table@);
        }
        i = i + 1;
    }
    assert(tables@.subrange(0, tables.len() as int) =~= tables@);
    out
}

/// Folds one log into the records; returns whether its user had a record.
#[verifier::rlimit(40)]
fn aggregate_one(clogs: &mut HashMap<i32, CLog>, log: Log) -> (present: bool)
    requires
        records_view(old(clogs)@).contains_key(log.flow_id) ==> is_scalar_repr(
            records_view(old(clogs)@)[log.flow_id].2,
        ),
    ensures
        present == records_view(old(clogs)@).contains_key(log.flow_id),
        records_view(final(clogs)@) == aggregate_step(records_view(old(clogs)@), log),
        is_scalar_repr(records_view(final(clogs)@)[log.flow_id].2),
{
    let ghost cur = records_view(clogs@);
    let key = log.flow_id;
    let present = clogs.contains_key(&key);
    let packed = zk::Log::<u32>::from_record(&log).pack();
    if present {
        let prev_clog = clogs.get(&key).unwrap();
        let prev_id = prev_clog.id;
        let prev_user = prev_clog.user_id;
        assert(cur.contains_key(key) && cur[key] == prev_clog@);
        let prev = to_array32(prev_clog.hash_chain.as_slice());
        let input = vec![prev, packed];
        assert(forall|i: int| 0 <= i < input.len() ==> is_scalar_repr(#[trigger] input@[i]@));
        let h = hash_U2(&input).unwrap();
        assert(reprs(input@) =~= seq![cur[key].2, zk_log(log).packed()]);
        clogs.insert(key, CLog { id: prev_id, user_id: prev_user, hash_chain: to_vec32(&h) });
    } else {
        let zero = [0u8; 32];
        proof {
            assert(zero@ =~= zero_repr());
            lemma_le_value_zeros(zero@);
        }
        let input = vec![zero, packed];
        assert(forall|i: int| 0 <= i < input.len() ==> is_scalar_repr(#[trigger] input@[i]@));
        let h = hash_U2(&input).unwrap();
        assert(reprs(input@) =~= seq![zero_repr(), zk_log(log).packed()]);
        clogs.insert(key, CLog { id: log.id, user_id: key, hash_chain: to_vec32(&h) });
    }
    assert(records_view(clogs@) =~= aggregate_step(cur, log));
    present
}

/// Folds new router logs into the per-user records and returns the users that
/// got a new record, in the order of their first log.
///
/// Each log extends its user's chain with the Poseidon hash of the chain and
/// the packed log; a user seen for the first time gets a record with the
/// log's id and a chain that starts from zero.
pub fn aggregate_logs(old_clogs: &mut HashMap<i32, CLog>, new_logs: &Vec<Vec<Log>>) -> (r: Vec<i32>)
    requires
        chains_ready(records_view(old(old_clogs)@), flatten(new_logs@)),
    ensures
        records_view(final(old_clogs)@) == aggregate_model(
            records_view(old(old_clogs)@),
            flatten(new_logs@),
        ),
        r@ == insertion_model(records_view(old(old_clogs)@), flatten(new_logs@)),
        forall|k: i32|
            #[trigger] records_view(final(old_clogs)@).contains_key(k) && has_user(flatten(new_logs@), k)
                ==> is_scalar_repr(records_view(final(old_clogs)@)[k].2),
{
    let ghost m0 = records_view(old_clogs@);
    let logs = flatten_logs(new_logs);
    let ghost all = logs@;
    let mut insertion_order: Vec<i32> = Vec::new();
    let mut p: usize = 0;
    while p < logs.len()
        invariant
            0 <= p <= logs.len(),
            all == logs@,
            records_view(old_clogs@) == aggregate_model(m0, all.subrange(0, p as int)),
            insertion_order@ == insertion_model(m0, all.subrange(0, p as int)),
            chains_ready(records_view(old_clogs@), all.subrange(p as int, all.len() as int)),
            forall|k: i32|
                #[trigger] records_view(old_clogs@).contains_key(k) && has_user(all.subrange(0, p as int), k)
                    ==> is_scalar_repr(records_view(old_clogs@)[k].2),
        decreases logs.len() - p,
    {
        let log = logs[p];
        let ghost cur = records_view(old_clogs@);
        let ghost pre = all.subrange(0, p as int);
        let ghost post = all.subrange(0, p + 1);
        let ghost rest = all.subrange(p as int, all.len() as int);
        let ghost rest2 = all.subrange(p + 1, all.len() as int);
        proof {
            assert(post.drop_last() =~= pre);
            assert(post.last() == log);
            assert(rest[0] == log);
            assert(has_user(rest, log.flow_id));
        }
        let present = aggregate_one(old_clogs, log);
        if !present {
            insertion_order.push(log.flow_id);
        }
        proof {
            let nxt = records_view(old_clogs@);
            assert forall|k: i32| #[trigger] nxt.contains_key(k) && has_user(rest2, k) implies is_scalar_repr(
                nxt[k].2,
            ) by {
                let i = choose|i: int| 0 <= i < rest2.len() && #[trigger] rest2[i].flow_id == k;
                assert(rest[i + 1] == rest2[i]);
                assert(has_user(rest, k));
            }
            assert forall|k: i32| #[trigger] nxt.contains_key(k) && has_user(post, k) implies is_scalar_repr(
                nxt[k].2,
            ) by {
                if k != log.flow_id {
                    let i = choose|i: int| 0 <= i < post.len() && #[trigger] post[i].flow_id == k;
                    assert(i < pre.len());
                    assert(pre[i] == post[i]);
                    assert(has_user(pre, k));
                    assert(nxt[k] == cur[k]);
                }
            }
        }
        p = p + 1;
    }
    proof {
        assert(all.subrange(0, all.len() as int) =~= all);
    }
    insertion_order
}

/// A user appears in a sequence of logs exactly when it has logs there.
pub proof fn lemma_logs_of_nonempty(logs: Seq<Log>, user: i32)
    ensures
        has_user(logs, user) == (logs_of(logs, user).len() > 0),
        logs_of(logs, user).len() <= logs.len(),
    decreases logs.len(),
{
    if logs.len() > 0 {
        let pre = logs.drop_last();
        lemma_logs_of_nonempty(pre, user);
        if has_user(pre, user) {
            let i = choose|i: int| 0 <= i < pre.len() && #[trigger] pre[i].flow_id == user;
            assert(logs[i] == pre[i]);
        }
        if has_user(logs, user) {
            let i = choose|i: int| 0 <= i < logs.len() && #[trigger] logs[i].flow_id == user;
            if i < pre.len() {
                assert(pre[i] == logs[i]);
            }
        }
        if logs.last().flow_id == user {
            assert(logs[logs.len() - 1].flow_id == user);
        }
    }
}

/// What aggregation does to one user's record: a record exists after it
/// exactly when it existed before or the user has logs; its chain is the
/// previous chain (zero for a new user) continued over exactly that user's
/// logs, in order; an existing record keeps its id and user, a new one takes
/// the id of the user's first log. Records of users without logs are unchanged.
pub proof fn lemma_aggregate_record(m: Map<i32, CLogView>, logs: Seq<Log>, k: i32)
    ensures
        aggregate_model(m, logs).contains_key(k) == (m.contains_key(k) || has_user(logs, k)),
        m.contains_key(k) ==> aggregate_model(m, logs)[k] == (m[k].0, m[k].1, chain_over(m[k].2, logs_of(logs, k))),
        !m.contains_key(k) && has_user(logs, k) ==> aggregate_model(m, logs)[k] == (
            logs_of(logs, k)[0].id,
            k,
            chain_over(zero_repr(), logs_of(logs, k)),
        ),
        !has_user(logs, k) ==> logs_of(logs, k).len() == 0,
    decreases logs.len(),
{
    lemma_logs_of_nonempty(logs, k);
    if logs.len() > 0 {
        let pre = logs.drop_last();
        let l = logs.last();
        lemma_aggregate_record(m, pre, k);
        lemma_logs_of_nonempty(pre, k);
        let lp = logs_of(pre, k);
        if l.flow_id == k {
            assert(logs_of(logs, k) == lp.push(l));
            assert(lp.push(l).drop_last() =~= lp);
            if lp.len() > 0 {
                assert(lp.push(l)[0] == lp[0]);
            } else {
                assert(lp =~= Seq::<Log>::empty());
                assert(lp.push(l)[0] == l);
            }
        } else {
            assert(logs_of(logs, k) == lp);
        }
    }
}

/// The users that aggregation adds are distinct, and they are exactly the
/// users without a record that have logs.
pub proof fn lemma_insertion_order(m: Map<i32, CLogView>, logs: Seq<Log>)
    ensures
        insertion_model(m, logs).no_duplicates(),
        forall|k: i32|
            #[trigger] insertion_model(m, logs).contains(k) == (!m.contains_key(k) && has_user(logs, k)),
    decreases logs.len(),
{
    if logs.len() > 0 {
        let pre = logs.drop_last();
        let l = logs.last();
        lemma_insertion_order(m, pre);
        lemma_aggregate_record(m, pre, l.flow_id);
        let ins = insertion_model(m, pre);
        assert forall|k: i32| #[trigger] insertion_model(m, logs).contains(k) == (!m.contains_key(k)
            && has_user(logs, k)) by {
            lemma_logs_of_nonempty(logs, k);
            lemma_logs_of_nonempty(pre, k);
            if k == l.flow_id {
                assert(logs[logs.len() - 1].flow_id == k);
            }
            if !aggregate_model(m, pre).contains_key(l.flow_id) {
                assert(ins.push(l.flow_id).contains(k) == (ins.contains(k) || k == l.flow_id)) by {
                    if ins.push(l.flow_id).contains(k) {
                        let j = choose|j: int| 0 <= j < ins.push(l.flow_id).len() && ins.push(l.flow_id)[j] == k;
                        if j < ins.len() {
                            assert(ins[j] == k);
                        }
                    }
                    if ins.contains(k) {
                        let j = choose|j: int| 0 <= j < ins.len() && ins[j] == k;
                        assert(ins.push(l.flow_id)[j] == k);
                    }
                    if k == l.flow_id {
                        assert(ins.push(l.flow_id)[ins.len() as int] == k);
                    }
                }
            }
        }
        if !aggregate_model(m, pre).contains_key(l.flow_id) {
            assert(!ins.contains(l.flow_id));
            let ins2 = ins.push(l.flow_id);
            assert forall|i: int, j: int| 0 <= i < j < ins2.len() implies ins2[i] != ins2[j] by {
                if j == ins.len() {
                    assert(ins2[i] == ins[i]);
                    assert(ins.contains(ins[i]));
                } else {
                    assert(ins2[i] == ins[i] && ins2[j] == ins[j]);
                }
            }
        }
    }
}

/// Aggregating two batches of logs one after the other gives the records and
/// the new users of aggregating both at once.
#[verifier::spinoff_prover]
pub proof fn lemma_aggregate_rounds(m: Map<i32, CLogView>, a: Seq<Log>, b: Seq<Log>)
    ensures
        aggregate_model(m, a + b) == aggregate_model(aggregate_model(m, a), b),
        insertion_model(m, a + b) == insertion_model(m, a) + insertion_model(
            aggregate_model(m, a),
            b,
        ),
    decreases b.len(),
{
    if b.len() == 0 {
        assert(a + b =~= a);
        assert(insertion_model(m, a) + insertion_model(aggregate_model(m, a), b) =~= insertion_model(
            m,
            a,
        ));
    } else {
        let b1 = b.drop_last();
        lemma_aggregate_rounds(m, a, b1);
        assert((a + b).drop_last() =~= a + b1);
        assert((a + b).last() == b.last());
        let i1 = insertion_model(m, a);
        let i2 = insertion_model(aggregate_model(m, a), b1);
        assert((i1 + i2).push(b.last().flow_id) =~= i1 + i2.push(b.last().flow_id));
    }
}

/// A second round can follow the first: when every chain that either
/// round's logs extend starts canonical, and the first round wrote canonical
/// chains for its users (as `aggregate_logs` ensures), every chain that the
/// second round extends is canonical.
pub proof fn lemma_second_round_ready(m: Map<i32, CLogView>, a: Seq<Log>, b: Seq<Log>)
    requires
        chains_ready(m, a + b),
        forall|k: i32|
            #[trigger] aggregate_model(m, a).contains_key(k) && has_user(a, k) ==> is_scalar_repr(
                aggregate_model(m, a)[k].2,
            ),
    ensures
        chains_ready(aggregate_model(m, a), b),
{
    assert forall|k: i32| #[trigger] aggregate_model(m, a).contains_key(k) && has_user(b, k)
        implies is_scalar_repr(aggregate_model(m, a)[k].2) by {
        lemma_aggregate_record(m, a, k);
        let i = choose|i: int| 0 <= i < b.len() && #[trigger] b[i].flow_id == k;
        assert((a + b)[a.len() + i] == b[i]);
        assert(has_user(a + b, k));
        if !has_user(a, k) {
            assert(m.contains_key(k));
        }
    }
}

/// Pushing onto a sequence adds the element to its set.
proof fn lemma_push_to_set(s: Seq<i32>, x: i32)
    ensures
        s.push(x).to_set() == s.to_set().insert(x),
{
    assert(s + seq![x] =~= s.push(x));
    Seq::lemma_to_set_insert_commutes(s, x);
}

/// The users of a sequence that have no record in `old`, in order.
pub open spec fn new_users(order: Seq<i32>, old: Set<i32>) -> Seq<i32>
    decreases order.len(),
{
    if order.len() == 0 {
        Seq::empty()
    } else if old.contains(order.last()) {
        new_users(order.drop_last(), old)
    } else {
        new_users(order.drop_last(), old).push(order.last())
    }
}

/// Splits the aggregated records into those that update an existing record
/// (the users that `old` has) and those to insert (the users of
/// `insertion_order` that `old` lacks), and returns the insertion order
/// restricted to the inserted users.
pub fn split_records(
    clogs: &HashMap<i32, CLog>,
    old: &HashMap<i32, CLog>,
    insertion_order: &Vec<i32>,
) -> (r: (HashMap<i32, CLog>, HashMap<i32, CLog>, Vec<i32>))
    requires
        forall|i: int|
            0 <= i < insertion_order.len() && !old@.contains_key(#[trigger] insertion_order@[i])
                ==> clogs@.contains_key(insertion_order@[i]),
    ensures
        records_view(r.0@) == records_view(clogs@).restrict(old@.dom()),
        records_view(r.1@) == records_view(clogs@).restrict(
            insertion_order@.to_set().difference(old@.dom()),
        ),
        r.2@ == new_users(insertion_order@, old@.dom()),
{
    let mut update: HashMap<i32, CLog> = HashMap::new();
    let ghost mut seen: Set<i32> = Set::empty();
    proof {
        assert(Seq::<i32>::empty().to_set() =~= Set::<i32>::empty());
    }
    for k in it: clogs.keys()
        invariant
            it.seq().unref().to_set() == clogs@.dom(),
            seen == it.seq().take(it.index() as int).unref().to_set(),
            records_view(update@) == records_view(clogs@).restrict(seen.intersect(old@.dom())),
            it.index() == it.seq().len() ==> seen == it.seq().unref().to_set(),
        ensures
            records_view(update@) == records_view(clogs@).restrict(seen.intersect(old@.dom())),
            seen == clogs@.dom(),
    {
        proof {
            assert(it.seq().take(it.index() + 1).unref() =~= it.seq().take(it.index() as int).unref().push(*k));
            lemma_push_to_set(it.seq().take(it.index() as int).unref(), *k);
            assert(it.seq().unref()[it.index() as int] == *k);
            assert(it.seq().unref().to_set().contains(*k));
        }
        let ghost before = records_view(update@);
        let key: i32 = *k;
        if old.contains_key(&key) {
            let c = clogs.get(&key).unwrap().clone();
            assert(c@ == records_view(clogs@)[key]);
            update.insert(key, c);
            assert(records_view(update@) =~= before.insert(key, records_view(clogs@)[key]));
        }
        proof {
            seen = seen.insert(key);
            if it.index() + 1 == it.seq().len() {
                assert(it.seq().take(it.index() + 1) =~= it.seq());
            }
            let target = records_view(clogs@).restrict(seen.intersect(old@.dom()));
            assert(records_view(update@).dom() =~= target.dom());
            assert(records_view(update@) =~= target);
        }
    }
    proof {
        assert(seen =~= clogs@.dom());
        assert(records_view(update@) =~= records_view(clogs@).restrict(old@.dom()));
    }
    let mut insert: HashMap<i32, CLog> = HashMap::new();
    let mut order: Vec<i32> = Vec::new();
    let mut i: usize = 0;
    while i < insertion_order.len()
        invariant
            0 <= i <= insertion_order.len(),
            forall|j: int|
                0 <= j < insertion_order.len() && !old@.contains_key(#[trigger] insertion_order@[j])
                    ==> clogs@.contains_key(insertion_order@[j]),
            records_view(insert@) == records_view(clogs@).restrict(
                insertion_order@.subrange(0, i as int).to_set().difference(old@.dom()),
            ),
            order@ == new_users(insertion_order@.subrange(0, i as int), old@.dom()),
        decreases insertion_order.len() - i,
    {
        let k = insertion_order[i];
        let ghost pre = insertion_order@.subrange(0, i as int);
        let ghost post = insertion_order@.subrange(0, i + 1);
        proof {
            assert(post.drop_last() =~= pre);
            assert(pre.push(k) =~= post);
            lemma_push_to_set(pre, k);
        }
        let ghost before = records_view(insert@);
        if !old.contains_key(&k) {
            let c = clogs.get(&k).unwrap().clone();
            assert(c@ == records_view(clogs@)[k]);
            insert.insert(k, c);
            assert(records_view(insert@) =~= before.insert(k, records_view(clogs@)[k]));
            order.push(k);
        }
        proof {
            let target = records_view(clogs@).restrict(post.to_set().difference(old@.dom()));
            assert(records_view(insert@).dom() =~= target.dom());
            assert(records_view(insert@) =~= records_view(clogs@).restrict(
                post.to_set().difference(old@.dom()),
            ));
        }
        i = i + 1;
    }
    proof {
        assert(insertion_order@.subrange(0, insertion_order.len() as int) =~= insertion_order@);
    }
    (update, insert, order)
}

/// Records that update and records that are inserted never share a user.
pub proof fn lemma_split_disjoint(
    clogs: Map<i32, CLogView>,
    old: Set<i32>,
    order: Seq<i32>,
)
    ensures
        clogs.restrict(old).dom().disjoint(clogs.restrict(order.to_set().difference(old)).dom()),
{
}

/// A sequence none of whose users has a record keeps all of them.
proof fn lemma_new_users_all(order: Seq<i32>, old: Set<i32>)
    requires
        forall|i: int| 0 <= i < order.len() ==> !old.contains(#[trigger] order[i]),
    ensures
        new_users(order, old) == order,
    decreases order.len(),
{
    if order.len() > 0 {
        let pre = order.drop_last();
        assert forall|i: int| 0 <= i < pre.len() implies !old.contains(#[trigger] pre[i]) by {
            assert(pre[i] == order[i]);
        }
        lemma_new_users_all(pre, old);
        assert(pre.push(order.last()) =~= order);
    }
}

/// Splitting the records of an aggregation against the records it started
/// from: every aggregated record is either an update or an insertion, and the
/// insertion order is the aggregation's order of new users, unchanged.
pub proof fn lemma_split_after_aggregate(m: Map<i32, CLogView>, logs: Seq<Log>)
    ensures
        aggregate_model(m, logs).restrict(m.dom()).dom() + aggregate_model(m, logs).restrict(
            insertion_model(m, logs).to_set().difference(m.dom()),
        ).dom() == aggregate_model(m, logs).dom(),
        new_users(insertion_model(m, logs), m.dom()) == insertion_model(m, logs),
{
    let c = aggregate_model(m, logs);
    let ord = insertion_model(m, logs);
    lemma_insertion_order(m, logs);
    assert forall|k: i32| #[trigger] c.dom().contains(k) == (m.contains_key(k) || has_user(logs, k)) by {
        lemma_aggregate_record(m, logs, k);
    }
    assert forall|i: int| 0 <= i < ord.len() implies !m.dom().contains(#[trigger] ord[i]) by {
        assert(ord.contains(ord[i]));
    }
    lemma_new_users_all(ord, m.dom());
    assert(c.restrict(m.dom()).dom() + c.restrict(ord.to_set().difference(m.dom())).dom() =~= c.dom());
}

} // verus!
