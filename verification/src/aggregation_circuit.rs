//! The aggregation circuit's step, on plain values: which public states the
//! circuit's constraints accept for its witness, and the state it moves to.
//! Field elements are carried as their canonical little-endian encodings.
use std::collections::HashMap;
use vstd::prelude::*;

use crate::aggregate::zero_repr;
use crate::circuit::{batch_chain, packed_logs};
use crate::crypto::{hash_U2, is_scalar_repr, poseidon_u1, poseidon_u2, reprs};
use crate::merkle::{index_bits, path_computed_root, path_root, two_pow};
use crate::util::bytes_eq;
use crate::zk::{self, empty_log, u64_repr, u64_to_repr, CompressedLog};

verus! {

broadcast use vstd::std_specs::hash::group_hash_axioms;

/// One record's update in the records' tree, as the circuit receives it: the
/// record's position, the siblings of its path from the root down, and the
/// record before and after.
pub struct ClogUpdate {
    pub idx: usize,
    pub siblings: Vec<[u8; 32]>,
    pub old_clog: CompressedLog<[u8; 32]>,
    pub new_clog: CompressedLog<[u8; 32]>,
}

/// One log of a batch with the update of its user's record.
pub struct Update {
    pub raw_log: zk::Log<u32>,
    pub clog_update: ClogUpdate,
}

/// The witness of one step: its batches of updates and its step number.
pub struct AggregationCircuit {
    pub batches: Vec<Vec<Update>>,
    pub step_count: u64,
}

/// The digest of a compressed record's leaf: its user id and hash chain.
pub open spec fn clog_leaf(c: CompressedLog<[u8; 32]>) -> Seq<u8> {
    poseidon_u1(seq![c.user_id@, c.hash_chain@])
}

/// The root that a record's path leads to, for a tree of height `h`.
pub open spec fn clog_root(u: ClogUpdate, c: CompressedLog<[u8; 32]>, h: nat) -> Seq<u8> {
    path_root(clog_leaf(c), index_bits(u.idx as nat, h), reprs(u.siblings@))
}

/// The constraints on one update against the current root: the old record
/// lies in the tree under `root`; the record keeps its user, or is new (old
/// user zero); and the new chain extends the old one by the packed log,
/// unless the log is empty (its packed value zero).
pub open spec fn update_ok(u: Update, root: Seq<u8>, h: nat) -> bool {
    let c = u.clog_update;
    &&& clog_root(c, c.old_clog, h) == root
    &&& (c.old_clog.user_id@ == zero_repr() || c.old_clog.user_id@ == c.new_clog.user_id@)
    &&& (u.raw_log == empty_log() || c.new_clog.hash_chain@ == poseidon_u2(
        seq![c.old_clog.hash_chain@, u.raw_log.packed()],
    ))
}

/// The root after a sequence of updates, or `None` when one is refused.
pub open spec fn updates_after(ups: Seq<Update>, root: Seq<u8>, h: nat) -> Option<Seq<u8>>
    decreases ups.len(),
{
    if ups.len() == 0 {
        Some(root)
    } else {
        match updates_after(ups.drop_last(), root, h) {
            Some(r) => if update_ok(ups.last(), r, h) {
                Some(clog_root(ups.last().clog_update, ups.last().clog_update.new_clog, h))
            } else {
                None
            },
            None => None,
        }
    }
}

/// The hash of a batch: the hash of its packed logs.
pub open spec fn batch_hash(ups: Seq<Update>) -> Seq<u8> {
    poseidon_u2(ups.map_values(|u: Update| u.raw_log.packed()))
}

/// The root and the hash chain after a sequence of batches, or `None` when
/// an update is refused.
pub open spec fn batches_after(bs: Seq<Vec<Update>>, root: Seq<u8>, chain: Seq<u8>, h: nat) -> Option<
    (Seq<u8>, Seq<u8>),
>
    decreases bs.len(),
{
    if bs.len() == 0 {
        Some((root, chain))
    } else {
        match batches_after(bs.drop_last(), root, chain, h) {
            Some(rc) => match updates_after(bs.last()@, rc.0, h) {
                Some(r2) => Some((r2, poseidon_u2(seq![rc.1, batch_hash(bs.last()@)]))),
                None => None,
            },
            None => None,
        }
    }
}

/// The public state after the step from `state = [initial_root, prev_root,
/// hash_chain, step_count]`, or `None` when the constraints refuse it: the
/// state's counter is the step's number; the first step starts from the
/// initial root and an empty chain; every update is accepted in turn. The
/// next state keeps the initial root and carries the new root, the chain
/// extended by each batch's hash, and the next step number.
pub open spec fn next_state_spec(
    bs: Seq<Vec<Update>>,
    step: u64,
    state: Seq<Seq<u8>>,
    h: nat,
) -> Option<Seq<Seq<u8>>> {
    if state[3] == u64_repr(step) && (step == 0 ==> state[1] == state[0] && state[2] == zero_repr()) {
        match batches_after(bs, state[1], state[2], h) {
            Some(rc) => Some(seq![state[0], rc.0, rc.1, u64_repr((step + 1) as u64)]),
            None => None,
        }
    } else {
        None
    }
}

/// The values of an update are field elements and its path fits the tree.
pub open spec fn update_fields_ok(u: Update, h: nat) -> bool {
    let c = u.clog_update;
    &&& is_scalar_repr(c.old_clog.user_id@)
    &&& is_scalar_repr(c.old_clog.hash_chain@)
    &&& is_scalar_repr(c.new_clog.user_id@)
    &&& is_scalar_repr(c.new_clog.hash_chain@)
    &&& c.siblings.len() <= h
    &&& forall|i: int| 0 <= i < c.siblings.len() ==> is_scalar_repr(#[trigger] c.siblings@[i]@)
}

/// Every accepted step passes the initial root on unchanged and moves the
/// counter from the state's value to the next one.
pub proof fn lemma_step_carries_root_and_counts(
    bs: Seq<Vec<Update>>,
    step: u64,
    state: Seq<Seq<u8>>,
    h: nat,
)
    requires
        step < u64::MAX,
        next_state_spec(bs, step, state, h) is Some,
    ensures
        (next_state_spec(bs, step, state, h)->0)[0] == state[0],
        state[3] == u64_repr(step),
        (next_state_spec(bs, step, state, h)->0)[3] == u64_repr((step + 1) as u64),
        (next_state_spec(bs, step, state, h)->0).len() == 4,
{
}

/// Whether the records' positions are distinct and below their number.
pub open spec fn positions_ok(m: Map<u64, CompressedLog<[u8; 32]>>) -> bool {
    &&& forall|k: u64| #[trigger] m.contains_key(k) ==> m[k].merkle_idx < m.len()
    &&& forall|a: u64, b: u64|
        #[trigger] m.contains_key(a) && #[trigger] m.contains_key(b) && a != b ==> m[a].merkle_idx
            != m[b].merkle_idx
}

/// Whether a record is the zero record at a position.
pub open spec fn is_zero_record(c: CompressedLog<[u8; 32]>, idx: nat) -> bool {
    c.merkle_idx == idx && c.user_id@ == zero_repr() && c.hash_chain@ == zero_repr()
}

/// Folds one log into the compressed records, keyed by user, and returns the
/// user's record before and after. An existing user's record keeps its
/// position and user and extends its chain by the packed log; a new user gets
/// the next free position (the number of records), its user id as a field
/// element and a chain from zero, and its record "before" is the zero record
/// at that position.
#[verifier::spinoff_prover]
pub fn update_clogs(
    compressed_logs: &mut HashMap<u64, CompressedLog<[u8; 32]>>,
    raw_log: &zk::Log<u32>,
) -> (r: (CompressedLog<[u8; 32]>, CompressedLog<[u8; 32]>))
    requires
        old(compressed_logs)@.contains_key(raw_log.user_id as u64) ==> is_scalar_repr(
            old(compressed_logs)@[raw_log.user_id as u64].hash_chain@,
        ),
    ensures
        final(compressed_logs)@ == old(compressed_logs)@.insert(raw_log.user_id as u64, r.1),
        old(compressed_logs)@.contains_key(raw_log.user_id as u64) ==> {
            &&& r.0 == old(compressed_logs)@[raw_log.user_id as u64]
            &&& r.1.merkle_idx == r.0.merkle_idx
            &&& r.1.user_id == r.0.user_id
            &&& r.1.hash_chain@ == poseidon_u2(seq![r.0.hash_chain@, raw_log.packed()])
        },
        !old(compressed_logs)@.contains_key(raw_log.user_id as u64) ==> {
            &&& is_zero_record(r.0, old(compressed_logs)@.len())
            &&& r.1.merkle_idx == old(compressed_logs)@.len()
            &&& r.1.user_id@ == u64_repr(raw_log.user_id as u64)
            &&& r.1.hash_chain@ == poseidon_u2(seq![zero_repr(), raw_log.packed()])
        },
        is_scalar_repr(r.1.hash_chain@),
{
    let key = raw_log.user_id as u64;
    let len = compressed_logs.len();
    let packed = raw_log.pack();
    let (old_clog, new_clog) = match compressed_logs.get(&key) {
        Some(old_clog) => {
            let old_clog = *old_clog;
            let input = vec![old_clog.hash_chain, packed];
            assert(forall|t: int| 0 <= t < input.len() ==> is_scalar_repr(#[trigger] input@[t]@));
            let chain = hash_U2(&input).unwrap();
            assert(reprs(input@) =~= seq![old_clog.hash_chain@, raw_log.packed()]);
            (old_clog, CompressedLog { merkle_idx: old_clog.merkle_idx, user_id: old_clog.user_id, hash_chain: chain })
        },
        None => {
            let zero = [0u8; 32];
            proof {
                assert(zero@ =~= zero_repr());
                crate::encoding::lemma_le_value_zeros(zero@);
            }
            let input = vec![zero, packed];
            assert(forall|t: int| 0 <= t < input.len() ==> is_scalar_repr(#[trigger] input@[t]@));
            let chain = hash_U2(&input).unwrap();
            assert(reprs(input@) =~= seq![zero_repr(), raw_log.packed()]);
            let z = CompressedLog { merkle_idx: len, user_id: [0u8; 32], hash_chain: [0u8; 32] };
            assert(z.user_id@ =~= zero_repr());
            assert(z.hash_chain@ =~= zero_repr());
            (
                z,
                CompressedLog { merkle_idx: len, user_id: u64_to_repr(key), hash_chain: chain },
            )
        },
    };
    compressed_logs.insert(key, new_clog);
    (old_clog, new_clog)
}

/// One log's update in the step's witness: an empty log (packing to zero)
/// changes nothing and is paired with the zero record at the tree's last
/// position; any other log updates its user's record as `update_clogs` does.
pub fn update_for_log(
    compressed_logs: &mut HashMap<u64, CompressedLog<[u8; 32]>>,
    raw_log: &zk::Log<u32>,
    height: usize,
) -> (r: (CompressedLog<[u8; 32]>, CompressedLog<[u8; 32]>))
    requires
        height <= 31,
        old(compressed_logs)@.contains_key(raw_log.user_id as u64) ==> is_scalar_repr(
            old(compressed_logs)@[raw_log.user_id as u64].hash_chain@,
        ),
    ensures
        *raw_log == empty_log() ==> final(compressed_logs)@ == old(compressed_logs)@ && r.0 == r.1
            && is_zero_record(r.0, (two_pow(height as nat) - 1) as nat),
        *raw_log != empty_log() ==> final(compressed_logs)@ == old(compressed_logs)@.insert(
            raw_log.user_id as u64,
            r.1,
        ),
        *raw_log != empty_log() && old(compressed_logs)@.contains_key(raw_log.user_id as u64) ==> {
            &&& r.0 == old(compressed_logs)@[raw_log.user_id as u64]
            &&& r.1.merkle_idx == r.0.merkle_idx
            &&& r.1.user_id == r.0.user_id
            &&& r.1.hash_chain@ == poseidon_u2(seq![r.0.hash_chain@, raw_log.packed()])
        },
        *raw_log != empty_log() && !old(compressed_logs)@.contains_key(raw_log.user_id as u64) ==> {
            &&& is_zero_record(r.0, old(compressed_logs)@.len())
            &&& r.1.merkle_idx == old(compressed_logs)@.len()
            &&& r.1.user_id@ == u64_repr(raw_log.user_id as u64)
            &&& r.1.hash_chain@ == poseidon_u2(seq![zero_repr(), raw_log.packed()])
        },
{
    if raw_log.is_empty() {
        let mut p: usize = 1;
        let mut level: usize = 0;
        while level < height
            invariant
                0 <= level <= height,
                height <= 31,
                p as nat == two_pow(level as nat),
                p <= 0x8000_0000,
            decreases height - level,
        {
            proof {
                crate::merkle::lemma_two_pow_pos(level as nat);
                assert(two_pow((level + 1) as nat) == 2 * two_pow(level as nat));
                lemma_two_pow_le(level as nat);
            }
            p = p * 2;
            level = level + 1;
        }
        proof {
            crate::merkle::lemma_two_pow_pos(height as nat);
        }
        let z = CompressedLog { merkle_idx: p - 1, user_id: [0u8; 32], hash_chain: [0u8; 32] };
        assert(z.user_id@ =~= zero_repr());
        assert(z.hash_chain@ =~= zero_repr());
        (z, z)
    } else {
        update_clogs(compressed_logs, raw_log)
    }
}

/// Powers of two grow with the exponent.
proof fn lemma_two_pow_mono(n: nat, m: nat)
    requires
        n <= m,
    ensures
        two_pow(n) <= two_pow(m),
    decreases m,
{
    if n < m {
        lemma_two_pow_mono(n, (m - 1) as nat);
        crate::merkle::lemma_two_pow_pos((m - 1) as nat);
    }
}

/// `2^n` for `n` below 31 fits in 30 bits and one.
#[verifier::spinoff_prover]
#[verifier::rlimit(30)]
proof fn lemma_two_pow_le(n: nat)
    requires
        n < 31,
    ensures
        two_pow(n) <= 0x4000_0000,
{
    lemma_two_pow_mono(n, 30);
    assert(two_pow(30) == 0x4000_0000) by {
        reveal_with_fuel(two_pow, 31);
    }
}

/// Folding a log into the compressed records keeps their positions distinct
/// and below their number: an existing user keeps its position, and a new
/// user takes the next free one.
pub proof fn lemma_update_keeps_positions(
    m: Map<u64, CompressedLog<[u8; 32]>>,
    key: u64,
    rec: CompressedLog<[u8; 32]>,
)
    requires
        m.dom().finite(),
        positions_ok(m),
        m.contains_key(key) ==> rec.merkle_idx == m[key].merkle_idx,
        !m.contains_key(key) ==> rec.merkle_idx == m.len(),
    ensures
        positions_ok(m.insert(key, rec)),
{
    let m2 = m.insert(key, rec);
    assert(m2.dom() =~= m.dom().insert(key));
    if m.contains_key(key) {
        assert(m.dom().insert(key) =~= m.dom());
    }
    assert(m2.len() >= m.len());
}

/// The bits of a position from the root down, as the circuit allocates them.
fn index_bits_of(idx: usize, height: usize) -> (r: Vec<bool>)
    ensures
        r@ == index_bits(idx as nat, height as nat),
{
    let mut rev: Vec<bool> = Vec::new();
    let mut q: usize = idx;
    let mut level: usize = 0;
    assert(two_pow(0) == 1);
    assert(idx as nat / 1 == idx as nat);
    while level < height
        invariant
            0 <= level <= height,
            rev.len() == level,
            q as nat == idx as nat / two_pow(level as nat),
            forall|t: int| 0 <= t < level ==> #[trigger] rev@[t] == ((idx as nat / two_pow(t as nat)) % 2 == 1),
        decreases height - level,
    {
        rev.push(q % 2 == 1);
        proof {
            crate::merkle::lemma_two_pow_pos(level as nat);
            vstd::arithmetic::div_mod::lemma_div_denominator(idx as int, two_pow(level as nat) as int, 2);
            assert(two_pow(level as nat) * 2 == two_pow((level + 1) as nat));
        }
        q = q / 2;
        level = level + 1;
    }
    let mut r: Vec<bool> = Vec::new();
    let mut m: usize = 0;
    while m < height
        invariant
            0 <= m <= height,
            rev.len() == height,
            r.len() == m,
            forall|t: int| 0 <= t < height ==> #[trigger] rev@[t] == ((idx as nat / two_pow(t as nat)) % 2 == 1),
            forall|t: int| 0 <= t < m ==> #[trigger] r@[t] == index_bits(idx as nat, height as nat)[t],
        decreases height - m,
    {
        r.push(rev[height - 1 - m]);
        m = m + 1;
    }
    assert(r@ =~= index_bits(idx as nat, height as nat));
    r
}

/// Running batches in two parts is running them at once: the second part
/// starts from the root and chain that the first part ends with, and a part
/// that is refused refuses the whole. Chained steps therefore end in the state
/// that all their batches give in one run.
pub proof fn lemma_batches_compose(
    a: Seq<Vec<Update>>,
    b: Seq<Vec<Update>>,
    root: Seq<u8>,
    chain: Seq<u8>,
    h: nat,
)
    ensures
        batches_after(a + b, root, chain, h) == match batches_after(a, root, chain, h) {
            Some(rc) => batches_after(b, rc.0, rc.1, h),
            None => None,
        },
    decreases b.len(),
{
    if b.len() == 0 {
        assert(a + b =~= a);
    } else {
        lemma_batches_compose(a, b.drop_last(), root, chain, h);
        assert((a + b).drop_last() =~= a + b.drop_last());
        assert((a + b).last() == b.last());
        if batches_after(a, root, chain, h) is None {
            assert(batches_after(a + b.drop_last(), root, chain, h) is None);
        }
    }
}

/// Two accepted steps in a row: the second step's state is the first step's
/// output, and together they keep the initial root, reach the root and chain
/// of running both steps' batches at once, and count two steps.
pub proof fn lemma_two_steps(
    a: Seq<Vec<Update>>,
    b: Seq<Vec<Update>>,
    step: u64,
    state: Seq<Seq<u8>>,
    h: nat,
)
    requires
        step + 1 < u64::MAX,
        next_state_spec(a, step, state, h) is Some,
        next_state_spec(b, (step + 1) as u64, next_state_spec(a, step, state, h)->0, h) is Some,
    ensures
        ({
            let s2 = next_state_spec(b, (step + 1) as u64, next_state_spec(a, step, state, h)->0, h)->0;
            let all = batches_after(a + b, state[1], state[2], h);
            &&& all is Some
            &&& s2[0] == state[0]
            &&& s2[1] == (all->0).0
            &&& s2[2] == (all->0).1
            &&& s2[3] == u64_repr((step + 2) as u64)
        }),
{
    lemma_batches_compose(a, b, state[1], state[2], h);
}

/// Whether an update keeps its record's user, or creates the record (the old
/// user id being zero).
pub open spec fn keeps_user(u: Update) -> bool {
    u.clog_update.old_clog.user_id@ == Seq::new(32, |i: int| 0u8)
        || u.clog_update.old_clog.user_id@ == u.clog_update.new_clog.user_id@
}

/// Whether an update's new chain is its old chain extended by its packed log,
/// or its log is empty.
pub open spec fn extends_chain(u: Update) -> bool {
    u.raw_log == empty_log() || u.clog_update.new_clog.hash_chain@ == poseidon_u2(
        seq![u.clog_update.old_clog.hash_chain@, u.raw_log.packed()],
    )
}

/// Every update of an accepted sequence keeps its record's user (or creates
/// the record) and extends the record's chain by its log.
pub proof fn lemma_accepted_updates(ups: Seq<Update>, root: Seq<u8>, h: nat)
    requires
        updates_after(ups, root, h) is Some,
    ensures
        forall|k: int| 0 <= k < ups.len() ==> keeps_user(#[trigger] ups[k]) && extends_chain(ups[k]),
    decreases ups.len(),
{
    if ups.len() > 0 {
        let pre = ups.drop_last();
        lemma_accepted_updates(pre, root, h);
        assert(zero_repr() =~= Seq::new(32, |i: int| 0u8));
        assert forall|k: int| 0 <= k < ups.len() implies keeps_user(#[trigger] ups[k]) && extends_chain(ups[k]) by {
            if k < pre.len() {
                assert(pre[k] == ups[k]);
            }
        }
    }
}

/// Every update of every batch of an accepted run keeps its record's user (or
/// creates the record) and extends the record's chain by its log.
pub proof fn lemma_accepted_batches(bs: Seq<Vec<Update>>, root: Seq<u8>, chain: Seq<u8>, h: nat)
    requires
        batches_after(bs, root, chain, h) is Some,
    ensures
        forall|b: int, k: int|
            0 <= b < bs.len() && 0 <= k < bs[b]@.len() ==> keeps_user(#[trigger] bs[b]@[k])
                && extends_chain(bs[b]@[k]),
    decreases bs.len(),
{
    if bs.len() > 0 {
        let pre = bs.drop_last();
        lemma_accepted_batches(pre, root, chain, h);
        let rc = batches_after(pre, root, chain, h)->0;
        lemma_accepted_updates(bs.last()@, rc.0, h);
        assert forall|b: int, k: int|
            0 <= b < bs.len() && 0 <= k < bs[b]@.len() implies keeps_user(#[trigger] bs[b]@[k])
                && extends_chain(bs[b]@[k]) by {
            if b < pre.len() {
                assert(pre[b] == bs[b]);
            } else {
                assert(bs[b] == bs.last());
            }
        }
    }
}

/// What an accepted aggregation step guarantees of its input state and its
/// witness: the state's counter is the step's number; the first step starts
/// from the initial root and an empty chain; every update keeps its record's
/// user (or creates the record) and extends the record's chain by its log;
/// and the next state keeps the initial root.
pub proof fn lemma_accepted_step(bs: Seq<Vec<Update>>, step: u64, state: Seq<Seq<u8>>, h: nat)
    requires
        next_state_spec(bs, step, state, h) is Some,
    ensures
        state[3] == u64_repr(step),
        step == 0 ==> state[1] == state[0] && state[2] == Seq::new(32, |i: int| 0u8),
        forall|b: int, k: int|
            0 <= b < bs.len() && 0 <= k < bs[b]@.len() ==> {
                let c = (#[trigger] bs[b]@[k]).clog_update;
                &&& (c.old_clog.user_id@ == Seq::new(32, |i: int| 0u8) || c.old_clog.user_id@
                    == c.new_clog.user_id@)
                &&& (bs[b]@[k].raw_log == empty_log() || c.new_clog.hash_chain@ == poseidon_u2(
                    seq![c.old_clog.hash_chain@, bs[b]@[k].raw_log.packed()],
                ))
            },
        (next_state_spec(bs, step, state, h)->0)[0] == state[0],
{
    assert(zero_repr() =~= Seq::new(32, |i: int| 0u8));
    lemma_accepted_batches(bs, state[1], state[2], h);
    assert forall|b: int, k: int| 0 <= b < bs.len() && 0 <= k < bs[b]@.len() implies {
        let c = (#[trigger] bs[b]@[k]).clog_update;
        &&& (c.old_clog.user_id@ == Seq::new(32, |i: int| 0u8) || c.old_clog.user_id@
            == c.new_clog.user_id@)
        &&& (bs[b]@[k].raw_log == empty_log() || c.new_clog.hash_chain@ == poseidon_u2(
            seq![c.old_clog.hash_chain@, bs[b]@[k].raw_log.packed()],
        ))
    } by {
        assert(keeps_user(bs[b]@[k]) && extends_chain(bs[b]@[k]));
    }
}

/// A prefix of updates that is refused leaves the whole sequence refused.
proof fn lemma_updates_refused(ups: Seq<Update>, root: Seq<u8>, h: nat, j: int)
    requires
        0 <= j <= ups.len(),
        updates_after(ups.take(j), root, h) is None,
    ensures
        updates_after(ups, root, h) is None,
    decreases ups.len() - j,
{
    if j < ups.len() {
        assert(ups.take(j + 1).drop_last() =~= ups.take(j));
        lemma_updates_refused(ups, root, h, j + 1);
    } else {
        assert(ups.take(j) =~= ups);
    }
}

/// A prefix of batches that is refused leaves the whole sequence refused.
proof fn lemma_batches_refused(bs: Seq<Vec<Update>>, root: Seq<u8>, chain: Seq<u8>, h: nat, j: int)
    requires
        0 <= j <= bs.len(),
        batches_after(bs.take(j), root, chain, h) is None,
    ensures
        batches_after(bs, root, chain, h) is None,
    decreases bs.len() - j,
{
    if j < bs.len() {
        assert(bs.take(j + 1).drop_last() =~= bs.take(j));
        lemma_batches_refused(bs, root, chain, h, j + 1);
    } else {
        assert(bs.take(j) =~= bs);
    }
}

/// An update refused in some batch refuses the whole step.
proof fn lemma_refused_update(
    bs: Seq<Vec<Update>>,
    root0: Seq<u8>,
    chain0: Seq<u8>,
    h: nat,
    b: int,
    k: int,
    rb: Seq<u8>,
    cb: Seq<u8>,
    r: Seq<u8>,
)
    requires
        0 <= b < bs.len(),
        0 <= k < bs[b]@.len(),
        batches_after(bs.take(b), root0, chain0, h) == Some((rb, cb)),
        updates_after(bs[b]@.take(k), rb, h) == Some(r),
        !update_ok(bs[b]@[k], r, h),
    ensures
        batches_after(bs, root0, chain0, h) is None,
{
    let ups = bs[b]@;
    assert(ups.take(k + 1).drop_last() =~= ups.take(k));
    assert(ups.take(k + 1).last() == ups[k]);
    lemma_updates_refused(ups, rb, h, k + 1);
    assert(bs.take(b + 1).drop_last() =~= bs.take(b));
    assert(bs.take(b + 1).last() == bs[b]);
    lemma_batches_refused(bs, root0, chain0, h, b + 1);
}

/// The steps reach the public hash chain that the host computes: when a
/// step's batches hold, in order, the next batches of the padded logs, and
/// the step starts from the chain after the earlier batches, the chain it
/// moves to is the chain after its own batches too.
pub proof fn lemma_step_chain(
    bs: Seq<Vec<Update>>,
    root: Seq<u8>,
    logs: Seq<zk::Log<u32>>,
    batch: nat,
    s: nat,
    h: nat,
)
    requires
        forall|b: int|
            0 <= b < bs.len() ==> (#[trigger] bs[b])@.map_values(|u: Update| u.raw_log)
                == logs.subrange(((s + b) * batch) as int, ((s + b) * batch + batch) as int),
        batches_after(bs, root, batch_chain(logs, batch, s), h) is Some,
    ensures
        (batches_after(bs, root, batch_chain(logs, batch, s), h)->0).1 == batch_chain(
            logs,
            batch,
            s + bs.len(),
        ),
    decreases bs.len(),
{
    if bs.len() > 0 {
        let pre = bs.drop_last();
        let c0 = batch_chain(logs, batch, s);
        assert forall|b: int|
            0 <= b < pre.len() implies (#[trigger] pre[b])@.map_values(|u: Update| u.raw_log)
                == logs.subrange(((s + b) * batch) as int, ((s + b) * batch + batch) as int) by {
            assert(pre[b] == bs[b]);
        }
        assert(batches_after(pre, root, c0, h) is Some);
        lemma_step_chain(pre, root, logs, batch, s, h);
        let last = bs.last()@;
        let n = bs.len() - 1;
        assert(bs[n] == bs.last());
        let start = ((s + n) * batch) as int;
        assert(last.map_values(|u: Update| u.raw_log) == logs.subrange(start, start + batch));
        let mp = last.map_values(|u: Update| u.raw_log.packed());
        let mr = last.map_values(|u: Update| u.raw_log);
        let pl = packed_logs(logs.subrange(start, start + batch));
        assert forall|j: int| 0 <= j < mp.len() implies #[trigger] mp[j] == pl[j] by {
            assert(mr[j] == last[j].raw_log);
        }
        assert(mp =~= pl);
        assert(((s + bs.len() - 1) * batch) as int == start);
    }
}

impl AggregationCircuit {
    /// The public state that one step moves `state` to, when the circuit's
    /// constraints hold for it; `None` when they do not. The records' tree
    /// has height `height`.
    #[verifier::rlimit(50)]
    pub fn next_state(&self, state: &[[u8; 32]; 4], height: usize) -> (r: Option<[[u8; 32]; 4]>)
        requires
            self.step_count < u64::MAX,
            forall|i: int| 0 <= i < 4 ==> is_scalar_repr(#[trigger] state@[i]@),
            forall|b: int|
                0 <= b < self.batches.len() ==> (#[trigger] self.batches@[b]).len() < 0x8000_0000,
            forall|b: int, k: int|
                0 <= b < self.batches.len() && 0 <= k < self.batches@[b].len() ==> update_fields_ok(
                    #[trigger] self.batches@[b]@[k],
                    height as nat,
                ),
        ensures
            r is Some == next_state_spec(
                self.batches@,
                self.step_count,
                seq![state[0]@, state[1]@, state[2]@, state[3]@],
                height as nat,
            ) is Some,
            r matches Some(out) ==> next_state_spec(
                self.batches@,
                self.step_count,
                seq![state[0]@, state[1]@, state[2]@, state[3]@],
                height as nat,
            ) == Some(seq![out[0]@, out[1]@, out[2]@, out[3]@]),
            r is Some ==> state[3]@ == u64_repr(self.step_count),
            r is Some && self.step_count == 0 ==> state[1]@ == state[0]@ && state[2]@ == Seq::new(
                32,
                |i: int| 0u8,
            ),
            r is Some ==> forall|b: int, k: int|
                0 <= b < self.batches.len() && 0 <= k < self.batches@[b].len() ==> {
                    let c = (#[trigger] self.batches@[b]@[k]).clog_update;
                    &&& (c.old_clog.user_id@ == Seq::new(32, |i: int| 0u8) || c.old_clog.user_id@
                        == c.new_clog.user_id@)
                    &&& (self.batches@[b]@[k].raw_log == empty_log() || c.new_clog.hash_chain@
                        == poseidon_u2(seq![c.old_clog.hash_chain@, self.batches@[b]@[k].raw_log.packed()]))
                },
            r matches Some(out) ==> out[0]@ == state[0]@ && out[3]@ == u64_repr(
                (self.step_count + 1) as u64,
            ),
    {
        let ghost st = seq![state[0]@, state[1]@, state[2]@, state[3]@];
        let ghost h = height as nat;
        let ghost bs = self.batches@;
        let k = u64_to_repr(self.step_count);
        if !bytes_eq(k.as_slice(), state[3].as_slice()) {
            return None;
        }
        if self.step_count == 0 {
            if !bytes_eq(state[1].as_slice(), state[0].as_slice()) {
                return None;
            }
            let zero = [0u8; 32];
            assert(zero@ =~= zero_repr());
            if !bytes_eq(state[2].as_slice(), zero.as_slice()) {
                return None;
            }
        }
        let mut root: [u8; 32] = state[1];
        let mut chain: [u8; 32] = state[2];
        let mut b: usize = 0;
        proof {
            assert(bs.take(0) =~= Seq::<Vec<Update>>::empty());
        }
        while b < self.batches.len()
            invariant
                0 <= b <= self.batches.len(),
                bs == self.batches@,
                h == height as nat,
                is_scalar_repr(chain@),
                forall|i: int| 0 <= i < 4 ==> is_scalar_repr(#[trigger] state@[i]@),
                forall|c: int| 0 <= c < self.batches.len() ==> (#[trigger] self.batches@[c]).len() < 0x8000_0000,
                forall|c: int, j: int|
                    0 <= c < self.batches.len() && 0 <= j < self.batches@[c].len() ==> update_fields_ok(
                        #[trigger] self.batches@[c]@[j],
                        h,
                    ),
                batches_after(bs.take(b as int), state[1]@, state[2]@, h) == Some((root@, chain@)),
            decreases self.batches.len() - b,
        {
            let batch = &self.batches[b];
            let ghost ups = batch@;
            let ghost root_b = root@;
            let mut packed: Vec<[u8; 32]> = Vec::new();
            let mut k: usize = 0;
            proof {
                assert(ups.take(0) =~= Seq::<Update>::empty());
            }
            while k < batch.len()
                invariant
                    0 <= k <= batch.len(),
                    0 <= b < bs.len(),
                    bs == self.batches@,
                    *batch == bs[b as int],
                    ups == batch@,
                    batches_after(bs.take(b as int), state[1]@, state[2]@, h) == Some((root_b, chain@)),
                    batch.len() < 0x8000_0000,
                    forall|j: int| 0 <= j < batch.len() ==> update_fields_ok(#[trigger] batch@[j], h),
                    h == height as nat,
                    packed.len() == k,
                    forall|j: int| 0 <= j < k ==> #[trigger] packed@[j]@ == ups[j].raw_log.packed(),
                    forall|j: int| 0 <= j < k ==> is_scalar_repr(#[trigger] packed@[j]@),
                    updates_after(ups.take(k as int), root_b, h) == Some(root@),
                decreases batch.len() - k,
            {
                let u = &batch[k];
                let c = &u.clog_update;
                proof {
                    assert(update_fields_ok(batch@[k as int], h));
                    assert(ups.take(k + 1).drop_last() =~= ups.take(k as int));
                    assert(ups.take(k + 1).last() == ups[k as int]);
                }
                let bits = index_bits_of(c.idx, height);
                let old_vals = vec![c.old_clog.user_id, c.old_clog.hash_chain];
                assert(forall|t: int| 0 <= t < old_vals.len() ==> is_scalar_repr(#[trigger] old_vals@[t]@));
                let old_root = path_computed_root(&old_vals, &bits, &c.siblings).unwrap();
                assert(reprs(old_vals@) =~= seq![c.old_clog.user_id@, c.old_clog.hash_chain@]);
                if !bytes_eq(old_root.as_slice(), root.as_slice()) {
                    proof {
                        lemma_refused_update(bs, state[1]@, state[2]@, h, b as int, k as int, root_b, chain@, root@);
                    }
                    return None;
                }
                let zero = [0u8; 32];
                assert(zero@ =~= zero_repr());
                if !bytes_eq(c.old_clog.user_id.as_slice(), zero.as_slice()) && !bytes_eq(
                    c.old_clog.user_id.as_slice(),
                    c.new_clog.user_id.as_slice(),
                ) {
                    proof {
                        lemma_refused_update(bs, state[1]@, state[2]@, h, b as int, k as int, root_b, chain@, root@);
                    }
                    return None;
                }
                let p = u.raw_log.pack();
                if !u.raw_log.is_empty() {
                    let input = vec![c.old_clog.hash_chain, p];
                    assert(forall|t: int| 0 <= t < input.len() ==> is_scalar_repr(#[trigger] input@[t]@));
                    let expected = hash_U2(&input).unwrap();
                    assert(reprs(input@) =~= seq![c.old_clog.hash_chain@, u.raw_log.packed()]);
                    if !bytes_eq(expected.as_slice(), c.new_clog.hash_chain.as_slice()) {
                        proof {
                            lemma_refused_update(bs, state[1]@, state[2]@, h, b as int, k as int, root_b, chain@, root@);
                        }
                        return None;
                    }
                }
                let new_vals = vec![c.new_clog.user_id, c.new_clog.hash_chain];
                assert(forall|t: int| 0 <= t < new_vals.len() ==> is_scalar_repr(#[trigger] new_vals@[t]@));
                let new_root = path_computed_root(&new_vals, &bits, &c.siblings).unwrap();
                assert(reprs(new_vals@) =~= seq![c.new_clog.user_id@, c.new_clog.hash_chain@]);
                root = new_root;
                packed.push(p);
                k = k + 1;
            }
            proof {
                assert(ups.take(batch.len() as int) =~= ups);
                assert(reprs(packed@) =~= ups.map_values(|u: Update| u.raw_log.packed()));
                assert(bs.take(b + 1).drop_last() =~= bs.take(b as int));
                assert(bs.take(b + 1).last() == bs[b as int]);
            }
            let bh = hash_U2(&packed).unwrap();
            let input = vec![chain, bh];
            assert(forall|t: int| 0 <= t < input.len() ==> is_scalar_repr(#[trigger] input@[t]@));
            let next = hash_U2(&input).unwrap();
            assert(reprs(input@) =~= seq![chain@, bh@]);
            chain = next;
            b = b + 1;
        }
        proof {
            assert(bs.take(self.batches.len() as int) =~= bs);
        }
        let k1 = u64_to_repr(self.step_count + 1);
        proof {
            lemma_accepted_step(bs, self.step_count, st, h);
            assert(st[0] == state[0]@ && st[1] == state[1]@ && st[2] == state[2]@ && st[3] == state[3]@);
        }
        Some([state[0], root, chain, k1])
    }
}

} // verus!
