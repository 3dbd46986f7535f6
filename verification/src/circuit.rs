//! Preparing the aggregation circuit's inputs: padding the new logs into
//! whole batches and steps, and the public hash chain over the batches.
use vstd::prelude::*;

use crate::aggregate::zero_repr;
use crate::crypto::{hash_U2, is_scalar_repr, poseidon_u2, reprs};
use crate::encoding::lemma_le_value_zeros;
use crate::types::Log;
use crate::zk::{self, empty_log, zk_log};

verus! {

/// How many entries pad `n` up to a multiple of `m`.
pub open spec fn pad_len(n: nat, m: nat) -> nat {
    if n % m == 0 {
        0
    } else {
        (m - n % m) as nat
    }
}

/// `n` empty logs.
pub open spec fn empties(n: nat) -> Seq<zk::Log<u32>> {
    Seq::new(n, |i: int| empty_log())
}

/// One router's new logs as circuit logs, padded to whole batches.
pub open spec fn padded_table(t: Seq<Log>, batch: nat) -> Seq<zk::Log<u32>> {
    t.map_values(|l: Log| zk_log(l)) + empties(pad_len(t.len(), batch))
}

/// All routers' padded logs, router after router.
pub open spec fn padded_tables(ts: Seq<Vec<Log>>, batch: nat) -> Seq<zk::Log<u32>>
    decreases ts.len(),
{
    if ts.len() == 0 {
        Seq::empty()
    } else {
        padded_tables(ts.drop_last(), batch) + padded_table(ts.last()@, batch)
    }
}

/// The number of empty logs added to pad the routers' logs to whole batches.
pub open spec fn table_padding(ts: Seq<Vec<Log>>, batch: nat) -> nat
    decreases ts.len(),
{
    if ts.len() == 0 {
        0
    } else {
        table_padding(ts.drop_last(), batch) + pad_len(ts.last()@.len(), batch)
    }
}

proof fn lemma_pad_len(n: nat, m: nat)
    requires
        m > 0,
    ensures
        (n + pad_len(n, m)) % m == 0,
        pad_len(n, m) < m,
{
    if n % m != 0 {
        assert((n + (m - n % m)) % (m as int) == 0) by (nonlinear_arith)
            requires
                m > 0,
                n % m != 0,
        ;
    }
}

/// Padded logs come in whole batches.
pub proof fn lemma_padded_tables_batches(ts: Seq<Vec<Log>>, batch: nat)
    requires
        batch > 0,
    ensures
        padded_tables(ts, batch).len() % batch == 0,
    decreases ts.len(),
{
    if ts.len() > 0 {
        lemma_padded_tables_batches(ts.drop_last(), batch);
        let n = ts.last()@.len();
        lemma_pad_len(n, batch);
        let a = padded_tables(ts.drop_last(), batch).len();
        let b = n + pad_len(n, batch);
        assert(padded_table(ts.last()@, batch).len() == b);
        vstd::arithmetic::div_mod::lemma_add_mod_noop(a as int, b as int, batch as int);
        assert((a as int) % (batch as int) == 0);
        assert((b as int) % (batch as int) == 0);
        assert(0int % (batch as int) == 0);
        assert(((a + b) as int) % (batch as int) == 0);
        assert(padded_tables(ts, batch).len() == a + b);
    }
}

/// One router's logs as circuit logs, padded with empty logs to whole batches.
fn pad_table(out: &mut Vec<zk::Log<u32>>, table: &Vec<Log>, batch_size: usize) -> (pad: usize)
    requires
        batch_size > 0,
        old(out).len() + table.len() + batch_size <= usize::MAX,
    ensures
        final(out)@ == old(out)@ + padded_table(table@, batch_size as nat),
        pad == pad_len(table.len() as nat, batch_size as nat),
{
    let ghost start = out@;
    let mut j: usize = 0;
    while j < table.len()
        invariant
            0 <= j <= table.len(),
            out@ == start + table@.subrange(0, j as int).map_values(|l: Log| zk_log(l)),
            start.len() + table.len() + batch_size <= usize::MAX,
        decreases table.len() - j,
    {
        out.push(zk::Log::<u32>::from_record(&table[j]));
        j = j + 1;
        assert(out@ =~= start + table@.subrange(0, j as int).map_values(|l: Log| zk_log(l)));
    }
    assert(table@.subrange(0, table.len() as int) =~= table@);
    let pad: usize = match table.len() % batch_size {
        0 => 0,
        x => batch_size - x,
    };
    let ghost mid = out@;
    let mut k: usize = 0;
    while k < pad
        invariant
            0 <= k <= pad,
            pad < batch_size,
            out@ == mid + empties(k as nat),
        decreases pad - k,
    {
        out.push(zk::Log::<u32>::empty());
        k = k + 1;
        assert(out@ =~= mid + empties(k as nat));
    }
    assert(out@ =~= start + padded_table(table@, batch_size as nat));
    pad
}

/// The new logs of all routers as circuit logs: each router's logs padded
/// with empty logs to whole batches, then the whole padded with empty logs to
/// whole steps. Also returns the number of empty logs of each kind.
pub fn pad_new_logs(new_logs: &Vec<Vec<Log>>, batch_size: usize, batches_per_step: usize) -> (r: (
    Vec<zk::Log<u32>>,
    usize,
    usize,
))
    requires
        batch_size > 0,
        batches_per_step > 0,
        batch_size * batches_per_step <= usize::MAX,
        padded_tables(new_logs@, batch_size as nat).len() + batch_size * batches_per_step
            <= usize::MAX,
    ensures
        r.0@ == padded_tables(new_logs@, batch_size as nat) + empties(r.2 as nat),
        r.1 == table_padding(new_logs@, batch_size as nat),
        r.2 == pad_len(
            padded_tables(new_logs@, batch_size as nat).len(),
            (batch_size * batches_per_step) as nat,
        ),
{
    let mut out: Vec<zk::Log<u32>> = Vec::new();
    let mut batch_padding: usize = 0;
    let mut i: usize = 0;
    while i < new_logs.len()
        invariant
            0 <= i <= new_logs.len(),
            batch_size > 0,
            batches_per_step > 0,
            out@ == padded_tables(new_logs@.subrange(0, i as int), batch_size as nat),
            batch_padding == table_padding(new_logs@.subrange(0, i as int), batch_size as nat),
            batch_padding <= out.len(),
            padded_tables(new_logs@, batch_size as nat).len() + batch_size * batches_per_step
                <= usize::MAX,
        decreases new_logs.len() - i,
    {
        proof {
            let pre = new_logs@.subrange(0, i as int);
            let post = new_logs@.subrange(0, i + 1);
            assert(post.drop_last() =~= pre);
            lemma_padded_tables_prefix(new_logs@, (i + 1) as nat, batch_size as nat);
            assert(padded_tables(post, batch_size as nat).len() >= out.len() + new_logs@[i as int].len());
            assert(batch_size * batches_per_step >= batch_size) by (nonlinear_arith)
                requires
                    batches_per_step >= 1,
            ;
        }
        let pad = pad_table(&mut out, &new_logs[i], batch_size);
        batch_padding = batch_padding + pad;
        i = i + 1;
    }
    assert(new_logs@.subrange(0, new_logs.len() as int) =~= new_logs@);
    let step_len = batch_size * batches_per_step;
    assert(step_len >= 1) by (nonlinear_arith)
        requires
            batch_size >= 1,
            batches_per_step >= 1,
            step_len == batch_size * batches_per_step,
    ;
    let n_pad: usize = match out.len() % step_len {
        0 => 0,
        x => step_len - x,
    };
    let ghost mid = out@;
    let mut k: usize = 0;
    while k < n_pad
        invariant
            0 <= k <= n_pad,
            n_pad < step_len,
            mid.len() + step_len <= usize::MAX,
            out@ == mid + empties(k as nat),
        decreases n_pad - k,
    {
        out.push(zk::Log::<u32>::empty());
        k = k + 1;
        assert(out@ =~= mid + empties(k as nat));
    }
    (out, batch_padding, n_pad)
}

/// A prefix of the routers pads to no more than all of them.
proof fn lemma_padded_tables_prefix(ts: Seq<Vec<Log>>, i: nat, batch: nat)
    requires
        i <= ts.len(),
    ensures
        padded_tables(ts.subrange(0, i as int), batch).len() <= padded_tables(ts, batch).len(),
        table_padding(ts.subrange(0, i as int), batch) <= padded_tables(
            ts.subrange(0, i as int),
            batch,
        ).len(),
    decreases ts.len() - i,
{
    if i < ts.len() {
        lemma_padded_tables_prefix(ts, i + 1, batch);
        let post = ts.subrange(0, i as int + 1);
        assert(post.drop_last() =~= ts.subrange(0, i as int));
    } else {
        assert(ts.subrange(0, i as int) =~= ts);
    }
    lemma_padding_within(ts.subrange(0, i as int), batch);
}

proof fn lemma_padding_within(ts: Seq<Vec<Log>>, batch: nat)
    ensures
        table_padding(ts, batch) <= padded_tables(ts, batch).len(),
    decreases ts.len(),
{
    if ts.len() > 0 {
        lemma_padding_within(ts.drop_last(), batch);
    }
}

/// The padded new logs come in whole steps.
pub proof fn lemma_pad_new_logs_steps(ts: Seq<Vec<Log>>, batch: nat, per_step: nat)
    requires
        batch > 0,
        per_step > 0,
    ensures
        (padded_tables(ts, batch).len() + pad_len(padded_tables(ts, batch).len(), batch * per_step))
            % (batch * per_step) == 0,
        padded_tables(ts, batch).len() % batch == 0,
{
    assert(batch * per_step > 0) by (nonlinear_arith)
        requires
            batch > 0,
            per_step > 0,
    ;
    lemma_pad_len(padded_tables(ts, batch).len(), batch * per_step);
    lemma_padded_tables_batches(ts, batch);
}

/// The encodings of the packed logs.
pub open spec fn packed_logs(logs: Seq<zk::Log<u32>>) -> Seq<Seq<u8>> {
    logs.map_values(|l: zk::Log<u32>| l.packed())
}

/// The public hash chain after the first `k` batches: starting from zero,
/// each batch extends it with the hash of the chain and the batch's hash.
pub open spec fn batch_chain(logs: Seq<zk::Log<u32>>, batch: nat, k: nat) -> Seq<u8>
    decreases k,
{
    if k == 0 {
        zero_repr()
    } else {
        let prev = batch_chain(logs, batch, (k - 1) as nat);
        let start = ((k - 1) * batch) as int;
        let batch_hash = poseidon_u2(packed_logs(logs.subrange(start, start + batch)));
        poseidon_u2(seq![prev, batch_hash])
    }
}

/// The public hash chain over the batches of the padded logs, and the
/// number of steps that the batches fill.
pub fn aggregation_hash_chain(
    raw_logs: &Vec<zk::Log<u32>>,
    batch_size: usize,
    batches_per_step: usize,
) -> (r: ([u8; 32], usize))
    requires
        1 <= batch_size < 0x8000_0000,
        batches_per_step >= 1,
        raw_logs.len() % batch_size == 0,
        (raw_logs.len() / batch_size) % batches_per_step == 0,
    ensures
        r.0@ == batch_chain(raw_logs@, batch_size as nat, (raw_logs.len() / batch_size) as nat),
        r.1 == (raw_logs.len() / batch_size) / batches_per_step,
{
    let n_batches = raw_logs.len() / batch_size;
    let mut chain = [0u8; 32];
    proof {
        assert(chain@ =~= zero_repr());
        lemma_le_value_zeros(chain@);
    }
    let mut k: usize = 0;
    let mut off: usize = 0;
    while k < n_batches
        invariant
            0 <= k <= n_batches,
            n_batches == raw_logs.len() / batch_size,
            1 <= batch_size < 0x8000_0000,
            raw_logs.len() % batch_size == 0,
            off == k * batch_size,
            off <= raw_logs.len(),
            chain@ == batch_chain(raw_logs@, batch_size as nat, k as nat),
            is_scalar_repr(chain@),
        decreases n_batches - k,
    {
        proof {
            assert(off + batch_size <= raw_logs.len()) by (nonlinear_arith)
                requires
                    off == k * batch_size,
                    k < n_batches,
                    n_batches == raw_logs.len() / batch_size,
                    raw_logs.len() % batch_size == 0,
                    batch_size >= 1,
            ;
        }
        let mut packed: Vec<[u8; 32]> = Vec::new();
        let mut j: usize = 0;
        while j < batch_size
            invariant
                0 <= j <= batch_size,
                off + batch_size <= raw_logs.len(),
                packed@.len() == j,
                forall|t: int| 0 <= t < j ==> #[trigger] packed@[t]@ == raw_logs@[off + t].packed(),
                forall|t: int| 0 <= t < j ==> is_scalar_repr(#[trigger] packed@[t]@),
            decreases batch_size - j,
        {
            let p = raw_logs[off + j].pack();
            packed.push(p);
            j = j + 1;
        }
        let batch_hash = hash_U2(&packed).unwrap();
        proof {
            assert(reprs(packed@) =~= packed_logs(
                raw_logs@.subrange(off as int, off + batch_size),
            ));
        }
        let input = vec![chain, batch_hash];
        assert(forall|t: int| 0 <= t < input.len() ==> is_scalar_repr(#[trigger] input@[t]@));
        let next = hash_U2(&input).unwrap();
        proof {
            assert(reprs(input@) =~= seq![chain@, batch_hash@]);
            assert(((k + 1 - 1) * batch_size) as int == off as int);
        }
        chain = next;
        proof {
            assert((k + 1) * batch_size == off + batch_size) by (nonlinear_arith)
                requires
                    off == k * batch_size,
            ;
        }
        k = k + 1;
        off = off + batch_size;
    }
    (chain, n_batches / batches_per_step)
}

} // verus!
