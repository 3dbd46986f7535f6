//! The values that the aggregation and consistency circuits work over, with
//! field elements carried as their canonical little-endian encodings.
use vstd::prelude::*;

use crate::crypto::{hash_U1, is_scalar_repr, poseidon_u1, reprs, scalar_modulus, sha256, sha256_digest};
use crate::merkle::{merkle_root_from_digests, streamed_root};
use crate::query::query_bytes;
use crate::util::bytes_eq;
use crate::encoding::{
    i32_le, le_value, lemma_le_value_append, lemma_le_value_bound, lemma_le_value_word_prefix, lemma_le_value_zeros, lemma_pow256_positive,
    lemma_u32_le_value, pow256, push_all, push_i32_le, to_array32, u32_le, u32_to_le,
};
use crate::types::CLog;

verus! {

/// A router log as the circuits see it.
#[derive(Debug, Clone, Copy)]
pub struct Log<T> {
    pub id: T,
    pub user_id: T,
    pub src: T,
    pub dst: T,
    pub pred: T,
    pub packet_size: T,
    pub hop_cnt: T,
}

impl<T> Log<T> {
    /// The fields that are hashed, in packing order.
    pub fn fields(&self) -> (r: Vec<&T>)
        ensures
            r@ == seq![
                &self.id,
                &self.user_id,
                &self.src,
                &self.dst,
                &self.pred,
                &self.packet_size,
                &self.hop_cnt,
            ],
    {
        let mut v: Vec<&T> = Vec::new();
        v.push(&self.id);
        v.push(&self.user_id);
        v.push(&self.src);
        v.push(&self.dst);
        v.push(&self.pred);
        v.push(&self.packet_size);
        v.push(&self.hop_cnt);
        assert(v@ =~= seq![
            &self.id,
            &self.user_id,
            &self.src,
            &self.dst,
            &self.pred,
            &self.packet_size,
            &self.hop_cnt,
        ]);
        v
    }
}

/// `2^32`, the weight between two packed fields.
pub open spec fn word() -> nat {
    0x1_0000_0000
}

/// The empty log that pads batches.
pub open spec fn empty_log() -> Log<u32> {
    Log { id: 0, user_id: 0, src: 0, dst: 0, pred: 0, packet_size: 0, hop_cnt: 0 }
}

/// A database log with every field reinterpreted as unsigned (two's complement);
/// the flow becomes the user.
pub open spec fn zk_log(log: crate::types::Log) -> Log<u32> {
    Log {
        id: log.id as u32,
        user_id: log.flow_id as u32,
        src: log.src as u32,
        dst: log.dst as u32,
        pred: log.pred as u32,
        packet_size: log.packet_size as u32,
        hop_cnt: log.hop_cnt as u32,
    }
}

impl Log<u32> {
    /// A database log with every field reinterpreted as unsigned (two's complement).
    pub fn from_record(log: &crate::types::Log) -> (r: Self)
        ensures
            r == zk_log(*log),
            r.id == log.id as u32,
            r.user_id == log.flow_id as u32,
            r.src == log.src as u32,
            r.dst == log.dst as u32,
            r.pred == log.pred as u32,
            r.packet_size == log.packet_size as u32,
            r.hop_cnt == log.hop_cnt as u32,
    {
        Log {
            id: log.id as u32,
            user_id: log.flow_id as u32,
            src: log.src as u32,
            dst: log.dst as u32,
            pred: log.pred as u32,
            packet_size: log.packet_size as u32,
            hop_cnt: log.hop_cnt as u32,
        }
    }

    /// The empty log that pads batches.
    pub fn empty() -> (r: Self)
        ensures
            r == empty_log(),
    {
        Log { id: 0, user_id: 0, src: 0, dst: 0, pred: 0, packet_size: 0, hop_cnt: 0 }
    }

    /// The packed field element: field `i` occupies bits `32 i .. 32 i + 32`.
    pub open spec fn packed_value(self) -> nat {
        self.id as nat + word() * (self.user_id as nat + word() * (self.src as nat + word() * (
        self.dst as nat + word() * (self.pred as nat + word() * (self.packet_size as nat + word()
            * (self.hop_cnt as nat))))))
    }

    /// The canonical encoding of the packed field element.
    pub open spec fn packed(self) -> Seq<u8> {
        u32_le(self.id) + (u32_le(self.user_id) + (u32_le(self.src) + (u32_le(self.dst) + (u32_le(
            self.pred,
        ) + (u32_le(self.packet_size) + (u32_le(self.hop_cnt) + seq![0u8, 0u8, 0u8, 0u8]))))))
    }

    /// The encoding denotes the packed value, and it is canonical.
    pub proof fn lemma_packed(self)
        ensures
            self.packed().len() == 32,
            le_value(self.packed()) == self.packed_value(),
            is_scalar_repr(self.packed()),
    {
        let z = seq![0u8, 0u8, 0u8, 0u8];
        lemma_le_value_zeros(z);
        let s6 = u32_le(self.hop_cnt) + z;
        let s5 = u32_le(self.packet_size) + s6;
        let s4 = u32_le(self.pred) + s5;
        let s3 = u32_le(self.dst) + s4;
        let s2 = u32_le(self.src) + s3;
        let s1 = u32_le(self.user_id) + s2;
        let s0 = u32_le(self.id) + s1;
        lemma_le_value_word_prefix(self.hop_cnt, z);
        lemma_le_value_word_prefix(self.packet_size, s6);
        lemma_le_value_word_prefix(self.pred, s5);
        lemma_le_value_word_prefix(self.dst, s4);
        lemma_le_value_word_prefix(self.src, s3);
        lemma_le_value_word_prefix(self.user_id, s2);
        lemma_le_value_word_prefix(self.id, s1);
        assert(0x1_0000_0000 * le_value(z) == 0);
        assert(s0 == self.packed());
        lemma_packed_bound(s0);
    }

    /// The canonical encoding of the log packed into one field element.
    pub fn pack(&self) -> (r: [u8; 32])
        ensures
            r@ == self.packed(),
            le_value(r@) == self.packed_value(),
            is_scalar_repr(r@),
    {
        let mut v: Vec<u8> = Vec::new();
        push_all(&mut v, &u32_to_le(self.id));
        push_all(&mut v, &u32_to_le(self.user_id));
        push_all(&mut v, &u32_to_le(self.src));
        push_all(&mut v, &u32_to_le(self.dst));
        push_all(&mut v, &u32_to_le(self.pred));
        push_all(&mut v, &u32_to_le(self.packet_size));
        push_all(&mut v, &u32_to_le(self.hop_cnt));
        push_all(&mut v, &[0u8, 0u8, 0u8, 0u8]);
        proof {
            self.lemma_packed();
            assert(v@ =~= self.packed());
        }
        to_array32(v.as_slice())
    }

    /// Whether every field is zero, i.e. the packed element is zero.
    pub fn is_empty(&self) -> (r: bool)
        ensures
            r == (*self == empty_log()),
    {
        self.id == 0 && self.user_id == 0 && self.src == 0 && self.dst == 0 && self.pred == 0
            && self.packet_size == 0 && self.hop_cnt == 0
    }
}

/// A 32-byte encoding whose top four bytes are zero is canonical.
proof fn lemma_packed_bound(s: Seq<u8>)
    requires
        s.len() == 32,
        s[28] == 0,
        s[29] == 0,
        s[30] == 0,
        s[31] == 0,
    ensures
        is_scalar_repr(s),
{
    let low = s.subrange(0, 28);
    let z = s.subrange(28, 32);
    assert(s =~= low + z);
    lemma_le_value_zeros(z);
    lemma_le_value_append(low, z);
    lemma_le_value_bound(low);
    assert(pow256(28) == 0x1_0000_0000_0000_0000_0000_0000_0000_0000_0000_0000_0000_0000_0000_0000nat)
        by {
        reveal_with_fuel(pow256, 29);
    }
    assert(pow256(28) * le_value(z) == 0) by (nonlinear_arith)
        requires
            le_value(z) == 0,
    ;
}

/// A compressed log: one user's hash chain and its position in the Merkle tree.
#[derive(Debug, Clone, Copy)]
pub struct CompressedLog<S> {
    pub merkle_idx: usize,
    pub user_id: S,
    pub hash_chain: S,
}

impl<T> CompressedLog<T> {
    /// The fields that are packed into the first leaf element.
    pub fn fields(&self) -> (r: Vec<&T>)
        ensures
            r@ == seq![&self.user_id],
    {
        let mut v: Vec<&T> = Vec::new();
        v.push(&self.user_id);
        v
    }
}

/// The encoding of a 64-bit word as a field element.
pub open spec fn u64_repr(x: u64) -> Seq<u8> {
    u32_le((x % 0x1_0000_0000) as u32) + u32_le((x / 0x1_0000_0000) as u32) + Seq::new(
        24,
        |i: int| 0u8,
    )
}

/// The encoding of a 64-bit value as a field element.
pub fn u64_to_repr(v: u64) -> (r: [u8; 32])
    ensures
        r@ == u64_repr(v),
        is_scalar_repr(r@),
{
    let lo = u32_to_le((v % 0x1_0000_0000) as u32);
    let hi = u32_to_le((v / 0x1_0000_0000) as u32);
    let mut a = [0u8; 32];
    let mut j: usize = 0;
    while j < 4
        invariant
            0 <= j <= 4,
            forall|t: int| 0 <= t < j ==> a@[t] == lo@[t] && a@[4 + t] == hi@[t],
            forall|t: int| 8 <= t < 32 ==> a@[t] == 0,
        decreases 4 - j,
    {
        a[j] = lo[j];
        a[4 + j] = hi[j];
        j = j + 1;
    }
    proof {
        assert(a@ =~= u64_repr(v));
        lemma_packed_bound(a@);
    }
    a
}

impl CompressedLog<[u8; 32]> {
    /// The compressed form of a database record: its position is its id
    /// minus one, the user id becomes a field element (sign-extended to 64
    /// bits, as a cast does), and the hash chain is taken as it is.
    pub fn from_record(clog: &CLog) -> (r: Self)
        requires
            clog.id > i32::MIN,
            is_scalar_repr(clog.hash_chain@),
        ensures
            r.merkle_idx == (clog.id - 1) as usize,
            r.user_id@ == u64_repr(clog.user_id as u64),
            is_scalar_repr(r.user_id@),
            r.hash_chain@ == clog.hash_chain@,
    {
        CompressedLog {
            merkle_idx: crate::util::id_to_idx(clog.id),
            user_id: u64_to_repr(clog.user_id as u64),
            hash_chain: to_array32(clog.hash_chain.as_slice()),
        }
    }

    /// The empty record at a position.
    pub fn zero(idx: usize) -> (r: Self)
        ensures
            r.merkle_idx == idx,
            r.user_id@ == Seq::new(32, |i: int| 0u8),
            r.hash_chain@ == Seq::new(32, |i: int| 0u8),
    {
        let r = CompressedLog { merkle_idx: idx, user_id: [0u8; 32], hash_chain: [0u8; 32] };
        assert(r.user_id@ =~= Seq::new(32, |i: int| 0u8));
        assert(r.hash_chain@ =~= Seq::new(32, |i: int| 0u8));
        r
    }

    /// The leaf value: the packed user id (the user id at offset zero) and the hash chain.
    pub fn pack(&self) -> (r: Vec<[u8; 32]>)
        ensures
            r@ == seq![self.user_id, self.hash_chain],
    {
        let mut v: Vec<[u8; 32]> = Vec::new();
        v.push(self.user_id);
        v.push(self.hash_chain);
        assert(v@ =~= seq![self.user_id, self.hash_chain]);
        v
    }
}

/// The low 64 bits of a field element, read from its encoding.
pub fn scalar_to_u64(n: &[u8; 32]) -> (r: u64)
    ensures
        r as nat == le_value(n@.subrange(0, 8)),
{
    let mut acc: u64 = 0;
    let mut i: usize = 8;
    while i > 0
        invariant
            0 <= i <= 8,
            acc as nat == le_value(n@.subrange(i as int, 8)),
            (acc as nat) < pow256((8 - i) as nat),
        decreases i,
    {
        i = i - 1;
        proof {
            let tail = n@.subrange(i + 1, 8);
            let s = n@.subrange(i as int, 8);
            assert(s.drop_first() =~= tail);
            assert(s[0] == n@[i as int]);
            assert(pow256((8 - i) as nat) == 256 * pow256((8 - i - 1) as nat));
            assert(pow256(8) == 0x1_0000_0000_0000_0000nat) by {
                reveal_with_fuel(pow256, 9);
            }
            lemma_pow256_le(((8 - i) as nat), 8);
            assert((acc as nat) * 256 + 255 < pow256((8 - i) as nat)) by (nonlinear_arith)
                requires
                    (acc as nat) < pow256((8 - i - 1) as nat),
                    pow256((8 - i) as nat) == 256 * pow256((8 - i - 1) as nat),
            ;
        }
        acc = acc * 256 + n[i] as u64;
    }
    acc
}

/// Powers of 256 grow with the exponent.
pub proof fn lemma_pow256_le(a: nat, b: nat)
    requires
        a <= b,
    ensures
        pow256(a) <= pow256(b),
    decreases b,
{
    if a < b {
        lemma_pow256_le(a, (b - 1) as nat);
        lemma_pow256_positive((b - 1) as nat);
    }
}

/// A 32-byte hash split in two 128-bit halves, each read little-endian:
/// the two field elements that carry the hash in the consistency circuit.
pub fn hash_to_field_elements(hash: &[u8; 32]) -> (r: (u128, u128))
    ensures
        r.0 as nat == le_value(hash@.subrange(0, 16)),
        r.1 as nat == le_value(hash@.subrange(16, 32)),
{
    let hi = le_u128(hash, 0);
    let lo = le_u128(hash, 16);
    (hi, lo)
}

/// The little-endian value of the sixteen bytes starting at `off`.
fn le_u128(hash: &[u8; 32], off: usize) -> (r: u128)
    requires
        off + 16 <= 32,
    ensures
        r as nat == le_value(hash@.subrange(off as int, off + 16)),
{
    let mut acc: u128 = 0;
    let mut i: usize = 16;
    while i > 0
        invariant
            0 <= i <= 16,
            off + 16 <= 32,
            acc as nat == le_value(hash@.subrange(off + i, off + 16)),
            (acc as nat) < pow256((16 - i) as nat),
        decreases i,
    {
        i = i - 1;
        proof {
            let tail = hash@.subrange(off + i + 1, off + 16);
            let s = hash@.subrange(off + i, off + 16);
            assert(s.drop_first() =~= tail);
            assert(s[0] == hash@[off + i]);
            assert(pow256((16 - i) as nat) == 256 * pow256((16 - i - 1) as nat));
            assert(pow256(16) == 0x1_0000_0000_0000_0000_0000_0000_0000_0000nat) by {
                reveal_with_fuel(pow256, 17);
            }
            lemma_pow256_le(((16 - i) as nat), 16);
            assert((acc as nat) * 256 + 255 < pow256((16 - i) as nat)) by (nonlinear_arith)
                requires
                    (acc as nat) < pow256((16 - i - 1) as nat),
                    pow256((16 - i) as nat) == 256 * pow256((16 - i - 1) as nat),
            ;
        }
        acc = acc * 256 + hash[off + i] as u128;
    }
    acc
}

/// The bytes of records as the consistency circuit reads them, which are the
/// bytes that the query guest hashes: for each record its user id in
/// little-endian order, then its hash chain.
pub open spec fn clogs_bytes(clogs: Seq<CLog>) -> Seq<u8> {
    query_bytes(clogs)
}

/// The bytes of record `j` in a preimage: a four-byte user id, then a
/// 32-byte hash chain.
pub open spec fn record_chunk(p: Seq<u8>, j: int) -> Seq<u8> {
    p.subrange(36 * j, 36 * j + 36)
}

/// The user id that a record's first four bytes hold, little-endian.
pub open spec fn chunk_user(b: Seq<u8>) -> i32 {
    (le_value(b.subrange(0, 4)) as u32) as i32
}

/// A record's leaf in the records' Merkle tree, as `CompressedLog::pack`
/// gives it: the user id as a field element (sign-extended to 64 bits, as
/// `CompressedLog::from_record` makes it) and the hash chain.
pub open spec fn record_leaf(user_id: i32, chain: Seq<u8>) -> Seq<Seq<u8>> {
    seq![u64_repr(user_id as u64), chain]
}

/// The leaf digests of the records in a preimage; a trailing partial record
/// is ignored.
pub open spec fn record_digests_of(p: Seq<u8>) -> Seq<Seq<u8>> {
    Seq::new(
        p.len() / 36,
        |j: int| poseidon_u1(record_leaf(chunk_user(record_chunk(p, j)), record_chunk(p, j).subrange(4, 36))),
    )
}

/// Whether every record's chain in a preimage is a field element.
pub open spec fn records_canonical(p: Seq<u8>) -> bool {
    forall|j: int| 0 <= j < p.len() / 36 ==> is_scalar_repr(#[trigger] record_chunk(p, j).subrange(4, 36))
}

/// The leaf digests of the records' Merkle tree: one leaf per record, in order.
pub open spec fn records_tree_leaves(clogs: Seq<CLog>) -> Seq<Seq<u8>> {
    Seq::new(clogs.len(), |j: int| poseidon_u1(record_leaf(clogs[j].user_id, clogs[j].hash_chain@)))
}

/// The encoding of a 128-bit half: its sixteen bytes, then sixteen zeros.
pub open spec fn half_repr(h: Seq<u8>) -> Seq<u8> {
    h + Seq::new(16, |i: int| 0u8)
}

/// The signed word in four little-endian bytes.
fn read_i32_le(p: &Vec<u8>, off: usize) -> (r: i32)
    requires
        off + 4 <= p.len(),
    ensures
        r == chunk_user(p@.subrange(off as int, off + 4)),
{
    let ghost b = p@.subrange(off as int, off + 4);
    let x: u32 = p[off] as u32 + (p[off + 1] as u32) * 256 + (p[off + 2] as u32) * 65536 + (p[off
        + 3] as u32) * 16777216;
    proof {
        assert(b.subrange(0, 4) =~= b);
        reveal_with_fuel(le_value, 5);
        assert(b.drop_first().drop_first().drop_first().drop_first().len() == 0);
        assert(le_value(b) == x as nat);
    }
    x as i32
}

/// A one-step circuit that ties the Merkle root of records to the SHA-256
/// hash of the records' bytes.
pub struct ConsistencyCircuit {
    /// The records' bytes.
    pub preimage: Vec<u8>,
    /// The SHA-256 hash of `preimage`.
    pub expected_hash: [u8; 32],
    /// The step counter of the recursive proof.
    pub step: usize,
}

impl ConsistencyCircuit {
    pub fn new(preimage: Vec<u8>, expected_hash: [u8; 32], step: usize) -> (r: Self)
        ensures
            r.preimage == preimage,
            r.expected_hash == expected_hash,
            r.step == step,
    {
        ConsistencyCircuit { preimage, expected_hash, step }
    }

    /// The bytes of the records, in order: each record's user id, then its
    /// hash chain (the bytes the query guest hashes).
    pub fn clogs_to_bytes(clogs: &[CLog]) -> (r: Vec<u8>)
        ensures
            r@ == clogs_bytes(clogs@),
    {
        let mut bytes: Vec<u8> = Vec::new();
        let mut i: usize = 0;
        while i < clogs.len()
            invariant
                0 <= i <= clogs.len(),
                bytes@ == query_bytes(clogs@.subrange(0, i as int)),
            decreases clogs.len() - i,
        {
            let clog = &clogs[i];
            push_i32_le(&mut bytes, clog.user_id);
            push_all(&mut bytes, clog.hash_chain.as_slice());
            proof {
                let pre = clogs@.subrange(0, i as int);
                let post = clogs@.subrange(0, i + 1);
                assert(post.drop_last() =~= pre);
                assert(post.last() == clogs@[i as int]);
            }
            i = i + 1;
        }
        assert(clogs@.subrange(0, clogs.len() as int) =~= clogs@);
        bytes
    }

    /// The leaf digests of the records in the preimage, or `None` when some
    /// record's chain is not a field element.
    pub fn record_digests(&self) -> (r: Option<Vec<[u8; 32]>>)
        ensures
            (r is Some) == records_canonical(self.preimage@),
            r matches Some(d) ==> reprs(d@) == record_digests_of(self.preimage@) && (forall|t: int|
                0 <= t < d.len() ==> is_scalar_repr(#[trigger] d@[t]@)),
    {
        let ghost p = self.preimage@;
        let n = self.preimage.len() / 36;
        let mut out: Vec<[u8; 32]> = Vec::new();
        let mut c: usize = 0;
        while c < n
            invariant
                0 <= c <= n,
                n == self.preimage.len() / 36,
                p == self.preimage@,
                out.len() == c,
                forall|t: int| 0 <= t < c ==> #[trigger] out@[t]@ == record_digests_of(p)[t],
                forall|t: int| 0 <= t < c ==> is_scalar_repr(#[trigger] out@[t]@),
                forall|t: int| 0 <= t < c ==> is_scalar_repr(#[trigger] record_chunk(p, t).subrange(4, 36)),
            decreases n - c,
        {
            assert(36 * c + 36 <= self.preimage.len()) by (nonlinear_arith)
                requires
                    c < n,
                    n == self.preimage.len() / 36,
            ;
            let off = 36 * c;
            let user = read_i32_le(&self.preimage, off);
            let ue = u64_to_repr(user as u64);
            let mut chain = [0u8; 32];
            let mut j: usize = 0;
            while j < 32
                invariant
                    0 <= j <= 32,
                    off == 36 * c,
                    off + 36 <= self.preimage.len(),
                    forall|t: int| 0 <= t < j ==> chain@[t] == self.preimage@[off + 4 + t],
                decreases 32 - j,
            {
                chain[j] = self.preimage[off + 4 + j];
                j = j + 1;
            }
            let ghost chunk = record_chunk(p, c as int);
            proof {
                assert(chunk.subrange(0, 4) =~= p.subrange(off as int, off + 4));
                assert(p.subrange(off as int, off + 4).subrange(0, 4) =~= p.subrange(off as int, off + 4));
                assert(chunk_user(chunk) == user);
                assert(chain@ =~= chunk.subrange(4, 36));
            }
            let input = vec![ue, chain];
            match hash_U1(&input) {
                Some(d) => {
                    proof {
                        assert(reprs(input@) =~= record_leaf(chunk_user(chunk), chunk.subrange(4, 36)));
                        assert(is_scalar_repr(input@[1]@));
                    }
                    out.push(d);
                },
                None => {
                    proof {
                        assert(!is_scalar_repr(chain@)) by {
                            if is_scalar_repr(chain@) {
                                assert(forall|t: int| 0 <= t < input.len() ==> is_scalar_repr(#[trigger] input@[t]@));
                            }
                        }
                        assert(!is_scalar_repr(record_chunk(p, c as int).subrange(4, 36)));
                    }
                    return None;
                },
            }
            c = c + 1;
        }
        assert(reprs(out@) =~= record_digests_of(p));
        Some(out)
    }

    /// The condition under which the circuit's constraints hold for the
    /// public state `(merkle_root, hash_hi, hash_lo, step_count)`.
    pub open spec fn accepts_state(
        &self,
        merkle_root: Seq<u8>,
        hash_hi: Seq<u8>,
        hash_lo: Seq<u8>,
        step_count: Seq<u8>,
    ) -> bool {
        &&& self.expected_hash@ == sha256(self.preimage@)
        &&& hash_hi == half_repr(self.expected_hash@.subrange(0, 16))
        &&& hash_lo == half_repr(self.expected_hash@.subrange(16, 32))
        &&& step_count == u64_repr(self.step as u64)
        &&& self.preimage.len() >= 36
        &&& records_canonical(self.preimage@)
        &&& merkle_root == streamed_root(record_digests_of(self.preimage@), 15)
    }

    /// The public state that one step passes on from `z = [merkle_root,
    /// hash_hi, hash_lo, step_count]`, or `None` when the constraints refuse
    /// `z`: the root and the two hash halves are carried unchanged and the
    /// counter becomes the circuit's step plus one.
    pub fn next_state(&self, z: &[[u8; 32]; 4]) -> (r: Option<[[u8; 32]; 4]>)
        requires
            self.step < usize::MAX,
        ensures
            (r is Some) == self.accepts_state(z[0]@, z[1]@, z[2]@, z[3]@),
            r matches Some(o) ==> o[0]@ == z[0]@ && o[1]@ == z[1]@ && o[2]@ == z[2]@ && o[3]@
                == u64_repr((self.step + 1) as u64),
    {
        if self.accepts(&z[0], &z[1], &z[2], &z[3]) {
            let next = u64_to_repr((self.step + 1) as u64);
            Some([z[0], z[1], z[2], next])
        } else {
            None
        }
    }

    /// Whether the circuit's constraints hold for the public state
    /// `(merkle_root, hash_hi, hash_lo, step_count)`: the preimage hashes to
    /// the expected hash, the two halves carry that hash, the step counter is
    /// the circuit's step, every record's chain is a field element, and the
    /// streamed Merkle root of height 15 over the records' leaves (at least
    /// one record) is the given root.
    pub fn accepts(
        &self,
        merkle_root: &[u8; 32],
        hash_hi: &[u8; 32],
        hash_lo: &[u8; 32],
        step_count: &[u8; 32],
    ) -> (r: bool)
        ensures
            r == self.accepts_state(merkle_root@, hash_hi@, hash_lo@, step_count@),
            r ==> sha256(self.preimage@) == self.expected_hash@,
            r ==> hash_hi@.subrange(0, 16) == self.expected_hash@.subrange(0, 16) && (forall|i: int|
                16 <= i < 32 ==> #[trigger] hash_hi@[i] == 0),
            r ==> hash_lo@.subrange(0, 16) == self.expected_hash@.subrange(16, 32) && (forall|i: int|
                16 <= i < 32 ==> #[trigger] hash_lo@[i] == 0),
            r ==> step_count@ == u64_repr(self.step as u64),
            r ==> merkle_root@ == streamed_root(record_digests_of(self.preimage@), 15),
    {
        let digest = sha256_digest(self.preimage.as_slice());
        if !bytes_eq(digest.as_slice(), self.expected_hash.as_slice()) {
            return false;
        }
        let mut hi = [0u8; 32];
        let mut lo = [0u8; 32];
        let mut j: usize = 0;
        while j < 16
            invariant
                0 <= j <= 16,
                forall|t: int| 0 <= t < j ==> hi@[t] == self.expected_hash@[t],
                forall|t: int| 0 <= t < j ==> lo@[t] == self.expected_hash@[16 + t],
                forall|t: int| 16 <= t < 32 ==> hi@[t] == 0 && lo@[t] == 0,
            decreases 16 - j,
        {
            hi[j] = self.expected_hash[j];
            lo[j] = self.expected_hash[16 + j];
            j = j + 1;
        }
        assert(hi@ =~= half_repr(self.expected_hash@.subrange(0, 16)));
        assert(lo@ =~= half_repr(self.expected_hash@.subrange(16, 32)));
        if !bytes_eq(hi.as_slice(), hash_hi.as_slice()) || !bytes_eq(lo.as_slice(), hash_lo.as_slice()) {
            return false;
        }
        let k = u64_to_repr(self.step as u64);
        if !bytes_eq(k.as_slice(), step_count.as_slice()) {
            return false;
        }
        let leaves = match self.record_digests() {
            Some(d) => d,
            None => {
                return false;
            },
        };
        assert(leaves.len() == reprs(leaves@).len());
        assert(leaves.len() == self.preimage.len() / 36);
        assert((leaves.len() > 0) == (self.preimage.len() >= 36));
        match merkle_root_from_digests(&leaves, 15) {
            Some(root) => bytes_eq(root.as_slice(), merkle_root.as_slice()),
            None => false,
        }
    }

    /// The SHA-256 hash of the records' bytes; the same hash that the query
    /// guest reports for the records.
    pub fn hash_clogs(clogs: &[CLog]) -> (r: [u8; 32])
        ensures
            r@ == sha256(clogs_bytes(clogs@)),
    {
        let bytes = Self::clogs_to_bytes(clogs);
        sha256_digest(bytes.as_slice())
    }
}

/// The root of the records' Merkle tree of the given height: one leaf per
/// record, in order, holding the record's compressed form (user id and hash
/// chain). `None` when there is no record, or when some record's chain is not
/// a 32-byte field element.
pub fn records_root(clogs: &[CLog], height: usize) -> (r: Option<[u8; 32]>)
    requires
        height < usize::MAX,
    ensures
        (r is Some) == (clogs.len() > 0 && forall|j: int|
            0 <= j < clogs.len() ==> is_scalar_repr(#[trigger] clogs@[j].hash_chain@)),
        r matches Some(root) ==> root@ == streamed_root(records_tree_leaves(clogs@), height as nat),
{
    let mut digests: Vec<[u8; 32]> = Vec::new();
    let mut i: usize = 0;
    while i < clogs.len()
        invariant
            0 <= i <= clogs.len(),
            digests.len() == i,
            forall|t: int| 0 <= t < i ==> #[trigger] digests@[t]@ == records_tree_leaves(clogs@)[t],
            forall|t: int| 0 <= t < i ==> is_scalar_repr(#[trigger] digests@[t]@),
            forall|t: int| 0 <= t < i ==> is_scalar_repr(#[trigger] clogs@[t].hash_chain@),
        decreases clogs.len() - i,
    {
        let clog = &clogs[i];
        if clog.hash_chain.len() != 32 {
            return None;
        }
        let ue = u64_to_repr(clog.user_id as u64);
        let chain = to_array32(clog.hash_chain.as_slice());
        let input = vec![ue, chain];
        match hash_U1(&input) {
            Some(d) => {
                assert(reprs(input@) =~= record_leaf(clog.user_id, clog.hash_chain@));
                assert(is_scalar_repr(input@[1]@));
                digests.push(d);
            },
            None => {
                proof {
                    if is_scalar_repr(chain@) {
                        assert(forall|t: int| 0 <= t < input.len() ==> is_scalar_repr(#[trigger] input@[t]@));
                    }
                }
                return None;
            },
        }
        i = i + 1;
    }
    assert(reprs(digests@) =~= records_tree_leaves(clogs@));
    merkle_root_from_digests(&digests, height)
}

/// The consistency proof and the query guest hash the same bytes: what
/// `clogs_to_bytes` writes is what the query guest hashes, so `hash_clogs`
/// and `query_clogs_hash` agree on every list of records.
pub proof fn lemma_consistency_hash_is_query_hash(clogs: Seq<CLog>)
    ensures
        sha256(clogs_bytes(clogs)) == sha256(query_bytes(clogs)),
        clogs_bytes(clogs) == query_bytes(clogs),
{
}

/// A record of a preimage is a record of any longer preimage that starts with it.
proof fn lemma_chunk_of_prefix(bp: Seq<u8>, x: Seq<u8>, j: int)
    requires
        0 <= j,
        36 * j + 36 <= bp.len(),
    ensures
        record_chunk(bp + x, j) == record_chunk(bp, j),
{
    assert(record_chunk(bp + x, j) =~= record_chunk(bp, j));
}

/// The last record of `clogs_bytes` is the last record itself.
proof fn lemma_last_chunk(bp: Seq<u8>, u: i32, chain: Seq<u8>, n: int)
    requires
        n >= 1,
        bp.len() == 36 * (n - 1),
        chain.len() == 32,
    ensures
        chunk_user(record_chunk(bp + i32_le(u) + chain, n - 1)) == u,
        record_chunk(bp + i32_le(u) + chain, n - 1).subrange(4, 36) == chain,
{
    let last = record_chunk(bp + i32_le(u) + chain, n - 1);
    assert(last =~= i32_le(u) + chain);
    assert(last.subrange(0, 4) =~= u32_le(u as u32));
    lemma_u32_le_value(u as u32);
    assert(((u as u32) as i32) == u) by (bit_vector);
    assert(last.subrange(4, 36) =~= chain);
}

/// The consistency circuit reads the records' tree from the records' bytes:
/// for records whose chains have 32 bytes, the records that the circuit
/// decodes from `clogs_to_bytes` are the records themselves, so the root it
/// checks is the root of the records' tree (whose leaves are the records'
/// compressed forms), and its chains are field elements exactly when the
/// records' chains are.
#[verifier::rlimit(50)]
pub proof fn lemma_records_of_bytes(clogs: Seq<CLog>)
    requires
        forall|j: int| 0 <= j < clogs.len() ==> (#[trigger] clogs[j]).hash_chain@.len() == 32,
    ensures
        clogs_bytes(clogs).len() == 36 * clogs.len(),
        forall|j: int|
            0 <= j < clogs.len() ==> chunk_user(#[trigger] record_chunk(clogs_bytes(clogs), j))
                == clogs[j].user_id && record_chunk(clogs_bytes(clogs), j).subrange(4, 36)
                == clogs[j].hash_chain@,
        record_digests_of(clogs_bytes(clogs)) == records_tree_leaves(clogs),
        records_canonical(clogs_bytes(clogs)) == (forall|j: int|
            0 <= j < clogs.len() ==> is_scalar_repr(#[trigger] clogs[j].hash_chain@)),
    decreases clogs.len(),
{
    let n = clogs.len() as int;
    let b = clogs_bytes(clogs);
    if n == 0 {
        assert(record_digests_of(b) =~= records_tree_leaves(clogs));
    } else {
        let pre = clogs.drop_last();
        assert forall|j: int| 0 <= j < pre.len() implies (#[trigger] pre[j]).hash_chain@.len() == 32 by {
            assert(pre[j] == clogs[j]);
        }
        lemma_records_of_bytes(pre);
        let bp = clogs_bytes(pre);
        let c = clogs.last();
        let x = i32_le(c.user_id) + c.hash_chain@;
        assert(b == bp + i32_le(c.user_id) + c.hash_chain@);
        assert(bp + i32_le(c.user_id) + c.hash_chain@ =~= bp + x);
        assert(b.len() == 36 * n);
        assert(b.len() / 36 == n) by (nonlinear_arith)
            requires
                b.len() == 36 * n,
        ;
        assert(bp.len() / 36 == n - 1) by (nonlinear_arith)
            requires
                bp.len() == 36 * (n - 1),
        ;
        lemma_last_chunk(bp, c.user_id, c.hash_chain@, n);
        assert forall|j: int| 0 <= j < n - 1 implies #[trigger] record_chunk(b, j) == record_chunk(bp, j) by {
            assert(36 * j + 36 <= 36 * (n - 1)) by (nonlinear_arith)
                requires
                    j < n - 1,
            ;
            lemma_chunk_of_prefix(bp, x, j);
        }
        assert forall|j: int| 0 <= j < n implies chunk_user(#[trigger] record_chunk(b, j))
            == clogs[j].user_id && record_chunk(b, j).subrange(4, 36) == clogs[j].hash_chain@ by {
            if j < n - 1 {
                assert(record_chunk(b, j) == record_chunk(bp, j));
                assert(pre[j] == clogs[j]);
            } else {
                assert(clogs[j] == c);
            }
        }
        assert forall|j: int| 0 <= j < n implies #[trigger] record_digests_of(b)[j] == records_tree_leaves(clogs)[j] by {
            assert(chunk_user(record_chunk(b, j)) == clogs[j].user_id);
        }
        assert(record_digests_of(b) =~= records_tree_leaves(clogs));
        if records_canonical(b) {
            assert forall|j: int| 0 <= j < n implies is_scalar_repr(#[trigger] clogs[j].hash_chain@) by {
                assert(is_scalar_repr(record_chunk(b, j).subrange(4, 36)));
                assert(chunk_user(record_chunk(b, j)) == clogs[j].user_id);
            }
        }
        if forall|j: int| 0 <= j < n ==> is_scalar_repr(#[trigger] clogs[j].hash_chain@) {
            assert forall|j: int| 0 <= j < b.len() / 36 implies is_scalar_repr(
                #[trigger] record_chunk(b, j).subrange(4, 36),
            ) by {
                assert(is_scalar_repr(clogs[j].hash_chain@));
                assert(chunk_user(record_chunk(b, j)) == clogs[j].user_id);
            }
        }
    }
}

/// Distinct logs pack to distinct field elements: the packing loses nothing.
pub proof fn lemma_pack_injective(a: Log<u32>, b: Log<u32>)
    requires
        a.packed() == b.packed(),
    ensures
        a == b,
{
    let pa = a.packed();
    let pb = b.packed();
    assert(pa.subrange(0, 4) =~= u32_le(a.id));
    assert(pb.subrange(0, 4) =~= u32_le(b.id));
    assert(pa.subrange(4, 8) =~= u32_le(a.user_id));
    assert(pb.subrange(4, 8) =~= u32_le(b.user_id));
    assert(pa.subrange(8, 12) =~= u32_le(a.src));
    assert(pb.subrange(8, 12) =~= u32_le(b.src));
    assert(pa.subrange(12, 16) =~= u32_le(a.dst));
    assert(pb.subrange(12, 16) =~= u32_le(b.dst));
    assert(pa.subrange(16, 20) =~= u32_le(a.pred));
    assert(pb.subrange(16, 20) =~= u32_le(b.pred));
    assert(pa.subrange(20, 24) =~= u32_le(a.packet_size));
    assert(pb.subrange(20, 24) =~= u32_le(b.packet_size));
    assert(pa.subrange(24, 28) =~= u32_le(a.hop_cnt));
    assert(pb.subrange(24, 28) =~= u32_le(b.hop_cnt));
    lemma_u32_le_injective(a.id, b.id);
    lemma_u32_le_injective(a.user_id, b.user_id);
    lemma_u32_le_injective(a.src, b.src);
    lemma_u32_le_injective(a.dst, b.dst);
    lemma_u32_le_injective(a.pred, b.pred);
    lemma_u32_le_injective(a.packet_size, b.packet_size);
    lemma_u32_le_injective(a.hop_cnt, b.hop_cnt);
}

/// The circuit form of a database log keeps every field: two database logs
/// pack to the same field element only when they are the same log, so logs
/// that differ in any field (the packet size among them) give different
/// packed values and different links of a hash chain's input.
pub proof fn lemma_record_pack_injective(a: crate::types::Log, b: crate::types::Log)
    requires
        zk_log(a).packed() == zk_log(b).packed(),
    ensures
        a == b,
{
    lemma_pack_injective(zk_log(a), zk_log(b));
    let (x1, y1) = (a.id, b.id);
    assert((x1 as u32 == y1 as u32) ==> x1 == y1) by (bit_vector);
    let (x2, y2) = (a.flow_id, b.flow_id);
    assert((x2 as u32 == y2 as u32) ==> x2 == y2) by (bit_vector);
    let (x3, y3) = (a.src, b.src);
    assert((x3 as u32 == y3 as u32) ==> x3 == y3) by (bit_vector);
    let (x4, y4) = (a.dst, b.dst);
    assert((x4 as u32 == y4 as u32) ==> x4 == y4) by (bit_vector);
    let (x5, y5) = (a.pred, b.pred);
    assert((x5 as u32 == y5 as u32) ==> x5 == y5) by (bit_vector);
    let (x6, y6) = (a.packet_size, b.packet_size);
    assert((x6 as u32 == y6 as u32) ==> x6 == y6) by (bit_vector);
    let (x7, y7) = (a.hop_cnt, b.hop_cnt);
    assert((x7 as u32 == y7 as u32) ==> x7 == y7) by (bit_vector);
}

/// Each field of a database log can be read back from its packed value: the
/// four bytes at the field's place are the field's two's-complement word.
pub proof fn lemma_record_pack_fields(log: crate::types::Log)
    ensures
        zk_log(log).packed().subrange(0, 4) == u32_le(log.id as u32),
        zk_log(log).packed().subrange(4, 8) == u32_le(log.flow_id as u32),
        zk_log(log).packed().subrange(8, 12) == u32_le(log.src as u32),
        zk_log(log).packed().subrange(12, 16) == u32_le(log.dst as u32),
        zk_log(log).packed().subrange(16, 20) == u32_le(log.pred as u32),
        zk_log(log).packed().subrange(20, 24) == u32_le(log.packet_size as u32),
        zk_log(log).packed().subrange(24, 28) == u32_le(log.hop_cnt as u32),
{
    let p = zk_log(log).packed();
    assert(p.subrange(0, 4) =~= u32_le(log.id as u32));
    assert(p.subrange(4, 8) =~= u32_le(log.flow_id as u32));
    assert(p.subrange(8, 12) =~= u32_le(log.src as u32));
    assert(p.subrange(12, 16) =~= u32_le(log.dst as u32));
    assert(p.subrange(16, 20) =~= u32_le(log.pred as u32));
    assert(p.subrange(20, 24) =~= u32_le(log.packet_size as u32));
    assert(p.subrange(24, 28) =~= u32_le(log.hop_cnt as u32));
}

/// What an accepted consistency state binds: the preimage hashes to the
/// expected hash, the high public half holds the hash's first sixteen bytes
/// and the low half its last sixteen (each padded with zeros), the counter is
/// the circuit's step, and the root is the records' streamed root.
pub proof fn lemma_accepted_state_binds(
    c: ConsistencyCircuit,
    merkle_root: Seq<u8>,
    hash_hi: Seq<u8>,
    hash_lo: Seq<u8>,
    step_count: Seq<u8>,
)
    requires
        c.accepts_state(merkle_root, hash_hi, hash_lo, step_count),
    ensures
        sha256(c.preimage@) == c.expected_hash@,
        hash_hi.len() == 32 && hash_lo.len() == 32,
        forall|i: int| 0 <= i < 16 ==> #[trigger] hash_hi[i] == c.expected_hash@[i],
        forall|i: int| 0 <= i < 16 ==> #[trigger] hash_lo[i] == c.expected_hash@[16 + i],
        forall|i: int| 16 <= i < 32 ==> #[trigger] hash_hi[i] == 0 && hash_lo[i] == 0,
        step_count == u64_repr(c.step as u64),
        merkle_root == streamed_root(record_digests_of(c.preimage@), 15),
{
}

/// Words with the same bytes are the same word.
proof fn lemma_u32_le_injective(x: u32, y: u32)
    requires
        u32_le(x) == u32_le(y),
    ensures
        x == y,
{
    lemma_u32_le_value(x);
    lemma_u32_le_value(y);
}

/// The two halves put back together give the hash's little-endian value.
pub proof fn lemma_hash_halves(hash: Seq<u8>)
    requires
        hash.len() == 32,
    ensures
        le_value(hash) == le_value(hash.subrange(0, 16)) + pow256(16) * le_value(
            hash.subrange(16, 32),
        ),
{
    assert(hash =~= hash.subrange(0, 16) + hash.subrange(16, 32));
    lemma_le_value_append(hash.subrange(0, 16), hash.subrange(16, 32));
}

} // verus!
