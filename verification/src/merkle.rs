//! The Poseidon Merkle root over a list of leaves, computed the way the
//! consistency circuit does it: one pass over the leaves that keeps at most
//! one pending left subtree per level, then a pass that closes the partial
//! subtrees with the hashes of empty subtrees.
use vstd::prelude::*;

use crate::aggregate::zero_repr;
use crate::crypto::{hash_U1, hash_U2, is_scalar_repr, poseidon_u1, poseidon_u2, reprs};
use crate::encoding::lemma_le_value_zeros;

verus! {

/// `2` to the power `n`.
pub open spec fn two_pow(n: nat) -> nat
    decreases n,
{
    if n == 0 {
        1
    } else {
        2 * two_pow((n - 1) as nat)
    }
}

/// The hash of a leaf holding one field element.
pub open spec fn leaf_hash(v: Seq<u8>) -> Seq<u8> {
    poseidon_u1(seq![v])
}

/// The hash of an inner node.
pub open spec fn node_hash(l: Seq<u8>, r: Seq<u8>) -> Seq<u8> {
    poseidon_u2(seq![l, r])
}

/// The hash of a subtree of the given height whose leaves all hold zero.
pub open spec fn empty_hash(level: nat) -> Seq<u8>
    decreases level,
{
    if level == 0 {
        leaf_hash(zero_repr())
    } else {
        let e = empty_hash((level - 1) as nat);
        node_hash(e, e)
    }
}

/// The subtree of the given height over the leaf digests from `start` on,
/// where positions past the last leaf hold the digest of a zero leaf.
pub open spec fn tree_node(leaves: Seq<Seq<u8>>, level: nat, start: int) -> Seq<u8>
    decreases level,
{
    if level == 0 {
        if 0 <= start < leaves.len() {
            leaves[start]
        } else {
            empty_hash(0)
        }
    } else {
        let half = two_pow((level - 1) as nat);
        node_hash(
            tree_node(leaves, (level - 1) as nat, start),
            tree_node(leaves, (level - 1) as nat, start + half),
        )
    }
}

/// The digests of leaves that hold one field element each.
pub open spec fn leaf_digests(leaves: Seq<Seq<u8>>) -> Seq<Seq<u8>> {
    leaves.map_values(|v: Seq<u8>| leaf_hash(v))
}

/// The root of the Merkle tree of the given height over leaves of one field
/// element each, padded with zeros.
pub open spec fn merkle_root(leaves: Seq<Seq<u8>>, height: nat) -> Seq<u8> {
    tree_node(leaf_digests(leaves), height, 0)
}

pub proof fn lemma_two_pow_pos(n: nat)
    ensures
        two_pow(n) >= 1,
    decreases n,
{
    if n > 0 {
        lemma_two_pow_pos((n - 1) as nat);
    }
}

/// A subtree that starts past the last leaf is an empty subtree.
pub proof fn lemma_tree_node_empty(leaves: Seq<Seq<u8>>, level: nat, start: int)
    requires
        start >= leaves.len(),
    ensures
        tree_node(leaves, level, start) == empty_hash(level),
    decreases level,
{
    if level > 0 {
        let half = two_pow((level - 1) as nat);
        lemma_two_pow_pos((level - 1) as nat);
        lemma_tree_node_empty(leaves, (level - 1) as nat, start);
        lemma_tree_node_empty(leaves, (level - 1) as nat, start + half);
    }
}

/// The value of the bits of `b` from position `j` up.
pub open spec fn high(b: Seq<bool>, j: nat) -> nat
    decreases b.len() - j,
{
    if j >= b.len() {
        0
    } else {
        (if b[j as int] {
            two_pow(j)
        } else {
            0
        }) + high(b, j + 1)
    }
}

/// The value of the bits of `b` below position `j`.
pub open spec fn low(b: Seq<bool>, j: nat) -> nat
    decreases j,
{
    if j == 0 {
        0
    } else {
        low(b, (j - 1) as nat) + (if (j - 1) < b.len() && b[j - 1] {
            two_pow((j - 1) as nat)
        } else {
            0
        })
    }
}

proof fn lemma_low_high(b: Seq<bool>, j: nat)
    requires
        j <= b.len(),
    ensures
        high(b, 0) == low(b, j) + high(b, j),
        low(b, j) < two_pow(j),
    decreases j,
{
    if j > 0 {
        lemma_low_high(b, (j - 1) as nat);
    }
}

proof fn lemma_low_all_ones(b: Seq<bool>, j: nat)
    requires
        j <= b.len(),
        forall|m: int| 0 <= m < j ==> b[m],
    ensures
        low(b, j) + 1 == two_pow(j),
    decreases j,
{
    if j > 0 {
        lemma_low_all_ones(b, (j - 1) as nat);
    }
}

proof fn lemma_high_agree(b: Seq<bool>, c: Seq<bool>, j: nat)
    requires
        b.len() == c.len(),
        forall|m: int| j <= m < b.len() ==> b[m] == c[m],
    ensures
        high(b, j) == high(c, j),
    decreases b.len() - j,
{
    if j < b.len() {
        lemma_high_agree(b, c, j + 1);
    }
}

/// The bits after adding one to a number whose bits below `l` are all set
/// and whose bit `l` is clear.
pub open spec fn carry(b: Seq<bool>, l: nat) -> Seq<bool> {
    Seq::new(b.len(), |m: int| if m < l { false } else if m == l { true } else { b[m] })
}

proof fn lemma_carry(b: Seq<bool>, l: nat)
    requires
        l < b.len(),
        forall|m: int| 0 <= m < l ==> b[m],
        !b[l as int],
    ensures
        high(carry(b, l), 0) == high(b, 0) + 1,
        high(carry(b, l), l + 1) == high(b, l + 1),
{
    let c = carry(b, l);
    lemma_high_agree(b, c, l + 1);
    lemma_low_high(b, l);
    lemma_low_high(c, l);
    lemma_low_all_ones(b, l);
    assert(low(c, l) == 0) by {
        lemma_low_zero(c, l);
    }
}

proof fn lemma_low_zero(c: Seq<bool>, j: nat)
    requires
        j <= c.len(),
        forall|m: int| 0 <= m < j ==> !c[m],
    ensures
        low(c, j) == 0,
    decreases j,
{
    if j > 0 {
        lemma_low_zero(c, (j - 1) as nat);
    }
}

/// What the pending subtrees hold after `base + high(bits, 0)` leaves were
/// read, the first `base` of them in whole blocks of the tree's width: a
/// subtree at each level below the top whose bit is set, the one just left
/// of the leaves above it.
pub open spec fn pending_ok(
    leaves: Seq<Seq<u8>>,
    left: Seq<Option<[u8; 32]>>,
    bits: Seq<bool>,
    from: nat,
    base: int,
) -> bool {
    &&& left.len() == bits.len()
    &&& forall|j: int|
        from <= j < bits.len() - 1 ==> (#[trigger] left[j] is Some) == bits[j] && (bits[j] ==> (
        left[j]->0@ == tree_node(leaves, j as nat, base + high(bits, (j + 1) as nat))
            && is_scalar_repr(left[j]->0@)))
}

/// The position where the leaves after `blocks` whole blocks of width `2^h` start.
pub open spec fn block_base(blocks: nat, h: nat) -> int {
    (blocks * two_pow(h)) as int
}

/// What the top level holds after `blocks` whole blocks of leaves were read:
/// the root of the last of them, if there is one.
pub open spec fn top_ok(leaves: Seq<Seq<u8>>, left: Seq<Option<[u8; 32]>>, h: nat, blocks: nat) -> bool {
    &&& (left[h as int] is Some) == (blocks > 0)
    &&& blocks > 0 ==> left[h as int]->0@ == tree_node(leaves, h, ((blocks - 1) * two_pow(h)) as int)
        && is_scalar_repr(left[h as int]->0@)
}

/// The hashes of the empty subtrees up to the given height.
fn empty_hashes(height: usize) -> (r: Vec<[u8; 32]>)
    requires
        height < usize::MAX,
    ensures
        r.len() == height + 1,
        forall|j: int|
            0 <= j <= height ==> #[trigger] r@[j]@ == empty_hash(j as nat) && is_scalar_repr(
                r@[j]@,
            ),
{
    let zero = [0u8; 32];
    proof {
        assert(zero@ =~= zero_repr());
        lemma_le_value_zeros(zero@);
    }
    let input = vec![zero];
    assert(forall|t: int| 0 <= t < input.len() ==> is_scalar_repr(#[trigger] input@[t]@));
    let e0 = hash_U1(&input).unwrap();
    assert(reprs(input@) =~= seq![zero_repr()]);
    let mut r: Vec<[u8; 32]> = Vec::new();
    r.push(e0);
    let mut level: usize = 0;
    while level < height
        invariant
            0 <= level <= height,
            r.len() == level + 1,
            forall|j: int|
                0 <= j <= level ==> #[trigger] r@[j]@ == empty_hash(j as nat) && is_scalar_repr(
                    r@[j]@,
                ),
        decreases height - level,
    {
        let prev = r[level];
        let input = vec![prev, prev];
        assert(forall|t: int| 0 <= t < input.len() ==> is_scalar_repr(#[trigger] input@[t]@));
        let next = hash_U2(&input).unwrap();
        assert(reprs(input@) =~= seq![prev@, prev@]);
        r.push(next);
        level = level + 1;
    }
    r
}

/// Hashes two canonical field elements into a node.
fn hash_node(l: [u8; 32], r: [u8; 32]) -> (h: [u8; 32])
    requires
        is_scalar_repr(l@),
        is_scalar_repr(r@),
    ensures
        h@ == node_hash(l@, r@),
        is_scalar_repr(h@),
{
    let input = vec![l, r];
    assert(forall|t: int| 0 <= t < input.len() ==> is_scalar_repr(#[trigger] input@[t]@));
    let h = hash_U2(&input).unwrap();
    assert(reprs(input@) =~= seq![l@, r@]);
    h
}

/// Reads the next leaf digest: it becomes a level-0 subtree, which absorbs the
/// pending subtrees of the levels whose bits carry, and then waits at the
/// first free level; at the top level it replaces the root of the previous
/// whole block.
fn push_leaf(
    left: &mut Vec<Option<[u8; 32]>>,
    leaf: [u8; 32],
    height: usize,
    Ghost(leaves): Ghost<Seq<Seq<u8>>>,
    Ghost(bits): Ghost<Seq<bool>>,
    Ghost(blocks): Ghost<nat>,
) -> (r: (Ghost<Seq<bool>>, Ghost<nat>))
    requires
        bits.len() == height + 1,
        !bits[height as int],
        block_base(blocks, height as nat) + high(bits, 0) < leaves.len(),
        leaves[block_base(blocks, height as nat) + high(bits, 0)] == leaf@,
        is_scalar_repr(leaf@),
        pending_ok(leaves, old(left)@, bits, 0, block_base(blocks, height as nat)),
        top_ok(leaves, old(left)@, height as nat, blocks),
    ensures
        r.0@.len() == height + 1,
        !r.0@[height as int],
        block_base(r.1@, height as nat) + high(r.0@, 0) == block_base(blocks, height as nat) + high(
            bits,
            0,
        ) + 1,
        pending_ok(leaves, final(left)@, r.0@, 0, block_base(r.1@, height as nat)),
        top_ok(leaves, final(left)@, height as nat, r.1@),
{
    let ghost p = two_pow(height as nat);
    let ghost base = block_base(blocks, height as nat);
    let ghost i = base + high(bits, 0);
    let mut right = leaf;
    assert(right@ == tree_node(leaves, 0, i as int));
    let mut level: usize = 0;
    while level < height
        invariant_except_break
            0 <= level <= height,
            left@.len() == height + 1,
            bits.len() == height + 1,
            forall|m: int| 0 <= m < level ==> bits[m],
            forall|m: int| 0 <= m < level ==> left@[m] is None,
            pending_ok(leaves, left@, bits, level as nat, base),
            top_ok(leaves, left@, height as nat, blocks),
            right@ == tree_node(leaves, level as nat, base + high(bits, level as nat)),
            is_scalar_repr(right@),
        ensures
            0 <= level <= height,
            left@.len() == height + 1,
            bits.len() == height + 1,
            forall|m: int| 0 <= m < level ==> bits[m],
            forall|m: int| 0 <= m < level ==> left@[m] is None,
            pending_ok(leaves, left@, bits, level as nat, base),
            top_ok(leaves, left@, height as nat, blocks),
            right@ == tree_node(leaves, level as nat, base + high(bits, level as nat)),
            is_scalar_repr(right@),
            level < height ==> !bits[level as int],
        decreases height - level,
    {
        match left[level] {
            Some(l) => {
                proof {
                    assert(left@[level as int] is Some);
                    assert(bits[level as int]);
                    let s = high(bits, (level + 1) as nat);
                    assert(high(bits, level as nat) == two_pow(level as nat) + s);
                }
                let h = hash_node(l, right);
                right = h;
                left.set(level, None);
                level = level + 1;
            },
            None => {
                break;
            },
        }
    }
    let ghost mut nb = bits;
    let ghost mut nblocks = blocks;
    proof {
        if level == height {
            lemma_low_high(bits, height as nat);
            lemma_low_all_ones(bits, height as nat);
            lemma_high_zero(bits, height as nat);
            nb = Seq::new((height + 1) as nat, |m: int| false);
            nblocks = blocks + 1;
            lemma_high_zero(nb, 0);
            assert((blocks + 1) * p == blocks * p + p) by (nonlinear_arith);
        } else {
            assert(left@[level as int] is None);
            assert(!bits[level as int]);
            lemma_carry(bits, level as nat);
            nb = carry(bits, level as nat);
            assert(high(bits, level as nat) == high(bits, (level + 1) as nat));
        }
    }
    left.set(level, Some(right));
    proof {
        let nbase = block_base(nblocks, height as nat);
        if level == height {
            assert(nblocks - 1 == blocks);
            assert forall|j: int|
                0 <= j < nb.len() - 1 implies (#[trigger] left@[j] is Some) == nb[j] && (nb[j] ==> (
                left@[j]->0@ == tree_node(leaves, j as nat, nbase + high(nb, (j + 1) as nat))
                    && is_scalar_repr(left@[j]->0@))) by {}
        } else {
            assert forall|j: int|
                0 <= j < nb.len() - 1 implies (#[trigger] left@[j] is Some) == nb[j] && (nb[j] ==> (
                left@[j]->0@ == tree_node(leaves, j as nat, nbase + high(nb, (j + 1) as nat))
                    && is_scalar_repr(left@[j]->0@))) by {
                if j > level {
                    lemma_high_agree(bits, nb, (j + 1) as nat);
                }
            }
        }
    }
    (Ghost(nb), Ghost(nblocks))
}

/// The root that the streaming computation ends with over leaf digests: over
/// at most `2^h` leaves, the tree's root; over more, the root of the last
/// whole block of `2^h` leaves, the leaves after that block being dropped.
pub open spec fn streamed_root(leaves: Seq<Seq<u8>>, h: nat) -> Seq<u8> {
    let blocks = leaves.len() / two_pow(h);
    if blocks == 0 {
        tree_node(leaves, h, 0)
    } else {
        tree_node(leaves, h, ((blocks - 1) * two_pow(h)) as int)
    }
}

/// Within the tree's capacity the streamed root is the Merkle root.
pub proof fn lemma_streamed_root_within_capacity(leaves: Seq<Seq<u8>>, h: nat)
    requires
        leaves.len() <= two_pow(h),
    ensures
        streamed_root(leaves, h) == tree_node(leaves, h, 0),
{
    let p = two_pow(h);
    lemma_two_pow_pos(h);
    if leaves.len() < p {
        vstd::arithmetic::div_mod::lemma_basic_div(leaves.len() as int, p as int);
    } else {
        vstd::arithmetic::div_mod::lemma_div_by_self(p as int);
    }
}

/// The root of the Merkle tree of height `height` over leaf digests, as the
/// consistency circuit computes it; `None` when there are no leaves. Past
/// `2^height` leaves the top level is overwritten by each whole block, so
/// the result is the root of the last whole block.
pub fn merkle_root_from_digests(digests: &Vec<[u8; 32]>, height: usize) -> (r: Option<[u8; 32]>)
    requires
        height < usize::MAX,
        forall|i: int| 0 <= i < digests.len() ==> is_scalar_repr(#[trigger] digests@[i]@),
    ensures
        digests.len() == 0 ==> r is None,
        digests.len() > 0 ==> (r matches Some(root) && root@ == streamed_root(
            reprs(digests@),
            height as nat,
        )),
        0 < digests.len() <= two_pow(height as nat) ==> (r matches Some(root) && root@
            == tree_node(reprs(digests@), height as nat, 0)),
{
    let ghost leaves = reprs(digests@);
    let ghost p = two_pow(height as nat);
    let empties = empty_hashes(height);
    let mut left: Vec<Option<[u8; 32]>> = Vec::new();
    let mut k: usize = 0;
    while k <= height
        invariant
            0 <= k <= height + 1,
            height < usize::MAX,
            left.len() == k,
            forall|j: int| 0 <= j < k ==> left@[j] is None,
        decreases height + 1 - k,
    {
        left.push(None);
        k = k + 1;
    }
    let ghost mut bits: Seq<bool> = Seq::new((height + 1) as nat, |m: int| false);
    let ghost mut blocks: nat = 0;
    proof {
        lemma_high_zero(bits, 0);
        lemma_two_pow_pos(height as nat);
    }
    let n = digests.len();
    let mut i: usize = 0;
    while i < n
        invariant
            0 <= i <= n,
            n == digests.len(),
            p == two_pow(height as nat),
            leaves == reprs(digests@),
            forall|t: int| 0 <= t < n ==> is_scalar_repr(#[trigger] digests@[t]@),
            bits.len() == height + 1,
            !bits[height as int],
            block_base(blocks, height as nat) + high(bits, 0) == i,
            pending_ok(leaves, left@, bits, 0, block_base(blocks, height as nat)),
            top_ok(leaves, left@, height as nat, blocks),
        decreases n - i,
    {
        let (Ghost(nb), Ghost(nbl)) = push_leaf(
            &mut left,
            digests[i],
            height,
            Ghost(leaves),
            Ghost(bits),
            Ghost(blocks),
        );
        proof {
            bits = nb;
            blocks = nbl;
        }
        i = i + 1;
    }
    if n == 0 {
        return None;
    }
    let ghost base = block_base(blocks, height as nat);
    proof {
        lemma_low_high(bits, height as nat);
        lemma_high_zero(bits, height as nat);
        lemma_two_pow_pos(height as nat);
        vstd::arithmetic::div_mod::lemma_fundamental_div_mod_converse(
            n as int,
            p as int,
            blocks as int,
            high(bits, 0) as int,
        );
        if height == 0 {
            assert(p == 1);
            assert(blocks >= 1);
        }
        lemma_low_high(bits, 0);
    }
    // Close the partial subtrees, from the leaves up.
    let mut right = empties[0];
    proof {
        lemma_tree_node_empty(leaves, 0, n as int);
    }
    let mut level: usize = 0;
    while level < height
        invariant
            0 <= level <= height,
            n >= 1,
            n == leaves.len(),
            p == two_pow(height as nat),
            base == block_base(blocks, height as nat),
            base + high(bits, 0) == n,
            bits.len() == height + 1,
            !bits[height as int],
            empties.len() == height + 1,
            forall|j: int|
                0 <= j <= height ==> #[trigger] empties@[j]@ == empty_hash(j as nat)
                    && is_scalar_repr(empties@[j]@),
            pending_ok(leaves, left@, bits, (level + 1) as nat, base),
            top_ok(leaves, left@, height as nat, blocks) || (blocks == 0 && level == height),
            blocks == 0 && level < height ==> left@[height as int] is None,
            level < height || blocks == 0 ==> closing_ok(leaves, left@, bits, level as nat, right@, base),
            is_scalar_repr(right@),
        decreases height - level,
    {
        proof {
            lemma_low_high(bits, level as nat);
            lemma_low_high(bits, (level + 1) as nat);
        }
        let ghost v1 = tree_node(leaves, (level + 1) as nat, base + high(bits, (level + 1) as nat));
        match left[level] {
            Some(l) => {
                let next = hash_node(l, right);
                proof {
                    let s = high(bits, (level + 1) as nat);
                    if !bits[level as int] {
                        lemma_tree_node_empty(leaves, level as nat, base + s + two_pow(level as nat));
                    }
                    assert(next@ == v1);
                }
                match left[level + 1] {
                    Some(_) => {
                        right = next;
                    },
                    None => {
                        left.set(level + 1, Some(next));
                        right = empties[level + 1];
                        proof {
                            lemma_tree_node_empty(
                                leaves,
                                (level + 1) as nat,
                                base + high(bits, (level + 1) as nat) + two_pow((level + 1) as nat),
                            );
                        }
                    },
                }
            },
            None => {
                right = empties[level + 1];
                proof {
                    lemma_tree_node_empty(leaves, (level + 1) as nat, base + high(bits, (level + 1) as nat));
                }
            },
        }
        level = level + 1;
    }
    proof {
        if blocks == 0 {
            lemma_high_zero(bits, height as nat);
            assert((n as nat) / p == 0);
        } else if n <= p {
            assert(blocks == 1) by (nonlinear_arith)
                requires
                    blocks * p + high(bits, 0) == n as int,
                    n <= p,
                    blocks >= 1,
                    p >= 1,
            ;
        }
    }
    left[height]
}

/// The root of the Merkle tree of height `height` over leaves of one field
/// element each: every leaf is hashed into its digest, then the digests are
/// streamed as `merkle_root_from_digests` does.
pub fn merkle_root_from_leaves(leaf_values: &Vec<[u8; 32]>, height: usize) -> (r: Option<[u8; 32]>)
    requires
        height < usize::MAX,
        forall|i: int| 0 <= i < leaf_values.len() ==> is_scalar_repr(#[trigger] leaf_values@[i]@),
    ensures
        leaf_values.len() == 0 ==> r is None,
        leaf_values.len() > 0 ==> (r matches Some(root) && root@ == streamed_root(
            leaf_digests(reprs(leaf_values@)),
            height as nat,
        )),
        0 < leaf_values.len() <= two_pow(height as nat) ==> (r matches Some(root) && root@
            == merkle_root(reprs(leaf_values@), height as nat)),
{
    let mut digests: Vec<[u8; 32]> = Vec::new();
    let mut i: usize = 0;
    while i < leaf_values.len()
        invariant
            0 <= i <= leaf_values.len(),
            forall|t: int| 0 <= t < leaf_values.len() ==> is_scalar_repr(#[trigger] leaf_values@[t]@),
            digests.len() == i,
            forall|t: int| 0 <= t < i ==> is_scalar_repr(#[trigger] digests@[t]@),
            forall|t: int| 0 <= t < i ==> #[trigger] digests@[t]@ == leaf_hash(leaf_values@[t]@),
        decreases leaf_values.len() - i,
    {
        let input = vec![leaf_values[i]];
        assert(forall|t: int| 0 <= t < input.len() ==> is_scalar_repr(#[trigger] input@[t]@));
        let d = hash_U1(&input).unwrap();
        assert(reprs(input@) =~= seq![leaf_values@[i as int]@]);
        digests.push(d);
        i = i + 1;
    }
    assert(reprs(digests@) =~= leaf_digests(reprs(leaf_values@)));
    merkle_root_from_digests(&digests, height)
}

proof fn lemma_high_zero(b: Seq<bool>, j: nat)
    requires
        forall|m: int| j <= m < b.len() ==> !b[m],
    ensures
        high(b, j) == 0,
    decreases b.len() - j,
{
    if j < b.len() {
        lemma_high_zero(b, j + 1);
    }
}

/// The state of the closing pass at `level`: either the level's own pending
/// subtree waits with the partial subtree to its right, or the partial
/// subtree itself waits with an empty right sibling, or nothing is pending
/// and everything from here on is empty.
pub open spec fn closing_ok(
    leaves: Seq<Seq<u8>>,
    left: Seq<Option<[u8; 32]>>,
    bits: Seq<bool>,
    level: nat,
    right: Seq<u8>,
    base: int,
) -> bool {
    let s = base + high(bits, level);
    let v = tree_node(leaves, level, s);
    ||| bits[level as int] && left[level as int] is Some && left[level as int]->0@ == tree_node(
        leaves,
        level,
        base + high(bits, level + 1),
    ) && is_scalar_repr(left[level as int]->0@) && right == v
    ||| !bits[level as int] && left[level as int] is Some && left[level as int]->0@ == v
        && is_scalar_repr(left[level as int]->0@) && right == empty_hash(level)
    ||| !bits[level as int] && left[level as int] is None && s >= leaves.len() && right
        == empty_hash(level)
}

/// An empty leaf at the end changes no subtree.
proof fn lemma_empty_digest_padding(leaves: Seq<Seq<u8>>, level: nat, start: int)
    ensures
        tree_node(leaves.push(empty_hash(0)), level, start) == tree_node(leaves, level, start),
    decreases level,
{
    if level > 0 {
        let half = two_pow((level - 1) as nat);
        lemma_empty_digest_padding(leaves, (level - 1) as nat, start);
        lemma_empty_digest_padding(leaves, (level - 1) as nat, start + half);
    }
}

/// Leaves holding zero at the end change no subtree: the root of a list of
/// leaves is the root of the list padded with zeros.
pub proof fn lemma_zero_leaf_padding(leaves: Seq<Seq<u8>>, level: nat, start: int)
    ensures
        tree_node(leaf_digests(leaves.push(zero_repr())), level, start) == tree_node(
            leaf_digests(leaves),
            level,
            start,
        ),
{
    assert(leaf_digests(leaves.push(zero_repr())) =~= leaf_digests(leaves).push(empty_hash(0)));
    lemma_empty_digest_padding(leaf_digests(leaves), level, start);
}

/// The root that an authentication path leads to from a leaf digest. The
/// index bits and the siblings are listed from the root down; the last of
/// each belongs to the leaf's level. Where the bit is set the running digest
/// is the right child.
pub open spec fn path_root(cur: Seq<u8>, bits: Seq<bool>, sibs: Seq<Seq<u8>>) -> Seq<u8>
    decreases sibs.len(),
{
    if sibs.len() == 0 {
        cur
    } else {
        let next = if bits.last() {
            node_hash(sibs.last(), cur)
        } else {
            node_hash(cur, sibs.last())
        };
        path_root(next, bits.drop_last(), sibs.drop_last())
    }
}

/// The root of a leaf's authentication path, as the aggregation circuit
/// recomputes it: the leaf's field elements are hashed into its digest, which
/// is combined with the siblings from the leaf up. `None` when a field
/// element or a sibling is not a canonical encoding.
pub fn path_computed_root(val: &Vec<[u8; 32]>, idx_bits: &Vec<bool>, siblings: &Vec<[u8; 32]>) -> (r:
    Option<[u8; 32]>)
    requires
        val.len() < 0x8000_0000,
        siblings.len() <= idx_bits.len(),
    ensures
        (r is Some) == ((forall|i: int| 0 <= i < val.len() ==> is_scalar_repr(#[trigger] val@[i]@))
            && (forall|i: int| 0 <= i < siblings.len() ==> is_scalar_repr(#[trigger] siblings@[i]@))),
        r matches Some(h) ==> h@ == path_root(poseidon_u1(reprs(val@)), idx_bits@, reprs(siblings@)),
{
    let ghost bits = idx_bits@;
    let ghost sibs = reprs(siblings@);
    let mut cur = match hash_U1(val) {
        Some(h) => h,
        None => {
            return None;
        },
    };
    let nb = idx_bits.len();
    let ns = siblings.len();
    proof {
        assert(bits.take(nb as int) =~= bits);
        assert(sibs.take(ns as int) =~= sibs);
    }
    let mut t: usize = 0;
    while t < ns
        invariant
            0 <= t <= ns,
            ns == siblings.len(),
            nb == idx_bits.len(),
            ns <= nb,
            bits == idx_bits@,
            sibs == reprs(siblings@),
            is_scalar_repr(cur@),
            forall|i: int| 0 <= i < val.len() ==> is_scalar_repr(#[trigger] val@[i]@),
            forall|i: int| ns - t <= i < ns ==> is_scalar_repr(#[trigger] siblings@[i]@),
            path_root(poseidon_u1(reprs(val@)), bits, sibs) == path_root(
                cur@,
                bits.take(nb - t),
                sibs.take(ns - t),
            ),
        decreases ns - t,
    {
        let s = siblings[ns - 1 - t];
        let b = idx_bits[nb - 1 - t];
        let input = if b {
            vec![s, cur]
        } else {
            vec![cur, s]
        };
        let h = match hash_U2(&input) {
            Some(h) => h,
            None => {
                proof {
                    assert(!is_scalar_repr(s@)) by {
                        if is_scalar_repr(s@) {
                            assert(forall|i: int| 0 <= i < input.len() ==> is_scalar_repr(#[trigger] input@[i]@));
                        }
                    }
                    assert(!is_scalar_repr(siblings@[ns - 1 - t]@));
                }
                return None;
            },
        };
        proof {
            let bt = bits.take(nb - t);
            let st = sibs.take(ns - t);
            assert(bt.last() == b);
            assert(st.last() == s@);
            assert(bt.drop_last() =~= bits.take(nb - t - 1));
            assert(st.drop_last() =~= sibs.take(ns - t - 1));
            if b {
                assert(reprs(input@) =~= seq![s@, cur@]);
            } else {
                assert(reprs(input@) =~= seq![cur@, s@]);
            }
        }
        cur = h;
        t = t + 1;
    }
    proof {
        assert(sibs.take(0) =~= Seq::<Seq<u8>>::empty());
    }
    Some(cur)
}

/// The leaf digest at a position; the digest of a zero leaf past the last leaf.
pub open spec fn digest_at(leaves: Seq<Seq<u8>>, i: nat) -> Seq<u8> {
    if i < leaves.len() {
        leaves[i as int]
    } else {
        empty_hash(0)
    }
}

/// The index of a leaf as bits from the root down: bit `m` is set where the
/// path to the leaf turns right at depth `m`.
pub open spec fn index_bits(i: nat, h: nat) -> Seq<bool> {
    Seq::new(h, |m: int| (i / two_pow((h - 1 - m) as nat)) % 2 == 1)
}

/// Where the subtree of the given height that holds leaf `i` starts.
pub open spec fn subtree_start(i: nat, level: nat) -> int {
    ((i / two_pow(level)) * two_pow(level)) as int
}

/// Where the sibling of the subtree of the given height that holds leaf `i` starts.
pub open spec fn sibling_start(i: nat, level: nat) -> int {
    let q = i / two_pow(level);
    if q % 2 == 0 {
        ((q + 1) * two_pow(level)) as int
    } else {
        ((q - 1) * two_pow(level)) as int
    }
}

/// The authentication path of leaf `i` in the tree of height `h`: the
/// siblings of the subtrees that hold it, from the root down.
pub open spec fn auth_path(leaves: Seq<Seq<u8>>, i: nat, h: nat) -> Seq<Seq<u8>> {
    Seq::new(h, |m: int| tree_node(leaves, (h - 1 - m) as nat, sibling_start(i, (h - 1 - m) as nat)))
}

/// One level up: the subtree holding leaf `i` and its sibling make the
/// subtree one level higher that holds it.
proof fn lemma_path_step(leaves: Seq<Seq<u8>>, i: nat, t: nat)
    ensures
        tree_node(leaves, t + 1, subtree_start(i, t + 1)) == (if (i / two_pow(t)) % 2 == 1 {
            node_hash(tree_node(leaves, t, sibling_start(i, t)), tree_node(leaves, t, subtree_start(i, t)))
        } else {
            node_hash(tree_node(leaves, t, subtree_start(i, t)), tree_node(leaves, t, sibling_start(i, t)))
        }),
{
    let p = two_pow(t);
    lemma_two_pow_pos(t);
    let q = i / p;
    assert(two_pow(t + 1) == 2 * p);
    assert(i / (p * 2) == q / 2) by {
        vstd::arithmetic::div_mod::lemma_div_denominator(i as int, p as int, 2);
    }
    assert(p * 2 == 2 * p);
    let s = (q / 2) * (2 * p);
    if q % 2 == 0 {
        assert(s == q * p) by (nonlinear_arith)
            requires
                q == 2 * (q / 2),
                s == (q / 2) * (2 * p),
        ;
        assert(s + p == (q + 1) * p) by (nonlinear_arith)
            requires
                s == q * p,
        ;
    } else {
        assert(s == (q - 1) * p) by (nonlinear_arith)
            requires
                q == 2 * (q / 2) + 1,
                s == (q / 2) * (2 * p),
        ;
        assert(s + p == q * p) by (nonlinear_arith)
            requires
                s == (q - 1) * p,
        ;
    }
}

/// Climbing the rest of the path from the subtree of height `t` that holds
/// leaf `i` reaches the root.
proof fn lemma_path_from(leaves: Seq<Seq<u8>>, i: nat, h: nat, t: nat)
    requires
        i < two_pow(h),
        t <= h,
    ensures
        path_root(
            tree_node(leaves, t, subtree_start(i, t)),
            index_bits(i, h).take(h - t),
            auth_path(leaves, i, h).take(h - t),
        ) == tree_node(leaves, h, 0),
    decreases h - t,
{
    let bits = index_bits(i, h);
    let sibs = auth_path(leaves, i, h);
    if t == h {
        assert(i / two_pow(h) == 0) by {
            vstd::arithmetic::div_mod::lemma_basic_div(i as int, two_pow(h) as int);
        }
        assert(sibs.take(0).len() == 0);
    } else {
        let bt = bits.take(h - t);
        let st = sibs.take(h - t);
        assert(bt.last() == bits[h - t - 1]);
        assert(st.last() == sibs[h - t - 1]);
        assert((h - 1 - (h - t - 1)) as nat == t);
        assert(bt.drop_last() =~= bits.take(h - (t + 1)));
        assert(st.drop_last() =~= sibs.take(h - (t + 1)));
        lemma_path_step(leaves, i, t);
        lemma_path_from(leaves, i, h, t + 1);
    }
}

/// A leaf's authentication path leads from its digest to the root of the
/// tree: for every position below the tree's width, recomputing the root from
/// the leaf's digest, the position's bits and the path gives the root of the
/// tree over the leaf digests (for leaves of one element, `leaf_digests`).
pub proof fn lemma_path_of_leaf(leaves: Seq<Seq<u8>>, i: nat, h: nat)
    requires
        i < two_pow(h),
    ensures
        path_root(digest_at(leaves, i), index_bits(i, h), auth_path(leaves, i, h)) == tree_node(
            leaves,
            h,
            0,
        ),
{
    assert(two_pow(0) == 1);
    assert(subtree_start(i, 0) == i);
    lemma_path_from(leaves, i, h, 0);
    assert(index_bits(i, h).take(h as int) =~= index_bits(i, h));
    assert(auth_path(leaves, i, h).take(h as int) =~= auth_path(leaves, i, h));
}

} // verus!
