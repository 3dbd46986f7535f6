//! Little-endian byte encodings of integers.
use vstd::prelude::*;

verus! {

/// `256` to the power `n`.
pub open spec fn pow256(n: nat) -> nat
    decreases n,
{
    if n == 0 {
        1
    } else {
        256 * pow256((n - 1) as nat)
    }
}

/// The number that a byte string denotes in little-endian order.
pub open spec fn le_value(b: Seq<u8>) -> nat
    decreases b.len(),
{
    if b.len() == 0 {
        0
    } else {
        b[0] as nat + 256 * le_value(b.drop_first())
    }
}

/// The four little-endian bytes of a 32-bit word.
pub open spec fn u32_le(x: u32) -> Seq<u8> {
    seq![
        (x % 256) as u8,
        ((x / 256) % 256) as u8,
        ((x / 65536) % 256) as u8,
        ((x / 16777216) % 256) as u8,
    ]
}

/// The four little-endian bytes of a signed 32-bit word, in two's complement
/// (what `i32::to_le_bytes` gives).
pub open spec fn i32_le(x: i32) -> Seq<u8> {
    u32_le(x as u32)
}

pub proof fn lemma_pow256_positive(n: nat)
    ensures
        pow256(n) >= 1,
    decreases n,
{
    if n > 0 {
        lemma_pow256_positive((n - 1) as nat);
    }
}

pub proof fn lemma_pow256_add(a: nat, b: nat)
    ensures
        pow256(a + b) == pow256(a) * pow256(b),
    decreases a,
{
    let pa0 = pow256(a);
    let pb0 = pow256(b);
    assert(pa0 * pb0 >= 0) by (nonlinear_arith);
    if a > 0 {
        let a1 = (a - 1) as nat;
        lemma_pow256_add(a1, b);
        assert(a1 + b + 1 == a + b);
        assert(pow256(a + b) == 256 * pow256(a1 + b));
        assert(pow256(a) == 256 * pow256(a1));
        let pa = pow256(a1);
        let pb = pow256(b);
        assert(256 * (pa * pb) == (256 * pa) * pb) by (nonlinear_arith);
        assert(pow256(a + b) == pow256(a) * pow256(b));
    } else {
        assert(pow256(a) == 1);
        assert(pa0 * pb0 == pb0) by (nonlinear_arith)
            requires
                pa0 == 1,
        ;
    }
}

/// The value of a concatenation: the second part counts from the first's length.
pub proof fn lemma_le_value_append(a: Seq<u8>, b: Seq<u8>)
    ensures
        le_value(a + b) == le_value(a) + pow256(a.len()) * le_value(b),
    decreases a.len(),
{
    let pl = pow256(a.len());
    let vb = le_value(b);
    assert(pl * vb >= 0) by (nonlinear_arith);
    if a.len() == 0 {
        assert(a + b =~= b);
        assert(pl == 1);
        assert(pl * vb == vb) by (nonlinear_arith)
            requires
                pl == 1,
        ;
    } else {
        let ab = a + b;
        assert(ab.drop_first() =~= a.drop_first() + b);
        assert(ab[0] == a[0]);
        lemma_le_value_append(a.drop_first(), b);
        let p = pow256(a.drop_first().len());
        let x = le_value(a.drop_first());
        let y = le_value(b);
        assert(le_value(ab) == a[0] as nat + 256 * le_value(ab.drop_first()));
        assert(le_value(ab.drop_first()) == x + p * y);
        assert(le_value(a) == a[0] as nat + 256 * x);
        assert(pow256(a.len()) == 256 * p);
        assert(256 * (x + p * y) == 256 * x + (256 * p) * y) by (nonlinear_arith);
    }
}

/// A byte string of length `n` denotes a number below `256^n`.
pub proof fn lemma_le_value_bound(b: Seq<u8>)
    ensures
        le_value(b) < pow256(b.len()),
    decreases b.len(),
{
    if b.len() > 0 {
        lemma_le_value_bound(b.drop_first());
        let x = le_value(b.drop_first());
        let p = pow256(b.drop_first().len());
        assert(b[0] as nat + 256 * x < 256 * p) by (nonlinear_arith)
            requires
                x < p,
                b[0] < 256,
        ;
    }
}

/// The four bytes of a word denote the word.
pub proof fn lemma_u32_le_value(x: u32)
    ensures
        le_value(u32_le(x)) == x as nat,
        u32_le(x).len() == 4,
{
    let s = u32_le(x);
    let b0 = (x % 256) as nat;
    let b1 = ((x / 256) % 256) as nat;
    let b2 = ((x / 65536) % 256) as nat;
    let b3 = ((x / 16777216) % 256) as nat;
    let s1 = s.drop_first();
    let s2 = s1.drop_first();
    let s3 = s2.drop_first();
    let s4 = s3.drop_first();
    assert(s4 =~= Seq::<u8>::empty());
    assert(le_value(s4) == 0);
    assert(s3[0] as nat == b3);
    assert(le_value(s3) == b3);
    assert(s2[0] as nat == b2);
    assert(le_value(s2) == b2 + 256 * b3);
    assert(s1[0] as nat == b1);
    assert(le_value(s1) == b1 + 256 * (b2 + 256 * b3));
    assert(s[0] as nat == b0);
    assert(le_value(s) == b0 + 256 * (b1 + 256 * (b2 + 256 * b3)));
    assert(x as nat == b0 + 256 * (b1 + 256 * (b2 + 256 * b3))) by (nonlinear_arith)
        requires
            b0 == x % 256,
            b1 == (x / 256) % 256,
            b2 == (x / 65536) % 256,
            b3 == (x / 16777216) % 256,
            x < 0x1_0000_0000,
    ;
}

/// The four little-endian bytes of `x`.
pub fn u32_to_le(x: u32) -> (r: [u8; 4])
    ensures
        r@ == u32_le(x),
{
    let r = [(x % 256) as u8, ((x / 256) % 256) as u8, ((x / 65536) % 256) as u8, ((x / 16777216)
        % 256) as u8];
    assert(r@ =~= u32_le(x));
    r
}

/// Appends the little-endian bytes of a signed word to `v`.
pub fn push_i32_le(v: &mut Vec<u8>, x: i32)
    ensures
        final(v)@ == old(v)@ + i32_le(x),
{
    let b = u32_to_le(x as u32);
    v.push(b[0]);
    v.push(b[1]);
    v.push(b[2]);
    v.push(b[3]);
    assert(final(v)@ =~= old(v)@ + i32_le(x));
}

/// Appends all of `b` to `v`.
pub fn push_all(v: &mut Vec<u8>, b: &[u8])
    ensures
        final(v)@ == old(v)@ + b@,
{
    let ghost start = v@;
    let mut i: usize = 0;
    while i < b.len()
        invariant
            0 <= i <= b.len(),
            v@ == start + b@.subrange(0, i as int),
        decreases b.len() - i,
    {
        v.push(b[i]);
        i = i + 1;
        assert(v@ =~= start + b@.subrange(0, i as int));
    }
    assert(b@.subrange(0, b.len() as int) =~= b@);
}

} // verus!

verus! {

/// A word followed by more bytes: the rest counts from `2^32`.
pub proof fn lemma_le_value_word_prefix(x: u32, rest: Seq<u8>)
    ensures
        le_value(u32_le(x) + rest) == x as nat + 0x1_0000_0000 * le_value(rest),
{
    lemma_u32_le_value(x);
    lemma_le_value_append(u32_le(x), rest);
    assert(pow256(4) == 0x1_0000_0000nat) by {
        reveal_with_fuel(pow256, 5);
    }
}

/// All-zero bytes denote zero.
pub proof fn lemma_le_value_zeros(b: Seq<u8>)
    requires
        forall|i: int| 0 <= i < b.len() ==> b[i] == 0,
    ensures
        le_value(b) == 0,
    decreases b.len(),
{
    if b.len() > 0 {
        assert(forall|i: int| 0 <= i < b.drop_first().len() ==> b.drop_first()[i] == b[i + 1]);
        lemma_le_value_zeros(b.drop_first());
    }
}

} // verus!

verus! {

/// The 32 bytes of a byte vector of that length, as an array.
pub fn to_array32(v: &[u8]) -> (r: [u8; 32])
    requires
        v@.len() == 32,
    ensures
        r@ == v@,
{
    let mut a = [0u8; 32];
    let mut i: usize = 0;
    while i < 32
        invariant
            0 <= i <= 32,
            v@.len() == 32,
            forall|j: int| 0 <= j < i ==> a@[j] == v@[j],
        decreases 32 - i,
    {
        a[i] = v[i];
        i = i + 1;
    }
    assert(a@ =~= v@);
    a
}

/// The bytes of an array, as a vector.
pub fn to_vec32(a: &[u8; 32]) -> (r: Vec<u8>)
    ensures
        r@ == a@,
{
    let mut v: Vec<u8> = Vec::new();
    push_all(&mut v, a.as_slice());
    assert(v@ =~= a@);
    v
}

} // verus!
