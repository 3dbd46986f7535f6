//! Decimal and list rendering of the values that the telemetry records print.
use vstd::prelude::*;
use vstd::string::StringExecFns;

verus! {

/// The character of a decimal digit `0 <= d < 10`.
pub open spec fn digit_char(d: nat) -> char {
    (48 + d) as char
}

/// The decimal digits of a natural number, most significant first, without leading zeros.
pub open spec fn nat_str(n: nat) -> Seq<char>
    decreases n,
{
    if n < 10 {
        seq![digit_char(n)]
    } else {
        nat_str(n / 10).push(digit_char(n % 10))
    }
}

/// The decimal rendering of an integer, with a leading `-` for negative values.
pub open spec fn int_str(n: int) -> Seq<char> {
    if n < 0 {
        seq!['-'] + nat_str((-n) as nat)
    } else {
        nat_str(n as nat)
    }
}

/// The rendering of a boolean.
pub open spec fn bool_str(b: bool) -> Seq<char> {
    if b {
        seq!['t', 'r', 'u', 'e']
    } else {
        seq!['f', 'a', 'l', 's', 'e']
    }
}

/// The elements of a byte list in decimal, separated by `", "`.
pub open spec fn bytes_joined(s: Seq<u8>) -> Seq<char>
    decreases s.len(),
{
    if s.len() == 0 {
        Seq::empty()
    } else if s.len() == 1 {
        nat_str(s[0] as nat)
    } else {
        bytes_joined(s.drop_last()) + seq![',', ' '] + nat_str(s.last() as nat)
    }
}

/// The debug rendering of a byte list: `[1, 2, 3]`.
pub open spec fn bytes_list_str(s: Seq<u8>) -> Seq<char> {
    seq!['['] + bytes_joined(s) + seq![']']
}

/// Appends one character to a string (std's `String::push`).
#[verifier::external_body]
pub(crate) fn push_char(s: &mut String, c: char)
    ensures
        final(s)@ == old(s)@.push(c),
{
    s.push(c);
}

/// Appends the decimal digits of `n`.
pub fn push_nat(s: &mut String, n: u64)
    ensures
        final(s)@ == old(s)@ + nat_str(n as nat),
    decreases n,
{
    if n >= 10 {
        push_nat(s, n / 10);
    }
    let d: u8 = (n % 10) as u8;
    let c: char = (48u8 + d) as char;
    push_char(s, c);
    proof {
        assert(nat_str(n as nat) == if n < 10 {
            seq![digit_char(n as nat)]
        } else {
            nat_str((n / 10) as nat).push(digit_char((n % 10) as nat))
        });
    }
}

/// Appends the decimal rendering of `n`.
pub fn push_int(s: &mut String, n: i64)
    requires
        n > i64::MIN,
    ensures
        final(s)@ == old(s)@ + int_str(n as int),
{
    if n < 0 {
        push_char(s, '-');
        let m: u64 = (-n) as u64;
        push_nat(s, m);
        assert(final(s)@ =~= old(s)@ + (seq!['-'] + nat_str((-n) as nat)));
    } else {
        push_nat(s, n as u64);
    }
}

/// Appends `true` or `false`.
pub fn push_bool(s: &mut String, b: bool)
    ensures
        final(s)@ == old(s)@ + bool_str(b),
{
    if b {
        push_char(s, 't');
        push_char(s, 'r');
        push_char(s, 'u');
        push_char(s, 'e');
    } else {
        push_char(s, 'f');
        push_char(s, 'a');
        push_char(s, 'l');
        push_char(s, 's');
        push_char(s, 'e');
    }
    assert(final(s)@ =~= old(s)@ + bool_str(b));
}

/// Appends the debug rendering of a byte list.
pub fn push_bytes_list(s: &mut String, bytes: &Vec<u8>)
    ensures
        final(s)@ == old(s)@ + bytes_list_str(bytes@),
{
    let ghost start = s@;
    push_char(s, '[');
    let mut i: usize = 0;
    while i < bytes.len()
        invariant
            0 <= i <= bytes.len(),
            s@ == start + seq!['['] + bytes_joined(bytes@.subrange(0, i as int)),
        decreases bytes.len() - i,
    {
        let ghost before = s@;
        if i > 0 {
            push_char(s, ',');
            push_char(s, ' ');
        }
        push_nat(s, bytes[i] as u64);
        proof {
            let pre = bytes@.subrange(0, i as int);
            let post = bytes@.subrange(0, i + 1);
            assert(post.drop_last() =~= pre);
            if i == 0 {
                assert(pre.len() == 0);
                assert(bytes_joined(pre) =~= Seq::<char>::empty());
                assert(s@ =~= start + seq!['['] + bytes_joined(post));
            } else {
                assert(s@ =~= start + seq!['['] + bytes_joined(post));
            }
        }
        i = i + 1;
    }
    push_char(s, ']');
    assert(bytes@.subrange(0, bytes.len() as int) =~= bytes@);
    assert(final(s)@ =~= start + bytes_list_str(bytes@));
}

/// Appends a string slice.
pub fn push_str(s: &mut String, t: &str)
    ensures
        final(s)@ == old(s)@ + t@,
{
    s.append(t);
}

} // verus!
