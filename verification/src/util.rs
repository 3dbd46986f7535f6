//! Small conversions shared by the provers.
use vstd::prelude::*;

verus! {

/// Converts a one-based database id into a zero-based position in the
/// Merkle tree's leaf vector. Ids below one wrap around, as a cast does.
pub fn id_to_idx(id: i32) -> (r: usize)
    requires
        id > i32::MIN,
    ensures
        r == (id - 1) as usize,
        id >= 1 ==> r as int == id - 1,
{
    (id - 1) as usize
}

} // verus!

verus! {

/// Compares two byte strings element by element.
pub fn bytes_eq(a: &[u8], b: &[u8]) -> (r: bool)
    ensures
        r == (a@ == b@),
{
    if a.len() != b.len() {
        return false;
    }
    let mut i: usize = 0;
    while i < a.len()
        invariant
            a.len() == b.len(),
            0 <= i <= a.len(),
            forall|j: int| 0 <= j < i ==> a@[j] == b@[j],
        decreases a.len() - i,
    {
        if a[i] != b[i] {
            return false;
        }
        i = i + 1;
    }
    assert(a@ =~= b@);
    true
}

} // verus!
