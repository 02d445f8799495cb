//! Small buffer helpers shared by the engine components.

use vstd::prelude::*;

verus! {

/// A freshly allocated buffer of `len` zero samples.
pub fn zeros(len: usize) -> (r: Vec<i64>)
    ensures
        r@.len() == len,
        forall|i: int| 0 <= i < len ==> r@[i] == 0i64,
{
    let mut v: Vec<i64> = Vec::new();
    while v.len() < len
        invariant
            v@.len() <= len,
            forall|i: int| 0 <= i < v@.len() ==> v@[i] == 0i64,
        decreases len - v@.len(),
    {
        v.push(0);
    }
    v
}

/// Overwrite every sample of `array` with zero, keeping its length.
pub fn zero_out(array: &mut Vec<i64>)
    ensures
        final(array)@.len() == old(array)@.len(),
        forall|i: int| 0 <= i < final(array)@.len() ==> final(array)@[i] == 0i64,
{
    let n = array.len();
    let mut i: usize = 0;
    while i < n
        invariant
            n == array@.len(),
            i <= n,
            forall|j: int| 0 <= j < i ==> array@[j] == 0i64,
        decreases n - i,
    {
        array[i] = 0;
        i = i + 1;
    }
}

} // verus!
