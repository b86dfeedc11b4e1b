use vstd::prelude::*;

verus! {

/// Plays the signal backwards: the samples in reverse order.
pub fn inverse_sound(samples: Vec<i16>) -> (r: Vec<i16>)
    ensures
        r@ == samples@.reverse(),
{
    reverse_vec(&samples)
}

/// A copy of `vec` in reverse order, made by swapping the two halves
/// element by element.
pub fn reverse_vec(vec: &Vec<i16>) -> (r: Vec<i16>)
    ensures
        r@ == vec@.reverse(),
{
    let mut reversed_vec = vec.clone();
    let len = reversed_vec.len();
    let mid = len / 2;
    let mut i: usize = 0;
    while i < mid
        invariant
            len == vec@.len(),
            len == reversed_vec@.len(),
            mid == len / 2,
            i <= mid,
            forall|k: int| 0 <= k < i ==> reversed_vec@[k] == vec@[len - 1 - k],
            forall|k: int| 0 <= k < i ==> reversed_vec@[len - 1 - k] == vec@[k],
            forall|k: int| i <= k < len - i ==> reversed_vec@[k] == vec@[k],
        decreases mid - i,
    {
        let a = reversed_vec[i];
        let b = reversed_vec[len - i - 1];
        reversed_vec.set(i, b);
        reversed_vec.set(len - i - 1, a);
        i = i + 1;
    }
    assert(reversed_vec@ =~= vec@.reverse());
    reversed_vec
}

} // verus!
