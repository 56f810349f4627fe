use vstd::prelude::*;

verus! {

/// A copy of `v` in reverse order.
pub fn reversed<T: Copy>(v: &Vec<T>) -> (r: Vec<T>)
    ensures
        r@ == v@.reverse(),
{
    let mut r: Vec<T> = Vec::new();
    let n: usize = v.len();
    let mut i: usize = n;
    while i > 0
        invariant
            i <= n,
            n == v.len(),
            r.len() == n - i,
            forall|k: int| 0 <= k < n - i ==> r@[k] == v@[n - 1 - k],
        decreases i,
    {
        i = i - 1;
        r.push(v[i]);
    }
    assert(r@ =~= v@.reverse());
    r
}

} // verus!
