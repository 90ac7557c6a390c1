//! Consuming a vector front to back.

use vstd::prelude::*;

verus! {

/// Returns the elements of `v` in reverse order, so that popping the result
/// yields them front to back.
pub fn reversed<A>(v: Vec<A>) -> (r: Vec<A>)
    ensures
        r@.len() == v@.len(),
        forall|k: int| 0 <= k < v@.len() ==> #[trigger] r@[k] == v@[v@.len() - 1 - k],
{
    let ghost orig = v@;
    let mut v = v;
    let mut r: Vec<A> = Vec::new();
    while v.len() > 0
        invariant
            v@ == orig.take(v@.len() as int),
            r@.len() + v@.len() == orig.len(),
            forall|k: int| 0 <= k < r@.len() ==> #[trigger] r@[k] == orig[orig.len() - 1 - k],
        decreases v@.len(),
    {
        let ghost before = v@;
        match v.pop() {
            Some(x) => {
                r.push(x);
            },
            None => {},
        }
        assert(v@ =~= orig.take(v@.len() as int));
    }
    r
}

} // verus!
