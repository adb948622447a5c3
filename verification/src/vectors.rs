//! What several modules do with vectors.

use vstd::prelude::*;

verus! {

/// Returns the items in the opposite order.
pub(crate) fn turn<B>(items: Vec<B>) -> (res: Vec<B>)
    ensures
        res@ == items@.reverse(),
{
    let ghost all = items@;
    let mut waiting = items;
    let mut res: Vec<B> = Vec::new();
    while waiting.len() > 0
        invariant
            waiting@ == all.take(waiting@.len() as int),
            waiting@.len() <= all.len(),
            res@ == all.skip(waiting@.len() as int).reverse(),
        decreases waiting@.len(),
    {
        let ghost n = waiting@.len() as int;
        if let Some(item) = waiting.pop() {
            res.push(item);
        }
        assert(waiting@ =~= all.take(n - 1));
        assert(res@ =~= all.skip(n - 1).reverse());
    }
    assert(all.skip(0) =~= all);
    res
}

} // verus!
