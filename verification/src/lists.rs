//! Lists.

use vstd::prelude::*;

verus! {

/// The items in reverse order.
pub fn reversed<T>(items: Vec<T>) -> (back: Vec<T>)
    ensures
        back@ == items@.reverse(),
{
    let mut rest = items;
    let mut back: Vec<T> = Vec::new();
    let ghost all = items@;
    while rest.len() > 0
        invariant
            rest@ == all.take(all.len() - back@.len()),
            back@.len() <= all.len(),
            forall|k: int| 0 <= k < back@.len() ==> #[trigger] back@[k] == all[all.len() - 1 - k],
        decreases rest@.len(),
    {
        let ghost n = rest@.len() as int;
        let last = rest.pop();
        if let Some(item) = last {
            back.push(item);
            assert(rest@ =~= all.take(n - 1));
        }
    }
    assert(back@ =~= all.reverse());
    back
}

} // verus!
