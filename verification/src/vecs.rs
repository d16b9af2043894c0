//! Lists of indices, and moving the items of a vector into another order.

use vstd::prelude::*;

verus! {

/// A list of machine indices read as mathematical integers.
pub open spec fn indices(list: Seq<usize>) -> Seq<int> {
    list.map_values(|i: usize| i as int)
}

/// Moves the items of a list into the opposite order.
pub fn reversed<T>(items: Vec<T>) -> (turned: Vec<T>)
    ensures
        turned@ == items@.reverse(),
{
    let ghost given = items@;
    let mut rest = items;
    let mut turned: Vec<T> = Vec::new();
    loop
        invariant
            rest@ == given.take(rest.len() as int),
            rest.len() + turned.len() == given.len(),
            forall|k: int|
                0 <= k < turned.len() ==> #[trigger] turned[k] == given[given.len() - 1 - k],
        ensures
            turned.len() == given.len(),
        decreases rest.len(),
    {
        match rest.pop() {
            Some(item) => {
                turned.push(item);
            },
            None => {
                break ;
            },
        }
    }
    proof {
        assert(turned@ =~= given.reverse());
    }
    turned
}

} // verus!
