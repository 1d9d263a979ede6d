use vstd::prelude::*;

verus! {

/// The items in the opposite order.
pub(crate) fn reversed<T>(items: Vec<T>) -> (turned: Vec<T>)
    ensures
        turned@ == items@.reverse(),
{
    let mut items = items;
    let ghost all = items@;
    let mut turned: Vec<T> = Vec::new();
    while items.len() > 0
        invariant
            items@.len() <= all.len(),
            items@ == all.take(items@.len() as int),
            turned@ == all.skip(items@.len() as int).reverse(),
        decreases items@.len(),
    {
        let ghost n = items@.len();
        match items.pop() {
            Some(item) => {
                turned.push(item);
                assert(turned@ =~= all.skip(n - 1).reverse());
            },
            None => {},
        }
    }
    assert(all.skip(0) =~= all);
    turned
}

/// Takes the item that stands first in `queue`, a list that is held last
/// item first.
pub(crate) fn take_next<T>(queue: &mut Vec<T>, Ghost(ahead): Ghost<Seq<T>>) -> (next: T)
    requires
        ahead.len() > 0,
        old(queue)@ == ahead.reverse(),
    ensures
        next == ahead[0],
        final(queue)@ == ahead.skip(1).reverse(),
{
    let popped = queue.pop();
    assert(queue@ =~= ahead.skip(1).reverse());
    popped.unwrap()
}

} // verus!
