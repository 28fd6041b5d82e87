//! Lists that are taken apart from the front.

use vstd::prelude::*;

verus! {

/// The items in the opposite order, so that taking from the end takes them in order.
pub fn turned<T>(v: Vec<T>) -> (r: Vec<T>)
    ensures
        r@ == v@.reverse(),
{
    let ghost all = v@;
    let mut rest = v;
    let mut r: Vec<T> = Vec::new();
    while rest.len() > 0
        invariant
            all.len() == rest@.len() + r@.len(),
            rest@ == all.take(rest@.len() as int),
            forall|j: int| 0 <= j < r@.len() ==> #[trigger] r@[j] == all[all.len() - 1 - j],
        decreases rest@.len(),
    {
        let ghost rest0 = rest@;
        if let Some(p) = rest.pop() {
            assert(p == rest0[rest0.len() - 1]);
            assert(rest@ =~= all.take(rest@.len() as int));
            r.push(p);
        }
    }
    assert(r@ =~= all.reverse());
    r
}

/// What is left of `all`, turned, once `done` items were taken: the next one is at the end.
pub proof fn lemma_turned_rest<T>(all: Seq<T>, done: int)
    requires
        0 <= done < all.len(),
    ensures
        all.skip(done).reverse().len() == all.len() - done,
        all.skip(done).reverse().last() == all[done],
        all.skip(done).reverse().drop_last() == all.skip(done + 1).reverse(),
{
    assert(all.skip(done).reverse().drop_last() =~= all.skip(done + 1).reverse());
}

/// A prefix grows by the item behind it.
pub proof fn lemma_prefix_grows<T>(all: Seq<T>, done: int)
    requires
        0 <= done < all.len(),
    ensures
        all.take(done + 1).drop_last() == all.take(done),
        all.take(done + 1).last() == all[done],
        all.take(done + 1) == all.take(done).push(all[done]),
{
    assert(all.take(done + 1).drop_last() =~= all.take(done));
    assert(all.take(done + 1) =~= all.take(done).push(all[done]));
}

} // verus!
