//! Queues of identities.

use vstd::prelude::*;

verus! {

/// The items without one of them.
pub open spec fn without_id(ids: Seq<u64>, id: u64) -> Seq<u64> {
    if ids.contains(id) {
        ids.remove(ids.index_of(id))
    } else {
        ids
    }
}

/// Where an item was before another one was taken out at `i`.
pub open spec fn place_before(i: int, k: int) -> int {
    if k >= i {
        k + 1
    } else {
        k
    }
}

/// What is left when one of different items is taken out.
pub proof fn lemma_without_id(ids: Seq<u64>, id: u64)
    requires
        ids.no_duplicates(),
    ensures
        without_id(ids, id).no_duplicates(),
        forall|x: u64| #[trigger] without_id(ids, id).contains(x) <==> ids.contains(x) && x != id,
{
    if ids.contains(id) {
        let k = ids.index_of(id);
        assert forall|x: u64| #[trigger] without_id(ids, id).contains(x) <==> ids.contains(x) && x != id by {
            lemma_contains_without(ids, k, x);
        }
        lemma_no_duplicates_without(ids, k);
    }
}

/// Whether an item is left.
proof fn lemma_contains_without(ids: Seq<u64>, k: int, x: u64)
    requires
        ids.no_duplicates(),
        0 <= k < ids.len(),
    ensures
        ids.remove(k).contains(x) <==> ids.contains(x) && x != ids[k],
{
    let rest = ids.remove(k);
    if rest.contains(x) {
        let j = rest.index_of(x);
        assert(rest[j] == ids[place_before(k, j)]);
    }
    if ids.contains(x) && x != ids[k] {
        let j = ids.index_of(x);
        if j > k {
            assert(rest[j - 1] == x);
        } else {
            assert(rest[j] == x);
        }
    }
}

/// The items that are left are different.
proof fn lemma_no_duplicates_without(ids: Seq<u64>, k: int)
    requires
        ids.no_duplicates(),
        0 <= k < ids.len(),
    ensures
        ids.remove(k).no_duplicates(),
{
    let rest = ids.remove(k);
    assert forall|i: int, j: int| 0 <= i < rest.len() && 0 <= j < rest.len() && i != j implies rest[i] != rest[j] by {
        assert(rest[i] == ids[place_before(k, i)]);
        assert(rest[j] == ids[place_before(k, j)]);
    }
}

/// A further item at the end.
pub proof fn lemma_push_id(ids: Seq<u64>, id: u64)
    ensures
        forall|x: u64| #[trigger] ids.push(id).contains(x) <==> ids.contains(x) || x == id,
        ids.no_duplicates() && !ids.contains(id) ==> ids.push(id).no_duplicates(),
{
    let more = ids.push(id);
    assert forall|x: u64| #[trigger] more.contains(x) <==> ids.contains(x) || x == id by {
        if more.contains(x) {
            let j = more.index_of(x);
            if j < ids.len() {
                assert(ids[j] == x);
            }
        }
        if ids.contains(x) {
            assert(more[ids.index_of(x)] == x);
        }
        if x == id {
            assert(more[ids.len() as int] == x);
        }
    }
}

/// Takes an item out of a queue, and tells whether it was there.
pub(crate) fn remove_id(queue: &mut Vec<u64>, id: u64) -> (r: bool)
    requires
        old(queue)@.no_duplicates(),
    ensures
        r == old(queue)@.contains(id),
        final(queue)@ == without_id(old(queue)@, id),
{
    let mut i: usize = 0;
    while i < queue.len()
        invariant
            i <= queue@.len(),
            queue@ == old(queue)@,
            queue@.no_duplicates(),
            forall|k: int| 0 <= k < i ==> queue@[k] != id,
        decreases queue@.len() - i,
    {
        if queue[i] == id {
            proof {
                let k = queue@.index_of(id);
                assert(queue@.contains(id));
                assert(queue@[k] == queue@[i as int]);
            }
            queue.remove(i);
            return true;
        }
        i = i + 1;
    }
    false
}

/// Tells whether an item is in a queue.
pub(crate) fn contains_id(queue: &Vec<u64>, id: u64) -> (r: bool)
    ensures
        r == queue@.contains(id),
{
    let mut i: usize = 0;
    while i < queue.len()
        invariant
            i <= queue@.len(),
            forall|k: int| 0 <= k < i ==> queue@[k] != id,
        decreases queue@.len() - i,
    {
        if queue[i] == id {
            return true;
        }
        i = i + 1;
    }
    false
}

/// A number that leaves a queue leaves the others in their places.
pub proof fn law_number_leaves_queue(ids: Seq<u64>, id: u64, k: int)
    requires
        ids.no_duplicates(),
        0 <= k < ids.len(),
        ids[k] == id,
    ensures
        without_id(ids, id).len() == ids.len() - 1,
        forall|i: int| 0 <= i < k ==> #[trigger] without_id(ids, id)[i] == ids[i],
        forall|i: int| k <= i < ids.len() - 1 ==> #[trigger] without_id(ids, id)[i] == ids[i + 1],
{
    assert(ids.contains(id));
    let j = ids.index_of(id);
    assert(ids[j] == ids[k]);
}

} // verus!
