//! Queues of several classes that share a set of entries.

use vstd::prelude::*;

use crate::utils::stacked_array::DuplexArray;

verus! {

/// Neighbours of a node in its cycle.
#[derive(Debug, Clone, Copy, PartialEq, Eq, Structural)]
struct Node {
    next: u8,
    prev: u8,
}

/// Limit for the number of classes and entries together.
pub const MAX_CAPACITY: usize = 256;

/// Links of cyclic lists: each node has a successor, and is the predecessor of it.
pub struct Links {
    /// The successor of each node.
    pub next: Seq<u8>,
    /// The predecessor of each node.
    pub prev: Seq<u8>,
}

impl Links {
    /// The links of `count` nodes are inverse to each other.
    pub open spec fn wf(self, count: int) -> bool {
        &&& self.next.len() == count
        &&& self.prev.len() == count
        &&& forall|i: int| 0 <= i < count ==> (#[trigger] self.next[i]) < count && self.prev[self.next[i] as int] == i
        &&& forall|i: int| 0 <= i < count ==> (#[trigger] self.prev[i]) < count && self.next[self.prev[i] as int] == i
    }

    /// `b` follows `a`.
    pub open spec fn linked(self, a: int, b: int) -> bool {
        self.next[a] == b && self.prev[b] == a
    }

    /// `node` is taken out of its cycle.
    pub open spec fn unbound(self, node: u8) -> Links {
        let n = self.next[node as int];
        let p = self.prev[node as int];
        Links {
            next: self.next.update(node as int, node).update(p as int, n),
            prev: self.prev.update(node as int, node).update(n as int, p),
        }
    }

    /// `node`, which is a cycle of its own, is put between `prev` and `next`.
    pub open spec fn inserted(self, node: u8, prev: u8, next: u8) -> Links {
        Links {
            next: self.next.update(node as int, next).update(prev as int, node),
            prev: self.prev.update(node as int, prev).update(next as int, node),
        }
    }
}

/// Cyclic doubly linked lists over `N1 + N2` nodes.
pub struct MultiCycleList<const N1: usize, const N2: usize> {
    nodes: DuplexArray<Node, N1, N2>,
}

impl<const N1: usize, const N2: usize> MultiCycleList<N1, N2> {
    /// The links of the nodes.
    pub closed spec fn links(&self) -> Links {
        Links {
            next: Seq::new((N1 + N2) as nat, |i: int| self.nodes@[i].next),
            prev: Seq::new((N1 + N2) as nat, |i: int| self.nodes@[i].prev),
        }
    }

    /// The links are inverse to each other.
    pub closed spec fn wf(&self) -> bool {
        &&& N1 + N2 <= MAX_CAPACITY
        &&& self.nodes.wf()
        &&& self.links().wf(N1 + N2)
    }

    /// Every node is a cycle of its own.
    pub fn new() -> (r: Self)
        requires
            N1 + N2 <= MAX_CAPACITY,
        ensures
            r.wf(),
            forall|i: int| 0 <= i < N1 + N2 ==> #[trigger] r.links().next[i] == i && r.links().prev[i] == i,
    {
        let mut nodes: DuplexArray<Node, N1, N2> = DuplexArray::repeat(Node { next: 0, prev: 0 });
        let mut i: usize = 0;
        while i < N1 + N2
            invariant
                N1 + N2 <= MAX_CAPACITY,
                nodes.wf(),
                i <= N1 + N2,
                forall|k: int| 0 <= k < i ==> (#[trigger] nodes@[k]).next == k && nodes@[k].prev == k,
            decreases N1 + N2 - i,
        {
            nodes.set(i, Node { next: i as u8, prev: i as u8 });
            i = i + 1;
        }
        Self { nodes }
    }

    /// Returns the node that follows.
    pub fn next(&self, node: u8) -> (r: u8)
        requires
            self.wf(),
            node < N1 + N2,
        ensures
            r == self.links().next[node as int],
    {
        self.nodes.get(node as usize).next
    }

    /// Returns the node that precedes.
    pub fn prev(&self, node: u8) -> (r: u8)
        requires
            self.wf(),
            node < N1 + N2,
        ensures
            r == self.links().prev[node as int],
    {
        self.nodes.get(node as usize).prev
    }

    /// Tells whether the node shares its cycle with another one.
    pub fn is_bound(&self, node: u8) -> (r: bool)
        requires
            self.wf(),
            node < N1 + N2,
        ensures
            r == (self.links().next[node as int] != node),
    {
        self.nodes.get(node as usize).next != node
    }

    fn set_next(&mut self, node: u8, next: u8)
        requires
            old(self).nodes.wf(),
            node < N1 + N2,
        ensures
            final(self).nodes.wf(),
            final(self).links().next == old(self).links().next.update(node as int, next),
            final(self).links().prev == old(self).links().prev,
    {
        let ghost before = self.links();
        let prev: u8 = self.nodes.get(node as usize).prev;
        self.nodes.set(node as usize, Node { next, prev });
        proof {
            assert(self.links().next =~= before.next.update(node as int, next));
            assert(self.links().prev =~= before.prev);
        }
    }

    fn set_prev(&mut self, node: u8, prev: u8)
        requires
            old(self).nodes.wf(),
            node < N1 + N2,
        ensures
            final(self).nodes.wf(),
            final(self).links().prev == old(self).links().prev.update(node as int, prev),
            final(self).links().next == old(self).links().next,
    {
        let ghost before = self.links();
        let next: u8 = self.nodes.get(node as usize).next;
        self.nodes.set(node as usize, Node { next, prev });
        proof {
            assert(self.links().prev =~= before.prev.update(node as int, prev));
            assert(self.links().next =~= before.next);
        }
    }

    /// Takes a node out of its cycle.
    pub fn unbind(&mut self, node: u8)
        requires
            old(self).wf(),
            node < N1 + N2,
        ensures
            final(self).wf(),
            final(self).links() == old(self).links().unbound(node),
    {
        let next: u8 = self.next(node);
        let prev: u8 = self.prev(node);
        self.set_prev(node, node);
        self.set_next(node, node);
        self.set_prev(next, prev);
        self.set_next(prev, next);
    }

    /// Moves a node behind another one.
    pub fn move_after(&mut self, node: u8, prev: u8)
        requires
            old(self).wf(),
            node < N1 + N2,
            prev < N1 + N2,
            prev != node,
        ensures
            final(self).wf(),
            ({
                let u = old(self).links().unbound(node);
                final(self).links() == u.inserted(node, prev, u.next[prev as int])
            }),
    {
        self.unbind(node);

        let next: u8 = self.next(prev);
        self.set_next(node, next);
        self.set_prev(node, prev);
        self.set_prev(next, node);
        self.set_next(prev, node);
    }

    /// Moves a node in front of another one.
    pub fn move_before(&mut self, node: u8, next: u8)
        requires
            old(self).wf(),
            node < N1 + N2,
            next < N1 + N2,
            next != node,
        ensures
            final(self).wf(),
            ({
                let u = old(self).links().unbound(node);
                final(self).links() == u.inserted(node, u.prev[next as int], next)
            }),
    {
        self.unbind(node);

        let prev: u8 = self.prev(next);
        self.set_next(node, next);
        self.set_prev(node, prev);
        self.set_prev(next, node);
        self.set_next(prev, node);
    }
}

/// The entries of each class in their order.
pub type Lists = Seq<Seq<u8>>;

/// Entry `entry` is at position `i` of class `c`.
pub open spec fn is_at(lists: Lists, c: int, i: int, entry: u8) -> bool {
    0 <= c < lists.len() && 0 <= i < lists[c].len() && lists[c][i] == entry
}

/// Entry `entry` is in some class.
pub open spec fn is_queued(lists: Lists, entry: u8) -> bool {
    exists|c: int, i: int| #[trigger] is_at(lists, c, i, entry)
}

/// No entry occurs twice, and each one is below `entries`.
pub open spec fn is_disjoint(lists: Lists, entries: int) -> bool {
    &&& forall|c1: int, i1: int, c2: int, i2: int|
        0 <= c1 < lists.len() && 0 <= i1 < lists[c1].len() && 0 <= c2 < lists.len() && 0 <= i2
            < lists[c2].len() && #[trigger] lists[c1][i1] == #[trigger] lists[c2][i2] ==> c1 == c2
            && i1 == i2
    &&& forall|c: int, i: int|
        0 <= c < lists.len() && 0 <= i < lists[c].len() ==> (#[trigger] lists[c][i]) < entries
}

/// The total number of entries in all classes.
pub open spec fn total<T>(lists: Seq<Seq<T>>) -> int
    decreases lists.len(),
{
    if lists.len() == 0 {
        0
    } else {
        total(lists.drop_last()) + lists.last().len()
    }
}

/// The total changes with the length of the class that changes.
pub proof fn lemma_total_update<T>(lists: Seq<Seq<T>>, c: int, list: Seq<T>)
    requires
        0 <= c < lists.len(),
    ensures
        total(lists.update(c, list)) == total(lists) - lists[c].len() + list.len(),
    decreases lists.len(),
{
    let after = lists.update(c, list);
    if c == lists.len() - 1 {
        assert(after.drop_last() =~= lists.drop_last());
    } else {
        assert(after.drop_last() =~= lists.drop_last().update(c, list));
        lemma_total_update(lists.drop_last(), c, list);
    }
}

/// Empty classes have no entries.
pub proof fn lemma_total_empty<T>(lists: Seq<Seq<T>>)
    requires
        forall|c: int| 0 <= c < lists.len() ==> (#[trigger] lists[c]).len() == 0,
    ensures
        total(lists) == 0,
    decreases lists.len(),
{
    if lists.len() > 0 {
        assert(lists.last().len() == 0);
        assert forall|c: int| 0 <= c < lists.drop_last().len() implies (
        #[trigger] lists.drop_last()[c]).len() == 0 by {
            assert(lists[c].len() == 0);
        }
        lemma_total_empty(lists.drop_last());
    }
}

/// A class has not more entries than all classes together.
pub proof fn lemma_total_bound<T>(lists: Seq<Seq<T>>, c: int)
    requires
        0 <= c < lists.len(),
    ensures
        0 <= lists[c].len() <= total(lists),
    decreases lists.len(),
{
    lemma_total_nonnegative(lists.drop_last());
    if c < lists.len() - 1 {
        lemma_total_bound(lists.drop_last(), c);
    }
}

/// The total is not negative.
pub proof fn lemma_total_nonnegative<T>(lists: Seq<Seq<T>>)
    ensures
        total(lists) >= 0,
    decreases lists.len(),
{
    if lists.len() > 0 {
        lemma_total_nonnegative(lists.drop_last());
    }
}

/// If there is any entry, some class has one.
pub proof fn lemma_total_witness<T>(lists: Seq<Seq<T>>) -> (c: int)
    requires
        total(lists) > 0,
    ensures
        0 <= c < lists.len(),
        lists[c].len() > 0,
    decreases lists.len(),
{
    if lists.last().len() > 0 {
        lists.len() - 1
    } else {
        lemma_total_witness(lists.drop_last())
    }
}

/// Node `i` of the cycle of class `c`: the class itself, then its entries.
spec fn cycle_node(offset: int, c: int, list: Seq<u8>, i: int) -> int {
    if i == 0 {
        c
    } else {
        offset + list[i - 1]
    }
}

/// The node that follows node `i` of a cycle with `len` entries.
spec fn cycle_next(len: int, i: int) -> int {
    if i == len {
        0
    } else {
        i + 1
    }
}

/// The links of a class form its cycle.
spec fn is_cycle(links: Links, offset: int, c: int, list: Seq<u8>) -> bool {
    forall|i: int|
        0 <= i <= list.len() ==> links.linked(
            #[trigger] cycle_node(offset, c, list, i),
            cycle_node(offset, c, list, cycle_next(list.len() as int, i)),
        )
}

/// The links represent the lists.
spec fn represents(links: Links, lists: Lists, offset: int, entries: int) -> bool {
    &&& lists.len() == offset
    &&& is_disjoint(lists, entries)
    &&& links.next.len() == offset + entries
    &&& links.prev.len() == offset + entries
    &&& forall|c: int| 0 <= c < offset ==> is_cycle(links, offset, c, #[trigger] lists[c])
    &&& forall|e: u8|
        e < entries && !#[trigger] is_queued(lists, e) ==> links.linked(offset + e, offset + e)
}

/// Taking an entry out keeps the lists disjoint.
pub proof fn lemma_disjoint_remove(lists: Lists, entries: int, entry: u8, c: int, i: int)
    requires
        is_disjoint(lists, entries),
        is_at(lists, c, i, entry),
    ensures
        is_disjoint(lists.update(c, lists[c].remove(i)), entries),
        !is_queued(lists.update(c, lists[c].remove(i)), entry),
        forall|e: u8|
            e != entry ==> #[trigger] is_queued(lists.update(c, lists[c].remove(i)), e) == is_queued(lists, e),
{
    let lists2 = lists.update(c, lists[c].remove(i));
    assert forall|c1: int, i1: int, c2: int, i2: int|
        0 <= c1 < lists2.len() && 0 <= i1 < lists2[c1].len() && 0 <= c2 < lists2.len() && 0 <= i2
            < lists2[c2].len() && #[trigger] lists2[c1][i1] == #[trigger] lists2[c2][i2] implies c1
        == c2 && i1 == i2 by {
        let j1 = if c1 == c && i1 >= i { i1 + 1 } else { i1 };
        let j2 = if c2 == c && i2 >= i { i2 + 1 } else { i2 };
        assert(lists[c1][j1] == lists2[c1][i1]);
        assert(lists[c2][j2] == lists2[c2][i2]);
    }
    assert forall|d: int, k: int| 0 <= d < lists2.len() && 0 <= k < lists2[d].len() implies (
    #[trigger] lists2[d][k]) < entries && lists2[d][k] != entry by {
        let j = if d == c && k >= i { k + 1 } else { k };
        assert(lists[d][j] == lists2[d][k]);
        assert(lists[c][i] == entry);
    }
    assert forall|e: u8| e != entry implies #[trigger] is_queued(lists2, e) == is_queued(lists, e) by {
        if is_queued(lists, e) {
            let (d, k) = choose|d: int, k: int| #[trigger] is_at(lists, d, k, e);
            let j = if d == c && k > i { k - 1 } else { k };
            assert(is_at(lists2, d, j, e));
        }
        if is_queued(lists2, e) {
            let (d, k) = choose|d: int, k: int| #[trigger] is_at(lists2, d, k, e);
            let j = if d == c && k >= i { k + 1 } else { k };
            assert(is_at(lists, d, j, e));
        }
    }
}

/// Putting in an entry that is in no class keeps the lists disjoint.
pub proof fn lemma_disjoint_insert(lists: Lists, entries: int, entry: u8, c: int, i: int)
    requires
        is_disjoint(lists, entries),
        !is_queued(lists, entry),
        entry < entries,
        0 <= c < lists.len(),
        0 <= i <= lists[c].len(),
    ensures
        is_disjoint(lists.update(c, lists[c].insert(i, entry)), entries),
        is_queued(lists.update(c, lists[c].insert(i, entry)), entry),
        forall|e: u8|
            e != entry ==> #[trigger] is_queued(lists.update(c, lists[c].insert(i, entry)), e)
                == is_queued(lists, e),
{
    let lists2 = lists.update(c, lists[c].insert(i, entry));
    assert(is_at(lists2, c, i, entry));
    assert forall|d: int, k: int| 0 <= d < lists.len() && 0 <= k < lists[d].len() implies
        #[trigger] lists[d][k] != entry by {
        if lists[d][k] == entry {
            assert(is_at(lists, d, k, entry));
        }
    }
    assert forall|c1: int, i1: int, c2: int, i2: int|
        0 <= c1 < lists2.len() && 0 <= i1 < lists2[c1].len() && 0 <= c2 < lists2.len() && 0 <= i2
            < lists2[c2].len() && #[trigger] lists2[c1][i1] == #[trigger] lists2[c2][i2] implies c1
        == c2 && i1 == i2 by {
        let j1 = if c1 == c && i1 > i { i1 - 1 } else { i1 };
        let j2 = if c2 == c && i2 > i { i2 - 1 } else { i2 };
        if !(c1 == c && i1 == i) {
            assert(lists[c1][j1] == lists2[c1][i1]);
        }
        if !(c2 == c && i2 == i) {
            assert(lists[c2][j2] == lists2[c2][i2]);
        }
    }
    assert forall|d: int, k: int| 0 <= d < lists2.len() && 0 <= k < lists2[d].len() implies (
    #[trigger] lists2[d][k]) < entries by {
        let j = if d == c && k > i { k - 1 } else { k };
        if !(d == c && k == i) {
            assert(lists[d][j] == lists2[d][k]);
        }
    }
    assert forall|e: u8| e != entry implies #[trigger] is_queued(lists2, e) == is_queued(lists, e) by {
        if is_queued(lists, e) {
            let (d, k) = choose|d: int, k: int| #[trigger] is_at(lists, d, k, e);
            let j = if d == c && k >= i { k + 1 } else { k };
            assert(is_at(lists2, d, j, e));
        }
        if is_queued(lists2, e) {
            let (d, k) = choose|d: int, k: int| #[trigger] is_at(lists2, d, k, e);
            let j = if d == c && k > i { k - 1 } else { k };
            assert(is_at(lists, d, j, e));
        }
    }
}

/// Moving an entry to the end of another list keeps the lists disjoint.
pub proof fn lemma_disjoint_move(lists: Lists, entries: int, a: int, i: int, b: int)
    requires
        is_disjoint(lists, entries),
        0 <= a < lists.len(),
        0 <= i < lists[a].len(),
        0 <= b < lists.len(),
        a != b,
    ensures
        is_disjoint(
            lists.update(a, lists[a].remove(i)).update(b, lists[b].push(lists[a][i])),
            entries,
        ),
        total(lists.update(a, lists[a].remove(i)).update(b, lists[b].push(lists[a][i]))) == total(lists),
        lists[a][i] < entries,
{
    let x = lists[a][i];
    assert(is_at(lists, a, i, x));
    assert(lists[a][i] < entries);
    lemma_disjoint_remove(lists, entries, x, a, i);
    let removed = lists.update(a, lists[a].remove(i));
    let end = removed[b].len() as int;
    lemma_disjoint_insert(removed, entries, x, b, end);
    assert(removed[b].insert(end, x) =~= lists[b].push(x));
    lemma_total_update(lists, a, lists[a].remove(i));
    lemma_total_update(removed, b, lists[b].push(x));
}

/// Nodes of the cycles are the same only at the same place.
proof fn lemma_nodes_distinct(lists: Lists, offset: int, entries: int, c: int, i: int, d: int, k: int)
    requires
        is_disjoint(lists, entries),
        entries >= 0,
        lists.len() == offset,
        0 <= c < offset,
        0 <= i <= lists[c].len(),
        0 <= d < offset,
        0 <= k <= lists[d].len(),
    ensures
        cycle_node(offset, c, lists[c], i) == cycle_node(offset, d, lists[d], k) <==> c == d && i == k,
        0 <= cycle_node(offset, c, lists[c], i) < offset + entries,
{
    if i > 0 && k > 0 {
        if lists[c][i - 1] == lists[d][k - 1] {
        }
    }
    if i > 0 {
        assert(lists[c][i - 1] < entries);
    }
}

/// The cycles after the node of the entry at position `i` of class `c` has been unbound.
proof fn lemma_unbind_cycle(links: Links, lists: Lists, offset: int, entries: int, entry: u8, c: int, i: int, d: int)
    requires
        represents(links, lists, offset, entries),
        is_at(lists, c, i, entry),
        offset + entries <= 256,
        0 <= d < offset,
    ensures
        is_cycle(
            links.unbound((offset + entry) as u8),
            offset,
            d,
            if d == c { lists[c].remove(i) } else { lists[d] },
        ),
{
    let x = (offset + entry) as u8;
    let after = links.unbound(x);
    let list = lists[c];
    let len = list.len() as int;
    let wrap = cycle_next(len, i + 1);
    assert(is_cycle(links, offset, c, list));
    assert(lists[c][i] < entries);
    let a = cycle_node(offset, c, list, i);
    let b = cycle_node(offset, c, list, wrap);
    assert(cycle_node(offset, c, list, i + 1) == x);
    assert(links.linked(a, x as int));
    assert(links.linked(x as int, b));
    lemma_nodes_distinct(lists, offset, entries, c, i, c, i + 1);
    lemma_nodes_distinct(lists, offset, entries, c, wrap, c, i + 1);
    let old_list = lists[d];
    let new_list = if d == c { list.remove(i) } else { old_list };
    assert(is_cycle(links, offset, d, old_list));
    assert forall|k: int| 0 <= k <= new_list.len() implies after.linked(
        #[trigger] cycle_node(offset, d, new_list, k),
        cycle_node(offset, d, new_list, cycle_next(new_list.len() as int, k)),
    ) by {
        // Position of the node, and of the one behind it, before.
        let k0 = if d == c && k > i { k + 1 } else { k };
        let k1 = cycle_next(old_list.len() as int, k0);
        let m = cycle_node(offset, d, old_list, k0);
        let n = cycle_node(offset, d, old_list, k1);
        assert(cycle_node(offset, d, new_list, k) == m);
        assert(links.linked(m, n));
        lemma_nodes_distinct(lists, offset, entries, d, k0, c, i);
        lemma_nodes_distinct(lists, offset, entries, d, k0, c, i + 1);
        lemma_nodes_distinct(lists, offset, entries, d, k1, c, wrap);
        lemma_nodes_distinct(lists, offset, entries, d, k1, c, i + 1);
        if d == c && k == i {
            assert(m == a);
            assert(cycle_node(offset, d, new_list, cycle_next(new_list.len() as int, k)) == b);
            assert(after.linked(a, b));
        } else {
            assert(cycle_node(offset, d, new_list, cycle_next(new_list.len() as int, k)) == n);
            assert(after.next[m] == n);
            assert(after.prev[n] == m);
        }
    }
}

/// Taking an entry out of its class takes its node out of the cycle.
proof fn lemma_unbind(links: Links, lists: Lists, offset: int, entries: int, entry: u8, c: int, i: int)
    requires
        represents(links, lists, offset, entries),
        is_at(lists, c, i, entry),
        offset + entries <= 256,
    ensures
        represents(
            links.unbound((offset + entry) as u8),
            lists.update(c, lists[c].remove(i)),
            offset,
            entries,
        ),
        !is_queued(lists.update(c, lists[c].remove(i)), entry),
{
    let x = (offset + entry) as u8;
    let after = links.unbound(x);
    let lists2 = lists.update(c, lists[c].remove(i));
    lemma_disjoint_remove(lists, entries, entry, c, i);
    assert forall|d: int| 0 <= d < offset implies is_cycle(after, offset, d, #[trigger] lists2[d]) by {
        lemma_unbind_cycle(links, lists, offset, entries, entry, c, i, d);
    }
    let len = lists[c].len() as int;
    let wrap = cycle_next(len, i + 1);
    assert(is_cycle(links, offset, c, lists[c]));
    assert(lists[c][i] < entries);
    let a = cycle_node(offset, c, lists[c], i);
    let b = cycle_node(offset, c, lists[c], wrap);
    assert(cycle_node(offset, c, lists[c], i + 1) == x);
    assert(links.linked(a, x as int));
    assert(links.linked(x as int, b));
    lemma_nodes_distinct(lists, offset, entries, c, i, c, i + 1);
    lemma_nodes_distinct(lists, offset, entries, c, wrap, c, i + 1);
    assert forall|e: u8| e < entries && !#[trigger] is_queued(lists2, e) implies after.linked(
        offset + e,
        offset + e,
    ) by {
        if e != entry {
            assert(!is_queued(lists, e));
            assert(links.linked(offset + e, offset + e));
            assert(links.next[a] == x && links.prev[b] == x);
        }
    }
}

/// A link that is not the one behind position `i` of class `c` stays when a free entry is
/// inserted there.
proof fn lemma_insert_keeps_link(
    links: Links,
    lists: Lists,
    offset: int,
    entries: int,
    entry: u8,
    c: int,
    i: int,
    d: int,
    k: int,
)
    requires
        represents(links, lists, offset, entries),
        !is_queued(lists, entry),
        entry < entries,
        0 <= c < lists.len(),
        0 <= i <= lists[c].len(),
        offset + entries <= 256,
        0 <= d < offset,
        0 <= k <= lists[d].len(),
        !(d == c && k == i),
    ensures
        links.inserted(
            (offset + entry) as u8,
            cycle_node(offset, c, lists[c], i) as u8,
            cycle_node(offset, c, lists[c], cycle_next(lists[c].len() as int, i)) as u8,
        ).linked(
            cycle_node(offset, d, lists[d], k),
            cycle_node(offset, d, lists[d], cycle_next(lists[d].len() as int, k)),
        ),
{
    let k1 = cycle_next(lists[d].len() as int, k);
    let wrap = cycle_next(lists[c].len() as int, i);
    let m = cycle_node(offset, d, lists[d], k);
    let n = cycle_node(offset, d, lists[d], k1);
    assert(is_cycle(links, offset, d, lists[d]));
    assert(links.linked(m, n));
    lemma_nodes_distinct(lists, offset, entries, d, k, c, i);
    lemma_nodes_distinct(lists, offset, entries, d, k1, c, wrap);
    lemma_nodes_distinct(lists, offset, entries, c, i, d, k);
    lemma_nodes_distinct(lists, offset, entries, c, wrap, d, k1);
    assert(m != offset + entry && n != offset + entry) by {
        if k > 0 && lists[d][k - 1] == entry {
            assert(is_at(lists, d, k - 1, entry));
        }
        if k1 > 0 && lists[d][k1 - 1] == entry {
            assert(is_at(lists, d, k1 - 1, entry));
        }
    }
}

/// The cycles after the node of a free entry has been inserted behind position `i` of class `c`.
proof fn lemma_insert_cycle(links: Links, lists: Lists, offset: int, entries: int, entry: u8, c: int, i: int, d: int)
    requires
        represents(links, lists, offset, entries),
        !is_queued(lists, entry),
        entry < entries,
        0 <= c < lists.len(),
        0 <= i <= lists[c].len(),
        offset + entries <= 256,
        0 <= d < offset,
    ensures
        is_cycle(
            links.inserted(
                (offset + entry) as u8,
                cycle_node(offset, c, lists[c], i) as u8,
                cycle_node(offset, c, lists[c], cycle_next(lists[c].len() as int, i)) as u8,
            ),
            offset,
            d,
            if d == c { lists[c].insert(i, entry) } else { lists[d] },
        ),
{
    let x = (offset + entry) as u8;
    let list = lists[c];
    let wrap = cycle_next(list.len() as int, i);
    assert(is_cycle(links, offset, c, list));
    let a = cycle_node(offset, c, list, i);
    let b = cycle_node(offset, c, list, wrap);
    assert(links.linked(a, b));
    assert(links.linked(x as int, x as int));
    lemma_nodes_distinct(lists, offset, entries, c, i, c, i);
    lemma_nodes_distinct(lists, offset, entries, c, wrap, c, wrap);
    let after = links.inserted(x, a as u8, b as u8);
    let old_list = lists[d];
    let new_list = if d == c { list.insert(i, entry) } else { old_list };
    assert(is_cycle(links, offset, d, old_list));
    assert(a != x && b != x) by {
        if i > 0 && list[i - 1] == entry {
            assert(is_at(lists, c, i - 1, entry));
        }
        if wrap > 0 && list[wrap - 1] == entry {
            assert(is_at(lists, c, wrap - 1, entry));
        }
    }
    assert forall|k: int| 0 <= k <= new_list.len() implies after.linked(
        #[trigger] cycle_node(offset, d, new_list, k),
        cycle_node(offset, d, new_list, cycle_next(new_list.len() as int, k)),
    ) by {
        let next = cycle_node(offset, d, new_list, cycle_next(new_list.len() as int, k));
        if d == c && k == i {
            assert(cycle_node(offset, d, new_list, k) == a);
            assert(next == x);
        } else if d == c && k == i + 1 {
            assert(cycle_node(offset, d, new_list, k) == x);
            assert(next == b);
        } else {
            let k0 = if d == c && k > i { k - 1 } else { k };
            let k1 = cycle_next(old_list.len() as int, k0);
            assert(cycle_node(offset, d, new_list, k) == cycle_node(offset, d, old_list, k0));
            assert(next == cycle_node(offset, d, old_list, k1));
            lemma_insert_keeps_link(links, lists, offset, entries, entry, c, i, d, k0);
        }
    }
}

/// An entry that is in no class is inserted at position `i` of class `c`.
proof fn lemma_insert(links: Links, lists: Lists, offset: int, entries: int, entry: u8, c: int, i: int)
    requires
        represents(links, lists, offset, entries),
        !is_queued(lists, entry),
        entry < entries,
        0 <= c < lists.len(),
        0 <= i <= lists[c].len(),
        offset + entries <= 256,
    ensures
        represents(
            links.inserted(
                (offset + entry) as u8,
                cycle_node(offset, c, lists[c], i) as u8,
                cycle_node(offset, c, lists[c], cycle_next(lists[c].len() as int, i)) as u8,
            ),
            lists.update(c, lists[c].insert(i, entry)),
            offset,
            entries,
        ),
{
    let x = (offset + entry) as u8;
    let list = lists[c];
    let wrap = cycle_next(list.len() as int, i);
    let lists2 = lists.update(c, list.insert(i, entry));
    let a = cycle_node(offset, c, list, i);
    let b = cycle_node(offset, c, list, wrap);
    let after = links.inserted(x, a as u8, b as u8);
    lemma_disjoint_insert(lists, entries, entry, c, i);
    assert forall|d: int| 0 <= d < offset implies is_cycle(after, offset, d, #[trigger] lists2[d]) by {
        lemma_insert_cycle(links, lists, offset, entries, entry, c, i, d);
    }
    assert(is_cycle(links, offset, c, list));
    assert(links.linked(a, b));
    lemma_nodes_distinct(lists, offset, entries, c, i, c, i);
    lemma_nodes_distinct(lists, offset, entries, c, wrap, c, wrap);
    assert forall|e: u8| e < entries && !#[trigger] is_queued(lists2, e) implies after.linked(
        offset + e,
        offset + e,
    ) by {
        assert(!is_queued(lists, e));
        assert(links.linked(offset + e, offset + e));
        // Neither end of the new link is a free node.
        assert(a != offset + e && b != offset + e) by {
            if i > 0 && list[i - 1] == e {
                assert(is_at(lists, c, i - 1, e));
            }
            if wrap > 0 && list[wrap - 1] == e {
                assert(is_at(lists, c, wrap - 1, e));
            }
        }
    }
}

/// Queues of `CLASS_COUNT` classes over `ENTRY_COUNT` entries.
///
/// An entry is in at most one class. All operations take constant time: the classes and entries
/// are the nodes of cyclic lists.
pub struct MultiClassQueue<const CLASS_COUNT: usize, const ENTRY_COUNT: usize> {
    nodes: MultiCycleList<CLASS_COUNT, ENTRY_COUNT>,
    lists: Ghost<Lists>,
}

impl<const CLASS_COUNT: usize, const ENTRY_COUNT: usize> View for MultiClassQueue<
    CLASS_COUNT,
    ENTRY_COUNT,
> {
    type V = Lists;

    closed spec fn view(&self) -> Lists {
        self.lists@
    }
}

/// The list without an entry.
pub open spec fn without_entry(list: Seq<u8>, entry: u8) -> Seq<u8> {
    if list.contains(entry) {
        list.remove(list.index_of(entry))
    } else {
        list
    }
}

/// The lists without an entry.
pub open spec fn without(lists: Lists, entry: u8) -> Lists {
    Seq::new(lists.len(), |c: int| without_entry(lists[c], entry))
}

/// An entry is at one place only, and taking it out changes only the list it is in.
pub proof fn lemma_without_queued(lists: Lists, entries: int, entry: u8, c: int, i: int)
    requires
        is_disjoint(lists, entries),
        is_at(lists, c, i, entry),
    ensures
        without(lists, entry) == lists.update(c, lists[c].remove(i)),
        total(without(lists, entry)) == total(lists) - 1,
{
    let after = lists.update(c, lists[c].remove(i));
    assert forall|d: int| 0 <= d < lists.len() implies without_entry(#[trigger] lists[d], entry) == after[d] by {
        assert(lists[c][i] == entry);
        if lists[d].contains(entry) {
            let k = lists[d].index_of(entry);
            assert(lists[d][k] == entry);
            assert(d == c && k == i);
        } else if d == c {
            assert(lists[d].contains(entry));
        }
    }
    assert(without(lists, entry) =~= after);
    lemma_total_update(lists, c, lists[c].remove(i));
}

/// Taking out an entry that is in no class changes nothing.
pub proof fn lemma_without_free(lists: Lists, entry: u8)
    requires
        !is_queued(lists, entry),
    ensures
        without(lists, entry) == lists,
{
    assert forall|d: int| 0 <= d < lists.len() implies !(#[trigger] lists[d]).contains(entry) by {
        if lists[d].contains(entry) {
            let k = lists[d].index_of(entry);
            assert(is_at(lists, d, k, entry));
        }
    }
    assert(without(lists, entry) =~= lists);
}

impl<const CLASS_COUNT: usize, const ENTRY_COUNT: usize> MultiClassQueue<CLASS_COUNT, ENTRY_COUNT> {
    /// The links represent the lists.
    pub closed spec fn wf(&self) -> bool {
        &&& CLASS_COUNT < 256
        &&& CLASS_COUNT + ENTRY_COUNT <= MAX_CAPACITY
        &&& self.nodes.wf()
        &&& represents(self.nodes.links(), self@, CLASS_COUNT as int, ENTRY_COUNT as int)
    }

    /// The lists of a well-formed queue do not share entries.
    pub proof fn lemma_wf(&self)
        requires
            self.wf(),
        ensures
            self@.len() == CLASS_COUNT,
            is_disjoint(self@, ENTRY_COUNT as int),
            CLASS_COUNT + ENTRY_COUNT <= MAX_CAPACITY,
            CLASS_COUNT < 256,
    {
    }

    /// All classes are empty.
    pub fn new() -> (r: Self)
        requires
            CLASS_COUNT < 256,
            CLASS_COUNT + ENTRY_COUNT <= MAX_CAPACITY,
        ensures
            r.wf(),
            r@ == Seq::new(CLASS_COUNT as nat, |c: int| Seq::<u8>::empty()),
    {
        let nodes = MultiCycleList::new();
        let r = Self { nodes, lists: Ghost(Seq::new(CLASS_COUNT as nat, |c: int| Seq::<u8>::empty())) };
        proof {
            let links = r.nodes.links();
            assert forall|c: int| 0 <= c < CLASS_COUNT implies is_cycle(
                links,
                CLASS_COUNT as int,
                c,
                #[trigger] r@[c],
            ) by {
                assert(links.next[c] == c);
            }
            assert forall|e: u8| e < ENTRY_COUNT && !#[trigger] is_queued(r@, e) implies links.linked(
                CLASS_COUNT + e,
                CLASS_COUNT + e,
            ) by {
                assert(links.next[CLASS_COUNT + e] == CLASS_COUNT + e);
            }
        }
        r
    }

    /// Returns the first entry of a class.
    pub fn front(&self, class: u8) -> (r: Option<u8>)
        requires
            self.wf(),
            class < CLASS_COUNT,
        ensures
            r == (if self@[class as int].len() == 0 { None } else { Some(self@[class as int].first()) }),
    {
        proof {
            let list = self@[class as int];
            assert(is_cycle(self.nodes.links(), CLASS_COUNT as int, class as int, list));
            assert(self.nodes.links().linked(
                cycle_node(CLASS_COUNT as int, class as int, list, 0),
                cycle_node(CLASS_COUNT as int, class as int, list, cycle_next(list.len() as int, 0)),
            ));
            if list.len() > 0 {
                assert(list[0] < ENTRY_COUNT);
            }
        }
        self.nodes.next(class).checked_sub(CLASS_COUNT as u8)
    }

    /// Returns the last entry of a class.
    pub fn back(&self, class: u8) -> (r: Option<u8>)
        requires
            self.wf(),
            class < CLASS_COUNT,
        ensures
            r == (if self@[class as int].len() == 0 { None } else { Some(self@[class as int].last()) }),
    {
        proof {
            let list = self@[class as int];
            let len = list.len() as int;
            assert(is_cycle(self.nodes.links(), CLASS_COUNT as int, class as int, list));
            assert(self.nodes.links().linked(
                cycle_node(CLASS_COUNT as int, class as int, list, len),
                cycle_node(CLASS_COUNT as int, class as int, list, cycle_next(len, len)),
            ));
            if list.len() > 0 {
                assert(list[len - 1] < ENTRY_COUNT);
            }
        }
        self.nodes.prev(class).checked_sub(CLASS_COUNT as u8)
    }

    /// Tells whether a class has no entry.
    pub fn is_empty(&self, class: u8) -> (r: bool)
        requires
            self.wf(),
            class < CLASS_COUNT,
        ensures
            r == (self@[class as int].len() == 0),
    {
        self.front(class).is_none()
    }

    /// Returns the class that has the entry at its front.
    pub fn is_front(&self, entry: u8) -> (r: Option<u8>)
        requires
            self.wf(),
            entry < ENTRY_COUNT,
        ensures
            forall|c: u8|
                r == Some(c) <==> c < CLASS_COUNT && #[trigger] self@[c as int].len() > 0 && self@[c as int][0]
                    == entry,
    {
        let prev: u8 = self.nodes.prev(CLASS_COUNT as u8 + entry);
        proof {
            self.lemma_neighbours(entry);
        }
        if prev < CLASS_COUNT as u8 {
            Some(prev)
        } else {
            None
        }
    }

    /// Returns the class that has the entry at its back.
    pub fn is_back(&self, entry: u8) -> (r: Option<u8>)
        requires
            self.wf(),
            entry < ENTRY_COUNT,
        ensures
            forall|c: u8|
                r == Some(c) <==> c < CLASS_COUNT && #[trigger] self@[c as int].len() > 0
                    && self@[c as int].last() == entry,
    {
        let next: u8 = self.nodes.next(CLASS_COUNT as u8 + entry);
        proof {
            self.lemma_neighbours(entry);
        }
        if next < CLASS_COUNT as u8 {
            Some(next)
        } else {
            None
        }
    }

    /// The neighbour of an entry is a class exactly if the entry is at an end of it.
    proof fn lemma_neighbours(&self, entry: u8)
        requires
            self.wf(),
            entry < ENTRY_COUNT,
        ensures
            forall|c: u8|
                c < CLASS_COUNT ==> (self.nodes.links().prev[CLASS_COUNT + entry] == c <==> (
                #[trigger] self@[c as int]).len() > 0 && self@[c as int][0] == entry),
            forall|c: u8|
                c < CLASS_COUNT ==> (self.nodes.links().next[CLASS_COUNT + entry] == c <==> (
                #[trigger] self@[c as int]).len() > 0 && self@[c as int].last() == entry),
    {
        let links = self.nodes.links();
        let offset = CLASS_COUNT as int;
        if is_queued(self@, entry) {
            let (c, i) = choose|c: int, i: int| #[trigger] is_at(self@, c, i, entry);
            let list = self@[c];
            assert(is_cycle(links, offset, c, list));
            assert(links.linked(
                cycle_node(offset, c, list, i),
                cycle_node(offset, c, list, cycle_next(list.len() as int, i)),
            ));
            assert(links.linked(
                cycle_node(offset, c, list, i + 1),
                cycle_node(offset, c, list, cycle_next(list.len() as int, i + 1)),
            ));
            assert forall|d: u8| d < CLASS_COUNT implies (links.prev[CLASS_COUNT + entry] == d <==> (
            #[trigger] self@[d as int]).len() > 0 && self@[d as int][0] == entry) && (links.next[CLASS_COUNT
                + entry] == d <==> self@[d as int].len() > 0 && self@[d as int].last() == entry) by {
                assert(self@[c][i] == entry);
                if self@[d as int].len() > 0 && self@[d as int][0] == entry {
                    assert(d == c && i == 0);
                }
                if self@[d as int].len() > 0 && self@[d as int].last() == entry {
                    assert(self@[d as int][self@[d as int].len() - 1] == entry);
                    assert(d == c && i == list.len() - 1);
                }
            }
        } else {
            assert(links.linked(offset + entry, offset + entry));
            assert forall|d: u8| d < CLASS_COUNT implies !((#[trigger] self@[d as int]).len() > 0 && self@[d as int][0]
                == entry) && !(self@[d as int].len() > 0 && self@[d as int].last() == entry) by {
                if self@[d as int].len() > 0 && self@[d as int][0] == entry {
                    assert(is_at(self@, d as int, 0, entry));
                }
                if self@[d as int].len() > 0 && self@[d as int].last() == entry {
                    assert(is_at(self@, d as int, self@[d as int].len() - 1, entry));
                }
            }
        }
    }

    /// Taking an entry out of its class, if it is in one, unbinds its node.
    proof fn lemma_removed(&self, entry: u8)
        requires
            self.wf(),
            entry < ENTRY_COUNT,
        ensures
            represents(
                self.nodes.links().unbound((CLASS_COUNT + entry) as u8),
                without(self@, entry),
                CLASS_COUNT as int,
                ENTRY_COUNT as int,
            ),
            !is_queued(without(self@, entry), entry),
    {
        let links = self.nodes.links();
        let offset = CLASS_COUNT as int;
        if is_queued(self@, entry) {
            let (c, i) = choose|c: int, i: int| #[trigger] is_at(self@, c, i, entry);
            lemma_without_queued(self@, ENTRY_COUNT as int, entry, c, i);
            lemma_unbind(links, self@, offset, ENTRY_COUNT as int, entry, c, i);
        } else {
            lemma_without_free(self@, entry);
            assert(links.linked(offset + entry, offset + entry));
            assert(links.unbound((offset + entry) as u8).next =~= links.next);
            assert(links.unbound((offset + entry) as u8).prev =~= links.prev);
        }
    }

    /// Takes an entry out of its class, if it is in one.
    pub fn remove(&mut self, entry: u8)
        requires
            old(self).wf(),
            entry < ENTRY_COUNT,
        ensures
            final(self).wf(),
            final(self)@ == without(old(self)@, entry),
    {
        proof {
            self.lemma_removed(entry);
        }
        self.nodes.unbind(CLASS_COUNT as u8 + entry);
        proof {
            self.lists@ = without(self.lists@, entry);
        }
    }

    /// Moves an entry to the front of a class.
    pub fn move_front(&mut self, class: u8, entry: u8)
        requires
            old(self).wf(),
            class < CLASS_COUNT,
            entry < ENTRY_COUNT,
        ensures
            final(self).wf(),
            final(self)@ == without(old(self)@, entry).update(
                class as int,
                without(old(self)@, entry)[class as int].insert(0, entry),
            ),
    {
        proof {
            self.lemma_removed(entry);
            let u = self.nodes.links().unbound((CLASS_COUNT + entry) as u8);
            let w = without(self@, entry);
            let list = w[class as int];
            let offset = CLASS_COUNT as int;
            assert(is_cycle(u, offset, class as int, list));
            assert(u.linked(
                cycle_node(offset, class as int, list, 0),
                cycle_node(offset, class as int, list, cycle_next(list.len() as int, 0)),
            ));
            lemma_insert(u, w, offset, ENTRY_COUNT as int, entry, class as int, 0);
        }
        self.nodes.move_after(CLASS_COUNT as u8 + entry, class);
        proof {
            let w = without(self.lists@, entry);
            self.lists@ = w.update(class as int, w[class as int].insert(0, entry));
        }
    }

    /// Moves an entry to the back of a class.
    pub fn move_back(&mut self, class: u8, entry: u8)
        requires
            old(self).wf(),
            class < CLASS_COUNT,
            entry < ENTRY_COUNT,
        ensures
            final(self).wf(),
            final(self)@ == without(old(self)@, entry).update(
                class as int,
                without(old(self)@, entry)[class as int].push(entry),
            ),
    {
        proof {
            self.lemma_removed(entry);
            let u = self.nodes.links().unbound((CLASS_COUNT + entry) as u8);
            let w = without(self@, entry);
            let list = w[class as int];
            let len = list.len() as int;
            let offset = CLASS_COUNT as int;
            assert(is_cycle(u, offset, class as int, list));
            assert(u.linked(
                cycle_node(offset, class as int, list, len),
                cycle_node(offset, class as int, list, cycle_next(len, len)),
            ));
            lemma_insert(u, w, offset, ENTRY_COUNT as int, entry, class as int, len);
            assert(list.insert(len, entry) =~= list.push(entry));
        }
        self.nodes.move_before(CLASS_COUNT as u8 + entry, class);
        proof {
            let w = without(self.lists@, entry);
            self.lists@ = w.update(class as int, w[class as int].push(entry));
        }
    }
}

/// An entry that is removed leaves the one list in which it is. The other entries keep their order, and
/// the other lists stay as they are.
pub proof fn law_removed_entry_leaves(lists: Lists, count: int, entry: u8, c: int, k: int, d: int)
    requires
        is_disjoint(lists, count),
        is_at(lists, c, k, entry),
        0 <= d < lists.len(),
        d != c,
    ensures
        ({
            let after = without(lists, entry);
            &&& after.len() == lists.len()
            &&& after[d] == lists[d]
            &&& after[c].len() == lists[c].len() - 1
            &&& forall|i: int| 0 <= i < k ==> #[trigger] after[c][i] == lists[c][i]
            &&& forall|i: int| k <= i < after[c].len() ==> #[trigger] after[c][i] == lists[c][i + 1]
        }),
{
    let list = lists[c];
    assert(list[k] == entry);
    assert(list.contains(entry));
    let j = list.index_of(entry);
    assert(lists[c][j] == lists[c][k]);
    if lists[d].contains(entry) {
        let i = lists[d].index_of(entry);
        assert(lists[d][i] == lists[c][k]);
    }
}

/// A node that is unbound is on its own, and its neighbours are linked to each other. A node that is
/// inserted between two neighbours is linked to both.
pub proof fn law_links(links: Links, count: int, node: u8, prev: u8, next: u8)
    requires
        links.wf(count),
        node < count,
        prev < count,
        next < count,
        node != prev,
        node != next,
    ensures
        links.unbound(node).next[node as int] == node,
        links.unbound(node).prev[node as int] == node,
        links.next[node as int] != node ==> links.unbound(node).linked(
            links.prev[node as int] as int,
            links.next[node as int] as int,
        ),
        links.inserted(node, prev, next).linked(prev as int, node as int),
        links.inserted(node, prev, next).linked(node as int, next as int),
{
    let n = links.next[node as int];
    let p = links.prev[node as int];
    assert(links.prev[n as int] == node);
    assert(links.next[p as int] == node);
}

} // verus!
