//! A binary min-heap of endpoints, kept in a vector.
//!
//! The heap is modelled as the multiset of the positions of its items.

use crate::traits::Endpoint;
use vstd::multiset::Multiset;
use vstd::prelude::*;

verus! {

/// The positions of a list of endpoints, in the list's order.
pub open spec fn positions_of<T: Endpoint>(items: Seq<T>) -> Seq<int> {
    items.map_values(|t: T| t.position())
}

/// Whether `least` is an element of `heap` that no other element lies before.
pub open spec fn is_least(heap: Multiset<int>, least: int) -> bool {
    &&& heap.contains(least)
    &&& forall|other: int| #[trigger] heap.contains(other) ==> least <= other
}

/// Heap order: no item lies before its parent.
spec fn ordered(s: Seq<int>) -> bool {
    forall|i: int| 0 < i < s.len() ==> s[(i - 1) / 2] <= #[trigger] s[i]
}

/// Heap order everywhere but at `hole`, which may lie before its parent; the
/// children of `hole` are still no earlier than its parent.
spec fn ordered_but_above(s: Seq<int>, hole: int) -> bool {
    &&& forall|i: int| 0 < i < s.len() && i != hole ==> s[(i - 1) / 2] <= #[trigger] s[i]
    &&& forall|i: int|
        0 < i < s.len() && (i - 1) / 2 == hole && hole > 0 ==> s[(hole - 1) / 2] <= #[trigger] s[i]
}

/// Heap order everywhere but below `hole`, which may lie after its children;
/// the children of `hole` are still no earlier than its parent.
spec fn ordered_but_below(s: Seq<int>, hole: int) -> bool {
    &&& forall|i: int|
        0 < i < s.len() && (i - 1) / 2 != hole ==> s[(i - 1) / 2] <= #[trigger] s[i]
    &&& forall|i: int|
        0 < i < s.len() && (i - 1) / 2 == hole && hole > 0 ==> s[(hole - 1) / 2] <= #[trigger] s[i]
}

/// In heap order the first item is the least.
proof fn lemma_root_is_least(s: Seq<int>, i: int)
    requires
        ordered(s),
        0 <= i < s.len(),
    ensures
        s[0] <= s[i],
    decreases i,
{
    if i > 0 {
        lemma_root_is_least(s, (i - 1) / 2);
    }
}

/// One step of sifting up: an item that lies before its parent changes places
/// with it, and the disorder moves one level up.
proof fn lemma_sift_up_step(s: Seq<int>, hole: int)
    requires
        0 < hole < s.len(),
        ordered_but_above(s, hole),
        s[hole] < s[(hole - 1) / 2],
    ensures
        ordered_but_above(
            s.update(hole, s[(hole - 1) / 2]).update((hole - 1) / 2, s[hole]),
            (hole - 1) / 2,
        ),
{
}

/// One step of sifting down: an item that lies after its least child changes
/// places with it, and the disorder moves one level down.
proof fn lemma_sift_down_step(s: Seq<int>, hole: int, child: int)
    requires
        0 <= hole < s.len(),
        0 < child < s.len(),
        (child - 1) / 2 == hole,
        ordered_but_below(s, hole),
        s[child] < s[hole],
        forall|i: int| 0 < i < s.len() && (i - 1) / 2 == hole ==> s[child] <= #[trigger] s[i],
    ensures
        ordered_but_below(s.update(hole, s[child]).update(child, s[hole]), child),
{
}

/// Exchanging two items keeps the multiset.
proof fn lemma_swap_keeps_multiset(s: Seq<int>, i: int, j: int)
    requires
        0 <= i < s.len(),
        0 <= j < s.len(),
    ensures
        s.update(i, s[j]).update(j, s[i]).to_multiset() == s.to_multiset(),
{
    broadcast use vstd::multiset::group_multiset_axioms;

    vstd::seq_lib::to_multiset_update(s, i, s[j]);
    vstd::seq_lib::to_multiset_update(s.update(i, s[j]), j, s[i]);
    vstd::seq_lib::to_multiset_contains(s, s[i]);
    vstd::seq_lib::to_multiset_contains(s, s[j]);
}

/// A min-heap: the item that `peek` shows and `pop` takes is one that no other
/// item precedes.
pub struct MinHeap<T: Endpoint> {
    items: Vec<T>,
}

impl<T: Endpoint> View for MinHeap<T> {
    type V = Multiset<int>;

    closed spec fn view(&self) -> Multiset<int> {
        positions_of(self.items@).to_multiset()
    }
}

impl<T: Endpoint> MinHeap<T> {
    /// The invariant of the heap: no item lies before its parent.
    pub closed spec fn well_formed(&self) -> bool {
        ordered(positions_of(self.items@))
    }

    /// A heap without items.
    pub fn new() -> (heap: Self)
        ensures
            heap.well_formed(),
            heap@ == Multiset::<int>::empty(),
    {
        let heap = MinHeap { items: Vec::new() };
        proof {
            broadcast use vstd::multiset::group_multiset_axioms;

            vstd::seq_lib::to_multiset_len(positions_of(heap.items@));
        }
        heap
    }

    /// The number of items in the heap.
    pub fn len(&self) -> (n: usize)
        ensures
            n == self@.len(),
    {
        proof {
            vstd::seq_lib::to_multiset_len(positions_of(self.items@));
        }
        self.items.len()
    }

    /// Whether the heap holds no item.
    pub fn is_empty(&self) -> (empty: bool)
        ensures
            empty == (self@.len() == 0),
    {
        self.len() == 0
    }

    /// The least item, if there is any.
    pub fn peek(&self) -> (top: Option<T>)
        requires
            self.well_formed(),
        ensures
            top is None <==> self@.len() == 0,
            top is Some ==> is_least(self@, top.unwrap().position()),
    {
        proof {
            vstd::seq_lib::to_multiset_len(positions_of(self.items@));
        }
        if self.items.len() == 0 {
            None
        } else {
            proof {
                self.lemma_first_is_least();
            }
            Some(self.items[0])
        }
    }

    /// In a well-formed heap no item lies before the first one of the vector.
    proof fn lemma_first_is_least(&self)
        requires
            self.well_formed(),
            self.items@.len() > 0,
        ensures
            is_least(self@, self.items@[0].position()),
    {
        let s = positions_of(self.items@);
        vstd::seq_lib::to_multiset_contains(s, s[0]);
        assert forall|other: int| #[trigger] self@.contains(other) implies s[0] <= other by {
            vstd::seq_lib::to_multiset_contains(s, other);
            let i = choose|i: int| 0 <= i < s.len() && s[i] == other;
            lemma_root_is_least(s, i);
        }
    }

    /// Exchanges the items at `i` and `j`.
    fn swap_items(&mut self, i: usize, j: usize)
        requires
            i < old(self).items@.len(),
            j < old(self).items@.len(),
        ensures
            final(self).items@ == old(self).items@.update(
                i as int,
                old(self).items@[j as int],
            ).update(j as int, old(self).items@[i as int]),
            final(self)@ == old(self)@,
    {
        let a = self.items[i];
        let b = self.items[j];
        self.items.set(i, b);
        self.items.set(j, a);
        proof {
            let s = positions_of(old(self).items@);
            assert(positions_of(self.items@) =~= s.update(i as int, s[j as int]).update(
                j as int,
                s[i as int],
            ));
            lemma_swap_keeps_multiset(s, i as int, j as int);
        }
    }

    /// Adds `item` to the heap.
    pub fn push(&mut self, item: T)
        requires
            old(self).well_formed(),
        ensures
            final(self).well_formed(),
            final(self)@ == old(self)@.insert(item.position()),
    {
        proof {
            assert(positions_of(self.items@.push(item)) =~= positions_of(self.items@).push(
                item.position(),
            ));
            vstd::seq_lib::to_multiset_build(positions_of(self.items@), item.position());
        }
        self.items.push(item);
        let mut i: usize = self.items.len() - 1;
        while i > 0
            invariant
                i < self.items@.len(),
                ordered_but_above(positions_of(self.items@), i as int),
                self@ == old(self)@.insert(item.position()),
            ensures
                ordered(positions_of(self.items@)),
                self@ == old(self)@.insert(item.position()),
            decreases i,
        {
            let parent: usize = (i - 1) / 2;
            if !self.items[i].precedes(self.items[parent]) {
                break ;
            }
            let ghost before = positions_of(self.items@);
            self.swap_items(i, parent);
            proof {
                lemma_sift_up_step(before, i as int);
                assert(positions_of(self.items@) =~= before.update(
                    i as int,
                    before[parent as int],
                ).update(parent as int, before[i as int]));
            }
            i = parent;
        }
    }

    /// Takes the least item out of the heap, if there is any.
    pub fn pop(&mut self) -> (top: Option<T>)
        requires
            old(self).well_formed(),
        ensures
            final(self).well_formed(),
            top is None <==> old(self)@.len() == 0,
            top is None ==> final(self)@ == old(self)@,
            top is Some ==> is_least(old(self)@, top.unwrap().position()) && final(self)@ == old(
                self,
            )@.remove(top.unwrap().position()),
    {
        proof {
            vstd::seq_lib::to_multiset_len(positions_of(self.items@));
        }
        let n: usize = self.items.len();
        if n == 0 {
            return None;
        }
        proof {
            self.lemma_first_is_least();
        }
        let top = self.items[0];
        let last = self.items.pop().unwrap();
        let ghost before = positions_of(old(self).items@);
        proof {
            assert(positions_of(self.items@) =~= before.remove(n - 1));
            vstd::seq_lib::to_multiset_remove(before, n - 1);
        }
        if n == 1 {
            return Some(top);
        }
        self.items.set(0, last);
        proof {
            broadcast use vstd::multiset::group_multiset_axioms;

            let shorter = before.remove(n - 1);
            assert(positions_of(self.items@) =~= shorter.update(0, last.position()));
            vstd::seq_lib::to_multiset_update(shorter, 0, last.position());
            vstd::seq_lib::to_multiset_contains(before, before[n - 1]);
        }
        let m: usize = n - 1;
        let mut i: usize = 0;
        while i <= (m - 1) / 2 && 2 * i + 1 < m
            invariant
                m == self.items@.len(),
                m >= 1,
                i < m,
                ordered_but_below(positions_of(self.items@), i as int),
                self@ == old(self)@.remove(top.position()),
            ensures
                ordered(positions_of(self.items@)),
                self@ == old(self)@.remove(top.position()),
            decreases m - i,
        {
            let left: usize = 2 * i + 1;
            let right: usize = left + 1;
            let mut smallest: usize = i;
            if self.items[left].precedes(self.items[smallest]) {
                smallest = left;
            }
            if right < m && self.items[right].precedes(self.items[smallest]) {
                smallest = right;
            }
            let ghost before = positions_of(self.items@);
            proof {
                assert forall|k: int|
                    0 < k < before.len() && (k - 1) / 2 == i implies before[smallest as int]
                    <= #[trigger] before[k] by {
                    assert(k == left || k == right);
                }
            }
            if smallest == i {
                break ;
            }
            self.swap_items(i, smallest);
            proof {
                lemma_sift_down_step(before, i as int, smallest as int);
                assert(positions_of(self.items@) =~= before.update(
                    i as int,
                    before[smallest as int],
                ).update(smallest as int, before[i as int]));
            }
            i = smallest;
        }
        Some(top)
    }
}

} // verus!
