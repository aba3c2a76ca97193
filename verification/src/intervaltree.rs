//! An interval index: a binary search tree over intervals, ordered by their
//! lower bound, in which every node also knows the greatest upper bound found
//! below it.
//!
//! The index is modelled as the set of the triples `(low, high, payload)` it
//! holds, endpoints taken at their positions and payloads by their views.

use crate::traits::{coincide, Endpoint, Payload};
use vstd::prelude::*;

verus! {

/// What the index holds of an interval and one of its payloads: the positions
/// of the two bounds and the view of the payload.
pub type Triple<V> = (int, int, V);

/// An interval together with the payload attached to it.
#[derive(Debug)]
pub struct Data<I: Endpoint, P: Payload> {
    pub low: I,
    pub high: I,
    pub payload: P,
}

impl<I: Endpoint, P: Payload> View for Data<I, P> {
    type V = Triple<P::V>;

    open spec fn view(&self) -> Triple<P::V> {
        (self.low.position(), self.high.position(), self.payload@)
    }
}

impl<I: Endpoint, P: Payload> Clone for Data<I, P> {
    fn clone(&self) -> (copy: Self)
        ensures
            copy.low == self.low,
            copy.high == self.high,
            copy.payload@ == self.payload@,
    {
        Data { low: self.low, high: self.high, payload: self.payload.duplicate() }
    }
}

impl<I: Endpoint, P: Payload> Data<I, P> {
    /// The interval from `low` to `high` with a second handle on `payload`.
    pub fn new(low: I, high: I, payload: &P) -> (data: Self)
        ensures
            data.low == low,
            data.high == high,
            data.payload@ == payload@,
    {
        Data { low, high, payload: payload.duplicate() }
    }
}

/// The triples of `index` whose open interval meets the open interval
/// `(low, high)`.
pub open spec fn overlapping<V>(index: Set<Triple<V>>, low: int, high: int) -> Set<Triple<V>> {
    index.filter(|t: Triple<V>| low < t.1 && high > t.0)
}

/// The triples of `index` that end at `end` or earlier.
pub open spec fn ending_before<V>(index: Set<Triple<V>>, end: int) -> Set<Triple<V>> {
    index.filter(|t: Triple<V>| t.1 <= end)
}

/// What is left of `index` once `payload` is gone from the interval
/// `(low, high)`, or, where no payload is named, once the whole interval is.
pub open spec fn without<V>(
    index: Set<Triple<V>>,
    low: int,
    high: int,
    payload: Option<V>,
) -> Set<Triple<V>> {
    match payload {
        Some(p) => index.remove((low, high, p)),
        None => index.filter(|t: Triple<V>| !(t.0 == low && t.1 == high)),
    }
}

/// The view of the payload that a removal names, if it names one.
pub open spec fn named_view<P: Payload>(payload: Option<&P>) -> Option<P::V> {
    match payload {
        Some(p) => Some(p@),
        None => None,
    }
}

/// The triples that a list of query results stands for, in the list's order.
pub open spec fn triples_of<I: Endpoint, P: Payload>(items: Seq<Data<I, P>>) -> Seq<Triple<P::V>> {
    items.map_values(|d: Data<I, P>| d@)
}

/// Whether `items` lists the triples of `found`, each of them once, in some
/// order.
pub open spec fn lists_exactly<I: Endpoint, P: Payload>(
    items: Seq<Data<I, P>>,
    found: Set<Triple<P::V>>,
) -> bool {
    &&& triples_of(items).no_duplicates()
    &&& triples_of(items).to_set() == found
}

/// The views of a list of payloads, in the list's order.
pub open spec fn views_of<P: Payload>(payloads: Seq<P>) -> Seq<P::V> {
    payloads.map_values(|p: P| p@)
}

/// Removal only takes away, and only on the interval it names: a part of the
/// index that holds nothing on that interval is left as it is.
proof fn lemma_without_splits<V>(
    hit: Set<Triple<V>>,
    rest: Set<Triple<V>>,
    low: int,
    high: int,
    payload: Option<V>,
)
    requires
        forall|t: Triple<V>| #[trigger] rest.contains(t) ==> !(t.0 == low && t.1 == high),
    ensures
        without(hit + rest, low, high, payload) == without(hit, low, high, payload) + rest,
        without(hit, low, high, payload).subset_of(hit),
{
}

/// A list that grows twice, by the triples of two disjoint sets, has grown by
/// the triples of their union.
proof fn lemma_lists_grow<I: Endpoint, P: Payload>(
    start: Seq<Data<I, P>>,
    middle: Seq<Data<I, P>>,
    end: Seq<Data<I, P>>,
    first: Set<Triple<P::V>>,
    second: Set<Triple<P::V>>,
)
    requires
        start.is_prefix_of(middle),
        middle.is_prefix_of(end),
        lists_exactly(middle.skip(start.len() as int), first),
        lists_exactly(end.skip(middle.len() as int), second),
        first.disjoint(second),
    ensures
        start.is_prefix_of(end),
        lists_exactly(end.skip(start.len() as int), first + second),
{
    let a = triples_of(middle.skip(start.len() as int));
    let b = triples_of(end.skip(middle.len() as int));
    assert(triples_of(end.skip(start.len() as int)) =~= a + b);
    assert forall|i: int, j: int| 0 <= i < a.len() && 0 <= j < b.len() implies a[i] != b[j] by {
        assert(a.to_set().contains(a[i]));
    }
    vstd::seq_lib::lemma_no_dup_in_concat(a, b);
    vstd::seq_lib::seq_to_set_distributes_over_add(a, b);
}

/// A list that has not grown has grown by nothing.
proof fn lemma_lists_nothing<I: Endpoint, P: Payload>(items: Seq<Data<I, P>>)
    ensures
        items.is_prefix_of(items),
        lists_exactly(items.skip(items.len() as int), Set::empty()),
{
    assert(triples_of(items.skip(items.len() as int)).to_set() =~= Set::empty());
}

/// A node of the index: an interval, the payloads attached to it, the
/// greatest upper bound of its subtree, and its two children.
#[derive(Debug)]
struct IntervalTreeNode<I: Endpoint, P: Payload> {
    /// The payloads attached to `(low, high)`: at least one, no two alike.
    payloads: Vec<P>,
    max_high: I,
    low: I,
    high: I,
    left: Option<Box<IntervalTreeNode<I, P>>>,
    right: Option<Box<IntervalTreeNode<I, P>>>,
}

impl<I: Endpoint, P: Payload> IntervalTreeNode<I, P> {
    /// The triples held by the node itself.
    spec fn own_triples(self) -> Set<Triple<P::V>> {
        Set::new(
            |t: Triple<P::V>|
                t.0 == self.low.position() && t.1 == self.high.position() && views_of(
                    self.payloads@,
                ).contains(t.2),
        )
    }

    /// The triples held by the subtree rooted at the node.
    spec fn triples(self) -> Set<Triple<P::V>>
        decreases self,
    {
        self.own_triples() + Self::triples_below(self.left) + Self::triples_below(self.right)
    }

    /// The triples held by a subtree that may be absent.
    spec fn triples_below(link: Option<Box<Self>>) -> Set<Triple<P::V>>
        decreases link,
    {
        match link {
            Some(node) => node.triples(),
            None => Set::empty(),
        }
    }

    /// The greatest of the node's own upper bound and the `max_high` of its
    /// children.
    spec fn highest_of(high: I, left: Option<Box<Self>>, right: Option<Box<Self>>) -> int {
        let with_left = if left is Some && left.unwrap().max_high.position() > high.position() {
            left.unwrap().max_high.position()
        } else {
            high.position()
        };
        if right is Some && right.unwrap().max_high.position() > with_left {
            right.unwrap().max_high.position()
        } else {
            with_left
        }
    }

    /// The invariant of a subtree: at every node the interval is well ordered,
    /// the payload set is non-empty and free of repetition, `max_high` is the
    /// greatest upper bound of the subtree, everything to the left starts
    /// strictly earlier, everything to the right starts no earlier, and no
    /// other node holds the same interval.
    spec fn well_formed(self) -> bool
        decreases self,
    {
        &&& self.low.position() <= self.high.position()
        &&& self.payloads@.len() > 0
        &&& views_of(self.payloads@).no_duplicates()
        &&& self.max_high.position() == Self::highest_of(self.high, self.left, self.right)
        &&& forall|t: Triple<P::V>| #[trigger]
            Self::triples_below(self.left).contains(t) ==> t.0 < self.low.position()
        &&& forall|t: Triple<P::V>| #[trigger]
            Self::triples_below(self.right).contains(t) ==> t.0 >= self.low.position() && !(t.0
                == self.low.position() && t.1 == self.high.position())
        &&& Self::well_formed_below(self.left)
        &&& Self::well_formed_below(self.right)
    }

    /// The invariant of a subtree that may be absent.
    spec fn well_formed_below(link: Option<Box<Self>>) -> bool
        decreases link,
    {
        match link {
            Some(node) => node.well_formed(),
            None => true,
        }
    }

    /// Every triple of a well-formed subtree is a well-ordered interval that
    /// ends no later than the root's `max_high`.
    proof fn lemma_bounded(self)
        requires
            self.well_formed(),
        ensures
            forall|t: Triple<P::V>| #[trigger]
                self.triples().contains(t) ==> t.0 <= t.1 && t.1 <= self.max_high.position(),
        decreases self,
    {
        if let Some(l) = self.left {
            l.lemma_bounded();
        }
        if let Some(r) = self.right {
            r.lemma_bounded();
        }
        assert forall|t: Triple<P::V>| #[trigger] self.triples().contains(t) implies t.0 <= t.1
            && t.1 <= self.max_high.position() by {
            if Self::triples_below(self.left).contains(t) {
                assert(self.left.unwrap().triples().contains(t));
            } else if Self::triples_below(self.right).contains(t) {
                assert(self.right.unwrap().triples().contains(t));
            }
        }
    }

    /// A subtree holds finitely many triples.
    proof fn lemma_finite(self)
        ensures
            self.triples().finite(),
        decreases self,
    {
        let low: int = self.low.position();
        let high: int = self.high.position();
        let held = views_of(self.payloads@);
        let listed = held.map_values(|v: P::V| (low, high, v));
        assert forall|t: Triple<P::V>| self.own_triples().contains(t) == listed.to_set().contains(
            t,
        ) by {
            if self.own_triples().contains(t) {
                let j = choose|j: int| 0 <= j < held.len() && held[j] == t.2;
                assert(listed[j] == t);
            }
            if listed.contains(t) {
                let j = choose|j: int| 0 <= j < listed.len() && listed[j] == t;
                assert(held[j] == t.2);
            }
        }
        assert(self.own_triples() =~= listed.to_set());
        vstd::seq_lib::seq_to_set_is_finite(listed);
        if let Some(l) = self.left {
            l.lemma_finite();
        }
        if let Some(r) = self.right {
            r.lemma_finite();
        }
    }

    /// Whether the node is a leaf that holds `data` and nothing else.
    spec fn is_leaf_of(self, data: Data<I, P>) -> bool {
        &&& self.low == data.low
        &&& self.high == data.high
        &&& self.max_high == data.high
        &&& self.payloads@ == seq![data.payload]
        &&& self.left is None
        &&& self.right is None
    }

    /// A node without children that holds `data`.
    fn new(data: Data<I, P>) -> (node: Self)
        requires
            data.low.position() <= data.high.position(),
        ensures
            node.well_formed(),
            node.triples() == Set::<Triple<P::V>>::empty().insert(data@),
            node.is_leaf_of(data),
    {
        let mut payloads: Vec<P> = Vec::new();
        payloads.push(data.payload);
        let node = IntervalTreeNode {
            payloads,
            max_high: data.high,
            low: data.low,
            high: data.high,
            left: None,
            right: None,
        };
        proof {
            assert(views_of(node.payloads@)[0] == data.payload@);
        }
        node
    }

    /// Sets `max_high` from the node's own upper bound and its children.
    fn refresh_max_high(&mut self)
        ensures
            final(self).max_high.position() == Self::highest_of(
                old(self).high,
                old(self).left,
                old(self).right,
            ),
            final(self).payloads == old(self).payloads,
            final(self).low == old(self).low,
            final(self).high == old(self).high,
            final(self).left == old(self).left,
            final(self).right == old(self).right,
    {
        let mut highest = self.high;
        if let Some(l) = &self.left {
            if highest.precedes(l.max_high) {
                highest = l.max_high;
            }
        }
        if let Some(r) = &self.right {
            if highest.precedes(r.max_high) {
                highest = r.max_high;
            }
        }
        self.max_high = highest;
    }

    /// Adds `payload` to the node's own set unless it is there already.
    fn add_payload(&mut self, payload: P)
        requires
            views_of(old(self).payloads@).no_duplicates(),
        ensures
            views_of(final(self).payloads@).no_duplicates(),
            final(self).payloads@.len() > 0,
            final(self).own_triples() == old(self).own_triples().insert(
                (old(self).low.position(), old(self).high.position(), payload@),
            ),
            final(self).max_high == old(self).max_high,
            final(self).low == old(self).low,
            final(self).high == old(self).high,
            final(self).left == old(self).left,
            final(self).right == old(self).right,
    {
        let mut i: usize = 0;
        while i < self.payloads.len()
            invariant
                i <= self.payloads.len(),
                *self == *old(self),
                views_of(self.payloads@).no_duplicates(),
                forall|j: int| 0 <= j < i ==> views_of(self.payloads@)[j] != payload@,
            decreases self.payloads.len() - i,
        {
            if self.payloads[i].same(&payload) {
                proof {
                    assert(views_of(self.payloads@)[i as int] == payload@);
                }
                return ;
            }
            i += 1;
        }
        proof {
            assert(views_of(self.payloads@.push(payload)) =~= views_of(self.payloads@).push(
                payload@,
            ));
        }
        self.payloads.push(payload);
        proof {
            let added = (self.low.position(), self.high.position(), payload@);
            assert forall|t: Triple<P::V>|
                self.own_triples().contains(t) == old(self).own_triples().insert(added).contains(
                    t,
                ) by {
                let before = views_of(old(self).payloads@);
                let after = views_of(self.payloads@);
                if before.contains(t.2) {
                    let j = choose|j: int| 0 <= j < before.len() && before[j] == t.2;
                    assert(after[j] == t.2);
                }
                if t.2 == payload@ {
                    assert(after[after.len() - 1] == t.2);
                }
            }
        }
    }

    /// Inserts `data` below the node: to the left where it starts earlier than
    /// the node, into the node's own payload set where the interval is the
    /// node's, to the right otherwise. Where the side it goes to is empty, a
    /// new leaf is hung there. The rest of the node stays as it is.
    fn insert(&mut self, data: Data<I, P>)
        requires
            old(self).well_formed(),
            data.low.position() <= data.high.position(),
        ensures
            final(self).well_formed(),
            final(self).triples() == old(self).triples().insert(data@),
            final(self).low == old(self).low,
            final(self).high == old(self).high,
            data.low.position() < old(self).low.position() ==> {
                &&& final(self).payloads == old(self).payloads
                &&& final(self).right == old(self).right
                &&& final(self).left is Some
                &&& Self::triples_below(final(self).left) == Self::triples_below(
                    old(self).left,
                ).insert(data@)
                &&& old(self).left is None ==> final(self).left.unwrap().is_leaf_of(data)
            },
            data.low.position() == old(self).low.position() && data.high.position() == old(
                self,
            ).high.position() ==> {
                &&& final(self).left == old(self).left
                &&& final(self).right == old(self).right
                &&& final(self).own_triples() == old(self).own_triples().insert(data@)
            },
            data.low.position() >= old(self).low.position() && !(data.low.position() == old(
                self,
            ).low.position() && data.high.position() == old(self).high.position()) ==> {
                &&& final(self).payloads == old(self).payloads
                &&& final(self).left == old(self).left
                &&& final(self).right is Some
                &&& Self::triples_below(final(self).right) == Self::triples_below(
                    old(self).right,
                ).insert(data@)
                &&& old(self).right is None ==> final(self).right.unwrap().is_leaf_of(data)
            },
        decreases *old(self),
    {
        if data.low.precedes(self.low) {
            match &mut self.left {
                Some(left) => {
                    left.insert(data);
                },
                None => {
                    self.left = Some(Box::new(IntervalTreeNode::new(data)));
                },
            }
        } else if coincide(data.low, self.low) && coincide(data.high, self.high) {
            self.add_payload(data.payload);
        } else {
            match &mut self.right {
                Some(right) => {
                    right.insert(data);
                },
                None => {
                    self.right = Some(Box::new(IntervalTreeNode::new(data)));
                },
            }
        }
        self.refresh_max_high();
        proof {
            assert forall|t: Triple<P::V>| #[trigger]
                Self::triples_below(self.left).contains(t) implies t.0 < self.low.position() by {
                if t != data@ {
                    assert(Self::triples_below(old(self).left).contains(t));
                }
            }
            assert forall|t: Triple<P::V>| #[trigger]
                Self::triples_below(self.right).contains(t) implies t.0 >= self.low.position()
                && !(t.0 == self.low.position() && t.1 == self.high.position()) by {
                if t != data@ {
                    assert(Self::triples_below(old(self).right).contains(t));
                }
            }
        }
    }

    /// The node reached from this one by going left as long as possible: the
    /// in-order first node of the subtree.
    spec fn leftmost(self) -> Self
        decreases self,
    {
        match self.left {
            Some(l) => l.leftmost(),
            None => self,
        }
    }

    /// The leftmost node of a well-formed subtree is well formed, has no left
    /// child, starts no later than anything in the subtree, and holds every
    /// triple of the subtree that lies on its interval.
    proof fn lemma_leftmost(self)
        requires
            self.well_formed(),
        ensures
            self.leftmost().well_formed(),
            self.leftmost().left is None,
            self.leftmost().own_triples().subset_of(self.triples()),
            forall|t: Triple<P::V>| #[trigger]
                self.triples().contains(t) ==> t.0 >= self.leftmost().low.position(),
            forall|t: Triple<P::V>| #[trigger]
                self.triples().contains(t) && t.0 == self.leftmost().low.position() && t.1
                    == self.leftmost().high.position() ==> self.leftmost().own_triples().contains(
                    t,
                ),
        decreases self,
    {
        let first = self.leftmost();
        match self.left {
            Some(l) => {
                l.lemma_leftmost();
                let witness = (
                    first.low.position(),
                    first.high.position(),
                    views_of(first.payloads@)[0],
                );
                assert(first.own_triples().contains(witness));
                assert(Self::triples_below(self.left).contains(witness));
                assert forall|t: Triple<P::V>| #[trigger] self.triples().contains(t) implies t.0
                    >= first.low.position() && (t.0 == first.low.position() && t.1
                    == first.high.position() ==> first.own_triples().contains(t)) by {
                    assert(l.triples().contains(t) || Self::triples_below(self.right).contains(t)
                        || self.own_triples().contains(t));
                }
            },
            None => {
                assert forall|t: Triple<P::V>| #[trigger] self.triples().contains(t) implies t.0
                    >= first.low.position() && (t.0 == first.low.position() && t.1
                    == first.high.position() ==> first.own_triples().contains(t)) by {
                    assert(Self::triples_below(self.right).contains(t)
                        || self.own_triples().contains(t));
                }
            },
        }
    }

    /// Walks down the left spine to the in-order first node of the subtree.
    fn find_leftmost(&self) -> (first: &Self)
        ensures
            *first == self.leftmost(),
    {
        let mut current = self;
        while current.left.is_some()
            invariant
                current.leftmost() == self.leftmost(),
            decreases current,
        {
            current = current.left.as_ref().unwrap();
        }
        current
    }

    /// Whether nothing is left of `payloads` once `payload` is taken out of
    /// them, or, where no payload is named, once all are.
    spec fn leaves_none(payloads: Seq<P>, payload: Option<P::V>) -> bool {
        match payload {
            Some(p) => forall|j: int|
                0 <= j < payloads.len() ==> #[trigger] views_of(payloads)[j] == p,
            None => true,
        }
    }

    /// Whether a removal of `payload` from the interval `(low, high)` finds
    /// that interval at this node and leaves the node without payloads, so
    /// that the node is spliced out.
    spec fn emptied_by(self, low: int, high: int, payload: Option<P::V>) -> bool {
        &&& low == self.low.position()
        &&& high == self.high.position()
        &&& Self::leaves_none(self.payloads@, payload)
    }

    /// Takes `payload` out of the node's own set; with no payload named, empties
    /// the set.
    fn drop_payload(&mut self, payload: Option<&P>)
        requires
            views_of(old(self).payloads@).no_duplicates(),
        ensures
            views_of(final(self).payloads@).no_duplicates(),
            final(self).payloads@.len() == 0 <==> Self::leaves_none(
                old(self).payloads@,
                named_view(payload),
            ),
            final(self).own_triples() == without(
                old(self).own_triples(),
                old(self).low.position(),
                old(self).high.position(),
                named_view(payload),
            ),
            final(self).payloads@.len() == 0 ==> final(self).own_triples()
                == Set::<Triple<P::V>>::empty(),
            final(self).max_high == old(self).max_high,
            final(self).low == old(self).low,
            final(self).high == old(self).high,
            final(self).left == old(self).left,
            final(self).right == old(self).right,
    {
        match payload {
            Some(p) => {
                let mut i: usize = 0;
                while i < self.payloads.len()
                    invariant
                        i <= self.payloads.len(),
                        *self == *old(self),
                        views_of(self.payloads@).no_duplicates(),
                        forall|j: int| 0 <= j < i ==> views_of(self.payloads@)[j] != p@,
                        payload == Some(p),
                    decreases self.payloads.len() - i,
                {
                    if self.payloads[i].same(p) {
                        self.payloads.remove(i);
                        proof {
                            let before = views_of(old(self).payloads@);
                            let after = views_of(self.payloads@);
                            assert(after =~= before.remove(i as int));
                            assert(before[i as int] == p@);
                            assert forall|t: Triple<P::V>|
                                self.own_triples().contains(t) == old(self).own_triples().remove(
                                    (self.low.position(), self.high.position(), p@),
                                ).contains(t) by {
                                if after.contains(t.2) {
                                    let j = choose|j: int| 0 <= j < after.len() && after[j] == t.2;
                                    assert(before.contains(after[j]));
                                }
                                if before.contains(t.2) && t.2 != p@ {
                                    let j = choose|j: int|
                                        0 <= j < before.len() && before[j] == t.2;
                                    if j < i {
                                        assert(after[j] == t.2);
                                    } else {
                                        assert(after[j - 1] == t.2);
                                    }
                                }
                            }
                            if before.len() >= 2 {
                                let other: int = if i == 0 {
                                    1
                                } else {
                                    0
                                };
                                assert(before[other] != before[i as int]);
                            }
                        }
                        return ;
                    }
                    i += 1;
                }
                proof {
                    if self.payloads@.len() > 0 {
                        assert(views_of(self.payloads@)[0] != p@);
                    }
                }
            },
            None => {
                self.payloads.clear();
            },
        }
    }

    /// A list of second handles on the payloads of `payloads`, in the same
    /// order.
    fn duplicate_all(payloads: &Vec<P>) -> (copies: Vec<P>)
        ensures
            views_of(copies@) == views_of(payloads@),
    {
        let mut copies: Vec<P> = Vec::new();
        let mut i: usize = 0;
        while i < payloads.len()
            invariant
                i <= payloads.len(),
                copies@.len() == i,
                forall|j: int| 0 <= j < i ==> copies@[j]@ == payloads@[j]@,
            decreases payloads.len() - i,
        {
            copies.push(payloads[i].duplicate());
            i += 1;
        }
        copies
    }

    /// Removes `payload` from the interval `(low, high)` below `node`, or the
    /// whole interval where no payload is named, and hands back what is left
    /// of the subtree.
    ///
    /// A node that keeps a payload stays where it is, and only the part of it
    /// that the interval lies in is touched: the left subtree where the
    /// interval starts before the node, the node's own payloads where the
    /// interval is the node's, the right subtree otherwise.
    ///
    /// A node left without payloads is spliced out: a node with at most one
    /// child gives way to that child; a node with two children takes over the
    /// interval and the payloads of its in-order successor, the leftmost node
    /// of its right subtree, which is then removed from the right subtree.
    fn remove(mut node: Box<Self>, low: I, high: I, payload: Option<&P>) -> (rest: Option<
        Box<Self>,
    >)
        requires
            node.well_formed(),
        ensures
            Self::well_formed_below(rest),
            Self::triples_below(rest) == without(
                node.triples(),
                low.position(),
                high.position(),
                named_view(payload),
            ),
            !node.emptied_by(low.position(), high.position(), named_view(payload)) ==> {
                &&& rest is Some
                &&& rest.unwrap().low == node.low
                &&& rest.unwrap().high == node.high
            },
            !node.emptied_by(low.position(), high.position(), named_view(payload))
                && low.position() < node.low.position() ==> {
                &&& rest.unwrap().payloads == node.payloads
                &&& rest.unwrap().right == node.right
                &&& Self::triples_below(rest.unwrap().left) == without(
                    Self::triples_below(node.left),
                    low.position(),
                    high.position(),
                    named_view(payload),
                )
            },
            !node.emptied_by(low.position(), high.position(), named_view(payload))
                && low.position() == node.low.position() && high.position()
                == node.high.position() ==> {
                &&& rest.unwrap().left == node.left
                &&& rest.unwrap().right == node.right
                &&& rest.unwrap().own_triples() == without(
                    node.own_triples(),
                    low.position(),
                    high.position(),
                    named_view(payload),
                )
            },
            low.position() >= node.low.position() && !(low.position() == node.low.position()
                && high.position() == node.high.position()) ==> {
                &&& rest.unwrap().payloads == node.payloads
                &&& rest.unwrap().left == node.left
                &&& Self::triples_below(rest.unwrap().right) == without(
                    Self::triples_below(node.right),
                    low.position(),
                    high.position(),
                    named_view(payload),
                )
            },
            node.emptied_by(low.position(), high.position(), named_view(payload))
                && node.left is None ==> rest == node.right,
            node.emptied_by(low.position(), high.position(), named_view(payload))
                && node.left is Some && node.right is None ==> rest == node.left,
            node.emptied_by(low.position(), high.position(), named_view(payload))
                && node.left is Some && node.right is Some ==> {
                &&& rest is Some
                &&& rest.unwrap().low == node.right.unwrap().leftmost().low
                &&& rest.unwrap().high == node.right.unwrap().leftmost().high
                &&& views_of(rest.unwrap().payloads@) == views_of(
                    node.right.unwrap().leftmost().payloads@,
                )
                &&& rest.unwrap().left == node.left
                &&& Self::triples_below(rest.unwrap().right) == without(
                    node.right.unwrap().triples(),
                    node.right.unwrap().leftmost().low.position(),
                    node.right.unwrap().leftmost().high.position(),
                    None,
                )
            },
        decreases node,
    {
        let ghost before = *node;
        let ghost left_before = Self::triples_below(before.left);
        let ghost right_before = Self::triples_below(before.right);
        let ghost l: int = low.position();
        let ghost h: int = high.position();
        let ghost named = named_view(payload);
        if low.precedes(node.low) {
            if let Some(left) = node.left.take() {
                node.left = Self::remove(left, low, high, payload);
            }
            proof {
                let rest = before.own_triples() + right_before;
                lemma_without_splits(left_before, rest, l, h, named);
            }
        } else if coincide(low, node.low) && coincide(high, node.high) {
            node.drop_payload(payload);
            proof {
                let rest = left_before + right_before;
                lemma_without_splits(before.own_triples(), rest, l, h, named);
                assert(before.triples() =~= before.own_triples() + rest);
            }
            if node.payloads.len() == 0 {
                if node.left.is_none() {
                    return node.right.take();
                } else if node.right.is_none() {
                    return node.left.take();
                } else {
                    let right = node.right.take().unwrap();
                    let successor = right.find_leftmost();
                    let successor_low = successor.low;
                    let successor_high = successor.high;
                    let successor_payloads = Self::duplicate_all(&successor.payloads);
                    node.low = successor_low;
                    node.high = successor_high;
                    node.payloads = successor_payloads;
                    node.right = Self::remove(right, successor_low, successor_high, None);
                    proof {
                        let first = right.leftmost();
                        right.lemma_leftmost();
                        let witness = (
                            first.low.position(),
                            first.high.position(),
                            views_of(first.payloads@)[0],
                        );
                        assert(first.own_triples().contains(witness));
                    }
                }
            }
        } else {
            if let Some(right) = node.right.take() {
                node.right = Self::remove(right, low, high, payload);
            }
            proof {
                let rest = before.own_triples() + left_before;
                lemma_without_splits(right_before, rest, l, h, named);
            }
        }
        node.refresh_max_high();
        Some(node)
    }

    /// Appends one item for each payload of the node itself.
    fn emit(&self, result: &mut Vec<Data<I, P>>)
        requires
            views_of(self.payloads@).no_duplicates(),
        ensures
            old(result)@.is_prefix_of(final(result)@),
            lists_exactly(final(result)@.skip(old(result)@.len() as int), self.own_triples()),
    {
        let ghost start = result@;
        let mut i: usize = 0;
        while i < self.payloads.len()
            invariant
                i <= self.payloads.len(),
                result@.len() == start.len() + i,
                start.is_prefix_of(result@),
                forall|j: int|
                    0 <= j < i ==> (#[trigger] result@[start.len() + j])@ == (
                        self.low.position(),
                        self.high.position(),
                        self.payloads@[j]@,
                    ),
            decreases self.payloads.len() - i,
        {
            result.push(Data::new(self.low, self.high, &self.payloads[i]));
            i += 1;
        }
        proof {
            let added = triples_of(result@.skip(start.len() as int));
            let held = views_of(self.payloads@);
            assert forall|j: int| 0 <= j < added.len() implies #[trigger] added[j] == (
                self.low.position(),
                self.high.position(),
                held[j],
            ) by {
                assert(result@.skip(start.len() as int)[j] == result@[start.len() + j]);
            }
            assert forall|t: Triple<P::V>|
                added.to_set().contains(t) == self.own_triples().contains(t) by {
                if added.contains(t) {
                    let j = choose|j: int| 0 <= j < added.len() && added[j] == t;
                    assert(held[j] == t.2);
                }
                if self.own_triples().contains(t) {
                    let j = choose|j: int| 0 <= j < held.len() && held[j] == t.2;
                    assert(added[j] == t);
                }
            }
            assert(added.to_set() =~= self.own_triples());
        }
    }

    /// Appends the triples of the subtree that end at `end_value` or earlier.
    fn get_intervals_ending_before(&self, end_value: I, result: &mut Vec<Data<I, P>>)
        requires
            self.well_formed(),
        ensures
            old(result)@.is_prefix_of(final(result)@),
            lists_exactly(
                final(result)@.skip(old(result)@.len() as int),
                ending_before(self.triples(), end_value.position()),
            ),
        decreases self,
    {
        let ghost start = result@;
        let ghost end: int = end_value.position();
        let ghost own = ending_before(self.own_triples(), end);
        let ghost left = ending_before(Self::triples_below(self.left), end);
        let ghost right = ending_before(Self::triples_below(self.right), end);
        if !end_value.precedes(self.high) {
            self.emit(result);
            proof {
                assert(own =~= self.own_triples());
            }
        } else {
            proof {
                assert(own =~= Set::<Triple<P::V>>::empty());
                lemma_lists_nothing(result@);
            }
        }
        let ghost after_own = result@;
        if let Some(l) = &self.left {
            l.get_intervals_ending_before(end_value, result);
        } else {
            proof {
                assert(left =~= Set::<Triple<P::V>>::empty());
                lemma_lists_nothing(result@);
            }
        }
        let ghost after_left = result@;
        if let Some(r) = &self.right {
            r.get_intervals_ending_before(end_value, result);
        } else {
            proof {
                assert(right =~= Set::<Triple<P::V>>::empty());
                lemma_lists_nothing(result@);
            }
        }
        proof {
            lemma_lists_grow(start, after_own, after_left, own, left);
            lemma_lists_grow(start, after_left, result@, own + left, right);
            assert(own + left + right =~= ending_before(self.triples(), end));
        }
    }

    /// Appends the triples of the subtree whose open interval meets the open
    /// interval `(low, high)`. The left subtree is skipped where nothing in it
    /// ends after `low`.
    fn get_intervals_overlapping_with(&self, low: I, high: I, result: &mut Vec<Data<I, P>>)
        requires
            self.well_formed(),
        ensures
            old(result)@.is_prefix_of(final(result)@),
            lists_exactly(
                final(result)@.skip(old(result)@.len() as int),
                overlapping(self.triples(), low.position(), high.position()),
            ),
        decreases self,
    {
        let ghost start = result@;
        let ghost lo: int = low.position();
        let ghost hi: int = high.position();
        let ghost own = overlapping(self.own_triples(), lo, hi);
        let ghost left = overlapping(Self::triples_below(self.left), lo, hi);
        let ghost right = overlapping(Self::triples_below(self.right), lo, hi);
        if low.precedes(self.high) && self.low.precedes(high) {
            self.emit(result);
            proof {
                assert(own =~= self.own_triples());
            }
        } else {
            proof {
                assert(own =~= Set::<Triple<P::V>>::empty());
                lemma_lists_nothing(result@);
            }
        }
        let ghost after_own = result@;
        if let Some(l) = &self.left {
            if !l.max_high.precedes(low) {
                l.get_intervals_overlapping_with(low, high, result);
            } else {
                proof {
                    l.lemma_bounded();
                    assert forall|t: Triple<P::V>| #[trigger]
                        Self::triples_below(self.left).contains(t) implies t.1 < lo by {
                        assert(l.triples().contains(t));
                    }
                    assert(left =~= Set::<Triple<P::V>>::empty());
                    lemma_lists_nothing(result@);
                }
            }
        } else {
            proof {
                assert(left =~= Set::<Triple<P::V>>::empty());
                lemma_lists_nothing(result@);
            }
        }
        let ghost after_left = result@;
        if let Some(r) = &self.right {
            r.get_intervals_overlapping_with(low, high, result);
        } else {
            proof {
                assert(right =~= Set::<Triple<P::V>>::empty());
                lemma_lists_nothing(result@);
            }
        }
        proof {
            lemma_lists_grow(start, after_own, after_left, own, left);
            lemma_lists_grow(start, after_left, result@, own + left, right);
            assert(own + left + right =~= overlapping(self.triples(), lo, hi));
        }
    }
}

/// The interval index.
#[derive(Debug)]
pub struct IntervalTree<I: Endpoint, P: Payload> {
    root: Option<Box<IntervalTreeNode<I, P>>>,
}

impl<I: Endpoint, P: Payload> View for IntervalTree<I, P> {
    type V = Set<Triple<P::V>>;

    closed spec fn view(&self) -> Set<Triple<P::V>> {
        IntervalTreeNode::triples_below(self.root)
    }
}

impl<I: Endpoint, P: Payload> Default for IntervalTree<I, P> {
    fn default() -> (tree: Self)
        ensures
            tree.well_formed(),
            tree@ == Set::<Triple<P::V>>::empty(),
    {
        Self::new()
    }
}

impl<I: Endpoint, P: Payload> IntervalTree<I, P> {
    /// The invariant of the index: the search order on lower bounds and the
    /// `max_high` augmentation hold at every node, and every node carries at
    /// least one payload.
    pub closed spec fn well_formed(&self) -> bool {
        IntervalTreeNode::well_formed_below(self.root)
    }

    /// Every interval of a well-formed index ends no earlier than it starts.
    pub proof fn lemma_intervals_ordered(&self)
        requires
            self.well_formed(),
        ensures
            forall|t: Triple<P::V>| #[trigger] self@.contains(t) ==> t.0 <= t.1,
    {
        if self.root is Some {
            let root = self.root.unwrap();
            root.lemma_bounded();
            assert forall|t: Triple<P::V>| #[trigger] self@.contains(t) implies t.0 <= t.1 by {
                assert(root.triples().contains(t));
            }
        }
    }

    /// The index holds finitely many triples.
    pub proof fn lemma_finite(&self)
        ensures
            self@.finite(),
    {
        if self.root is Some {
            self.root.unwrap().lemma_finite();
        }
    }

    /// An index that holds nothing.
    pub fn new() -> (tree: Self)
        ensures
            tree.well_formed(),
            tree@ == Set::<Triple<P::V>>::empty(),
    {
        IntervalTree { root: None }
    }

    /// Whether the index holds nothing.
    pub fn is_empty(&self) -> (empty: bool)
        requires
            self.well_formed(),
        ensures
            empty == (self@ == Set::<Triple<P::V>>::empty()),
    {
        proof {
            if self.root is Some {
                let root = self.root.unwrap();
                let held = (
                    root.low.position(),
                    root.high.position(),
                    views_of(root.payloads@)[0],
                );
                assert(self@.contains(held));
            }
        }
        self.root.is_none()
    }

    /// Adds the payload of `data` to the interval of `data`. Where the index
    /// holds it already, nothing changes.
    pub fn insert(&mut self, data: Data<I, P>)
        requires
            old(self).well_formed(),
            data.low.position() <= data.high.position(),
        ensures
            final(self).well_formed(),
            final(self)@ == old(self)@.insert(data@),
    {
        match &mut self.root {
            Some(root) => {
                root.insert(data);
            },
            None => {
                self.root = Some(Box::new(IntervalTreeNode::new(data)));
            },
        }
    }

    /// Removes the payload of `data` from the interval of `data`. Where the
    /// index does not hold it, nothing changes.
    pub fn remove(&mut self, data: &Data<I, P>)
        requires
            old(self).well_formed(),
        ensures
            final(self).well_formed(),
            final(self)@ == old(self)@.remove(data@),
    {
        if let Some(root) = self.root.take() {
            self.root = IntervalTreeNode::remove(root, data.low, data.high, Some(&data.payload));
        }
    }

    /// Removes the interval from `low` to `high` with all its payloads. Where
    /// the index does not hold it, nothing changes.
    pub fn remove_all(&mut self, low: I, high: I)
        requires
            old(self).well_formed(),
        ensures
            final(self).well_formed(),
            final(self)@ == without(old(self)@, low.position(), high.position(), None),
    {
        if let Some(root) = self.root.take() {
            self.root = IntervalTreeNode::remove(root, low, high, None);
        }
    }

    /// Every triple of the index that ends at `end_value` or earlier, each
    /// once, in no particular order.
    pub fn get_intervals_ending_before(&self, end_value: I) -> (result: Vec<Data<I, P>>)
        requires
            self.well_formed(),
        ensures
            lists_exactly(result@, ending_before(self@, end_value.position())),
            result@.len() == ending_before(self@, end_value.position()).len(),
    {
        let mut result: Vec<Data<I, P>> = Vec::new();
        if let Some(root) = &self.root {
            root.get_intervals_ending_before(end_value, &mut result);
            proof {
                assert(result@.skip(0) =~= result@);
            }
        } else {
            proof {
                assert(triples_of(result@).to_set() =~= ending_before(
                    self@,
                    end_value.position(),
                ));
            }
        }
        proof {
            triples_of(result@).unique_seq_to_set();
        }
        result
    }

    /// Every triple of the index whose open interval meets the open interval
    /// between `low` and `high`, each once, in no particular order. The two
    /// bounds may be given in either order.
    pub fn get_overlapping_intervals_with(&self, low: I, high: I) -> (result: Vec<Data<I, P>>)
        requires
            self.well_formed(),
        ensures
            lists_exactly(
                result@,
                overlapping(
                    self@,
                    vstd::math::min(low.position(), high.position()),
                    vstd::math::max(low.position(), high.position()),
                ),
            ),
            result@.len() == overlapping(
                self@,
                vstd::math::min(low.position(), high.position()),
                vstd::math::max(low.position(), high.position()),
            ).len(),
    {
        let mut result: Vec<Data<I, P>> = Vec::new();
        let (from, to) = if high.precedes(low) {
            (high, low)
        } else {
            (low, high)
        };
        if let Some(root) = &self.root {
            root.get_intervals_overlapping_with(from, to, &mut result);
            proof {
                assert(result@.skip(0) =~= result@);
            }
        } else {
            proof {
                assert(triples_of(result@).to_set() =~= overlapping(
                    self@,
                    from.position(),
                    to.position(),
                ));
            }
        }
        proof {
            triples_of(result@).unique_seq_to_set();
        }
        result
    }
}

/// Inserting a triple that the index does not hold and then removing it again
/// leaves the index as it was before, so that every query answers as it did.
pub proof fn lemma_insert_then_remove<I: Endpoint, P: Payload>(
    before: IntervalTree<I, P>,
    between: IntervalTree<I, P>,
    after: IntervalTree<I, P>,
    data: Data<I, P>,
)
    requires
        !before@.contains(data@),
        between@ == before@.insert(data@),
        after@ == between@.remove(data@),
    ensures
        after@ == before@,
        forall|low: int, high: int| #[trigger]
            overlapping(after@, low, high) == overlapping(before@, low, high),
        forall|end: int| #[trigger] ending_before(after@, end) == ending_before(before@, end),
{
}

} // verus!
