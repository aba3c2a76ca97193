//! The scheduler: a registry of rooms, the index of their bookings, the queue
//! of the end-times still to be cleaned up after, and the signal for the
//! cleanup worker.
//!
//! The scheduler is a plain value. Every operation takes it as a whole, so
//! that a booking is checked and entered in one step; the program that shares
//! it between threads wraps it in a lock.

use crate::cleanup::{CleanupContext, CleanupContextStopReason};
use crate::intervaltree::{overlapping, triples_of, views_of, Data, IntervalTree, Triple};
use crate::min_heap::{is_least, MinHeap};
use crate::traits::Endpoint;
use crate::types::{DateTimeSlot, Duration, MeetingRoom, MeetingRoomBooking, RoomView, Timestamp};
use vstd::multiset::Multiset;
use vstd::prelude::*;

verus! {

/// What the scheduler holds of a booking: the positions of its start and its
/// end, and the name of the room.
pub type BookedSlot = Triple<Seq<char>>;

/// What a scheduler is in specifications.
pub struct SchedulerView {
    /// The registered rooms, in the order in which their names were first
    /// registered.
    pub rooms: Seq<RoomView>,
    /// The bookings in force, each as `(start, end, room name)`.
    pub bookings: Set<BookedSlot>,
    /// The end-times that the cleanup worker has still to wake up for.
    pub end_times: Multiset<int>,
    /// The signal that is waiting for the cleanup worker.
    pub wake_reason: CleanupContextStopReason,
}

/// The views of a list of rooms, in the list's order.
pub open spec fn rooms_of(rooms: Seq<MeetingRoom>) -> Seq<RoomView> {
    rooms.map_values(|r: MeetingRoom| r@)
}

/// Whether no two rooms of the list share a name.
pub open spec fn names_distinct(rooms: Seq<RoomView>) -> bool {
    forall|i: int, j: int| 0 <= i < j < rooms.len() ==> rooms[i].name != rooms[j].name
}

/// Whether a room of this name is registered.
pub open spec fn is_registered(rooms: Seq<RoomView>, name: Seq<char>) -> bool {
    exists|i: int| 0 <= i < rooms.len() && #[trigger] rooms[i].name == name
}

/// Whether the room `name` has a booking whose open interval meets the open
/// interval `(start, end)`.
pub open spec fn is_booked(
    bookings: Set<BookedSlot>,
    name: Seq<char>,
    start: int,
    end: int,
) -> bool {
    exists|t: BookedSlot| #[trigger]
        bookings.contains(t) && t.2 == name && start < t.1 && end > t.0
}

/// Whether the room at place `i` of the registry is the first that has no
/// booking overlapping `(start, end)`.
pub open spec fn is_first_free(v: SchedulerView, i: int, start: int, end: int) -> bool {
    &&& 0 <= i < v.rooms.len()
    &&& !is_booked(v.bookings, v.rooms[i].name, start, end)
    &&& forall|j: int|
        0 <= j < i ==> is_booked(v.bookings, (#[trigger] v.rooms[j]).name, start, end)
}

/// Whether no room of the registry is free of bookings overlapping
/// `(start, end)`.
pub open spec fn none_free(v: SchedulerView, start: int, end: int) -> bool {
    forall|i: int|
        0 <= i < v.rooms.len() ==> is_booked(v.bookings, (#[trigger] v.rooms[i]).name, start, end)
}

/// Whether no two bookings of one room overlap as open intervals.
pub open spec fn conflict_free(bookings: Set<BookedSlot>) -> bool {
    forall|a: BookedSlot, b: BookedSlot|
        #[trigger] bookings.contains(a) && #[trigger] bookings.contains(b) && a.2 == b.2 && a != b
            ==> !(a.0 < b.1 && b.0 < a.1)
}

/// Whether the end of every booking is among the pending end-times.
pub open spec fn ends_pending(bookings: Set<BookedSlot>, end_times: Multiset<int>) -> bool {
    forall|t: BookedSlot| #[trigger] bookings.contains(t) ==> end_times.contains(t.1)
}

/// What holds of every scheduler between operations.
pub open spec fn consistent(v: SchedulerView) -> bool {
    &&& names_distinct(v.rooms)
    &&& conflict_free(v.bookings)
    &&& ends_pending(v.bookings, v.end_times)
    &&& forall|t: BookedSlot| #[trigger] v.bookings.contains(t) ==> t.0 <= t.1
}

/// Whether a new end-time has to wake the cleanup worker: it is the first
/// pending one, or it lies before all that are pending.
pub open spec fn restart_due(end_times: Multiset<int>, end: int) -> bool {
    end_times.len() == 0 || forall|e: int| #[trigger] end_times.contains(e) ==> end < e
}

/// The scheduler after the room `name` has been booked from `start` to `end`.
/// A signal to stop is never overwritten.
pub open spec fn booked(v: SchedulerView, name: Seq<char>, start: int, end: int) -> SchedulerView {
    SchedulerView {
        rooms: v.rooms,
        bookings: v.bookings.insert((start, end, name)),
        end_times: v.end_times.insert(end),
        wake_reason: if v.wake_reason == CleanupContextStopReason::Stop {
            CleanupContextStopReason::Stop
        } else if restart_due(v.end_times, end) {
            CleanupContextStopReason::Restart
        } else {
            v.wake_reason
        },
    }
}

/// The bookings that end after `now`.
pub open spec fn still_running(bookings: Set<BookedSlot>, now: int) -> Set<BookedSlot> {
    bookings.filter(|t: BookedSlot| t.1 > now)
}

/// Whether one of the pending end-times lies before `now`.
pub open spec fn has_overdue(end_times: Multiset<int>, now: int) -> bool {
    exists|e: int| #[trigger] end_times.contains(e) && e < now
}

/// The end-times that do not lie before `now`.
pub open spec fn not_before(end_times: Multiset<int>, now: int) -> Multiset<int> {
    end_times.filter(|e: int| e >= now)
}

/// The earliest of the pending end-times, where any is pending.
pub open spec fn earliest(end_times: Multiset<int>) -> int {
    choose|e: int| is_least(end_times, e)
}

/// The scheduler after the cleanup worker has swept it at the instant `now`:
/// the end-times that lay before `now` are gone from the queue and, if there
/// was one, so are the bookings that ended at `now` or earlier.
pub open spec fn swept(v: SchedulerView, now: int) -> SchedulerView {
    SchedulerView {
        bookings: if has_overdue(v.end_times, now) {
            still_running(v.bookings, now)
        } else {
            v.bookings
        },
        end_times: not_before(v.end_times, now),
        ..v
    }
}

/// How long the cleanup worker may sleep from `now` on: until the earliest
/// pending end-time, or without limit where none is pending.
pub open spec fn wait_from(v: SchedulerView, now: int) -> Option<int> {
    if v.end_times.len() == 0 {
        None
    } else {
        Some(earliest(v.end_times) - now)
    }
}

/// The scheduler after the timer of the cleanup worker has run out: the
/// earliest pending end-time is gone from the queue, and so are the bookings
/// that ended then or earlier.
pub open spec fn expired(v: SchedulerView) -> SchedulerView {
    if v.end_times.len() == 0 {
        v
    } else {
        SchedulerView {
            bookings: still_running(v.bookings, earliest(v.end_times)),
            end_times: v.end_times.remove(earliest(v.end_times)),
            ..v
        }
    }
}

/// The scheduler after the wait of the cleanup worker has ended, by the timer
/// or by a signal. A signal to stop stays in place; any other is taken.
pub open spec fn woken(v: SchedulerView, timed_out: bool) -> SchedulerView {
    if timed_out {
        expired(v)
    } else if v.wake_reason == CleanupContextStopReason::Stop {
        v
    } else {
        SchedulerView { wake_reason: CleanupContextStopReason::Idle, ..v }
    }
}

/// What the cleanup worker is to do next.
#[derive(Clone, Copy, Debug, PartialEq, Eq, Structural)]
pub enum CleanupAction {
    /// Sleep until signalled, but no longer than this.
    WaitFor(Duration),
    /// Sleep until signalled.
    WaitForSignal,
    /// End.
    Exit,
}

/// The action that stands for a wait of the given length.
pub open spec fn wait_action(wait: Option<int>) -> CleanupAction {
    match wait {
        Some(nanos) => CleanupAction::WaitFor(Duration { nanos: nanos as u128 }),
        None => CleanupAction::WaitForSignal,
    }
}

/// The least element of a multiset is determined.
pub proof fn lemma_least_is_earliest(end_times: Multiset<int>, least: int)
    requires
        is_least(end_times, least),
    ensures
        earliest(end_times) == least,
        end_times.len() > 0,
{
    broadcast use vstd::multiset::group_multiset_axioms;

    let chosen = earliest(end_times);
    assert(is_least(end_times, chosen));
    assert(end_times.contains(chosen));
    assert(end_times.contains(least));
}

/// Whether `names` holds a name with the view of `name`.
fn contains_name(names: &Vec<String>, name: &String) -> (found: bool)
    ensures
        found == views_of(names@).contains(name@),
{
    let mut i: usize = 0;
    while i < names.len()
        invariant
            i <= names.len(),
            forall|j: int| 0 <= j < i ==> views_of(names@)[j] != name@,
        decreases names.len() - i,
    {
        if names[i] == *name {
            proof {
                assert(views_of(names@)[i as int] == name@);
            }
            return true;
        }
        i += 1;
    }
    false
}

/// Takes out of `index` every booking that ends at `date` or earlier.
fn purge(index: &mut IntervalTree<Timestamp, String>, date: Timestamp)
    requires
        old(index).well_formed(),
    ensures
        final(index).well_formed(),
        final(index)@ == still_running(old(index)@, date@),
{
    let expired = index.get_intervals_ending_before(date);
    let ghost hits = triples_of(expired@);
    let mut i: usize = 0;
    while i < expired.len()
        invariant
            i <= expired.len(),
            hits == triples_of(expired@),
            index.well_formed(),
            forall|t: BookedSlot|
                index@.contains(t) <==> old(index)@.contains(t) && !exists|k: int|
                    0 <= k < i && #[trigger] hits[k] == t,
        decreases expired.len() - i,
    {
        let ghost before = index@;
        index.remove(&expired[i]);
        proof {
            assert(hits[i as int] == expired@[i as int]@);
            assert forall|t: BookedSlot|
                index@.contains(t) <==> old(index)@.contains(t) && !exists|k: int|
                    0 <= k < i + 1 && #[trigger] hits[k] == t by {
                if t == hits[i as int] {
                } else {
                    if before.contains(t) {
                        if exists|k: int| 0 <= k < i + 1 && #[trigger] hits[k] == t {
                            let k = choose|k: int| 0 <= k < i + 1 && #[trigger] hits[k] == t;
                            assert(k < i);
                        }
                    }
                }
            }
        }
        i += 1;
    }
    proof {
        assert forall|t: BookedSlot|
            index@.contains(t) <==> still_running(old(index)@, date@).contains(t) by {
            if old(index)@.contains(t) && t.1 <= date@ {
                assert(hits.to_set().contains(t));
                assert(hits.contains(t));
                let k = choose|k: int| 0 <= k < hits.len() && hits[k] == t;
            }
            if exists|k: int| 0 <= k < i && #[trigger] hits[k] == t {
                let k = choose|k: int| 0 <= k < i && #[trigger] hits[k] == t;
                assert(hits.to_set().contains(hits[k]));
            }
        }
        assert(index@ =~= still_running(old(index)@, date@));
    }
}

/// Takes out of `queue` every end-time that lies before `now`, and says
/// whether there was any.
fn drain(queue: &mut MinHeap<Timestamp>, now: Timestamp) -> (popped: bool)
    requires
        old(queue).well_formed(),
    ensures
        final(queue).well_formed(),
        final(queue)@ == not_before(old(queue)@, now@),
        popped == has_overdue(old(queue)@, now@),
{
    broadcast use vstd::multiset::group_multiset_axioms;

    let mut popped = false;
    loop
        invariant
            queue.well_formed(),
            forall|e: int| e >= now@ ==> #[trigger] queue@.count(e) == old(queue)@.count(e),
            forall|e: int| #[trigger] queue@.count(e) <= old(queue)@.count(e),
            popped ==> has_overdue(old(queue)@, now@),
            !popped ==> queue@ == old(queue)@,
        ensures
            queue.well_formed(),
            forall|e: int|
                #[trigger] queue@.count(e) == if e >= now@ {
                    old(queue)@.count(e)
                } else {
                    0
                },
            popped == has_overdue(old(queue)@, now@),
        decreases queue@.len(),
    {
        match queue.peek() {
            Some(earliest) => {
                if !earliest.precedes(now) {
                    proof {
                        assert forall|e: int| e < now@ implies #[trigger] queue@.count(e) == 0 by {
                            if queue@.count(e) > 0 {
                                assert(queue@.contains(e));
                            }
                        }
                        if !popped && has_overdue(old(queue)@, now@) {
                            let e = choose|e: int| #[trigger]
                                old(queue)@.contains(e) && e < now@;
                            assert(queue@.contains(e));
                        }
                    }
                    break ;
                }
                let ghost before = queue@;
                let taken = queue.pop();
                proof {
                    let least = taken.unwrap().position();
                    assert(before.contains(least));
                    assert(before.contains(earliest.position()));
                    assert(least == earliest.position());
                    assert(old(queue)@.count(least) > 0);
                    assert(old(queue)@.contains(least));
                }
                popped = true;
            },
            None => {
                proof {
                    assert forall|e: int| #[trigger] queue@.count(e) == 0 by {
                        if queue@.count(e) > 0 {
                            assert(queue@.contains(e));
                            vstd::multiset::lemma_multiset_empty_len(queue@);
                        }
                    }
                    if !popped && has_overdue(old(queue)@, now@) {
                        let e = choose|e: int| #[trigger] old(queue)@.contains(e) && e < now@;
                        assert(queue@.count(e) > 0);
                    }
                }
                break ;
            },
        }
    }
    proof {
        assert(queue@ =~= not_before(old(queue)@, now@));
    }
    popped
}

/// The scheduler of a pool of meeting rooms.
pub struct MeetingRoomScheduler {
    i_tree: IntervalTree<Timestamp, String>,
    meeting_rooms: Vec<MeetingRoom>,
    end_times: MinHeap<Timestamp>,
    cleanup_context: CleanupContext,
}

impl View for MeetingRoomScheduler {
    type V = SchedulerView;

    closed spec fn view(&self) -> SchedulerView {
        SchedulerView {
            rooms: rooms_of(self.meeting_rooms@),
            bookings: self.i_tree@,
            end_times: self.end_times@,
            wake_reason: self.cleanup_context@,
        }
    }
}

impl MeetingRoomScheduler {
    /// The invariants of the index and of the queue of end-times.
    pub closed spec fn parts_well_formed(&self) -> bool {
        &&& self.i_tree.well_formed()
        &&& self.end_times.well_formed()
    }

    /// The invariant of the scheduler: its parts are well formed, no two rooms
    /// share a name, no two bookings of one room overlap, and the end of every
    /// booking is pending.
    pub open spec fn well_formed(&self) -> bool {
        &&& self.parts_well_formed()
        &&& consistent(self@)
    }

    /// A scheduler without rooms or bookings.
    pub fn new() -> (scheduler: Self)
        ensures
            scheduler.well_formed(),
            scheduler@ == (SchedulerView {
                rooms: Seq::empty(),
                bookings: Set::empty(),
                end_times: Multiset::empty(),
                wake_reason: CleanupContextStopReason::Idle,
            }),
    {
        let scheduler = Self {
            i_tree: IntervalTree::new(),
            meeting_rooms: Vec::new(),
            end_times: MinHeap::new(),
            cleanup_context: CleanupContext::new(),
        };
        proof {
            assert(rooms_of(scheduler.meeting_rooms@) =~= Seq::<RoomView>::empty());
        }
        scheduler
    }

    /// The place in the registry of the room called `name`.
    fn find_room(&self, name: &String) -> (place: Option<usize>)
        ensures
            match place {
                Some(i) => i < self@.rooms.len() && self@.rooms[i as int].name == name@,
                None => !is_registered(self@.rooms, name@),
            },
    {
        let mut i: usize = 0;
        while i < self.meeting_rooms.len()
            invariant
                i <= self.meeting_rooms.len(),
                forall|j: int| 0 <= j < i ==> (#[trigger] self@.rooms[j]).name != name@,
            decreases self.meeting_rooms.len() - i,
        {
            if *self.meeting_rooms[i].name() == *name {
                return Some(i);
            }
            i += 1;
        }
        None
    }

    /// Registers `m` under its name. A room already registered under that
    /// name gives way to `m`, which takes its place in the registry.
    pub fn register_room(&mut self, m: &MeetingRoom)
        requires
            old(self).well_formed(),
        ensures
            final(self).well_formed(),
            final(self)@.bookings == old(self)@.bookings,
            final(self)@.end_times == old(self)@.end_times,
            final(self)@.wake_reason == old(self)@.wake_reason,
            is_registered(old(self)@.rooms, m@.name) ==> exists|i: int|
                0 <= i < old(self)@.rooms.len() && #[trigger] old(self)@.rooms[i].name == m@.name
                    && final(self)@.rooms == old(self)@.rooms.update(i, m@),
            !is_registered(old(self)@.rooms, m@.name) ==> final(self)@.rooms == old(
                self,
            )@.rooms.push(m@),
    {
        match self.find_room(m.name()) {
            Some(i) => {
                self.meeting_rooms.set(i, m.clone());
                proof {
                    assert(self@.rooms =~= old(self)@.rooms.update(i as int, m@));
                }
            },
            None => {
                self.meeting_rooms.push(m.clone());
                proof {
                    assert(self@.rooms =~= old(self)@.rooms.push(m@));
                }
            },
        }
    }

    /// The names of the rooms that have a booking overlapping `ts`, each
    /// once.
    pub fn find_conflicting_rooms(&self, ts: &DateTimeSlot) -> (names: Vec<String>)
        requires
            self.well_formed(),
            ts.is_valid(),
        ensures
            views_of(names@).no_duplicates(),
            forall|name: Seq<char>|
                views_of(names@).contains(name) <==> is_booked(
                    self@.bookings,
                    name,
                    ts.start(),
                    ts.end(),
                ),
    {
        proof {
            ts.lemma_starts_before_end();
        }
        let found = self.i_tree.get_overlapping_intervals_with(
            ts.get_start_time(),
            ts.get_end_time(),
        );
        let ghost hits = triples_of(found@);
        let mut names: Vec<String> = Vec::new();
        let mut i: usize = 0;
        while i < found.len()
            invariant
                i <= found.len(),
                hits == triples_of(found@),
                views_of(names@).no_duplicates(),
                forall|name: Seq<char>|
                    views_of(names@).contains(name) <==> exists|k: int|
                        0 <= k < i && (#[trigger] hits[k]).2 == name,
            decreases found.len() - i,
        {
            let name = &found[i].payload;
            if !contains_name(&names, name) {
                let ghost before = views_of(names@);
                names.push(name.clone());
                proof {
                    let after = views_of(names@);
                    assert(after =~= before.push(name@));
                    assert(hits[i as int].2 == name@);
                    assert forall|other: Seq<char>| after.contains(other) <==> exists|k: int|
                        0 <= k < i + 1 && (#[trigger] hits[k]).2 == other by {
                        if after.contains(other) {
                            let j = choose|j: int| 0 <= j < after.len() && after[j] == other;
                            if j < before.len() {
                                assert(before[j] == other);
                                assert(before.contains(other));
                            }
                        }
                        if exists|k: int| 0 <= k < i + 1 && (#[trigger] hits[k]).2 == other {
                            let k = choose|k: int|
                                0 <= k < i + 1 && (#[trigger] hits[k]).2 == other;
                            if k < i {
                                assert(before.contains(other));
                                let j = choose|j: int| 0 <= j < before.len() && before[j] == other;
                                assert(after[j] == other);
                            } else {
                                assert(after[after.len() - 1] == other);
                            }
                        }
                    }
                }
            } else {
                proof {
                    assert(hits[i as int].2 == name@);
                }
            }
            i += 1;
        }
        proof {
            let within = overlapping(self@.bookings, ts.start(), ts.end());
            assert(hits.to_set() == within);
            assert forall|name: Seq<char>|
                views_of(names@).contains(name) <==> is_booked(
                    self@.bookings,
                    name,
                    ts.start(),
                    ts.end(),
                ) by {
                if views_of(names@).contains(name) {
                    let k = choose|k: int| 0 <= k < i && (#[trigger] hits[k]).2 == name;
                    assert(hits.to_set().contains(hits[k]));
                    assert(self@.bookings.contains(hits[k]));
                }
                if is_booked(self@.bookings, name, ts.start(), ts.end()) {
                    let t = choose|t: BookedSlot| #[trigger]
                        self@.bookings.contains(t) && t.2 == name && ts.start() < t.1 && ts.end()
                            > t.0;
                    assert(within.contains(t));
                    assert(hits.contains(t));
                    let k = choose|k: int| 0 <= k < hits.len() && hits[k] == t;
                    assert(hits[k].2 == name);
                }
            }
        }
        names
    }

    /// Enters a booking of the room `name` for `ts`, and leaves the cleanup
    /// worker a signal to plan anew where the booking ends before everything
    /// that the worker is waiting for.
    fn book(&mut self, name: &String, ts: &DateTimeSlot)
        requires
            old(self).well_formed(),
            ts.is_valid(),
            !is_booked(old(self)@.bookings, name@, ts.start(), ts.end()),
        ensures
            final(self).well_formed(),
            final(self)@ == booked(old(self)@, name@, ts.start(), ts.end()),
    {
        proof {
            ts.lemma_starts_before_end();
        }
        let start = ts.get_start_time();
        let end = ts.get_end_time();
        self.i_tree.insert(Data::new(start, end, name));
        let restart = match self.end_times.peek() {
            Some(earliest) => end.precedes(earliest),
            None => true,
        };
        self.end_times.push(end);
        if restart && self.cleanup_context.wake_reason() != CleanupContextStopReason::Stop {
            self.cleanup_context.signal(CleanupContextStopReason::Restart);
        }
        proof {
            let entered = (ts.start(), ts.end(), name@);
            assert(restart == restart_due(old(self)@.end_times, ts.end()));
            assert forall|a: BookedSlot, b: BookedSlot|
                #[trigger] self@.bookings.contains(a) && #[trigger] self@.bookings.contains(b)
                    && a.2 == b.2 && a != b implies !(a.0 < b.1 && b.0 < a.1) by {
                if a == entered {
                    assert(old(self)@.bookings.contains(b));
                } else if b == entered {
                    assert(old(self)@.bookings.contains(a));
                } else {
                    assert(old(self)@.bookings.contains(a));
                    assert(old(self)@.bookings.contains(b));
                }
            }
            assert forall|t: BookedSlot| #[trigger]
                self@.bookings.contains(t) implies self@.end_times.contains(t.1) && t.0 <= t.1 by {
                if t != entered {
                    assert(old(self)@.bookings.contains(t));
                }
            }
        }
    }

    /// Books the first registered room that is free for `ts`, if there is
    /// one.
    pub fn request_room(&mut self, ts: &DateTimeSlot) -> (booking: Option<MeetingRoomBooking>)
        requires
            old(self).well_formed(),
            ts.is_valid(),
        ensures
            final(self).well_formed(),
            match booking {
                Some(b) => exists|i: int|
                    {
                        &&& #[trigger] is_first_free(old(self)@, i, ts.start(), ts.end())
                        &&& b.meeting_room@ == old(self)@.rooms[i]
                        &&& b.time_slot == *ts
                        &&& final(self)@ == booked(
                            old(self)@,
                            old(self)@.rooms[i].name,
                            ts.start(),
                            ts.end(),
                        )
                    },
                None => none_free(old(self)@, ts.start(), ts.end()) && final(self)@ == old(self)@,
            },
    {
        let conflicting = self.find_conflicting_rooms(ts);
        let mut i: usize = 0;
        while i < self.meeting_rooms.len()
            invariant
                i <= self.meeting_rooms.len(),
                *self == *old(self),
                self.well_formed(),
                ts.is_valid(),
                forall|name: Seq<char>|
                    views_of(conflicting@).contains(name) <==> is_booked(
                        self@.bookings,
                        name,
                        ts.start(),
                        ts.end(),
                    ),
                forall|j: int|
                    0 <= j < i ==> is_booked(
                        self@.bookings,
                        (#[trigger] self@.rooms[j]).name,
                        ts.start(),
                        ts.end(),
                    ),
            decreases self.meeting_rooms.len() - i,
        {
            if !contains_name(&conflicting, self.meeting_rooms[i].name()) {
                let room = self.meeting_rooms[i].clone();
                proof {
                    assert(is_first_free(old(self)@, i as int, ts.start(), ts.end()));
                }
                self.book(room.name(), ts);
                return Some(MeetingRoomBooking::new(&room, ts));
            }
            i += 1;
        }
        None
    }

    /// Books the room called `room_name` for `ts` where such a room is
    /// registered and free.
    pub fn request_explicit_room(&mut self, room_name: &String, ts: &DateTimeSlot) -> (booking:
        Option<MeetingRoomBooking>)
        requires
            old(self).well_formed(),
            ts.is_valid(),
        ensures
            final(self).well_formed(),
            booking is Some <==> is_registered(old(self)@.rooms, room_name@) && !is_booked(
                old(self)@.bookings,
                room_name@,
                ts.start(),
                ts.end(),
            ),
            match booking {
                Some(b) => {
                    &&& old(self)@.rooms.contains(b.meeting_room@)
                    &&& b.meeting_room@.name == room_name@
                    &&& b.time_slot == *ts
                    &&& final(self)@ == booked(old(self)@, room_name@, ts.start(), ts.end())
                },
                None => final(self)@ == old(self)@,
            },
    {
        let place = self.find_room(room_name);
        match place {
            Some(i) => {
                let conflicting = self.find_conflicting_rooms(ts);
                if contains_name(&conflicting, room_name) {
                    None
                } else {
                    let room = self.meeting_rooms[i].clone();
                    self.book(room_name, ts);
                    Some(MeetingRoomBooking::new(&room, ts))
                }
            },
            None => None,
        }
    }

    /// Takes the booking out of the index. Where the index does not hold it,
    /// nothing changes. The end-time of the booking stays pending.
    pub fn cancel_booking(&mut self, booking: &MeetingRoomBooking)
        requires
            old(self).well_formed(),
            booking.time_slot.is_valid(),
        ensures
            final(self).well_formed(),
            final(self)@ == (SchedulerView {
                bookings: old(self)@.bookings.remove(
                    (
                        booking.time_slot.start(),
                        booking.time_slot.end(),
                        booking.meeting_room@.name,
                    ),
                ),
                ..old(self)@
            }),
    {
        let start = booking.time_slot.get_start_time();
        let end = booking.time_slot.get_end_time();
        self.i_tree.remove(&Data::new(start, end, booking.meeting_room.name()));
    }

    /// Whether the scheduler holds no booking.
    pub fn has_no_bookings(&self) -> (none: bool)
        requires
            self.well_formed(),
        ensures
            none == (self@.bookings == Set::<BookedSlot>::empty()),
    {
        self.i_tree.is_empty()
    }

    /// The number of end-times that are pending.
    pub fn pending_end_times(&self) -> (n: usize)
        ensures
            n == self@.end_times.len(),
    {
        self.end_times.len()
    }

    /// The signal that is waiting for the cleanup worker.
    pub fn wake_reason(&self) -> (reason: CleanupContextStopReason)
        ensures
            reason == self@.wake_reason,
    {
        self.cleanup_context.wake_reason()
    }

    /// Whether nothing has been signalled to the cleanup worker, so that it
    /// may go on waiting.
    pub fn cleanup_is_quiet(&self) -> (quiet: bool)
        ensures
            quiet == (self@.wake_reason == CleanupContextStopReason::Idle),
    {
        self.cleanup_context.is_quiet()
    }

    /// Leaves `reason` as the signal for the cleanup worker. Waking the worker
    /// up is left to the caller.
    pub fn notify_cleanup_thread(&mut self, reason: CleanupContextStopReason)
        requires
            old(self).well_formed(),
        ensures
            final(self).well_formed(),
            final(self)@ == (SchedulerView { wake_reason: reason, ..old(self)@ }),
    {
        self.cleanup_context.signal(reason);
    }

    /// Takes out of the index every booking that ends at `date` or earlier.
    pub fn remove_expired_bookings_till(&mut self, date: Timestamp)
        requires
            old(self).well_formed(),
        ensures
            final(self).well_formed(),
            final(self)@ == (SchedulerView {
                bookings: still_running(old(self)@.bookings, date@),
                ..old(self)@
            }),
    {
        purge(&mut self.i_tree, date);
    }

    /// The first half of a round of the cleanup worker, made at the instant
    /// `now`: the end-times that lie before `now` leave the queue; if there
    /// was one, the bookings that end at `now` or earlier leave the index. The
    /// result is how long the worker may sleep.
    pub fn prepare_cleanup_wait(&mut self, now: Timestamp) -> (wait: Option<Duration>)
        requires
            old(self).well_formed(),
        ensures
            final(self).well_formed(),
            final(self)@ == swept(old(self)@, now@),
            match wait {
                Some(d) => wait_from(final(self)@, now@) == Some(d@),
                None => wait_from(final(self)@, now@) is None,
            },
            forall|t: BookedSlot| #[trigger]
                final(self)@.bookings.contains(t) ==> t.1 >= now@,
    {
        broadcast use vstd::multiset::group_multiset_axioms;

        let popped = drain(&mut self.end_times, now);
        if popped {
            purge(&mut self.i_tree, now);
        }
        match self.end_times.peek() {
            Some(first) => {
                proof {
                    lemma_least_is_earliest(self@.end_times, first.position());
                }
                Some(first.since(now))
            },
            None => None,
        }
    }

    /// What the cleanup worker does when its timer has run out: the bookings
    /// that end no later than the earliest pending end-time leave the index,
    /// and that end-time leaves the queue. With nothing pending, nothing
    /// changes.
    pub fn expire_earliest(&mut self)
        requires
            old(self).well_formed(),
        ensures
            final(self).well_formed(),
            final(self)@ == expired(old(self)@),
    {
        broadcast use vstd::multiset::group_multiset_axioms;

        match self.end_times.peek() {
            Some(first) => {
                proof {
                    lemma_least_is_earliest(self@.end_times, first.position());
                }
                purge(&mut self.i_tree, first);
                let taken = self.end_times.pop();
                proof {
                    lemma_least_is_earliest(old(self)@.end_times, taken.unwrap().position());
                }
            },
            None => {},
        }
    }

    /// The second half of a round of the cleanup worker, made when its wait
    /// has ended, and the answer to whether the worker goes on. After a wait
    /// that ran out, the earliest end-time expires. After a wait that was cut
    /// short, a signal to stop ends the worker and stays in place; any other
    /// signal is taken and the worker plans anew.
    pub fn finish_cleanup_wait(&mut self, timed_out: bool) -> (go_on: bool)
        requires
            old(self).well_formed(),
        ensures
            final(self).well_formed(),
            final(self)@ == woken(old(self)@, timed_out),
            go_on == (timed_out || old(self)@.wake_reason != CleanupContextStopReason::Stop),
    {
        if timed_out {
            self.expire_earliest();
            true
        } else if self.cleanup_context.wake_reason() == CleanupContextStopReason::Stop {
            false
        } else {
            self.cleanup_context.signal(CleanupContextStopReason::Idle);
            true
        }
    }

    /// One step of the cleanup worker: from the scheduler as it is and what
    /// has just happened to the worker, to the scheduler as it then is and
    /// what the worker is to do next.
    ///
    /// `woke` is `None` when the worker starts. After a wait it tells whether
    /// the wait ran out (`Some(true)`) or was cut short by a signal
    /// (`Some(false)`). `now` is the instant at which the step is made. The
    /// worker first finishes the wait that has ended, and ends itself where it
    /// was told to stop. Otherwise it sweeps the scheduler and sleeps again.
    pub fn run_cleanup(&mut self, woke: Option<bool>, now: Timestamp) -> (action: CleanupAction)
        requires
            old(self).well_formed(),
        ensures
            final(self).well_formed(),
            match woke {
                Some(timed_out) => if !timed_out && old(self)@.wake_reason
                    == CleanupContextStopReason::Stop {
                    action == CleanupAction::Exit && final(self)@ == old(self)@
                } else {
                    final(self)@ == swept(woken(old(self)@, timed_out), now@) && action
                        == wait_action(wait_from(final(self)@, now@))
                },
                None => final(self)@ == swept(old(self)@, now@) && action == wait_action(
                    wait_from(final(self)@, now@),
                ),
            },
            !(action is Exit) ==> forall|t: BookedSlot| #[trigger]
                final(self)@.bookings.contains(t) ==> t.1 >= now@,
    {
        if let Some(timed_out) = woke {
            if !self.finish_cleanup_wait(timed_out) {
                return CleanupAction::Exit;
            }
        }
        match self.prepare_cleanup_wait(now) {
            Some(wait) => CleanupAction::WaitFor(wait),
            None => CleanupAction::WaitForSignal,
        }
    }
}

/// Booking a room for a slot for which it is free, and cancelling a booking,
/// both leave the bookings of every room free of overlap.
pub proof fn lemma_bookings_stay_conflict_free(
    v: SchedulerView,
    name: Seq<char>,
    start: int,
    end: int,
)
    requires
        conflict_free(v.bookings),
    ensures
        !is_booked(v.bookings, name, start, end) ==> conflict_free(
            booked(v, name, start, end).bookings,
        ),
        conflict_free(v.bookings.remove((start, end, name))),
{
    let entered = (start, end, name);
    if !is_booked(v.bookings, name, start, end) {
        let after = booked(v, name, start, end).bookings;
        assert forall|a: BookedSlot, b: BookedSlot|
            #[trigger] after.contains(a) && #[trigger] after.contains(b) && a.2 == b.2 && a
                != b implies !(a.0 < b.1 && b.0 < a.1) by {
            if a == entered {
                assert(v.bookings.contains(b));
            } else if b == entered {
                assert(v.bookings.contains(a));
            } else {
                assert(v.bookings.contains(a) && v.bookings.contains(b));
            }
        }
    }
    let left = v.bookings.remove(entered);
    assert forall|a: BookedSlot, b: BookedSlot|
        #[trigger] left.contains(a) && #[trigger] left.contains(b) && a.2 == b.2 && a
            != b implies !(a.0 < b.1 && b.0 < a.1) by {
        assert(v.bookings.contains(a) && v.bookings.contains(b));
    }
}

/// With no end-time pending, nothing is booked: whenever the cleanup worker
/// has leave to sleep without limit, the index is empty.
pub proof fn lemma_nothing_pending_nothing_booked(v: SchedulerView)
    requires
        consistent(v),
        v.end_times.len() == 0,
    ensures
        v.bookings == Set::<BookedSlot>::empty(),
{
    broadcast use vstd::multiset::group_multiset_axioms;

    assert forall|t: BookedSlot| !v.bookings.contains(t) by {
        if v.bookings.contains(t) {
            assert(v.end_times.contains(t.1));
        }
    }
    assert(v.bookings =~= Set::<BookedSlot>::empty());
}

/// Once every booking has ended, a sweep by the cleanup worker leaves the
/// index empty.
pub proof fn lemma_sweep_after_all_ended(v: SchedulerView, now: int)
    requires
        consistent(v),
        forall|t: BookedSlot| #[trigger] v.bookings.contains(t) ==> t.1 < now,
    ensures
        swept(v, now).bookings == Set::<BookedSlot>::empty(),
{
}

/// When the timer of the cleanup worker runs out, no booking is taken away
/// that ends after the end-time that the timer was set for, and none is
/// added.
pub proof fn lemma_expiry_keeps_later(v: SchedulerView)
    ensures
        forall|t: BookedSlot|
            v.bookings.contains(t) && t.1 > earliest(v.end_times) ==> #[trigger] expired(
                v,
            ).bookings.contains(t),
        expired(v).bookings.subset_of(v.bookings),
{
}

/// A sweep by the cleanup worker takes away no booking that ends after the
/// instant of the sweep, and adds none.
pub proof fn lemma_sweep_keeps_running(v: SchedulerView, now: int)
    ensures
        forall|t: BookedSlot|
            v.bookings.contains(t) && t.1 > now ==> #[trigger] swept(v, now).bookings.contains(t),
        swept(v, now).bookings.subset_of(v.bookings),
{
}

} // verus!
