//! The values that the scheduler trades in: instants, durations, time slots,
//! rooms and bookings.

use crate::traits::Endpoint;
use vstd::prelude::*;

verus! {

/// The nanoseconds in a second.
pub const NANOS_PER_SEC: u32 = 1_000_000_000;

/// The nanoseconds in a millisecond.
pub const NANOS_PER_MILLI: u32 = 1_000_000;

/// An instant, counted in nanoseconds from the start of 1970 (UTC).
#[derive(Clone, Copy, Debug, PartialEq, Eq, Structural)]
pub struct Timestamp {
    pub nanos: i128,
}

impl View for Timestamp {
    type V = int;

    open spec fn view(&self) -> int {
        self.nanos as int
    }
}

impl Timestamp {
    /// The instant `secs` whole seconds and `subsec_nanos` nanoseconds after
    /// the start of 1970.
    pub fn new(secs: i64, subsec_nanos: u32) -> (t: Self)
        ensures
            t@ == secs * NANOS_PER_SEC + subsec_nanos,
    {
        Timestamp { nanos: (secs as i128) * 1_000_000_000 + (subsec_nanos as i128) }
    }

    /// The instant `nanos` nanoseconds after the start of 1970.
    pub fn from_nanos(nanos: i128) -> (t: Self)
        ensures
            t@ == nanos,
    {
        Timestamp { nanos }
    }

    /// The nanoseconds between the start of 1970 and this instant.
    pub fn as_nanos(&self) -> (nanos: i128)
        ensures
            nanos == self@,
    {
        self.nanos
    }

    /// The whole seconds between the start of 1970 and this instant, rounded
    /// towards the past.
    pub fn whole_secs(&self) -> (secs: i128)
        ensures
            secs == self@ / (NANOS_PER_SEC as int),
    {
        if self.nanos >= 0 {
            self.nanos / 1_000_000_000
        } else {
            let back: i128 = -(self.nanos + 1);
            -(back / 1_000_000_000) - 1
        }
    }

    /// The nanoseconds between the last whole second and this instant.
    pub fn subsec_nanos(&self) -> (nanos: u32)
        ensures
            nanos == self@ % (NANOS_PER_SEC as int),
    {
        if self.nanos >= 0 {
            (self.nanos % 1_000_000_000) as u32
        } else {
            let back: i128 = -(self.nanos + 1);
            (999_999_999 - back % 1_000_000_000) as u32
        }
    }

    /// The instant that lies `length` after this one, where a `Timestamp` can
    /// hold it.
    pub fn checked_add(&self, length: Duration) -> (sum: Option<Timestamp>)
        ensures
            sum is Some <==> self@ + length@ <= i128::MAX,
            sum is Some ==> sum.unwrap()@ == self@ + length@,
    {
        if length.nanos <= i128::MAX as u128 {
            if self.nanos <= i128::MAX - length.nanos as i128 {
                Some(Timestamp { nanos: self.nanos + length.nanos as i128 })
            } else {
                None
            }
        } else {
            let beyond: u128 = length.nanos - (i128::MAX as u128) - 1;
            if self.nanos < 0 && beyond <= (i128::MAX - 1 - (self.nanos + i128::MAX)) as u128 {
                Some(Timestamp { nanos: self.nanos + i128::MAX + beyond as i128 + 1 })
            } else {
                None
            }
        }
    }

    /// How long after `earlier` this instant lies; nothing where it does not
    /// lie after it.
    pub fn since(&self, earlier: Timestamp) -> (elapsed: Duration)
        ensures
            elapsed@ == if self@ >= earlier@ {
                self@ - earlier@
            } else {
                0
            },
    {
        if self.nanos >= earlier.nanos {
            if earlier.nanos >= 0 {
                Duration { nanos: (self.nanos - earlier.nanos) as u128 }
            } else {
                let below: u128 = (-(earlier.nanos + 1)) as u128 + 1;
                if self.nanos >= 0 {
                    Duration { nanos: self.nanos as u128 + below }
                } else {
                    let above: u128 = (-(self.nanos + 1)) as u128 + 1;
                    Duration { nanos: below - above }
                }
            }
        } else {
            Duration { nanos: 0 }
        }
    }
}

impl Endpoint for Timestamp {
    open spec fn position(self) -> int {
        self@
    }

    fn precedes(self, other: Self) -> (b: bool) {
        self.nanos < other.nanos
    }
}

/// A span of time, counted in nanoseconds. It is never negative.
#[derive(Clone, Copy, Debug, PartialEq, Eq, Structural)]
pub struct Duration {
    pub nanos: u128,
}

impl View for Duration {
    type V = int;

    open spec fn view(&self) -> int {
        self.nanos as int
    }
}

impl Duration {
    /// The span of `secs` seconds and `nanos` nanoseconds.
    pub fn new(secs: u64, nanos: u32) -> (d: Self)
        ensures
            d@ == secs * NANOS_PER_SEC + nanos,
    {
        Duration { nanos: (secs as u128) * 1_000_000_000 + (nanos as u128) }
    }

    /// The span of `secs` seconds.
    pub fn from_secs(secs: u64) -> (d: Self)
        ensures
            d@ == secs * NANOS_PER_SEC,
    {
        Duration { nanos: (secs as u128) * 1_000_000_000 }
    }

    /// The span of `millis` milliseconds.
    pub fn from_millis(millis: u64) -> (d: Self)
        ensures
            d@ == millis * NANOS_PER_MILLI,
    {
        Duration { nanos: (millis as u128) * 1_000_000 }
    }

    /// The nanoseconds of the span.
    pub fn as_nanos(&self) -> (nanos: u128)
        ensures
            nanos == self@,
    {
        self.nanos
    }

    /// The whole seconds of the span.
    pub fn whole_secs(&self) -> (secs: u128)
        ensures
            secs == self@ / (NANOS_PER_SEC as int),
    {
        self.nanos / 1_000_000_000
    }

    /// The nanoseconds of the span beyond its whole seconds.
    pub fn subsec_nanos(&self) -> (nanos: u32)
        ensures
            nanos == self@ % (NANOS_PER_SEC as int),
    {
        (self.nanos % 1_000_000_000) as u32
    }
}

/// The first year of chrono's calendar: the year of `NaiveDate::MIN`.
pub const FIRST_YEAR: i32 = -262_143;

/// The last year of chrono's calendar: the year of `NaiveDate::MAX`.
pub const LAST_YEAR: i32 = 262_142;

/// Whether the six numbers lie within the ranges of the calendar and the
/// clock: a year of chrono's calendar, a month from 1 to 12, a day from 1 to
/// 31, an hour below 24, a minute and a second below 60.
pub open spec fn in_calendar_ranges(
    year: i32,
    month: u32,
    day: u32,
    hour: u32,
    min: u32,
    sec: u32,
) -> bool {
    &&& FIRST_YEAR <= year <= LAST_YEAR
    &&& 1 <= month <= 12
    &&& 1 <= day <= 31
    &&& hour < 24
    &&& min < 60
    &&& sec < 60
}

/// The instant at which the local clock of this machine shows the given
/// calendar date and time of day, as `chrono::Local.with_ymd_and_hms` finds it,
/// in the two parts that `DateTime::timestamp` and
/// `DateTime::timestamp_subsec_nanos` give: whole seconds since the start of
/// 1970 and nanoseconds beyond them.
///
/// The answer depends on the time zone of the machine, so the contract claims
/// nothing of the second at which the instant lies. It claims what holds
/// whatever the zone: chrono finds no instant for numbers outside the ranges
/// of its calendar and of the clock, and the instant it finds lies on a whole
/// second, since the time of day is given in whole seconds and the zone's
/// offset is counted in whole seconds. `None` also stands for a local time
/// that the zone skips or shows twice.
#[verifier::external_body]
fn local_instant(year: i32, month: u32, day: u32, hour: u32, min: u32, sec: u32) -> (instant:
    Option<(i64, u32)>)
    ensures
        instant is Some ==> in_calendar_ranges(year, month, day, hour, min, sec),
        instant is Some ==> instant.unwrap().1 == 0,
{
    match chrono::TimeZone::with_ymd_and_hms(&chrono::Local, year, month, day, hour, min, sec) {
        chrono::LocalResult::Single(t) => Some((t.timestamp(), t.timestamp_subsec_nanos())),
        chrono::LocalResult::Ambiguous(_, _) => None,
        chrono::LocalResult::None => None,
    }
}

/// A time slot: a start and a length.
#[derive(Clone, Copy, Debug, PartialEq, Eq, Structural)]
pub struct DateTimeSlot {
    time_point: Timestamp,
    duration: Duration,
}

impl DateTimeSlot {
    /// The position of the slot's start.
    pub closed spec fn start(&self) -> int {
        self.time_point@
    }

    /// The slot's length in nanoseconds.
    pub closed spec fn length(&self) -> int {
        self.duration@
    }

    /// The position of the slot's end.
    pub open spec fn end(&self) -> int {
        self.start() + self.length()
    }

    /// Whether the slot's end is an instant that a `Timestamp` can hold.
    pub open spec fn is_valid(&self) -> bool {
        self.end() <= i128::MAX
    }

    /// A slot never ends before it starts.
    pub proof fn lemma_starts_before_end(&self)
        ensures
            self.start() <= self.end(),
    {
    }

    /// A slot is its start and its length: two slots that agree in both are
    /// the same slot.
    pub proof fn lemma_start_and_length_fix_the_slot(a: DateTimeSlot, b: DateTimeSlot)
        requires
            a.start() == b.start(),
            a.length() == b.length(),
        ensures
            a == b,
    {
    }

    /// The slot that starts when the local clock shows the given date and
    /// time, if there is one such instant. Which instant that is, and whether
    /// there is one, lies with the time zone of the machine. Whatever the
    /// zone, there is none for numbers outside the ranges of the calendar and
    /// the clock, and a slot that is given starts on a whole second that an
    /// `i64` can count and has the length asked for.
    pub fn from_ymd_hms(
        year: i32,
        month: u32,
        day: u32,
        hour: u32,
        min: u32,
        sec: u32,
        duration: Duration,
    ) -> (slot: Option<Self>)
        ensures
            slot is Some ==> in_calendar_ranges(year, month, day, hour, min, sec),
            slot is Some ==> slot.unwrap().length() == duration@,
            slot is Some ==> slot.unwrap().start() % (NANOS_PER_SEC as int) == 0,
            slot is Some ==> i64::MIN * NANOS_PER_SEC <= slot.unwrap().start() <= i64::MAX
                * NANOS_PER_SEC,
    {
        Self::from_local_instant(local_instant(year, month, day, hour, min, sec), duration)
    }

    /// The slot that starts at `instant`, given in whole seconds and
    /// nanoseconds since the start of 1970; none where there is no instant.
    pub fn from_local_instant(instant: Option<(i64, u32)>, duration: Duration) -> (slot: Option<
        Self,
    >)
        ensures
            instant is None ==> slot is None,
            instant is Some ==> slot is Some && slot.unwrap().start() == instant.unwrap().0
                * NANOS_PER_SEC + instant.unwrap().1 && slot.unwrap().length() == duration@,
    {
        match instant {
            Some((secs, subsec_nanos)) => Some(
                Self::from_utc_time(&Timestamp::new(secs, subsec_nanos), duration),
            ),
            None => None,
        }
    }

    /// The slot that starts at `tp` and lasts for `duration`.
    pub fn from_utc_time(tp: &Timestamp, duration: Duration) -> (slot: Self)
        ensures
            slot.start() == tp@,
            slot.length() == duration@,
    {
        Self { time_point: *tp, duration }
    }

    /// The instant at which the slot starts.
    pub fn get_start_time(&self) -> (start: Timestamp)
        ensures
            start@ == self.start(),
    {
        self.time_point
    }

    /// The instant at which the slot ends.
    pub fn get_end_time(&self) -> (end: Timestamp)
        requires
            self.is_valid(),
        ensures
            end@ == self.end(),
    {
        self.time_point.checked_add(self.duration).unwrap()
    }

    /// The slot's end, where a `Timestamp` can hold it.
    pub fn checked_end_time(&self) -> (end: Option<Timestamp>)
        ensures
            end is Some <==> self.is_valid(),
            end is Some ==> end.unwrap()@ == self.end(),
    {
        self.time_point.checked_add(self.duration)
    }

    /// How long the slot lasts.
    pub fn get_length(&self) -> (length: Duration)
        ensures
            length@ == self.length(),
    {
        self.duration
    }
}

/// What a room is in specifications: its name, which identifies it, and its
/// seats.
pub struct RoomView {
    pub name: Seq<char>,
    pub seats: i8,
}

/// A meeting room.
#[derive(Debug)]
pub struct MeetingRoom {
    name: String,
    seats: i8,
}

impl View for MeetingRoom {
    type V = RoomView;

    closed spec fn view(&self) -> RoomView {
        RoomView { name: self.name@, seats: self.seats }
    }
}

impl PartialEq for MeetingRoom {
    /// Two rooms are the same room where they have the same name.
    fn eq(&self, other: &Self) -> (equal: bool) {
        self.name == other.name
    }
}

impl vstd::std_specs::cmp::PartialEqSpecImpl for MeetingRoom {
    open spec fn obeys_eq_spec() -> bool {
        true
    }

    open spec fn eq_spec(&self, other: &Self) -> bool {
        self@.name == other@.name
    }
}

impl Clone for MeetingRoom {
    fn clone(&self) -> (copy: Self)
        ensures
            copy@ == self@,
    {
        MeetingRoom { name: self.name.clone(), seats: self.seats }
    }
}

impl MeetingRoom {
    /// The room called `name`, with `seats` seats.
    pub fn new(name: &str, seats: i8) -> (room: Self)
        ensures
            room@.name == name@,
            room@.seats == seats,
    {
        Self { name: name.to_owned(), seats }
    }

    /// The room's name, without a copy being made.
    pub fn name(&self) -> (name: &String)
        ensures
            name@ == self@.name,
    {
        &self.name
    }

    /// A copy of the room's name.
    pub fn get_name(&self) -> (name: String)
        ensures
            name@ == self@.name,
    {
        self.name.clone()
    }

    /// The number of seats in the room.
    pub fn get_seats(&self) -> (seats: i8)
        ensures
            seats == self@.seats,
    {
        self.seats
    }
}

/// A room reserved for a time slot.
#[derive(Debug)]
pub struct MeetingRoomBooking {
    pub meeting_room: MeetingRoom,
    pub time_slot: DateTimeSlot,
}

impl MeetingRoomBooking {
    /// The booking of a copy of `mr` for `ts`.
    pub fn new(mr: &MeetingRoom, ts: &DateTimeSlot) -> (booking: Self)
        ensures
            booking.meeting_room@ == mr@,
            booking.time_slot == *ts,
    {
        Self { meeting_room: mr.clone(), time_slot: *ts }
    }
}

} // verus!
