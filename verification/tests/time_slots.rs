use chrono::{Local, TimeZone};
use meeting_rooms::traits::{coincide, Endpoint, Payload};
use meeting_rooms::types::{DateTimeSlot, Duration, MeetingRoom, MeetingRoomBooking, Timestamp};

#[test]
fn datetimeslot() {
    let ts0 = DateTimeSlot::from_ymd_hms(2023, 11, 28, 3, 15, 0, Duration::new(5, 0)).unwrap();
    assert_eq!(ts0.get_length(), Duration::from_secs(5));

    let ts1 = DateTimeSlot::from_ymd_hms(2023, 11, 28, 3, 15, 0, Duration::new(5, 0)).unwrap();
    assert!(ts0 == ts1);

    let now = Local::now();
    let ts2 = DateTimeSlot::from_utc_time(
        &Timestamp::new(now.timestamp(), now.timestamp_subsec_nanos()),
        Duration::from_secs(60 * 5),
    );
    assert_eq!(ts2.get_length(), Duration::from_secs(60 * 5));
}

#[test]
fn slot_from_calendar_fields_starts_where_the_local_clock_says() {
    let slot = DateTimeSlot::from_ymd_hms(2023, 11, 28, 15, 30, 0, Duration::new(60, 0)).unwrap();
    let expected = Local.with_ymd_and_hms(2023, 11, 28, 15, 30, 0).unwrap();

    assert_eq!(slot.get_start_time(), Timestamp::new(expected.timestamp(), 0));
    assert_eq!(slot.get_start_time().as_nanos(), expected.timestamp() as i128 * 1_000_000_000);
    assert_eq!(
        slot.get_end_time().as_nanos(),
        (expected.timestamp() as i128 + 60) * 1_000_000_000
    );
}

#[test]
fn slot_from_fields_outside_the_calendar_is_none() {
    let length = Duration::new(60, 0);
    assert!(DateTimeSlot::from_ymd_hms(2023, 13, 28, 15, 30, 0, length).is_none());
    assert!(DateTimeSlot::from_ymd_hms(2023, 0, 28, 15, 30, 0, length).is_none());
    assert!(DateTimeSlot::from_ymd_hms(2023, 11, 31, 15, 30, 0, length).is_none());
    assert!(DateTimeSlot::from_ymd_hms(2023, 11, 28, 24, 30, 0, length).is_none());
    assert!(DateTimeSlot::from_ymd_hms(2023, 11, 28, 15, 60, 0, length).is_none());
    assert!(DateTimeSlot::from_ymd_hms(2023, 11, 28, 15, 30, 60, length).is_none());
    assert!(DateTimeSlot::from_ymd_hms(2023, 11, 0, 15, 30, 0, length).is_none());
    assert!(DateTimeSlot::from_ymd_hms(2023, 11, 32, 15, 30, 0, length).is_none());
    assert!(DateTimeSlot::from_ymd_hms(262_143, 11, 28, 15, 30, 0, length).is_none());
    assert!(DateTimeSlot::from_ymd_hms(-262_144, 11, 28, 15, 30, 0, length).is_none());
}

#[test]
fn slot_from_calendar_fields_starts_on_a_whole_second() {
    for (year, month, day, hour, min, sec) in [
        (2023, 11, 28, 15, 30, 0),
        (1969, 12, 31, 23, 59, 59),
        (1, 1, 1, 0, 0, 1),
        (2038, 1, 19, 3, 14, 8),
    ] {
        let slot =
            DateTimeSlot::from_ymd_hms(year, month, day, hour, min, sec, Duration::new(0, 1));
        if let Some(slot) = slot {
            assert_eq!(slot.get_start_time().subsec_nanos(), 0);
            assert!(slot.checked_end_time().is_some());
            let expected = Local.with_ymd_and_hms(year, month, day, hour, min, sec).unwrap();
            assert_eq!(slot.get_start_time().whole_secs(), expected.timestamp() as i128);
        }
    }
}

#[test]
fn slots_with_the_same_start_and_length_are_the_same_slot() {
    let a = DateTimeSlot::from_local_instant(Some((10, 500)), Duration::new(2, 1)).unwrap();
    let b = DateTimeSlot::from_utc_time(&Timestamp::from_nanos(10_000_000_500), Duration {
        nanos: 2_000_000_001,
    });
    assert!(a == b);
    let start = Timestamp::from_nanos(10_000_000_500);
    let c = DateTimeSlot::from_utc_time(&start, Duration::new(2, 2));
    assert!(a != c);
    let later = Timestamp::from_nanos(10_000_000_501);
    let d = DateTimeSlot::from_utc_time(&later, Duration::new(2, 1));
    assert!(a != d);
}

#[test]
fn slot_from_local_instant() {
    let slot = DateTimeSlot::from_local_instant(Some((10, 500)), Duration::new(2, 1)).unwrap();
    assert_eq!(slot.get_start_time().as_nanos(), 10_000_000_500);
    assert_eq!(slot.get_length().as_nanos(), 2_000_000_001);
    assert_eq!(slot.get_end_time().as_nanos(), 12_000_000_501);

    assert!(DateTimeSlot::from_local_instant(None, Duration::new(2, 1)).is_none());
}

#[test]
fn timestamp_counts_nanoseconds() {
    assert_eq!(Timestamp::new(1, 5).as_nanos(), 1_000_000_005);
    assert_eq!(Timestamp::new(-1, 5).as_nanos(), -999_999_995);
    assert_eq!(Timestamp::new(0, 0), Timestamp::from_nanos(0));
    assert_eq!(
        Timestamp::new(i64::MAX, u32::MAX).as_nanos(),
        i64::MAX as i128 * 1_000_000_000 + u32::MAX as i128
    );
    assert!(Timestamp::new(1, 999_999_999).precedes(Timestamp::new(2, 0)));
    assert!(!Timestamp::new(2, 0).precedes(Timestamp::new(2, 0)));
    assert!(!Timestamp::new(2, 1).precedes(Timestamp::new(2, 0)));
}

#[test]
fn timestamp_splits_into_seconds_and_nanoseconds() {
    let t = Timestamp::new(1_701_185_400, 123_456_789);
    assert_eq!(t.whole_secs(), 1_701_185_400);
    assert_eq!(t.subsec_nanos(), 123_456_789);

    assert_eq!(Timestamp::from_nanos(0).whole_secs(), 0);
    assert_eq!(Timestamp::from_nanos(0).subsec_nanos(), 0);
    assert_eq!(Timestamp::from_nanos(-1).whole_secs(), -1);
    assert_eq!(Timestamp::from_nanos(-1).subsec_nanos(), 999_999_999);
    assert_eq!(Timestamp::from_nanos(-1_000_000_000).whole_secs(), -1);
    assert_eq!(Timestamp::from_nanos(-1_000_000_000).subsec_nanos(), 0);
    assert_eq!(Timestamp::from_nanos(-1_000_000_001).whole_secs(), -2);
    assert_eq!(Timestamp::from_nanos(-1_000_000_001).subsec_nanos(), 999_999_999);
    assert_eq!(Timestamp::new(-5, 7).whole_secs(), -5);
    assert_eq!(Timestamp::new(-5, 7).subsec_nanos(), 7);
    assert_eq!(
        Timestamp::from_nanos(i128::MIN).whole_secs(),
        i128::MIN.div_euclid(1_000_000_000)
    );
    assert_eq!(
        Timestamp::from_nanos(i128::MIN).subsec_nanos() as i128,
        i128::MIN.rem_euclid(1_000_000_000)
    );
    assert_eq!(Timestamp::from_nanos(i128::MAX).whole_secs(), i128::MAX / 1_000_000_000);
}

#[test]
fn timestamp_agrees_with_the_calendar() {
    let now = Local::now();
    let instant = Timestamp::new(now.timestamp(), now.timestamp_subsec_nanos());
    let back = Local
        .timestamp_opt(instant.whole_secs() as i64, instant.subsec_nanos())
        .single()
        .unwrap();
    assert_eq!(back, now);
}

#[test]
fn duration_splits_into_seconds_and_nanoseconds() {
    assert_eq!(Duration::new(5, 7).whole_secs(), 5);
    assert_eq!(Duration::new(5, 7).subsec_nanos(), 7);
    assert_eq!(Duration::new(5, 1_999_999_999).whole_secs(), 6);
    assert_eq!(Duration::new(5, 1_999_999_999).subsec_nanos(), 999_999_999);
    assert_eq!(Duration::from_millis(1_500).whole_secs(), 1);
    assert_eq!(Duration::from_millis(1_500).subsec_nanos(), 500_000_000);
    assert_eq!(Duration { nanos: u128::MAX }.whole_secs(), u128::MAX / 1_000_000_000);
}

#[test]
fn duration_counts_nanoseconds() {
    assert_eq!(Duration::new(5, 0).as_nanos(), 5_000_000_000);
    assert_eq!(Duration::new(5, 7).as_nanos(), 5_000_000_007);
    assert_eq!(Duration::new(1, 2_000_000_000), Duration::from_secs(3));
    assert_eq!(Duration::from_secs(3).as_nanos(), 3_000_000_000);
    assert_eq!(Duration::from_millis(10).as_nanos(), 10_000_000);
    assert_eq!(Duration::from_millis(1_000), Duration::from_secs(1));
    assert_eq!(Duration::new(u64::MAX, 0).as_nanos(), u64::MAX as u128 * 1_000_000_000);
}

#[test]
fn time_between_two_instants() {
    let early = Timestamp::from_nanos(-30);
    let late = Timestamp::from_nanos(12);
    assert_eq!(late.since(early).as_nanos(), 42);
    assert_eq!(early.since(late).as_nanos(), 0);
    assert_eq!(late.since(late).as_nanos(), 0);
    assert_eq!(
        Timestamp::from_nanos(i128::MAX).since(Timestamp::from_nanos(i128::MIN)).as_nanos(),
        u128::MAX
    );
    assert_eq!(
        Timestamp::from_nanos(-5).since(Timestamp::from_nanos(i128::MIN)).as_nanos(),
        i128::MAX as u128 - 4
    );
}

#[test]
fn instant_a_length_later() {
    assert_eq!(
        Timestamp::new(100, 0).checked_add(Duration::new(60, 5)),
        Some(Timestamp::new(160, 5))
    );
    assert_eq!(
        Timestamp::from_nanos(-7).checked_add(Duration::new(0, 7)),
        Some(Timestamp::from_nanos(0))
    );
    assert_eq!(Timestamp::from_nanos(i128::MAX).checked_add(Duration::new(0, 1)), None);
    assert_eq!(
        Timestamp::from_nanos(i128::MAX - 1).checked_add(Duration::new(0, 1)),
        Some(Timestamp::from_nanos(i128::MAX))
    );
}

#[test]
fn endpoints_and_payloads_of_plain_numbers() {
    assert!(3i32.precedes(4));
    assert!(!4i32.precedes(4));
    assert!((-1i64).precedes(0));
    assert!(!u64::MAX.precedes(0));
    assert!(coincide(5i32, 5));
    assert!(!coincide(5i64, 6));
    assert!(coincide(Timestamp::new(1, 0), Timestamp::from_nanos(1_000_000_000)));

    assert!(7i32.same(&7));
    assert!(!7u64.same(&8));
    assert_eq!(7i32.duplicate(), 7);
    assert!("M1".to_string().same(&"M1".to_string()));
    assert!(!"M1".to_string().same(&"M2".to_string()));
    assert_eq!("M1".to_string().duplicate(), "M1");
}

#[test]
fn slot_ends_a_length_after_its_start() {
    let slot = DateTimeSlot::from_utc_time(&Timestamp::new(100, 0), Duration::new(60, 0));
    assert_eq!(slot.get_start_time(), Timestamp::new(100, 0));
    assert_eq!(slot.get_end_time(), Timestamp::new(160, 0));
    assert_eq!(slot.checked_end_time(), Some(Timestamp::new(160, 0)));

    let point = DateTimeSlot::from_utc_time(&Timestamp::new(100, 0), Duration::new(0, 0));
    assert_eq!(point.get_end_time(), point.get_start_time());
}

#[test]
fn slot_end_beyond_the_last_instant_is_not_given() {
    let last = Timestamp::from_nanos(i128::MAX);
    assert_eq!(
        DateTimeSlot::from_utc_time(&last, Duration::new(0, 0)).checked_end_time(),
        Some(last)
    );
    assert_eq!(DateTimeSlot::from_utc_time(&last, Duration::new(0, 1)).checked_end_time(), None);

    let first = Timestamp::from_nanos(i128::MIN);
    let whole = Duration { nanos: u128::MAX };
    let slot = DateTimeSlot::from_utc_time(&first, whole);
    assert_eq!(slot.checked_end_time(), Some(last));
    assert_eq!(slot.get_end_time(), last);
    assert_eq!(
        DateTimeSlot::from_utc_time(&Timestamp::from_nanos(i128::MIN + 1), whole)
            .checked_end_time(),
        None
    );
    assert_eq!(
        DateTimeSlot::from_utc_time(&Timestamp::from_nanos(0), whole).checked_end_time(),
        None
    );
    let long = Duration { nanos: i128::MAX as u128 + 10 };
    assert_eq!(
        DateTimeSlot::from_utc_time(&Timestamp::from_nanos(-20), long).checked_end_time(),
        Some(Timestamp::from_nanos(i128::MAX - 10))
    );
}

#[test]
fn room_keeps_its_name_and_seats() {
    let room = MeetingRoom::new("M1", 4);
    assert_eq!(room.get_name(), "M1");
    assert_eq!(room.name(), "M1");
    assert_eq!(room.get_seats(), 4);

    let copy = room.clone();
    assert_eq!(copy.get_name(), "M1");
    assert_eq!(copy.get_seats(), 4);
}

#[test]
fn rooms_are_the_same_when_their_names_are() {
    assert!(MeetingRoom::new("M1", 4) == MeetingRoom::new("M1", 9));
    assert!(MeetingRoom::new("M1", 4) != MeetingRoom::new("M2", 4));
}

#[test]
fn booking_holds_copies_of_room_and_slot() {
    let room = MeetingRoom::new("M2", 8);
    let slot = DateTimeSlot::from_utc_time(&Timestamp::new(5, 0), Duration::from_secs(1));
    let booking = MeetingRoomBooking::new(&room, &slot);
    assert_eq!(booking.meeting_room.get_name(), "M2");
    assert_eq!(booking.meeting_room.get_seats(), 8);
    assert!(booking.time_slot == slot);
}
