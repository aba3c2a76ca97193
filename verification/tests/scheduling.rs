use meeting_rooms::cleanup::{CleanupContext, CleanupContextStopReason};
use meeting_rooms::scheduler::{CleanupAction, MeetingRoomScheduler};
use meeting_rooms::types::{DateTimeSlot, Duration, MeetingRoom, MeetingRoomBooking, Timestamp};
use rand::Rng;

fn slot(start_secs: i64, length_secs: u64) -> DateTimeSlot {
    DateTimeSlot::from_utc_time(&Timestamp::new(start_secs, 0), Duration::from_secs(length_secs))
}

fn overlap(a: &DateTimeSlot, b: &DateTimeSlot) -> bool {
    a.get_start_time().as_nanos() < b.get_end_time().as_nanos()
        && b.get_start_time().as_nanos() < a.get_end_time().as_nanos()
}

#[test]
fn scheduler() {
    let m1: MeetingRoom = MeetingRoom::new("M1", 4);
    let slot1 =
        DateTimeSlot::from_ymd_hms(2023, 11, 28, 15, 30, 0, Duration::new(60, 0)).unwrap();

    let mut scheduler = MeetingRoomScheduler::new();

    let mut booking = scheduler.request_room(&slot1);
    assert!(booking.is_none());

    scheduler.register_room(&m1);
    booking = scheduler.request_room(&slot1);
    assert!(booking.is_some());

    let booking1 = scheduler.request_room(&slot1);
    assert!(booking1.is_none());

    scheduler.cancel_booking(&booking.unwrap());
    booking = scheduler.request_room(&slot1);
    assert!(booking.is_some());

    let slot2 =
        DateTimeSlot::from_ymd_hms(2023, 11, 28, 15, 30, 0, Duration::new(15, 0)).unwrap();
    let booking2 = scheduler.request_room(&slot2);
    assert!(booking2.is_none());

    scheduler.cancel_booking(&booking.unwrap());
    let booking3 = scheduler.request_room(&slot2);
    assert!(booking3.is_some());

    drop(scheduler);
}

#[test]
fn remove_passed_bookings() {
    let mut scheduler = MeetingRoomScheduler::new();

    let mut meeting_rooms: Vec<MeetingRoom> = Vec::new();
    for i in 1..4 {
        meeting_rooms.push(MeetingRoom::new(
            &["#M".to_owned(), i.to_string().to_owned()].join(""),
            i,
        ));
        scheduler.register_room(meeting_rooms.last().unwrap());
    }

    // The worker and the clock are played by the test: time moves on by a
    // millisecond with every request, and the worker is stepped whenever it
    // would have woken up.
    let mut now: i128 = 1_700_000_000_000_000_000;
    let mut wake_at: Option<i128> = None;
    let mut step = |scheduler: &mut MeetingRoomScheduler, woke: Option<bool>, now: i128| {
        match scheduler.run_cleanup(woke, Timestamp::from_nanos(now)) {
            CleanupAction::WaitFor(wait) => Some(now + wait.as_nanos() as i128),
            CleanupAction::WaitForSignal => None,
            CleanupAction::Exit => panic!("the worker was not told to stop"),
        }
    };
    wake_at = step(&mut scheduler, None, now).or(wake_at);
    assert_eq!(wake_at, None);

    let mut booked = 0;
    let mut latest_end = now;
    for _i in 0..100 {
        now += 1_000_000;
        while let Some(due) = wake_at {
            if due > now {
                break;
            }
            wake_at = step(&mut scheduler, Some(true), due);
        }

        let rnd_ms = rand::thread_rng().gen_range(0..6);
        let rnd_ts = DateTimeSlot::from_utc_time(
            &Timestamp::from_nanos(now + rnd_ms * 1_000_000_000),
            Duration::from_millis(10),
        );

        let room = scheduler.request_room(&rnd_ts);
        if let Some(avail_room) = room {
            booked += 1;
            latest_end = latest_end.max(avail_room.time_slot.get_end_time().as_nanos());
        }
        if !scheduler.cleanup_is_quiet() {
            wake_at = step(&mut scheduler, Some(false), now);
        }
    }
    assert!(booked >= 3);
    assert!(!scheduler.has_no_bookings());

    while let Some(due) = wake_at {
        now = due;
        wake_at = step(&mut scheduler, Some(true), due);
    }
    assert!(now >= latest_end);
    assert!(scheduler.has_no_bookings());
    assert_eq!(scheduler.pending_end_times(), 0);

    scheduler.notify_cleanup_thread(CleanupContextStopReason::Stop);
    assert_eq!(
        scheduler.run_cleanup(Some(false), Timestamp::from_nanos(now)),
        CleanupAction::Exit
    );
}

#[test]
fn basic_conflict() {
    let mut scheduler = MeetingRoomScheduler::new();
    scheduler.register_room(&MeetingRoom::new("M1", 4));
    let slot_a =
        DateTimeSlot::from_ymd_hms(2023, 11, 28, 15, 30, 0, Duration::new(60, 0)).unwrap();

    let b1 = scheduler.request_room(&slot_a).unwrap();
    assert_eq!(b1.meeting_room.get_name(), "M1");
    assert_eq!(b1.meeting_room.get_seats(), 4);
    assert!(b1.time_slot == slot_a);

    assert!(scheduler.request_room(&slot_a).is_none());

    scheduler.cancel_booking(&b1);
    assert!(scheduler.request_room(&slot_a).is_some());
}

#[test]
fn nested_slot() {
    let mut scheduler = MeetingRoomScheduler::new();
    scheduler.register_room(&MeetingRoom::new("M1", 4));
    let slot_a =
        DateTimeSlot::from_ymd_hms(2023, 11, 28, 15, 30, 0, Duration::new(60, 0)).unwrap();
    let b1 = scheduler.request_room(&slot_a).unwrap();
    assert!(scheduler.request_room(&slot_a).is_none());
    scheduler.cancel_booking(&b1);
    assert!(scheduler.request_room(&slot_a).is_some());

    let slot_b =
        DateTimeSlot::from_ymd_hms(2023, 11, 28, 15, 30, 0, Duration::new(15, 0)).unwrap();
    assert!(scheduler.request_room(&slot_b).is_none());
}

#[test]
fn explicit_unknown_room() {
    let mut scheduler = MeetingRoomScheduler::new();
    assert!(scheduler.request_explicit_room(&"MX".to_string(), &slot(100, 60)).is_none());
    assert!(scheduler.has_no_bookings());
    assert_eq!(scheduler.pending_end_times(), 0);

    scheduler.register_room(&MeetingRoom::new("M1", 4));
    assert!(scheduler.request_explicit_room(&"MX".to_string(), &slot(100, 60)).is_none());
    assert!(scheduler.has_no_bookings());
}

#[test]
fn explicit_room_is_booked_when_registered_and_free() {
    let mut scheduler = MeetingRoomScheduler::new();
    scheduler.register_room(&MeetingRoom::new("M1", 4));
    scheduler.register_room(&MeetingRoom::new("M2", 6));

    let booking = scheduler.request_explicit_room(&"M2".to_string(), &slot(100, 60)).unwrap();
    assert_eq!(booking.meeting_room.get_name(), "M2");
    assert_eq!(booking.meeting_room.get_seats(), 6);
    assert!(booking.time_slot == slot(100, 60));

    assert!(scheduler.request_explicit_room(&"M2".to_string(), &slot(130, 60)).is_none());
    assert!(scheduler.request_explicit_room(&"M2".to_string(), &slot(160, 60)).is_some());
    assert!(scheduler.request_explicit_room(&"M1".to_string(), &slot(130, 60)).is_some());
}

#[test]
fn first_free_room_in_order_of_registration_is_taken() {
    let mut scheduler = MeetingRoomScheduler::new();
    scheduler.register_room(&MeetingRoom::new("M1", 4));
    scheduler.register_room(&MeetingRoom::new("M2", 6));
    scheduler.register_room(&MeetingRoom::new("M3", 8));

    assert_eq!(scheduler.request_room(&slot(100, 60)).unwrap().meeting_room.get_name(), "M1");
    assert_eq!(scheduler.request_room(&slot(100, 60)).unwrap().meeting_room.get_name(), "M2");
    assert_eq!(scheduler.request_room(&slot(200, 60)).unwrap().meeting_room.get_name(), "M1");
    assert_eq!(scheduler.request_room(&slot(150, 60)).unwrap().meeting_room.get_name(), "M3");
    assert!(scheduler.request_room(&slot(155, 10)).is_none());
}

#[test]
fn registering_a_name_again_replaces_the_room() {
    let mut scheduler = MeetingRoomScheduler::new();
    scheduler.register_room(&MeetingRoom::new("M1", 4));
    scheduler.register_room(&MeetingRoom::new("M2", 6));
    scheduler.register_room(&MeetingRoom::new("M1", 12));

    let booking = scheduler.request_room(&slot(100, 60)).unwrap();
    assert_eq!(booking.meeting_room.get_name(), "M1");
    assert_eq!(booking.meeting_room.get_seats(), 12);

    assert_eq!(scheduler.request_room(&slot(100, 60)).unwrap().meeting_room.get_name(), "M2");
    assert!(scheduler.request_room(&slot(100, 60)).is_none());
}

#[test]
fn conflicting_rooms_are_named_once() {
    let mut scheduler = MeetingRoomScheduler::new();
    scheduler.register_room(&MeetingRoom::new("M1", 4));
    scheduler.register_room(&MeetingRoom::new("M2", 6));
    assert!(scheduler.request_explicit_room(&"M1".to_string(), &slot(100, 10)).is_some());
    assert!(scheduler.request_explicit_room(&"M1".to_string(), &slot(120, 10)).is_some());
    assert!(scheduler.request_explicit_room(&"M2".to_string(), &slot(200, 10)).is_some());

    assert_eq!(scheduler.find_conflicting_rooms(&slot(90, 100)), vec!["M1".to_string()]);
    let mut names = scheduler.find_conflicting_rooms(&slot(90, 200));
    names.sort();
    assert_eq!(names, vec!["M1".to_string(), "M2".to_string()]);
    assert!(scheduler.find_conflicting_rooms(&slot(110, 10)).is_empty());
}

#[test]
fn cancelling_twice_is_harmless() {
    let mut scheduler = MeetingRoomScheduler::new();
    scheduler.register_room(&MeetingRoom::new("M1", 4));
    let booking = scheduler.request_room(&slot(100, 60)).unwrap();
    let other = scheduler.request_room(&slot(200, 60)).unwrap();

    scheduler.cancel_booking(&booking);
    scheduler.cancel_booking(&booking);
    scheduler.cancel_booking(&MeetingRoomBooking::new(&MeetingRoom::new("MX", 1), &slot(1, 1)));

    assert!(scheduler.request_room(&slot(200, 60)).is_none());
    assert!(scheduler.request_room(&slot(100, 60)).is_some());
    scheduler.cancel_booking(&other);
    assert!(scheduler.request_room(&slot(200, 60)).is_some());
    assert_eq!(scheduler.pending_end_times(), 4);
}

#[test]
fn point_slots_conflict_with_what_surrounds_them() {
    let mut scheduler = MeetingRoomScheduler::new();
    scheduler.register_room(&MeetingRoom::new("M1", 4));
    assert!(scheduler.request_room(&slot(100, 60)).is_some());

    assert!(scheduler.request_room(&slot(130, 0)).is_none());
    assert!(scheduler.request_room(&slot(100, 0)).is_some());
    assert!(scheduler.request_room(&slot(160, 0)).is_some());
    assert!(scheduler.request_room(&slot(160, 60)).is_some());
}

#[test]
fn bookings_of_one_room_never_overlap() {
    let mut rng = rand::thread_rng();
    for _ in 0..20 {
        let mut scheduler = MeetingRoomScheduler::new();
        for i in 0..3 {
            scheduler.register_room(&MeetingRoom::new(&format!("R{}", i), i));
        }
        let mut held: Vec<MeetingRoomBooking> = Vec::new();
        for _ in 0..300 {
            if !held.is_empty() && rng.gen_range(0..4) == 0 {
                let cancelled = held.swap_remove(rng.gen_range(0..held.len()));
                scheduler.cancel_booking(&cancelled);
                continue;
            }
            let wanted = slot(rng.gen_range(0..200), rng.gen_range(1..30));
            let free_rooms = (0..3)
                .filter(|i| {
                    !held.iter().any(|b| {
                        b.meeting_room.get_name() == format!("R{}", i)
                            && overlap(&b.time_slot, &wanted)
                    })
                })
                .count();
            match scheduler.request_room(&wanted) {
                Some(booking) => {
                    assert!(free_rooms > 0);
                    for other in &held {
                        if other.meeting_room.get_name() == booking.meeting_room.get_name() {
                            assert!(!overlap(&other.time_slot, &booking.time_slot));
                        }
                    }
                    held.push(booking);
                }
                None => assert_eq!(free_rooms, 0),
            }
        }
    }
}

#[test]
fn first_or_earlier_end_signals_a_restart() {
    let mut scheduler = MeetingRoomScheduler::new();
    scheduler.register_room(&MeetingRoom::new("M1", 4));
    assert_eq!(scheduler.wake_reason(), CleanupContextStopReason::Idle);
    assert!(scheduler.cleanup_is_quiet());

    assert!(scheduler.request_room(&slot(100, 60)).is_some());
    assert_eq!(scheduler.wake_reason(), CleanupContextStopReason::Restart);
    assert_eq!(
        scheduler.run_cleanup(Some(false), Timestamp::new(0, 0)),
        CleanupAction::WaitFor(Duration::from_secs(160))
    );
    assert_eq!(scheduler.wake_reason(), CleanupContextStopReason::Idle);

    assert!(scheduler.request_room(&slot(200, 60)).is_some());
    assert_eq!(scheduler.wake_reason(), CleanupContextStopReason::Idle);

    assert!(scheduler.request_room(&slot(160, 0)).is_some());
    assert_eq!(scheduler.wake_reason(), CleanupContextStopReason::Idle);

    assert!(scheduler.request_explicit_room(&"M1".to_string(), &slot(10, 20)).is_some());
    assert_eq!(scheduler.wake_reason(), CleanupContextStopReason::Restart);
    assert_eq!(
        scheduler.run_cleanup(Some(false), Timestamp::new(5, 0)),
        CleanupAction::WaitFor(Duration::from_secs(25))
    );
}

#[test]
fn a_signal_to_stop_is_not_overwritten() {
    let mut scheduler = MeetingRoomScheduler::new();
    scheduler.register_room(&MeetingRoom::new("M1", 4));
    scheduler.notify_cleanup_thread(CleanupContextStopReason::Stop);
    assert!(!scheduler.cleanup_is_quiet());

    assert!(scheduler.request_room(&slot(100, 60)).is_some());
    assert_eq!(scheduler.wake_reason(), CleanupContextStopReason::Stop);

    assert_eq!(scheduler.run_cleanup(Some(false), Timestamp::new(0, 0)), CleanupAction::Exit);
    assert_eq!(scheduler.wake_reason(), CleanupContextStopReason::Stop);
    assert!(!scheduler.finish_cleanup_wait(false));
    assert!(!scheduler.has_no_bookings());
}

#[test]
fn cleanup_context_starts_quiet() {
    let mut context = CleanupContext::new();
    assert_eq!(context.wake_reason(), CleanupContextStopReason::Idle);
    assert!(context.is_quiet());

    context.signal(CleanupContextStopReason::Restart);
    assert_eq!(context.wake_reason(), CleanupContextStopReason::Restart);
    assert!(!context.is_quiet());

    context.signal(CleanupContextStopReason::Stop);
    assert_eq!(context.wake_reason(), CleanupContextStopReason::Stop);
}

#[test]
fn worker_sleeps_without_limit_when_nothing_is_pending() {
    let mut scheduler = MeetingRoomScheduler::new();
    assert_eq!(scheduler.run_cleanup(None, Timestamp::new(50, 0)), CleanupAction::WaitForSignal);
    assert_eq!(scheduler.prepare_cleanup_wait(Timestamp::new(50, 0)), None);

    scheduler.expire_earliest();
    assert!(scheduler.finish_cleanup_wait(true));
    assert!(scheduler.has_no_bookings());
}

#[test]
fn sweep_takes_what_has_ended_and_nothing_else() {
    let mut scheduler = MeetingRoomScheduler::new();
    scheduler.register_room(&MeetingRoom::new("M1", 4));
    scheduler.register_room(&MeetingRoom::new("M2", 6));
    assert!(scheduler.request_explicit_room(&"M1".to_string(), &slot(100, 10)).is_some());
    assert!(scheduler.request_explicit_room(&"M2".to_string(), &slot(100, 20)).is_some());
    assert!(scheduler.request_explicit_room(&"M1".to_string(), &slot(120, 10)).is_some());
    assert_eq!(scheduler.pending_end_times(), 3);

    // Nothing lies before 110: nothing is swept, the booking that ends at 110 stays.
    assert_eq!(
        scheduler.prepare_cleanup_wait(Timestamp::new(110, 0)),
        Some(Duration::from_secs(0))
    );
    assert_eq!(scheduler.pending_end_times(), 3);
    assert!(scheduler.request_explicit_room(&"M1".to_string(), &slot(105, 1)).is_none());

    // At 115 the end-time 110 is overdue: the booking that ended at 110 goes.
    assert_eq!(
        scheduler.prepare_cleanup_wait(Timestamp::new(115, 0)),
        Some(Duration::from_secs(5))
    );
    assert_eq!(scheduler.pending_end_times(), 2);
    assert!(scheduler.request_explicit_room(&"M1".to_string(), &slot(105, 1)).is_some());
    assert!(scheduler.request_explicit_room(&"M2".to_string(), &slot(110, 5)).is_none());
    assert!(scheduler.request_explicit_room(&"M1".to_string(), &slot(125, 1)).is_none());

    // At 200 everything has ended.
    assert_eq!(scheduler.prepare_cleanup_wait(Timestamp::new(200, 0)), None);
    assert!(scheduler.has_no_bookings());
    assert_eq!(scheduler.pending_end_times(), 0);
}

#[test]
fn timer_running_out_expires_the_earliest_end() {
    let mut scheduler = MeetingRoomScheduler::new();
    scheduler.register_room(&MeetingRoom::new("M1", 4));
    scheduler.register_room(&MeetingRoom::new("M2", 6));
    assert!(scheduler.request_explicit_room(&"M1".to_string(), &slot(100, 10)).is_some());
    assert!(scheduler.request_explicit_room(&"M2".to_string(), &slot(100, 10)).is_some());
    assert!(scheduler.request_explicit_room(&"M1".to_string(), &slot(120, 10)).is_some());

    assert_eq!(
        scheduler.run_cleanup(Some(false), Timestamp::new(90, 0)),
        CleanupAction::WaitFor(Duration::from_secs(20))
    );
    // Both bookings that end at 110 go; one of the two end-times stays behind.
    assert!(scheduler.finish_cleanup_wait(true));
    assert_eq!(scheduler.pending_end_times(), 2);
    assert!(scheduler.request_explicit_room(&"M1".to_string(), &slot(100, 10)).is_some());
    assert!(scheduler.request_explicit_room(&"M2".to_string(), &slot(100, 10)).is_some());
    assert!(scheduler.request_explicit_room(&"M1".to_string(), &slot(125, 1)).is_none());
    assert_eq!(scheduler.pending_end_times(), 4);

    scheduler.remove_expired_bookings_till(Timestamp::new(110, 0));
    assert!(scheduler.request_explicit_room(&"M1".to_string(), &slot(100, 10)).is_some());
    assert!(!scheduler.has_no_bookings());
    scheduler.remove_expired_bookings_till(Timestamp::new(130, 0));
    assert!(scheduler.has_no_bookings());
    assert_eq!(scheduler.pending_end_times(), 5);
}

#[test]
fn cancelled_bookings_leave_stale_end_times_that_the_worker_drains() {
    let mut scheduler = MeetingRoomScheduler::new();
    scheduler.register_room(&MeetingRoom::new("M1", 4));
    let booking = scheduler.request_room(&slot(100, 10)).unwrap();
    scheduler.cancel_booking(&booking);
    assert!(scheduler.has_no_bookings());
    assert_eq!(scheduler.pending_end_times(), 1);

    assert_eq!(
        scheduler.run_cleanup(Some(false), Timestamp::new(100, 0)),
        CleanupAction::WaitFor(Duration::from_secs(10))
    );
    assert_eq!(
        scheduler.run_cleanup(Some(true), Timestamp::new(110, 0)),
        CleanupAction::WaitForSignal
    );
    assert_eq!(scheduler.pending_end_times(), 0);
}
