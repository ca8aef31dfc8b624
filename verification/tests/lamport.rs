use logical_clocks_rs::{Identifier, LamportClock, LamportTime};
use uuid::Uuid;

#[test]
fn test_increment() {
    let mut clock = LamportClock::new();

    // Increment the clock and check the time
    let time1 = clock.increment();
    assert!(time1 == LamportTime(2, clock.time().1));

    // Increment again and check the time
    let time2 = clock.increment();
    assert!(time2 == LamportTime(3, clock.time().1));
}

#[test]
fn test_time() {
    let mut clock = LamportClock::new();

    // Increment the clock 3x
    clock.increment();
    clock.increment();
    clock.increment();

    // Check the current time
    let current_time = clock.time();
    assert!(current_time == LamportTime(4, clock.time().1));
}

#[test]
fn test_compare() {
    let mut clock = LamportClock::new();

    // Initial time
    let initial_time = clock.time();
    assert_eq!(initial_time, LamportTime(1, clock.time().1));

    // Simulate receiving a message with a higher timestamp
    let received_time = LamportTime(10, Identifier::default());
    clock.compare(received_time);

    // The clock should now be incremented to 11
    let updated_time = clock.time();
    assert_eq!(updated_time, LamportTime(11, clock.time().1));
}

#[test]
fn test_with_custom_identifier() {
    let custom_id = Uuid::new_v4().as_bytes().to_vec();
    let custom_clock = LamportClock::with_custom_identifier(custom_id.clone());

    // Check the custom identifier
    assert_eq!(custom_clock.time().1, Identifier::from_bytes(custom_id.clone()));
}

#[test]
fn scalar_counters_come_in_order() {
    // A fresh clock reports counter 1; three ticks yield 2, 3, 4 in order and
    // the snapshot afterwards reports 4.
    let mut clock = LamportClock::with_custom_identifier(vec![7]);
    assert_eq!(clock.time().0, 1);
    assert_eq!(clock.increment().0, 2);
    assert_eq!(clock.increment().0, 3);
    assert_eq!(clock.increment().0, 4);
    assert_eq!(clock.time().0, 4);
}

#[test]
fn witness_is_idempotent_once_applied() {
    // A clock at 1 that witnesses a dominating time (10, other) jumps to 11;
    // witnessing the same or an older time afterwards changes nothing.
    let other = Identifier::from_bytes(vec![9, 9, 9]);
    let mut clock = LamportClock::with_custom_identifier(vec![1, 2, 3]);
    clock.compare(LamportTime(10, other.clone()));
    assert_eq!(clock.time().0, 11);
    clock.compare(LamportTime(10, other.clone()));
    assert_eq!(clock.time().0, 11);
    clock.compare(LamportTime(5, other.clone()));
    assert_eq!(clock.time().0, 11);
}

#[test]
fn witness_ignores_dominated_time() {
    // The same counter with a smaller owner does not dominate: no change.
    let mut clock = LamportClock::with_custom_identifier(vec![5, 5]);
    clock.compare(LamportTime(1, Identifier::from_bytes(vec![0])));
    assert_eq!(clock.time().0, 1);
    // The same counter with a larger owner dominates: jump to counter + 1.
    clock.compare(LamportTime(1, Identifier::from_bytes(vec![255, 255, 255])));
    assert_eq!(clock.time().0, 2);
}

#[test]
fn scalar_codec_round_trips() {
    let mut clock = LamportClock::with_custom_identifier(vec![10, 20, 30, 40]);
    clock.increment();
    clock.increment();
    let bytes = clock.to_bytes();
    assert_eq!(bytes.len(), 8 + 4);
    let back = LamportClock::from_bytes(&bytes).unwrap();
    assert_eq!(back.time().0, clock.time().0);
    assert_eq!(back.time().1, clock.time().1);
}

#[test]
fn scalar_decode_needs_eight_bytes() {
    assert!(LamportClock::from_bytes(&[0, 0, 0, 0, 0, 0, 1]).is_none());
    assert!(LamportClock::from_bytes(&[]).is_none());
    // Exactly eight bytes decode to an empty owner identifier.
    let c = LamportClock::from_bytes(&[0, 0, 0, 0, 0, 0, 0, 3]).unwrap();
    assert_eq!(c.time().0, 3);
    assert_eq!(c.time().1, Identifier::from_bytes(vec![]));
}
