use logical_clocks_rs::{ClockOrdering, Identifier, VClock, VClockTime, Vector};

#[test]
fn test_vclock_increment() {
    let id = Identifier::new();
    let mut vclock = VClock::new();

    vclock.increment(&id);
    let current_time = vclock.time();
    assert_eq!(current_time.get(&id).unwrap(), 1);
}

#[test]
fn test_vclock_merge() {
    let mut vclock1 = VClock::new();
    let mut vclock2 = VClock::new();

    let id1 = Identifier::new();
    let id2 = Identifier::new();

    vclock1.increment(&id1);
    vclock2.increment(&id2);
    vclock2.increment(&id2);

    vclock1.merge(&vclock2);
    let current_time = vclock1.time();

    assert_eq!(current_time.get(&id1).unwrap(), 1);
    assert_eq!(current_time.get(&id2).unwrap(), 2);
}

#[test]
fn test_vclock_serialization() {
    let id = Identifier::new();
    let mut vclock = VClock::new();

    vclock.increment(&id);
    let time = vclock.time();

    let serialized = time.to_bytes();
    assert!(serialized.is_ok());

    let deserialized = VClockTime::from_bytes(&serialized.unwrap());

    assert!(deserialized.is_ok());
    assert_eq!(time, deserialized.unwrap());
}

#[test]
fn test_vclock_equality() {
    let mut vclock1 = VClock::new();
    let mut vclock2 = VClock::new();

    let id1 = Identifier::new();
    let id2 = Identifier::new();

    vclock1.increment(&id1);
    vclock1.increment(&id1);
    vclock1.increment(&id1);
    vclock2.increment(&id2);

    vclock1.merge(&vclock2);
    vclock2.merge(&vclock1);

    assert_eq!(vclock1.time(), vclock2.time());
}

#[test]
fn test_vclock_happened_before() {
    let mut vclock1 = VClock::new();
    let mut vclock2 = VClock::new();

    let id1 = Identifier::new();
    let id2 = Identifier::new();

    vclock1.increment(&id1);
    vclock1.increment(&id2);

    vclock2.increment(&id1);
    vclock2.increment(&id2);
    vclock2.increment(&id2);

    assert!(vclock1.happened_before(&vclock2));
    assert!(!vclock2.happened_before(&vclock1));
}

#[test]
fn test_vclock_with_vector() {
    let mut vector = Vector::new();
    let id1 = Identifier::new();
    let id2 = Identifier::new();

    vector.add(id1.clone());
    vector.add(id2.clone());

    let vclock = VClock::with_vector(vector);
    let current_time = vclock.time();

    assert_eq!(current_time.get(&id1).unwrap(), 0);
    assert_eq!(current_time.get(&id2).unwrap(), 0);
}

#[test]
fn concurrent_clocks_merge_to_union() {
    // Clocks over identifiers P and Q: two ticks of P against one tick of Q
    // are concurrent; merging folds both histories together.
    let p = Identifier::from_bytes(vec![80]);
    let q = Identifier::from_bytes(vec![81]);
    let mut vc1 = VClock::new();
    let mut vc2 = VClock::new();

    vc1.increment(&p);
    vc1.increment(&p);
    vc2.increment(&q);

    let t1 = vc1.time();
    let t2 = vc2.time();
    assert_eq!(t1.get(&p).unwrap(), 2);
    assert_eq!(t2.get(&q).unwrap(), 1);
    assert_eq!(t1.compare(&t2), ClockOrdering::Concurrent);
    assert_eq!(t2.compare(&t1), ClockOrdering::Concurrent);
    assert!(!vc1.happened_before(&vc2));
    assert!(!vc2.happened_before(&vc1));

    vc1.merge(&vc2);
    let merged = vc1.time();
    assert_eq!(merged.get(&p).unwrap(), 2);
    assert_eq!(merged.get(&q).unwrap(), 1);
    assert_eq!(merged.len(), 2);
}

#[test]
fn compare_orders_dominating_clocks() {
    let p = Identifier::from_bytes(vec![1]);
    let q = Identifier::from_bytes(vec![2]);
    let mut vc1 = VClock::new();
    vc1.increment(&p);
    let mut vc2 = VClock::new();
    vc2.increment(&p);
    vc2.increment(&q);

    assert_eq!(vc1.time().compare(&vc2.time()), ClockOrdering::Less);
    assert_eq!(vc2.time().compare(&vc1.time()), ClockOrdering::Greater);
    assert_eq!(vc1.time().compare(&vc1.time()), ClockOrdering::Equal);
}

#[test]
fn absent_and_zero_compare_equal() {
    // A seeded zero entry is structurally distinct from an absent one but the
    // partial order treats both as 0.
    let p = Identifier::from_bytes(vec![3]);
    let mut vector = Vector::new();
    vector.add(p.clone());
    let seeded = VClock::with_vector(vector);
    let empty = VClock::new();

    assert_eq!(seeded.time().compare(&empty.time()), ClockOrdering::Equal);
    assert_eq!(seeded.time().get(&p), Some(0));
    assert_eq!(empty.time().get(&p), None);
    assert!(seeded.time() != empty.time());
}

#[test]
fn empty_snapshot_round_trips() {
    let time = VClock::new().time();
    let bytes = time.to_bytes().unwrap();
    assert_eq!(bytes, vec![0u8; 8]);
    let back = VClockTime::from_bytes(&bytes).unwrap();
    assert_eq!(back, time);
    assert_eq!(back.len(), 0);
}

#[test]
fn snapshot_decode_rejects_malformed_bytes() {
    // Too short to hold the entry count.
    assert!(VClockTime::from_bytes(&[]).is_err());
    assert!(VClockTime::from_bytes(&[0, 0, 0]).is_err());

    let p = Identifier::from_bytes(vec![10, 11]);
    let mut vc = VClock::new();
    vc.increment(&p);
    let good = vc.time().to_bytes().unwrap();
    assert!(VClockTime::from_bytes(&good).is_ok());

    // Truncated entry.
    let truncated = &good[..good.len() - 1];
    assert!(VClockTime::from_bytes(truncated).is_err());

    // Trailing garbage.
    let mut trailing = good.clone();
    trailing.push(0);
    assert!(VClockTime::from_bytes(&trailing).is_err());

    // An entry count that promises more entries than the bytes hold.
    let mut wrong_count = good.clone();
    wrong_count[7] = 2;
    assert!(VClockTime::from_bytes(&wrong_count).is_err());
}

#[test]
fn merge_never_decreases_entries() {
    let p = Identifier::from_bytes(vec![42]);
    let mut high = VClock::new();
    high.increment(&p);
    high.increment(&p);
    let mut low = VClock::new();
    low.increment(&p);

    // Merging a lower counter in keeps the higher value.
    high.merge(&low.clone());
    assert_eq!(high.time().get(&p).unwrap(), 2);

    // Merging twice is the same as merging once.
    let mut once = low.clone();
    once.merge(&high);
    let mut twice = low.clone();
    twice.merge(&high);
    twice.merge(&high);
    assert_eq!(once.time(), twice.time());
}
