use std::cmp::Ordering;

use link_set::epoch::{compare_epochs, opt_epoch_increment, opt_epoch_to_int, Epoch};

#[test]
fn from_int_rejects_zero() {
    assert!(Epoch::from_int(0).is_none());
    assert_eq!(Epoch::from_int(7).map(|e| e.to_int()), Some(7));
    assert_eq!(Epoch::one().to_int(), 1);
}

#[test]
fn random_epochs_are_never_zero() {
    for _ in 0..100 {
        assert_ne!(Epoch::random().to_int(), 0);
    }
    assert_eq!(Epoch::from_random(0).to_int(), 1);
    assert_eq!(Epoch::from_random(42).to_int(), 42);
}

#[test]
fn increment_saturates() {
    let e = Epoch::from_int(5).unwrap();
    assert_eq!(e.increment().to_int(), 6);
    let top = Epoch::from_int(u64::MAX).unwrap();
    assert_eq!(top.increment().to_int(), u64::MAX);
}

#[test]
fn optional_epochs() {
    assert_eq!(opt_epoch_to_int(None), 0);
    assert_eq!(opt_epoch_to_int(Epoch::from_int(3)), 3);
    assert!(opt_epoch_increment(None).is_none());
    assert_eq!(opt_epoch_increment(Epoch::from_int(3)).map(|e| e.to_int()), Some(4));
}

#[test]
fn compare_epochs_orders_none_lowest() {
    let two = Epoch::from_int(2);
    let three = Epoch::from_int(3);
    assert_eq!(compare_epochs(&two, &three), Ordering::Less);
    assert_eq!(compare_epochs(&three, &two), Ordering::Greater);
    assert_eq!(compare_epochs(&two, &two), Ordering::Equal);
    assert_eq!(compare_epochs(&two, &None), Ordering::Greater);
    assert_eq!(compare_epochs(&None, &two), Ordering::Less);
    // a missing epoch is less than everything, even another missing one
    assert_eq!(compare_epochs(&None, &None), Ordering::Less);
}
