use vclock_peers::clock::{Clock, ClockError};

#[test]
fn new_clock_starts_own_entry_at_one() {
    let c = Clock::new(3, 1);
    assert_eq!(c.snapshot(), vec![0, 1, 0]);
    assert_eq!(c.len(), 3);
    assert_eq!(c.own(), 1);
}

#[test]
fn local_event_then_receive_then_send_scenario() {
    let mut p = Clock::new(3, 0);
    assert_eq!(p.snapshot(), vec![1, 0, 0]);
    p.local_event();
    assert_eq!(p.snapshot(), vec![2, 0, 0]);
    assert_eq!(p.merge_received(&[0, 5, 0]), Ok(()));
    assert_eq!(p.snapshot(), vec![3, 5, 0]);
    p.local_event();
    assert_eq!(p.snapshot(), vec![4, 5, 0]);
}

#[test]
fn merge_takes_pointwise_max_and_ticks_own() {
    let mut c = Clock::new(3, 1);
    c.local_event();
    c.local_event();
    // [0, 3, 0]
    assert_eq!(c.merge_received(&[7, 9, 2]), Ok(()));
    assert_eq!(c.snapshot(), vec![7, 10, 2]);
    assert_eq!(c.merge_received(&[1, 1, 1]), Ok(()));
    assert_eq!(c.snapshot(), vec![7, 11, 2]);
}

#[test]
fn merge_of_wrong_length_is_refused_and_changes_nothing() {
    let mut c = Clock::new(3, 0);
    assert_eq!(c.merge_received(&[4, 4]), Err(ClockError::MalformedClock));
    assert_eq!(c.merge_received(&[4, 4, 4, 4]), Err(ClockError::MalformedClock));
    assert_eq!(c.merge_received(&[]), Err(ClockError::MalformedClock));
    assert_eq!(c.snapshot(), vec![1, 0, 0]);
}

#[test]
fn merge_that_would_overflow_is_refused() {
    let mut c = Clock::new(2, 0);
    assert_eq!(c.merge_received(&[u64::MAX, 3]), Err(ClockError::CounterOverflow));
    assert_eq!(c.snapshot(), vec![1, 0]);
    assert_eq!(c.merge_received(&[u64::MAX - 1, 3]), Ok(()));
    assert_eq!(c.snapshot(), vec![u64::MAX, 3]);
    assert!(!c.can_tick());
    // another participant's entry may be at the top
    let mut d = Clock::new(2, 1);
    assert_eq!(d.merge_received(&[u64::MAX, 0]), Ok(()));
    assert_eq!(d.snapshot(), vec![u64::MAX, 2]);
}

#[test]
fn entries_never_decrease_along_a_run() {
    let mut c = Clock::new(3, 2);
    let mut prev = c.snapshot();
    let remotes: Vec<Vec<u64>> = vec![vec![3, 0, 0], vec![1, 4, 0], vec![0, 0, 0], vec![9, 2, 1]];
    for r in remotes.iter() {
        c.local_event();
        let now = c.snapshot();
        assert!(now.iter().zip(prev.iter()).all(|(a, b)| a >= b));
        assert_eq!(now[2], prev[2] + 1);
        prev = now;
        assert_eq!(c.merge_received(r), Ok(()));
        let now = c.snapshot();
        assert!(now.iter().zip(prev.iter()).all(|(a, b)| a >= b));
        assert_eq!(now[2], prev[2] + 1);
        prev = now;
    }
    assert_eq!(c.snapshot(), vec![9, 4, 9]);
}

#[test]
fn interleavings_of_the_same_updates_agree() {
    // local events and receipts in two different orders
    let mut a = Clock::new(3, 0);
    a.local_event();
    assert_eq!(a.merge_received(&[0, 5, 1]), Ok(()));
    assert_eq!(a.merge_received(&[1, 2, 7]), Ok(()));
    a.local_event();

    let mut b = Clock::new(3, 0);
    assert_eq!(b.merge_received(&[1, 2, 7]), Ok(()));
    b.local_event();
    b.local_event();
    assert_eq!(b.merge_received(&[0, 5, 1]), Ok(()));

    assert_eq!(a.snapshot(), b.snapshot());
    assert_eq!(a.snapshot(), vec![5, 5, 7]);
}
