use guard::{Action, GuardTracker};

fn unbans(acts: &[Action]) -> Vec<Vec<u8>> {
    acts.iter()
        .filter_map(|a| match a {
            Action::Unban(ip) => Some(ip.clone()),
            Action::Ban(_) => None,
        })
        .collect()
}

fn bans(acts: &[Action]) -> Vec<Vec<u8>> {
    acts.iter()
        .filter_map(|a| match a {
            Action::Ban(ip) => Some(ip.clone()),
            Action::Unban(_) => None,
        })
        .collect()
}

#[test]
fn threshold_blocks_at_once() {
    let mut t = GuardTracker::new(3, 60, 300);
    assert!(!t.is_blocked(b"9.9.9.9", 1000));
    t.register_attempt(b"9.9.9.9", 1000);
    assert!(!t.is_blocked(b"9.9.9.9", 1001));
    t.register_attempt(b"9.9.9.9", 1005);
    assert!(!t.is_blocked(b"9.9.9.9", 1006));
    t.register_attempt(b"9.9.9.9", 1010);
    // The third qualifying event within the window triggers the block.
    assert!(t.is_blocked(b"9.9.9.9", 1010));
    // It holds right up to the end of the term.
    assert!(t.is_blocked(b"9.9.9.9", 1309));
    let acts = t.take_actions();
    assert_eq!(bans(&acts), vec![b"9.9.9.9".to_vec()]);
    assert_eq!(unbans(&acts).len(), 0);
}

#[test]
fn end_to_end_block_and_release() {
    // threshold=3, window=60s, blockDuration=300s; three abusive events
    // from one address, 5 s apart.
    let mut t = GuardTracker::new(3, 60, 300);
    for now in [1000u64, 1005, 1010] {
        if !t.is_blocked(b"9.9.9.9", now) {
            t.register_attempt(b"9.9.9.9", now);
        }
    }
    assert!(t.is_blocked(b"9.9.9.9", 1010));
    // After 300 s of simulated time the term has elapsed.
    assert!(!t.is_blocked(b"9.9.9.9", 1310));
    let acts = t.take_actions();
    assert_eq!(bans(&acts), vec![b"9.9.9.9".to_vec()]);
    assert_eq!(unbans(&acts), vec![b"9.9.9.9".to_vec()]);
}

#[test]
fn expired_entry_is_gone_after_query() {
    let mut t = GuardTracker::new(1, 60, 100);
    t.register_attempt(b"5.5.5.5", 50);
    assert!(t.is_blocked(b"5.5.5.5", 100));
    // Expiry is at 150: a query at 150 answers false and removes the
    // entry; the immediate second query also answers false and has no
    // further side effect.
    assert!(!t.is_blocked(b"5.5.5.5", 150));
    assert!(!t.is_blocked(b"5.5.5.5", 150));
    let acts = t.take_actions();
    assert_eq!(unbans(&acts), vec![b"5.5.5.5".to_vec()]);
}

#[test]
fn window_slides() {
    let mut t = GuardTracker::new(3, 60, 300);
    t.register_attempt(b"7.7.7.7", 0);
    t.register_attempt(b"7.7.7.7", 10);
    // The first two events have left the window by now: no block.
    t.register_attempt(b"7.7.7.7", 100);
    assert!(!t.is_blocked(b"7.7.7.7", 100));
    t.register_attempt(b"7.7.7.7", 110);
    t.register_attempt(b"7.7.7.7", 120);
    assert!(t.is_blocked(b"7.7.7.7", 120));
}

#[test]
fn exactly_threshold_triggers() {
    // The comparison is "at least": exactly `threshold` events suffice.
    let mut t = GuardTracker::new(2, 60, 300);
    t.register_attempt(b"1.1.1.1", 10);
    assert!(!t.is_blocked(b"1.1.1.1", 10));
    t.register_attempt(b"1.1.1.1", 11);
    assert!(t.is_blocked(b"1.1.1.1", 11));
}

#[test]
fn addresses_are_independent() {
    let mut t = GuardTracker::new(2, 60, 300);
    t.register_attempt(b"1.1.1.1", 10);
    t.register_attempt(b"2.2.2.2", 11);
    assert!(!t.is_blocked(b"1.1.1.1", 12));
    assert!(!t.is_blocked(b"2.2.2.2", 12));
    t.register_attempt(b"1.1.1.1", 13);
    assert!(t.is_blocked(b"1.1.1.1", 13));
    assert!(!t.is_blocked(b"2.2.2.2", 13));
}

#[test]
fn cleanup_expires_blocks_and_counters() {
    let mut t = GuardTracker::new(1, 60, 100);
    t.register_attempt(b"3.3.3.3", 10);
    t.register_attempt(b"4.4.4.4", 20);
    assert!(t.is_blocked(b"3.3.3.3", 30));
    assert!(t.is_blocked(b"4.4.4.4", 30));
    t.take_actions();
    // 3.3.3.3 expires at 110, 4.4.4.4 at 120.
    t.cleanup(115);
    let acts = t.take_actions();
    assert_eq!(unbans(&acts), vec![b"3.3.3.3".to_vec()]);
    assert!(!t.is_blocked(b"3.3.3.3", 115));
    assert!(t.is_blocked(b"4.4.4.4", 115));
}

#[test]
fn window_boundary_is_inclusive() {
    // An event exactly `window` seconds old still counts.
    let mut t = GuardTracker::new(2, 60, 300);
    t.register_attempt(b"6.6.6.6", 0);
    t.register_attempt(b"6.6.6.6", 60);
    assert!(t.is_blocked(b"6.6.6.6", 60));
    // One second further apart, the first has aged out.
    let mut t2 = GuardTracker::new(2, 60, 300);
    t2.register_attempt(b"6.6.6.6", 0);
    t2.register_attempt(b"6.6.6.6", 61);
    assert!(!t2.is_blocked(b"6.6.6.6", 61));
}

#[test]
fn cleanup_is_quiet_when_nothing_expired() {
    let mut t = GuardTracker::new(5, 60, 100);
    t.register_attempt(b"3.3.3.3", 10);
    t.cleanup(20);
    assert_eq!(t.take_actions().len(), 0);
}
