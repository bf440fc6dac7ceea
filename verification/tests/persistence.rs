use guard::GuardTracker;

#[test]
fn save_then_load_reproduces_future_entries() {
    let mut t = GuardTracker::new(1, 60, 300);
    t.register_attempt(b"9.9.9.9", 100);
    t.register_attempt(b"8.8.8.8", 200);
    let saved = t.save_blocklist();
    assert_eq!(saved, b"9.9.9.9=400\n8.8.8.8=500\n".to_vec());

    // Load into a fresh tracker before any expiry: both entries survive.
    let mut fresh = GuardTracker::new(1, 60, 300);
    fresh.load_blocklist(&saved, 150);
    assert!(fresh.is_blocked(b"9.9.9.9", 150));
    assert!(fresh.is_blocked(b"8.8.8.8", 150));
    assert_eq!(fresh.save_blocklist(), saved);

    // Load after the first expiry: the stale entry is absent.
    let mut later = GuardTracker::new(1, 60, 300);
    later.load_blocklist(&saved, 450);
    assert!(!later.is_blocked(b"9.9.9.9", 451));
    assert!(later.is_blocked(b"8.8.8.8", 451));
    assert_eq!(later.save_blocklist(), b"8.8.8.8=500\n".to_vec());
}

#[test]
fn load_skips_unreadable_lines() {
    let mut t = GuardTracker::new(1, 60, 300);
    let content = b"no-equals-sign\n1.2.3.4=notanumber\n5.6.7.8=900\n=7.7.7.7\n2.2.2.2=100\n";
    t.load_blocklist(content, 500);
    // Only the well-formed, still-future line takes effect; the line with
    // a past timestamp and the damaged ones are skipped.
    assert!(t.is_blocked(b"5.6.7.8", 500));
    assert!(!t.is_blocked(b"1.2.3.4", 500));
    assert!(!t.is_blocked(b"2.2.2.2", 500));
    assert_eq!(t.save_blocklist(), b"5.6.7.8=900\n".to_vec());
}

#[test]
fn load_accepts_padding_and_quotes() {
    let mut t = GuardTracker::new(1, 60, 300);
    t.load_blocklist(b"  4.4.4.4  = \"800\" \n", 500);
    assert!(t.is_blocked(b"4.4.4.4", 500));
    assert!(t.is_blocked(b"4.4.4.4", 799));
    assert!(!t.is_blocked(b"4.4.4.4", 800));
}

#[test]
fn load_merges_with_last_writer_winning() {
    let mut t = GuardTracker::new(1, 60, 300);
    t.register_attempt(b"9.9.9.9", 100);  // blocked until 400
    t.load_blocklist(b"9.9.9.9=700\n", 200);
    assert!(t.is_blocked(b"9.9.9.9", 500));
    assert!(!t.is_blocked(b"9.9.9.9", 700));
}

#[test]
fn load_handles_missing_final_terminator() {
    let mut t = GuardTracker::new(1, 60, 300);
    t.load_blocklist(b"3.3.3.3=900", 500);
    assert!(t.is_blocked(b"3.3.3.3", 500));
}

#[test]
fn overflowing_timestamp_is_skipped() {
    let mut t = GuardTracker::new(1, 60, 300);
    t.load_blocklist(b"6.6.6.6=99999999999999999999999999\n", 500);
    assert!(!t.is_blocked(b"6.6.6.6", 500));
}
