use guard::reader::split_all;
use guard::TailReader;

#[test]
fn partial_line_then_completion() {
    // A file written in two chunks: the first ends mid-line, the second
    // completes it and adds one more full line.
    let mut r = TailReader::new(1, 0);
    let chunk1 = b"first li";
    let (start, rotated) = r.prepare_read(1, chunk1.len() as u64);
    assert!(!rotated);
    assert_eq!(start, 0);
    let lines = r.consume(chunk1);
    assert_eq!(lines.len(), 0);

    let full = b"first line\nsecond line\n";
    let (start, rotated) = r.prepare_read(1, full.len() as u64);
    assert!(!rotated);
    assert_eq!(start, 0);
    let lines = r.consume(full);
    assert_eq!(lines, vec![b"first line".to_vec(), b"second line".to_vec()]);

    // Nothing is re-delivered once consumed.
    let (start, rotated) = r.prepare_read(1, full.len() as u64);
    assert!(!rotated);
    assert_eq!(start, full.len() as u64);
    let lines = r.consume(b"");
    assert_eq!(lines.len(), 0);
}

#[test]
fn rotation_resets_to_new_file() {
    // The reader consumed to some offset, then the file is renamed away
    // and a new, shorter file appears at the same path.
    let mut r = TailReader::new(7, 0);
    let old = b"old one\nold two\n";
    r.prepare_read(7, old.len() as u64);
    let lines = r.consume(old);
    assert_eq!(lines.len(), 2);

    let fresh = b"new\n";
    let (start, rotated) = r.prepare_read(8, fresh.len() as u64);
    assert!(rotated);
    assert_eq!(start, 0);
    let lines = r.consume(fresh);
    assert_eq!(lines, vec![b"new".to_vec()]);
}

#[test]
fn truncation_counts_as_rotation() {
    let mut r = TailReader::new(3, 0);
    let data = b"a\nb\n";
    r.prepare_read(3, data.len() as u64);
    r.consume(data);
    // Same identity, but the size fell below the consumed offset.
    let (start, rotated) = r.prepare_read(3, 1);
    assert!(rotated);
    assert_eq!(start, 0);
}

#[test]
fn construction_starts_at_end_of_file() {
    // Historical lines are not back-filled.
    let mut r = TailReader::new(1, 10);
    let (start, rotated) = r.prepare_read(1, 16);
    assert!(!rotated);
    assert_eq!(start, 10);
    let lines = r.consume(b"tailated\nx");
    assert_eq!(lines, vec![b"tailated".to_vec()]);
}

#[test]
fn carriage_returns_are_stripped() {
    let mut r = TailReader::new(1, 0);
    r.prepare_read(1, 10);
    // One carriage return is stripped per terminated line; the trailing
    // bytes with no terminator are not delivered.
    let lines = r.consume(b"a\r\nb\n\r\rc\r");
    assert_eq!(lines, vec![b"a".to_vec(), b"b".to_vec()]);
    let lines = r.consume(b"\r\rc\r\r\n");
    assert_eq!(lines, vec![b"\r\rc\r".to_vec()]);
}

#[test]
fn split_all_keeps_unterminated_tail() {
    let lines = split_all(b"one\ntwo");
    assert_eq!(lines, vec![b"one".to_vec(), b"two".to_vec()]);
    let lines = split_all(b"one\ntwo\n");
    assert_eq!(lines, vec![b"one".to_vec(), b"two".to_vec()]);
    let lines = split_all(b"");
    assert_eq!(lines.len(), 0);
}
