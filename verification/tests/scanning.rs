use hl::scan::{BufPool, Scanner, Segment};

#[test]
fn scanner_cuts_at_last_newline() {
    let mut scanner = Scanner::new(8);
    let mut segs = scanner.feed(b"ab\ncd\nefgh");
    assert_eq!(segs.len(), 1);
    match &segs[0] {
        Segment::Complete(d) => assert_eq!(d.as_slice(), b"ab\ncd\n"),
        _ => panic!("expected a complete segment"),
    }
    segs = scanner.feed(b"\n");
    assert_eq!(segs.len(), 0);
    let tail = scanner.finish().unwrap();
    match tail {
        Segment::Complete(d) => assert_eq!(d.as_slice(), b"efgh\n"),
        _ => panic!("expected a complete tail"),
    }
}

#[test]
fn scanner_emits_incomplete_when_no_newline_fits() {
    let mut scanner = Scanner::new(4);
    let segs = scanner.feed(b"abcdefgh");
    assert_eq!(segs.len(), 2);
    for seg in &segs {
        match seg {
            Segment::Incomplete(d) => assert_eq!(d.len(), 4),
            _ => panic!("expected incomplete segments"),
        }
    }
}

#[test]
fn buffer_pool_reuses_buffers() {
    let mut pool = BufPool::new(16);
    let a = pool.checkout();
    pool.checkin(a);
    let b = pool.checkout();
    assert_eq!(b.len(), 0);
    pool.checkin(b);
}
