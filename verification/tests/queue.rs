use bluefin::queue::Queue;

#[test]
fn test_queue_hold_next() {
    let q = Queue::from(b"LOJT");
    assert_eq!(q.hold(), Some(b'L'));
    assert_eq!(q.next(), b"OJT");
    let q = Queue::from(b"");
    assert_eq!(q.hold(), None);
    assert_eq!(q.next(), b"");
}

#[test]
fn test_queue_pop() {
    let q = Queue::from(b"LOJT");
    let mut qs = q.pop();
    let (x1, q1) = qs.next().unwrap();
    assert_eq!(x1, b'L');
    assert_eq!(q1, Queue::from(b"OJT"));
    let (x2, q2) = qs.next().unwrap();
    assert_eq!(x2, b'O');
    assert_eq!(q2, Queue::from(b"LJT"));
    assert!(qs.next().is_none());
}

#[test]
fn test_queue_pop_last_piece() {
    let q = Queue::new(Some(b'T'), b"");
    let mut qs = q.pop();
    let (x, rest) = qs.next().unwrap();
    assert_eq!(x, b'T');
    assert_eq!(rest.hold(), None);
    assert_eq!(rest.next(), b"");
    assert!(qs.next().is_none());
    assert!(rest.pop().next().is_none());
}

#[test]
fn test_queue_keeps_given_hold() {
    let q = Queue::new(Some(b'I'), b"SZ");
    assert_eq!(q.hold(), Some(b'I'));
    assert_eq!(q.next(), b"SZ");
    let q = Queue::from(&b"SZ"[..]);
    assert_eq!(q.hold(), Some(b'S'));
    assert_eq!(q.next(), b"Z");
}
