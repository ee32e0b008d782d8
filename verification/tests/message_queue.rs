use mqpool::{MessageQueueError, MessageQueueInternal};

#[derive(Debug, PartialEq)]
struct TestStruct {
    a: usize,
    b: String,
    c: [usize; 2],
}

#[test]
fn create_message_queue() {
    assert_eq!(MessageQueueInternal::<usize>::new(0).err(), Some(MessageQueueError::UnvalidSize));
    assert_eq!(MessageQueueInternal::<usize>::new(1).err(), Some(MessageQueueError::UnvalidSize));
    // room for 10^12 messages cannot be had
    assert_eq!(MessageQueueInternal::<usize>::new(1000000000000).err(), Some(MessageQueueError::MmapFailed));
    assert!(MessageQueueInternal::<&u8>::new(2048).is_ok());
    for i in 0..5 {
        assert!(MessageQueueInternal::<f64>::new(25 * 10 ^ i).is_ok());
        assert!(MessageQueueInternal::<Vec<String>>::new(25 * 10 ^ i).is_ok());
        assert!(MessageQueueInternal::<TestStruct>::new(25 * 10 ^ i).is_ok());
    }
}

#[test]
fn create_reader() {
    let t = MessageQueueInternal::<usize>::new(256).unwrap();
    assert_eq!(t.unread(), 0);
    assert_eq!(t.is_ready(), false);
}

#[test]
fn send_without_reader() {
    let mut t = MessageQueueInternal::<usize>::new(256).unwrap();
    for i in 0..255 {
        let res = t.send(i);
        assert!(res.is_ok());
    }
    // One too much
    let res = t.send(256);
    assert_eq!(res.err(), Some(MessageQueueError::MessageQueueFull));
}

#[test]
fn send_with_reader() {
    let mut t = MessageQueueInternal::<usize>::new(256).unwrap();
    for i in 0..127 {
        let res = t.send(i);
        assert!(res.is_ok());
    }
    assert_eq!(t.unread(), 127);
    assert!(t.is_ready());
    for c in 0..127 {
        assert_eq!(t.is_ready(), true);
        assert_eq!(t.read(), Ok(c));
    }
    assert_eq!(t.unread(), 0);
    assert!(!t.is_ready());

    for i in 0..255 {
        let res = t.send(i);
        assert!(res.is_ok());
    }

    // One too much
    let res = t.send(256);
    assert_eq!(res.err(), Some(MessageQueueError::MessageQueueFull));

    let mut c = 0;
    while t.is_ready() {
        assert_eq!(t.read(), Ok(c));
        c += 1;
    }
    assert_eq!(c, 255);
}

#[test]
fn send_struct() {
    let mut t = MessageQueueInternal::<TestStruct>::new(256).unwrap();
    for i in 0..127 {
        assert!(t.send(TestStruct { a: i, b: "42".into(), c: [i, i + 1] }).is_ok());
    }
    for i in 0..127 {
        assert_eq!(t.read(), Ok(TestStruct { a: i, b: "42".into(), c: [i, i + 1] }));
    }
}

#[test]
fn read_empty_queue() {
    let mut t = MessageQueueInternal::<usize>::new(2).unwrap();
    assert_eq!(t.read(), Err(MessageQueueError::MessageQueueEmpty));
    assert_eq!(t.send(7), Ok(()));
    assert_eq!(t.send(8), Err(MessageQueueError::MessageQueueFull));
    assert_eq!(t.read(), Ok(7));
    assert_eq!(t.read(), Err(MessageQueueError::MessageQueueEmpty));
}

#[test]
fn wrap_around_keeps_order() {
    // 3 slots hold 2 messages; the pointers wrap several times
    let mut t = MessageQueueInternal::<u32>::new(3).unwrap();
    let mut next_sent = 0u32;
    let mut next_read = 0u32;
    for _ in 0..10 {
        assert_eq!(t.send(next_sent), Ok(()));
        next_sent += 1;
        assert_eq!(t.send(next_sent), Ok(()));
        next_sent += 1;
        assert_eq!(t.unread(), 2);
        assert_eq!(t.send(99), Err(MessageQueueError::MessageQueueFull));
        assert_eq!(t.read(), Ok(next_read));
        next_read += 1;
        assert_eq!(t.unread(), 1);
        assert_eq!(t.read(), Ok(next_read));
        next_read += 1;
        assert_eq!(t.unread(), 0);
    }
}

#[test]
fn purge_drops_waiting_messages() {
    let mut t = MessageQueueInternal::<usize>::new(4).unwrap();
    assert!(t.send(1).is_ok());
    assert!(t.send(2).is_ok());
    t.purge();
    assert_eq!(t.unread(), 0);
    assert!(!t.is_ready());
    assert_eq!(t.read(), Err(MessageQueueError::MessageQueueEmpty));
    assert!(t.send(3).is_ok());
    assert_eq!(t.read(), Ok(3));
}

#[test]
fn unread_counts_sends_minus_reads() {
    // 5 slots; the pointers wrap while the count stays sends - reads
    let mut t = MessageQueueInternal::<usize>::new(5).unwrap();
    let (mut s, mut d) = (0usize, 0usize);
    for round in 0..12 {
        for _ in 0..(round % 4 + 1) {
            if t.send(s).is_ok() {
                s += 1;
            }
        }
        assert_eq!(t.unread(), s - d);
        assert!(t.unread() <= 4);
        for _ in 0..(round % 3 + 1) {
            if let Ok(v) = t.read() {
                assert_eq!(v, d);
                d += 1;
            }
        }
        assert_eq!(t.unread(), s - d);
    }
}

#[test]
fn notify_on_empty_transitions() {
    let mut t = MessageQueueInternal::<usize>::new(3).unwrap();
    assert_eq!(t.send_notify(1), Ok(true));
    assert_eq!(t.send_notify(2), Ok(false));
    assert_eq!(t.send_notify(3), Err(MessageQueueError::MessageQueueFull));
    assert_eq!(t.read_notify(), Ok((1, false)));
    assert_eq!(t.read_notify(), Ok((2, true)));
    assert_eq!(t.read_notify(), Err(MessageQueueError::MessageQueueEmpty));
    assert_eq!(t.send_notify(4), Ok(true));
}
