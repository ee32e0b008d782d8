use mqpool::messagequeue::MessageQueueInternal;
use mqpool::MessageQueueError;

#[test]
fn worker_queue_sizes() {
    assert_eq!(MessageQueueInternal::<usize>::new(0).err(), Some(MessageQueueError::UnvalidSize));
    assert_eq!(MessageQueueInternal::<usize>::new(1).err(), Some(MessageQueueError::UnvalidSize));
    assert!(MessageQueueInternal::<usize>::new(2).is_ok());
}

#[test]
fn worker_queue_holds_all_slots() {
    let mut q = MessageQueueInternal::<usize>::new(4).unwrap();
    for i in 0..4 {
        assert_eq!(q.send(i), Ok(()));
    }
    assert_eq!(q.unread(), 4);
    assert_eq!(q.send(4), Err(MessageQueueError::MessageQueueFull));
    for i in 0..4 {
        assert!(q.is_ready());
        assert_eq!(q.read(), Some(i));
    }
    assert_eq!(q.read(), None);
    assert!(!q.is_ready());
}

#[test]
fn worker_queue_wraps_in_order() {
    let mut q = MessageQueueInternal::<u64>::new(3).unwrap();
    let mut sent = 0u64;
    let mut got = 0u64;
    for _ in 0..7 {
        for _ in 0..2 {
            assert_eq!(q.send(sent), Ok(()));
            sent += 1;
        }
        for _ in 0..2 {
            assert_eq!(q.read(), Some(got));
            got += 1;
        }
    }
    for _ in 0..3 {
        assert_eq!(q.send(sent), Ok(()));
        sent += 1;
    }
    assert_eq!(q.unread(), 3);
    assert_eq!(q.send(100), Err(MessageQueueError::MessageQueueFull));
    assert_eq!(q.read(), Some(14));
}
