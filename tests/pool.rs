use mqtt_async::buffer::Buffer;
use mqtt_async::buffer_pool::{BufferPool, CAPACITY};

#[test]
fn pool_starts_full_and_empty_handed() {
    let pool = BufferPool::new();
    assert_eq!(pool.idle_len(), 128);
    assert_eq!(CAPACITY, 128);
    assert_eq!(pool.outstanding_len(), 0);
    assert_eq!(pool.waiting_len(), 0);
}

#[test]
fn pool_129th_acquirer_suspends_until_a_release() {
    let mut pool = BufferPool::new();
    let mut held = Vec::new();
    for fd in 0..128 {
        let b = pool.poll_take(fd);
        assert!(b.is_some());
        held.push(b.unwrap());
    }
    assert_eq!(pool.outstanding_len(), 128);
    assert!(pool.poll_take(128).is_none());
    assert_eq!(pool.waiting_len(), 1);
    let woken = pool.put_back(held.pop().unwrap());
    assert_eq!(woken, Some(128));
    assert_eq!(pool.waiting_len(), 0);
    assert!(pool.poll_take(128).is_some());
    assert_eq!(pool.outstanding_len(), 128);
}

#[test]
fn pool_wakes_waiters_oldest_first() {
    let mut pool = BufferPool::new();
    let mut held = Vec::new();
    for fd in 0..128 {
        held.push(pool.poll_take(fd).unwrap());
    }
    assert!(pool.poll_take(201).is_none());
    assert!(pool.poll_take(202).is_none());
    assert!(pool.poll_take(203).is_none());
    assert_eq!(pool.put_back(held.pop().unwrap()), Some(201));
    assert_eq!(pool.put_back(held.pop().unwrap()), Some(202));
    assert_eq!(pool.put_back(held.pop().unwrap()), Some(203));
    assert_eq!(pool.put_back(held.pop().unwrap()), None);
    assert_eq!(pool.idle_len(), 4);
}

#[test]
fn released_buffer_comes_back_empty() {
    let mut pool = BufferPool::new();
    let mut b = pool.poll_take(1).unwrap();
    b.extend(&[1, 2, 3, 4, 5]);
    assert_eq!(b.len(), 5);
    assert_eq!(pool.put_back(b), None);
    let mut all = Vec::new();
    for fd in 0..128 {
        let b = pool.poll_take(fd).unwrap();
        assert!(b.is_empty());
        all.push(b);
    }
    assert!(pool.poll_take(500).is_none());
}

#[test]
fn surplus_buffer_is_dropped() {
    let mut pool = BufferPool::new();
    assert_eq!(pool.put_back(Buffer::from_bytes(&[9, 9])), None);
    assert_eq!(pool.idle_len(), 128);
    assert_eq!(pool.outstanding_len(), 0);
}

#[test]
fn partial_write_resumes_where_it_stopped() {
    let bytes: Vec<u8> = (0..100).map(|i| i as u8).collect();
    let mut b = Buffer::from_bytes(&bytes);
    b.advance(40);
    assert_eq!(b.len(), 60);
    assert_eq!(b.as_slice(), &bytes[40..]);
    b.advance(60);
    assert!(b.is_empty());
}

#[test]
fn split_to_cuts_the_front() {
    let mut b = Buffer::from_bytes(&[1, 2, 3, 4, 5]);
    let head = b.split_to(2);
    assert_eq!(head, vec![1, 2]);
    assert_eq!(b.to_vec(), vec![3, 4, 5]);
    b.clear();
    assert!(b.is_empty());
}
