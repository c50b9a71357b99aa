use algoprims::ring_buffer::RingBuffer;
use algoprims::Error;

#[test]
fn zero_capacity_is_invalid() {
    let r = RingBuffer::new(0);
    assert!(matches!(r, Err(Error::InvalidArgument)));
}

#[test]
fn empty_buffer() {
    let b = RingBuffer::new(3).unwrap();
    assert_eq!(b.to_list(), Vec::<u64>::new());
    assert_eq!(b.latest(), None);
    assert_eq!(b.len(), 0);
    assert!(!b.is_full());
}

#[test]
fn partial_fill_keeps_order() {
    let mut b = RingBuffer::new(3).unwrap();
    b.push(10);
    b.push(20);
    assert_eq!(b.to_list(), vec![10, 20]);
    assert_eq!(b.latest(), Some(20));
    assert_eq!(b.len(), 2);
    assert!(!b.is_full());
}

#[test]
fn overflow_evicts_oldest() {
    let mut b = RingBuffer::new(3).unwrap();
    for v in 1..=5u64 {
        b.push(v);
    }
    assert_eq!(b.to_list(), vec![3, 4, 5]);
    assert_eq!(b.latest(), Some(5));
    assert_eq!(b.len(), 3);
    assert!(b.is_full());
}

#[test]
fn window_is_last_min_k_c_values() {
    for cap in 1..6usize {
        let mut b = RingBuffer::new(cap).unwrap();
        let pushes: Vec<u64> = (0..9u64).map(|x| x * 7 + 1).collect();
        for (k, &v) in pushes.iter().enumerate() {
            b.push(v);
            let kept = (k + 1).min(cap);
            let expect: Vec<u64> = pushes[k + 1 - kept..=k].to_vec();
            assert_eq!(b.to_list(), expect);
            assert_eq!(b.is_full(), k + 1 >= cap);
            assert_eq!(b.latest(), Some(v));
        }
    }
}

#[test]
fn capacity_one_keeps_only_newest() {
    let mut b = RingBuffer::new(1).unwrap();
    b.push(4);
    b.push(9);
    assert_eq!(b.to_list(), vec![9]);
    assert!(b.is_full());
}

#[test]
fn repr_shows_capacity_and_len() {
    let mut b = RingBuffer::new(3).unwrap();
    b.push(1);
    b.push(2);
    assert_eq!(b.repr(), "RingBuffer(capacity=3, len=2)");
}
