use hermes::ring_buffer::RingBuffer;

#[test]
fn test_basic_push_pop() {
    let mut rb: RingBuffer<u64, 16> = RingBuffer::new();

    assert!(rb.is_empty());
    assert!(!rb.is_full());

    assert!(rb.push(42));
    assert!(!rb.is_empty());

    assert_eq!(rb.pop(), Some(42));
    assert!(rb.is_empty());
}

#[test]
fn test_full_buffer() {
    let mut rb: RingBuffer<u64, 4> = RingBuffer::new();

    assert!(rb.push(1));
    assert!(rb.push(2));
    assert!(rb.push(3));
    assert!(rb.push(4));

    assert!(rb.is_full());
    assert!(!rb.push(5));

    assert_eq!(rb.pop(), Some(1));
    assert!(rb.push(5));
}

#[test]
fn test_wraparound() {
    let mut rb: RingBuffer<u64, 4> = RingBuffer::new();

    for round in 0..10 {
        for i in 0..4 {
            assert!(rb.push(round * 4 + i));
        }
        for i in 0..4 {
            assert_eq!(rb.pop(), Some(round * 4 + i));
        }
    }
}

#[test]
fn ring_keeps_fifo_order_across_interleaving() {
    let mut rb: RingBuffer<u32, 4> = RingBuffer::new();
    let mut expected = std::collections::VecDeque::new();
    let mut next = 0u32;
    for step in 0..200u32 {
        if step % 3 == 2 {
            assert_eq!(rb.pop(), expected.pop_front());
        } else {
            let ok = rb.push(next);
            assert_eq!(ok, expected.len() < 4);
            if ok {
                expected.push_back(next);
            }
            next += 1;
        }
        assert_eq!(rb.len(), expected.len());
        assert_eq!(rb.is_full(), expected.len() == 4);
        assert_eq!(rb.is_empty(), expected.is_empty());
    }
}

#[test]
fn ring_full_cycle_with_four_slots() {
    let mut rb: RingBuffer<u8, 4> = RingBuffer::new();
    assert_eq!(rb.capacity(), 4);
    for cycle in 0..10u8 {
        for i in 0..4u8 {
            assert!(rb.push(cycle * 4 + i));
        }
        assert!(!rb.push(255));
        assert_eq!(rb.pop(), Some(cycle * 4));
        assert!(rb.push(200));
        for i in 1..4u8 {
            assert_eq!(rb.pop(), Some(cycle * 4 + i));
        }
        assert_eq!(rb.pop(), Some(200));
        assert_eq!(rb.pop(), None);
        assert_eq!(rb.len(), 0);
    }
}
