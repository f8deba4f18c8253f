use orderbook::enums::order_book_errors::OrderBookError;
use orderbook::models::ring_buffer::RingBuffer;

#[test]
fn test_is_empty_correctly_returns_true_for_empty_ring_buffer() {
    let ring_buffer: RingBuffer = RingBuffer::new(128);

    assert!(ring_buffer.is_empty());
}

#[test]
fn test_is_empty_correctly_returns_false_for_ring_buffer_with_elements() {
    let mut ring_buffer: RingBuffer = RingBuffer::new(128);

    let idx = (ring_buffer.head + ring_buffer.len) & (128 - 1);
    ring_buffer.buf[idx] = 5;
    ring_buffer.len += 1;

    assert!(!ring_buffer.is_empty());
}

#[test]
fn test_is_full_correctly_returns_true_for_full_ring_buffer() {
    let mut ring_buffer: RingBuffer = RingBuffer::new(1);

    let idx = (ring_buffer.head + ring_buffer.len) & (128 - 1);
    ring_buffer.buf[idx] = 5;
    ring_buffer.len += 1;

    assert!(ring_buffer.is_full());
}

#[test]
fn test_is_full_correctly_returns_false_for_ring_buffer_with_free_slots() {
    let ring_buffer: RingBuffer = RingBuffer::new(1);

    assert!(!ring_buffer.is_full());
}

#[test]
fn test_len_correctly_returns_length_of_ring_buffer() {
    let mut ring_buffer: RingBuffer = RingBuffer::new(1);

    assert_eq!(ring_buffer.len(), 0);

    ring_buffer.push_back(5).unwrap();

    assert_eq!(ring_buffer.len(), 1);
}

#[test]
fn test_push_back_correctly_appends_element_to_back_of_ring_buffer() {
    let mut ring_buffer: RingBuffer = RingBuffer::new(128);

    assert_eq!(ring_buffer.len(), 0);

    let push_back_result = ring_buffer.push_back(5);

    assert!(push_back_result.is_ok());
    assert_eq!(ring_buffer.buf[0], 5);

    let push_back_result = ring_buffer.push_back(8);

    assert!(push_back_result.is_ok());
    assert_eq!(ring_buffer.buf[0], 5);
    assert_eq!(ring_buffer.buf[1], 8);
}

#[test]
fn test_push_back_errors_full_ring_buffer() {
    let mut ring_buffer: RingBuffer = RingBuffer::new(1);

    assert_eq!(ring_buffer.len(), 0);

    let push_back_result = ring_buffer.push_back(5);

    assert!(push_back_result.is_ok());
    assert_eq!(ring_buffer.buf[0], 5);

    let push_back_result = ring_buffer.push_back(12);

    assert!(push_back_result.is_err());
    assert_eq!(push_back_result.err().unwrap(), OrderBookError::FullRingBuffer);
}

#[test]
fn test_push_front_correctly_apppends_element_to_front_of_ring_buffer() {
    let mut ring_buffer: RingBuffer = RingBuffer::new(128);

    assert_eq!(ring_buffer.len(), 0);

    let push_front_result = ring_buffer.push_front(5);

    for i in &ring_buffer.buf {
        println!("{i}");
    }

    assert!(push_front_result.is_ok());
    assert_eq!(ring_buffer.buf[127], 5);

    let push_front_result = ring_buffer.push_front(8);

    assert!(push_front_result.is_ok());
    assert_eq!(ring_buffer.buf[126], 8);
    assert_eq!(ring_buffer.buf[127], 5);
}

#[test]
fn test_push_front_errors_full_ring_buffer() {
    let mut ring_buffer: RingBuffer = RingBuffer::new(1);

    assert_eq!(ring_buffer.len(), 0);

    let push_front_result = ring_buffer.push_front(5);

    assert!(push_front_result.is_ok());
    assert_eq!(ring_buffer.buf[0], 5);

    let push_front_result = ring_buffer.push_front(12);

    assert!(push_front_result.is_err());
    assert_eq!(push_front_result.err().unwrap(), OrderBookError::FullRingBuffer);
}

#[test]
fn test_pop_back_correctly_removes_element_from_back_of_ring_buffer() {
    let mut ring_buffer: RingBuffer = RingBuffer::new(128);

    assert_eq!(ring_buffer.len(), 0);

    let push_back_result = ring_buffer.push_front(5);

    println!("{}", ring_buffer.len());

    assert!(push_back_result.is_ok());
    assert_eq!(ring_buffer.buf[127], 5);

    let push_back_result = ring_buffer.push_front(8);

    assert!(push_back_result.is_ok());
    assert_eq!(ring_buffer.buf[127], 5);
    assert_eq!(ring_buffer.buf[126], 8);

    let pop_back_result = ring_buffer.pop_back();

    assert!(pop_back_result.is_ok());
    assert_eq!(ring_buffer.len(), 1);
    assert_eq!(ring_buffer.buf[126], 8);
}

#[test]
fn test_pop_back_errors_empty_ring_buffer() {
    let mut ring_buffer: RingBuffer = RingBuffer::new(128);

    assert_eq!(ring_buffer.len(), 0);

    let pop_back_result = ring_buffer.pop_back();

    assert!(pop_back_result.is_err());
    assert_eq!(pop_back_result.err().unwrap(), OrderBookError::EmptyRingBuffer);
    assert_eq!(ring_buffer.len(), 0);
}

#[test]
fn test_pop_front_correctly_removes_element_from_front_of_ring_buffer() {
    let mut ring_buffer: RingBuffer = RingBuffer::new(128);

    assert_eq!(ring_buffer.len(), 0);

    let push_back_result = ring_buffer.push_front(5);

    assert!(push_back_result.is_ok());
    assert_eq!(ring_buffer.len(), 1);
    assert_eq!(ring_buffer.buf[127], 5);

    let push_back_result = ring_buffer.push_front(8);

    assert!(push_back_result.is_ok());
    assert_eq!(ring_buffer.len(), 2);
    assert_eq!(ring_buffer.buf[126], 8);
    assert_eq!(ring_buffer.buf[127], 5);

    let pop_front_result = ring_buffer.pop_front();

    assert!(pop_front_result.is_ok());
    assert_eq!(ring_buffer.len(), 1);
    assert_eq!(ring_buffer.buf[127], 5);
}

#[test]
fn test_pop_front_errors_empty_ring_buffer() {
    let mut ring_buffer: RingBuffer = RingBuffer::new(128);

    assert_eq!(ring_buffer.len(), 0);

    let pop_front_result = ring_buffer.pop_front();

    assert!(pop_front_result.is_err());
    assert_eq!(pop_front_result.err().unwrap(), OrderBookError::EmptyRingBuffer);
}

#[test]
fn test_front_correctly_returns_front_element_for_ring_buffer_with_elements() {
    let mut ring_buffer: RingBuffer = RingBuffer::new(128);

    assert_eq!(ring_buffer.len(), 0);

    let push_back_result = ring_buffer.push_back(5);

    assert!(push_back_result.is_ok());
    assert_eq!(ring_buffer.buf[0], 5);

    let front_result = ring_buffer.front();

    assert!(front_result.is_some());
    assert_eq!(front_result.unwrap(), 5);
}

#[test]
fn test_front_correctly_returns_none_for_empty_ring_buffer() {
    let ring_buffer: RingBuffer = RingBuffer::new(128);

    assert_eq!(ring_buffer.len(), 0);

    let front_result = ring_buffer.front();

    assert!(front_result.is_none());
}

#[test]
fn test_remove_by_value_correctly_removes_element_with_specified_value() {
    let mut ring_buffer: RingBuffer = RingBuffer::new(128);

    assert_eq!(ring_buffer.len(), 0);

    let push_back_result = ring_buffer.push_back(5);

    assert!(push_back_result.is_ok());
    assert_eq!(ring_buffer.buf[0], 5);

    let push_back_result = ring_buffer.push_back(8);

    assert!(push_back_result.is_ok());
    assert_eq!(ring_buffer.buf[1], 8);

    let push_back_result = ring_buffer.push_back(12);

    assert!(push_back_result.is_ok());
    assert_eq!(ring_buffer.buf[2], 12);

    let remove_by_value_result = ring_buffer.remove_by_value(8);

    assert!(remove_by_value_result);
    assert_eq!(ring_buffer.len(), 2);
    assert_eq!(ring_buffer.buf[0], 5);
    assert_eq!(ring_buffer.buf[1], 12);
}

#[test]
fn test_iter_correctly_returns_iterator_of_ring_buffer() {
    let mut ring_buffer: RingBuffer = RingBuffer::new(128);

    assert_eq!(ring_buffer.len(), 0);

    let push_back_result = ring_buffer.push_back(5);

    assert!(push_back_result.is_ok());
    assert_eq!(ring_buffer.buf[0], 5);

    let push_back_result = ring_buffer.push_back(8);

    assert!(push_back_result.is_ok());
    assert_eq!(ring_buffer.buf[1], 8);

    let push_back_result = ring_buffer.push_back(12);

    assert!(push_back_result.is_ok());
    assert_eq!(ring_buffer.buf[2], 12);

    let mut iter_result = ring_buffer.iter().into_iter();

    assert_eq!(iter_result.next().unwrap(), 5);
    assert_eq!(iter_result.next().unwrap(), 8);
    assert_eq!(iter_result.next().unwrap(), 12);
}

#[test]
fn test_remove_by_value_correctly_returns_false_with_value_not_in_ring_buffer() {
    let mut ring_buffer: RingBuffer = RingBuffer::new(128);

    assert_eq!(ring_buffer.len(), 0);

    let remove_by_value_result = ring_buffer.remove_by_value(5);

    assert!(!remove_by_value_result);
}

#[test]
fn test_push_front_element_pops_before_later_push_backs() {
    let mut ring_buffer: RingBuffer = RingBuffer::new(8);

    ring_buffer.push_back(1).unwrap();
    ring_buffer.push_front(2).unwrap();
    ring_buffer.push_back(3).unwrap();

    assert_eq!(ring_buffer.pop_front().unwrap(), 2);
    assert_eq!(ring_buffer.pop_front().unwrap(), 1);
    assert_eq!(ring_buffer.pop_front().unwrap(), 3);
}

#[test]
fn test_push_back_then_pop_front_is_first_in_first_out_across_wraparound() {
    let mut ring_buffer: RingBuffer = RingBuffer::new(4);

    ring_buffer.push_back(10).unwrap();
    ring_buffer.push_back(20).unwrap();
    ring_buffer.push_back(30).unwrap();
    ring_buffer.push_back(40).unwrap();
    assert_eq!(ring_buffer.pop_front().unwrap(), 10);
    assert_eq!(ring_buffer.pop_front().unwrap(), 20);
    ring_buffer.push_back(50).unwrap();
    ring_buffer.push_back(60).unwrap();

    assert_eq!(ring_buffer.pop_front().unwrap(), 30);
    assert_eq!(ring_buffer.pop_front().unwrap(), 40);
    assert_eq!(ring_buffer.pop_front().unwrap(), 50);
    assert_eq!(ring_buffer.pop_front().unwrap(), 60);
    assert!(ring_buffer.is_empty());
}

#[test]
fn test_remove_by_value_preserves_order_of_survivors_across_wraparound() {
    let mut ring_buffer: RingBuffer = RingBuffer::new(4);

    ring_buffer.push_back(1).unwrap();
    ring_buffer.push_back(2).unwrap();
    let _popped = ring_buffer.pop_front();
    ring_buffer.push_back(3).unwrap();
    ring_buffer.push_back(4).unwrap();
    ring_buffer.push_back(5).unwrap();

    assert!(ring_buffer.remove_by_value(3));
    assert_eq!(ring_buffer.iter(), vec![2, 4, 5]);
}
