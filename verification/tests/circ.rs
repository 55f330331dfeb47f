use mc_scanner::circ::CircularBuffer;

fn equal<T: std::cmp::PartialEq>(box_slice: Box<[&T]>, vec: Vec<T>) -> bool {
    assert_eq!(box_slice.len(), vec.len());
    box_slice.iter().zip(vec.iter()).all(|(b, v)| *b == v)
}

#[test]
fn push_keeps_the_most_recent_values() {
    let mut buffer: CircularBuffer<usize> = CircularBuffer::new(2);
    assert!(equal(buffer.values(), vec![]));

    buffer.push(1);
    assert!(equal(buffer.values(), vec![1]));

    buffer.push(2);
    assert!(equal(buffer.values(), vec![1, 2]));

    buffer.push(3);
    assert!(equal(buffer.values(), vec![2, 3]));
}

#[test]
fn len_counts_held_values_up_to_capacity() {
    let mut buffer: CircularBuffer<u8> = CircularBuffer::new(3);
    assert_eq!(buffer.len(), 0);
    for i in 0..10u8 {
        buffer.push(i);
    }
    assert_eq!(buffer.len(), 3);
    assert!(equal(buffer.values(), vec![7, 8, 9]));
}

#[test]
fn capacity_one_holds_the_last_value() {
    let mut buffer: CircularBuffer<i32> = CircularBuffer::new(1);
    buffer.push(-4);
    buffer.push(9);
    assert_eq!(buffer.len(), 1);
    assert!(equal(buffer.values(), vec![9]));
}

#[test]
fn floats_can_be_buffered() {
    let mut buffer: CircularBuffer<f32> = CircularBuffer::new(7);
    buffer.push(1.5);
    buffer.push(2.5);
    let sum: f32 = buffer.values().iter().fold(0.0, |acc, x| acc + **x);
    assert_eq!(sum, 4.0);
}
