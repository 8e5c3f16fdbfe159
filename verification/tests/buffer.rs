use flatdata::buffer::{GrowthBuffer, INITIAL_CAPACITY};
use flatdata::external_vector::ExternalVector;
use flatdata::structs::Field;

#[test]
fn a_new_buffer_is_empty_and_starts_small() {
    let buffer = GrowthBuffer::new();
    assert!(buffer.is_empty());
    assert_eq!(buffer.len(), 0);
    assert_eq!(buffer.capacity(), 64);
    assert_eq!(INITIAL_CAPACITY, 64);
    assert_eq!(buffer.as_slice(), &[] as &[u8]);
}

#[test]
fn bytes_are_added_at_the_end() {
    let mut buffer = GrowthBuffer::new();
    buffer.push(7);
    buffer.extend_zeroed(3);
    buffer.push(9);
    buffer.extend_zeroed(0);
    assert_eq!(buffer.as_slice(), &[7, 0, 0, 0, 9]);
    assert_eq!(buffer.len(), 5);
    assert!(!buffer.is_empty());
}

#[test]
fn the_capacity_doubles_when_the_next_bytes_do_not_fit() {
    let mut buffer = GrowthBuffer::new();
    buffer.extend_zeroed(64);
    assert_eq!(buffer.capacity(), 64);
    buffer.push(1);
    assert_eq!(buffer.capacity(), 128);
    buffer.extend_zeroed(63);
    assert_eq!(buffer.capacity(), 128);
    buffer.extend_zeroed(1);
    assert_eq!(buffer.capacity(), 256);
    assert_eq!(buffer.len(), 129);
}

#[test]
fn the_capacity_jumps_to_what_is_needed_when_twice_is_too_little() {
    let mut buffer = GrowthBuffer::new();
    buffer.extend_zeroed(1000);
    assert_eq!(buffer.capacity(), 1000);
    buffer.push(0);
    assert_eq!(buffer.capacity(), 2000);
    let mut exact = GrowthBuffer::new();
    exact.extend_zeroed(128);
    assert_eq!(exact.capacity(), 128);
    let mut over = GrowthBuffer::new();
    over.extend_zeroed(129);
    assert_eq!(over.capacity(), 129);
}

#[test]
fn a_window_writes_into_the_buffer_only_where_it_lies() {
    let field = Field { offset: 4, width: 8, signed: false };
    let mut buffer = GrowthBuffer::new();
    buffer.extend_zeroed(6);
    buffer.window_mut(2, 2).set_unsigned(&field, 0xAB);
    assert_eq!(buffer.as_slice(), &[0, 0, 0xB0, 0x0A, 0, 0]);
    assert_eq!(buffer.capacity(), 64);
    let window = buffer.window_mut(1, 3);
    assert_eq!(window.size(), 3);
    assert_eq!(window.unsigned(&Field { offset: 12, width: 8, signed: false }), 0xAB);
}

#[test]
fn an_external_vector_grows_by_doubling() {
    let mut vector = ExternalVector::new("v", "s", 16);
    assert_eq!(vector.capacity(), 64);
    let mut seen = vec![vector.capacity()];
    for _ in 0..40 {
        vector.grow();
        if *seen.last().unwrap() != vector.capacity() {
            seen.push(vector.capacity());
        }
    }
    assert_eq!(seen, vec![64, 128, 256, 512, 1024]);
    assert_eq!(vector.len(), 40);
}
