use lz77::buffer::{CombinedBuffer, RingBuffer, SizedBuffer};

#[test]
fn test_ring_buffer() {
    let mut ring = RingBuffer::new(3);
    assert_eq!(ring.len(), 0);
    ring.push(1);
    assert_eq!(ring[0], 1);
    ring.push(2);
    assert_eq!(ring[1], 2);
    ring.push(3);
    assert_eq!(ring[2], 3);
    ring.push(4);
    assert_eq!(ring[0], 2);
    assert_eq!(ring[1], 3);
    assert_eq!(ring[2], 4);
}

#[test]
fn test_combined_buffer() {
    let a_buff = RingBuffer::from_vec(vec![1, 2, 3]);
    let b_buff = RingBuffer::from_vec(vec![0, 255]);
    let combined = CombinedBuffer(&a_buff, &b_buff);
    assert_eq!(combined.len(), 5);
    assert_eq!(combined[0], 1);
    assert_eq!(combined[1], 2);
    assert_eq!(combined[2], 3);
    assert_eq!(combined[3], 0);
    assert_eq!(combined[4], 255);
}

#[test]
fn test_ring_buffer_read() {
    let mut ring = RingBuffer::new(4);
    let vec = vec![1, 2, 3, 4, 5, 6, 7, 8, 9, 10];
    assert!(ring.read_to_buf(&vec, 10).is_ok());
    assert_eq!(ring[0], 7);
    assert_eq!(ring[1], 8);
    assert_eq!(ring[2], 9);
    assert_eq!(ring[3], 10);

    assert!(ring.read_to_buf(&vec[..4], 4).is_ok());
    assert_eq!(ring[0], 1);
    assert_eq!(ring[1], 2);
    assert_eq!(ring[2], 3);
    assert_eq!(ring[3], 4);
}

#[test]
fn ring_buffer_keeps_the_last_four_of_ten() {
    let mut ring: RingBuffer<u8> = RingBuffer::new(4);
    for b in 0u8..10 {
        ring.push(b);
        assert!(ring.len() <= 4);
    }
    assert_eq!(ring.len(), 4);
    assert_eq!(ring[0], 6);
    assert_eq!(ring[1], 7);
    assert_eq!(ring[2], 8);
    assert_eq!(ring[3], 9);
    assert_eq!(*ring.at(3), 9);
}

#[test]
fn ring_buffer_read_matches_pushes() {
    let data: Vec<u8> = (0u8..23).collect();
    let mut bulk: RingBuffer<u8> = RingBuffer::new(5);
    let mut single: RingBuffer<u8> = RingBuffer::new(5);
    bulk.push(200);
    single.push(200);
    assert!(bulk.read_to_buf(&data, 23).is_ok());
    for b in data.iter() {
        single.push(*b);
    }
    assert_eq!(bulk.len(), single.len());
    for i in 0..bulk.len() {
        assert_eq!(bulk[i], single[i]);
    }
}

#[test]
fn ring_buffer_read_refuses_a_short_source() {
    let mut ring: RingBuffer<u8> = RingBuffer::new(4);
    ring.push(9);
    let res = ring.read_to_buf(&[1, 2, 3], 4);
    assert_eq!(res, Err(lz77::errors::Error::UnexpectedEnd));
    assert_eq!(ring.len(), 1);
    assert_eq!(ring[0], 9);
    assert!(ring.read_to_buf(&[1, 2, 3], 0).is_ok());
    assert_eq!(ring.len(), 1);
}

#[test]
fn combined_buffer_over_window_and_vec() {
    let mut window: RingBuffer<u8> = RingBuffer::new(2);
    window.push(1);
    window.push(2);
    window.push(3);
    let ahead: Vec<u8> = vec![4, 5];
    let combined = CombinedBuffer(&window, &ahead);
    assert_eq!(combined.len(), 4);
    assert_eq!(combined[0], 2);
    assert_eq!(combined[1], 3);
    assert_eq!(combined[2], 4);
    assert_eq!(combined[3], 5);
}
