use snarf::deque::{copy_to_front, DequeSlice, DequeSliceMut};

#[test]
fn copy_to_front_leaves_the_rest() {
    let mut dst = [1, 2, 3, 4];
    copy_to_front(&mut dst, &[9, 8]);
    assert_eq!(dst, [9, 8, 3, 4]);
}

#[test]
fn start_at_reads_around_the_end() {
    let mut ring = [0u8, 1, 2, 3, 4];
    let deque = DequeSliceMut::from_slice_mut_start_at(&mut ring, 3);
    assert_eq!(deque.len(), 5);
    assert!(!deque.is_empty());
    let read = deque.to_immutable();
    assert_eq!(read.front, &[3, 4]);
    assert_eq!(read.back, &[0, 1, 2]);
}

#[test]
fn empty_deque() {
    let deque: DequeSliceMut<u8> = DequeSliceMut::mt();
    assert_eq!(deque.len(), 0);
    assert!(deque.is_empty());
}

#[test]
fn copy_from_slice_fills_both_pieces() {
    let mut front = [0u8; 2];
    let mut back = [0u8; 3];
    let mut deque = DequeSliceMut::new(&mut front, &mut back);
    deque.copy_from_slice(&[1, 2, 3, 4, 5]);
    assert_eq!(front, [1, 2]);
    assert_eq!(back, [3, 4, 5]);
}

#[test]
fn copy_of_less_stops_early() {
    let mut front = [9u8; 2];
    let mut back = [9u8; 3];
    let mut deque = DequeSliceMut::new(&mut front, &mut back);
    assert_eq!(deque.copy(&[1, 2, 3]), 3);
    assert_eq!(front, [1, 2]);
    assert_eq!(back, [3, 9, 9]);
}

#[test]
fn copy_of_as_much_fills_the_range() {
    let mut front = [9u8; 1];
    let mut back = [9u8; 2];
    let mut deque = DequeSliceMut::new(&mut front, &mut back);
    assert_eq!(deque.copy(&[1, 2, 3]), 3);
    assert_eq!(front, [1]);
    assert_eq!(back, [2, 3]);
}

#[test]
fn copy_inside_the_front() {
    let mut front = [9u8; 2];
    let mut back = [9u8; 1];
    let mut deque = DequeSliceMut::new(&mut front, &mut back);
    assert_eq!(deque.copy(&[1]), 1);
    assert_eq!(front, [1, 9]);
    assert_eq!(back, [9]);
}

#[test]
fn split_inside_the_front() {
    let mut front = [1u8, 2, 3];
    let mut back = [4u8, 5];
    let (first, second) = DequeSliceMut::new(&mut front, &mut back).split_mut(2);
    assert_eq!((&*first.front, &*first.back), (&[1u8, 2][..], &[][..]));
    assert_eq!((&*second.front, &*second.back), (&[3u8][..], &[4u8, 5][..]));
}

#[test]
fn split_inside_the_back() {
    let mut front = [1u8, 2];
    let mut back = [3u8, 4, 5];
    let (first, second) = DequeSliceMut::new(&mut front, &mut back).split_mut(4);
    assert_eq!((&*first.front, &*first.back), (&[1u8, 2][..], &[3u8, 4][..]));
    assert_eq!((&*second.front, &*second.back), (&[][..], &[5u8][..]));
}

#[test]
fn immutable_deque_keeps_its_pieces() {
    let deque = DequeSlice::new(&[1, 2], &[3]);
    assert_eq!(deque.front, &[1, 2]);
    assert_eq!(deque.back, &[3]);
}
