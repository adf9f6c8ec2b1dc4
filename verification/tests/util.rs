use snarf::util::CircularSeqBuffer;

fn filled() -> CircularSeqBuffer {
    let mut buffer = CircularSeqBuffer::new(8);
    buffer.set_seq(1000);
    buffer.push_data_to_buffer(&[1, 2, 3, 4, 5, 6]);
    buffer
}

#[test]
fn new_buffer_is_zeroed() {
    let buffer = CircularSeqBuffer::new(4);
    assert_eq!(buffer.buffer, vec![0; 4]);
    assert_eq!((buffer.end, buffer.seq), (0, 0));
    assert_eq!(buffer.len(), 4);
    assert!(!buffer.is_empty());
    assert!(CircularSeqBuffer::new(0).is_empty());
}

#[test]
fn sequence_numbers_wrap() {
    let mut buffer = CircularSeqBuffer::new(4);
    buffer.set_seq(u32::MAX);
    buffer.seq_add(3);
    assert_eq!(buffer.seq, 2);
}

#[test]
fn push_moves_on() {
    let buffer = filled();
    assert_eq!(buffer.seq, 1006);
    assert_eq!(buffer.end, 6);
    assert_eq!(buffer.buffer, vec![1, 2, 3, 4, 5, 6, 0, 0]);
}

#[test]
fn push_wraps_around_the_ring() {
    let mut buffer = filled();
    buffer.push_data_to_buffer(&[7, 8, 9, 10]);
    assert_eq!(buffer.seq, 1010);
    assert_eq!(buffer.end, 2);
    assert_eq!(buffer.buffer, vec![9, 10, 3, 4, 5, 6, 7, 8]);
}

#[test]
fn read_gives_back_what_was_written() {
    let mut buffer = filled();
    buffer.push_data_to_buffer(&[7, 8, 9, 10]);
    let mut data = [0; 4];
    buffer.write_from_buffer_to_slice(&mut data, 1006);
    assert_eq!(data, [7, 8, 9, 10]);
    let mut data = [0; 2];
    buffer.write_from_buffer_to_slice(&mut data, 1007);
    assert_eq!(data, [8, 9]);
}

#[test]
fn older_bytes_stay_readable() {
    let mut buffer = filled();
    buffer.push_data_to_buffer(&[7, 8]);
    let mut data = [0; 3];
    buffer.write_from_buffer_to_slice(&mut data, 1001);
    assert_eq!(data, [2, 3, 4]);
}

#[test]
fn read_across_the_wrap_of_the_numbers() {
    let mut buffer = CircularSeqBuffer::new(8);
    buffer.set_seq(u32::MAX - 1);
    buffer.push_data_to_buffer(&[1, 2, 3, 4]);
    assert_eq!(buffer.seq, 2);
    let mut data = [0; 4];
    buffer.write_from_buffer_to_slice(&mut data, u32::MAX - 1);
    assert_eq!(data, [1, 2, 3, 4]);
}

#[test]
fn numbers_in_the_buffer() {
    let buffer = filled();
    assert!(buffer.seq_in_buf(1006));
    assert!(buffer.seq_in_buf(998));
    assert!(!buffer.seq_in_buf(997));
    assert!(!buffer.seq_in_buf(1007));
}

#[test]
fn numbers_ahead_of_the_buffer() {
    let buffer = filled();
    assert!(!buffer.seq_is_future(1006));
    assert!(buffer.seq_is_future(1007));
    assert!(buffer.seq_is_future(1014));
    assert!(!buffer.seq_is_future(1015));
}

#[test]
fn new_bytes_are_those_behind_the_next_number() {
    let mut buffer = filled();
    assert_eq!(buffer.get_new(1006, 5), 5);
    assert_eq!(buffer.get_new(1004, 5), 3);
    assert_eq!(buffer.get_new(1000, 6), 0);
    assert_eq!(buffer.get_new(1000, 2), 0);
}

#[test]
fn update_keeps_the_bytes() {
    let mut buffer = filled();
    buffer.update(3);
    assert_eq!((buffer.seq, buffer.end), (1009, 1));
    assert_eq!(buffer.buffer, vec![1, 2, 3, 4, 5, 6, 0, 0]);
}

#[test]
fn room_is_handed_out_in_order() {
    let mut buffer = filled();
    {
        let (mut room, rest) = buffer.update_and_return_split_ref(3);
        assert_eq!(room.len(), 3);
        assert_eq!(rest.len(), 5);
        room.copy_from_slice(&[7, 8, 9]);
    }
    assert_eq!(buffer.buffer, vec![9, 2, 3, 4, 5, 6, 7, 8]);
    assert_eq!((buffer.seq, buffer.end), (1009, 1));
}
