use packstream::buffer::UnpackableBuffer;
use packstream::error::CodecError;

#[test]
fn new_buffer_holds_what_it_is_given() {
    let mut buffer = UnpackableBuffer::new(Some(vec![1, 2, 3]));
    assert_eq!(buffer.available(), 3);
    assert_eq!(buffer.pos(), 0);
    assert_eq!(buffer.read(3), Ok(&[1u8, 2, 3][..]));
    let mut empty = UnpackableBuffer::new(None);
    assert_eq!(empty.available(), 0);
    assert_eq!(empty.read_u8(), Err(CodecError::EndOfData));
}

#[test]
fn read_advances_and_fails_without_consuming() {
    let mut buffer = UnpackableBuffer::new(Some(vec![10, 20, 30, 40]));
    assert_eq!(buffer.read(1), Ok(&[10u8][..]));
    assert_eq!(buffer.pos(), 1);
    assert_eq!(buffer.read(4), Err(CodecError::EndOfData));
    assert_eq!(buffer.pos(), 1);
    assert_eq!(buffer.read(usize::MAX), Err(CodecError::EndOfData));
    assert_eq!(buffer.read_u8(), Ok(20));
    assert_eq!(buffer.read(2), Ok(&[30u8, 40][..]));
    assert_eq!(buffer.available(), 0);
    assert_eq!(buffer.read(0), Ok(&[][..]));
}

#[test]
fn rewind_makes_bytes_unread_again() {
    let mut buffer = UnpackableBuffer::new(Some(vec![10, 20, 30]));
    assert_eq!(buffer.read(2), Ok(&[10u8, 20][..]));
    buffer.rewind(1);
    assert_eq!(buffer.available(), 2);
    assert_eq!(buffer.read_u8(), Ok(20));
}

#[test]
fn reset_discards_everything() {
    let mut buffer = UnpackableBuffer::new(Some(vec![1, 2, 3]));
    assert_eq!(buffer.read_u8(), Ok(1));
    buffer.reset();
    assert_eq!(buffer.available(), 0);
    assert_eq!(buffer.pos(), 0);
    assert_eq!(buffer.receive(&[9], 1), Ok(0));
    assert_eq!(buffer.read(1), Ok(&[9u8][..]));
}

#[test]
fn receive_counts_down_what_is_outstanding() {
    let mut buffer = UnpackableBuffer::new(None);
    let mut need = 5;
    need = buffer.receive(&[1, 2], need).unwrap();
    assert_eq!(need, 3);
    assert_eq!(buffer.available(), 2);
    need = buffer.receive(&[3], need).unwrap();
    assert_eq!(need, 2);
    need = buffer.receive(&[4, 5], need).unwrap();
    assert_eq!(need, 0);
    assert_eq!(buffer.read(5), Ok(&[1u8, 2, 3, 4, 5][..]));
}

#[test]
fn receive_keeps_bytes_beyond_the_request() {
    let mut buffer = UnpackableBuffer::new(Some(vec![0xAA]));
    assert_eq!(buffer.receive(&[1, 2, 3, 4], 2), Ok(0));
    assert_eq!(buffer.available(), 5);
    assert_eq!(buffer.read(5), Ok(&[0xAAu8, 1, 2, 3, 4][..]));
}

#[test]
fn closed_transport_is_end_of_data() {
    let mut buffer = UnpackableBuffer::new(Some(vec![7]));
    assert_eq!(buffer.receive(&[], 3), Err(CodecError::EndOfData));
    assert_eq!(buffer.available(), 1);
    assert_eq!(buffer.receive(&[], 0), Ok(0));
    assert_eq!(buffer.receive(&[8], 3), Ok(2));
    assert_eq!(buffer.receive(&[], 2), Err(CodecError::EndOfData));
    assert_eq!(buffer.read(2), Ok(&[7u8, 8][..]));
}

#[test]
fn receive_after_reads_appends_behind_resident_bytes() {
    let mut buffer = UnpackableBuffer::new(Some(vec![1, 2]));
    assert_eq!(buffer.read_u8(), Ok(1));
    assert_eq!(buffer.receive(&[3], usize::MAX), Ok(usize::MAX - 1));
    assert_eq!(buffer.read(2), Ok(&[2u8, 3][..]));
}

#[test]
fn region_is_reused_after_reset() {
    let mut buffer = UnpackableBuffer::new(None);
    assert_eq!(buffer.receive(&[1, 2, 3, 4], 4), Ok(0));
    buffer.reset();
    assert_eq!(buffer.receive(&[5, 6], 2), Ok(0));
    assert_eq!(buffer.available(), 2);
    assert_eq!(buffer.read(2), Ok(&[5u8, 6][..]));
    assert_eq!(buffer.read_u8(), Err(CodecError::EndOfData));
}

#[test]
fn resize_keeps_resident_bytes_and_cursor() {
    let mut buffer = UnpackableBuffer::new(Some(vec![1, 2, 3]));
    assert_eq!(buffer.read_u8(), Ok(1));
    buffer.resize_buffer(64);
    assert_eq!(buffer.available(), 2);
    assert_eq!(buffer.pos(), 1);
    buffer.resize_buffer(1);
    assert_eq!(buffer.read(2), Ok(&[2u8, 3][..]));
    assert_eq!(buffer.read_u8(), Err(CodecError::EndOfData));
    assert_eq!(buffer.receive(&[4], 1), Ok(0));
    assert_eq!(buffer.read_u8(), Ok(4));
}

#[test]
fn pop_u16_takes_the_last_two_bytes() {
    let mut buffer = UnpackableBuffer::new(Some(vec![1, 2, 0x12, 0x34]));
    assert_eq!(buffer.pop_u16(), 0x1234);
    assert_eq!(buffer.available(), 2);
    assert_eq!(buffer.pop_u16(), 0x0102);
    assert_eq!(buffer.available(), 0);
    assert_eq!(buffer.pop_u16(), 0);
    let mut one = UnpackableBuffer::new(Some(vec![9]));
    assert_eq!(one.pop_u16(), 0);
    assert_eq!(one.read_u8(), Ok(9));
}

#[test]
fn pop_u16_pulls_the_cursor_back() {
    let mut buffer = UnpackableBuffer::new(Some(vec![1, 2, 3, 4]));
    assert_eq!(buffer.read(4), Ok(&[1u8, 2, 3, 4][..]));
    assert_eq!(buffer.pop_u16(), 0x0304);
    assert_eq!(buffer.pos(), 2);
    assert_eq!(buffer.available(), 0);
    assert_eq!(buffer.receive(&[5], 1), Ok(0));
    assert_eq!(buffer.read_u8(), Ok(5));
}
