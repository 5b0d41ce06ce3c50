use zerotier_dns::byte_packet_buffer::BytePacketBuffer;
use zerotier_dns::error::DnsError;

fn counting_buffer() -> BytePacketBuffer {
    let mut buffer = BytePacketBuffer::new();
    for i in 0..512usize {
        buffer.buf[i] = (i % 251) as u8;
    }
    buffer
}

#[test]
fn new_buffer_is_zeroed_with_cursor_at_start() {
    let buffer = BytePacketBuffer::new();
    assert_eq!(buffer.pos(), 0);
    assert_eq!(buffer.buf.len(), 512);
    assert!(buffer.buf.iter().all(|b| *b == 0));
}

#[test]
fn get_range_at_the_end_of_the_buffer() {
    let mut buffer = counting_buffer();
    assert_eq!(buffer.get_range(508, 10), Err(DnsError::OutOfBounds));
    let range = buffer.get_range(500, 12).unwrap();
    assert_eq!(range.len(), 12);
    assert_eq!(range[0], (500 % 251) as u8);
    assert_eq!(range[11], (511 % 251) as u8);
}

#[test]
fn get_range_does_not_move_the_cursor() {
    let mut buffer = counting_buffer();
    buffer.seek(7).unwrap();
    assert_eq!(buffer.get_range(0, 512).unwrap().len(), 512);
    assert_eq!(buffer.get_range(512, 0).unwrap().len(), 0);
    assert_eq!(buffer.get_range(513, 0), Err(DnsError::OutOfBounds));
    assert_eq!(buffer.get_range(0, 513), Err(DnsError::OutOfBounds));
    assert_eq!(buffer.get_range(usize::MAX, 2), Err(DnsError::OutOfBounds));
    assert_eq!(buffer.pos(), 7);
}

#[test]
fn get_checks_the_index() {
    let mut buffer = counting_buffer();
    assert_eq!(buffer.get(0), Ok(0));
    assert_eq!(buffer.get(511), Ok((511 % 251) as u8));
    assert_eq!(buffer.get(512), Err(DnsError::OutOfBounds));
    assert_eq!(buffer.pos(), 0);
}

#[test]
fn read_moves_the_cursor_and_fails_at_the_end() {
    let mut buffer = counting_buffer();
    buffer.seek(510).unwrap();
    assert_eq!(buffer.read(), Ok((510 % 251) as u8));
    assert_eq!(buffer.read(), Ok((511 % 251) as u8));
    assert_eq!(buffer.pos(), 512);
    assert_eq!(buffer.read(), Err(DnsError::OutOfBounds));
    assert_eq!(buffer.pos(), 512);
}

#[test]
fn step_and_seek_move_the_cursor_only() {
    let mut buffer = counting_buffer();
    let before = buffer.buf;
    assert_eq!(buffer.step(10), Ok(()));
    assert_eq!(buffer.pos(), 10);
    assert_eq!(buffer.step(1000), Ok(()));
    assert_eq!(buffer.pos(), 1010);
    assert_eq!(buffer.read(), Err(DnsError::OutOfBounds));
    assert_eq!(buffer.seek(3), Ok(()));
    assert_eq!(buffer.pos(), 3);
    assert_eq!(buffer.buf, before);
}

#[test]
fn step_beyond_the_largest_cursor_fails() {
    let mut buffer = BytePacketBuffer::new();
    buffer.seek(5).unwrap();
    assert_eq!(buffer.step(usize::MAX), Err(DnsError::OutOfBounds));
    assert_eq!(buffer.pos(), 5);
    assert_eq!(buffer.step(usize::MAX - 5), Ok(()));
    assert_eq!(buffer.pos(), usize::MAX);
}

#[test]
fn set_stores_one_byte() {
    let mut buffer = BytePacketBuffer::new();
    buffer.seek(9).unwrap();
    assert_eq!(buffer.set(511, 0xAB), Ok(()));
    assert_eq!(buffer.buf[511], 0xAB);
    assert_eq!(buffer.buf[510], 0);
    assert_eq!(buffer.pos(), 9);
}

#[test]
fn set_u16_stores_both_bytes_in_network_order() {
    let mut buffer = BytePacketBuffer::new();
    assert_eq!(buffer.set_u16(20, 0x1234), Ok(()));
    assert_eq!(buffer.buf[20], 0x12);
    assert_eq!(buffer.buf[21], 0x34);
    assert_eq!(buffer.buf[19], 0);
    assert_eq!(buffer.buf[22], 0);
    assert_eq!(buffer.pos(), 0);
    assert_eq!(buffer.set_u16(510, 0xFFEE), Ok(()));
    assert_eq!(buffer.buf[510], 0xFF);
    assert_eq!(buffer.buf[511], 0xEE);
}

#[test]
fn read_u16_is_big_endian() {
    let mut buffer = BytePacketBuffer::new();
    buffer.buf[0] = 0x12;
    buffer.buf[1] = 0x34;
    assert_eq!(buffer.read_u16(), Ok(0x1234));
    assert_eq!(buffer.pos(), 2);
}

#[test]
fn read_u32_is_big_endian() {
    let mut buffer = BytePacketBuffer::new();
    buffer.buf[4] = 0xDE;
    buffer.buf[5] = 0xAD;
    buffer.buf[6] = 0xBE;
    buffer.buf[7] = 0xEF;
    buffer.seek(4).unwrap();
    assert_eq!(buffer.read_u32(), Ok(0xDEADBEEF));
    assert_eq!(buffer.pos(), 8);
}

#[test]
fn reads_that_reach_the_end_stop_there() {
    let mut buffer = counting_buffer();
    buffer.seek(511).unwrap();
    assert_eq!(buffer.read_u16(), Err(DnsError::OutOfBounds));
    assert_eq!(buffer.pos(), 512);
    buffer.seek(509).unwrap();
    assert_eq!(buffer.read_u32(), Err(DnsError::OutOfBounds));
    assert_eq!(buffer.pos(), 512);
    buffer.seek(508).unwrap();
    assert!(buffer.read_u32().is_ok());
    assert_eq!(buffer.pos(), 512);
    buffer.seek(600).unwrap();
    assert_eq!(buffer.read_u16(), Err(DnsError::OutOfBounds));
    assert_eq!(buffer.pos(), 600);
}

#[test]
fn writes_are_big_endian_and_move_the_cursor() {
    let mut buffer = BytePacketBuffer::new();
    assert_eq!(buffer.write_u8(0x7F), Ok(()));
    assert_eq!(buffer.write_u16(0xABCD), Ok(()));
    assert_eq!(buffer.write_u32(0x01020304), Ok(()));
    assert_eq!(buffer.write(0x99), Ok(()));
    assert_eq!(buffer.pos(), 8);
    assert_eq!(&buffer.buf[0..9], &[0x7F, 0xAB, 0xCD, 1, 2, 3, 4, 0x99, 0][..]);
}

#[test]
fn writes_fail_at_the_end_and_keep_what_fitted() {
    let mut buffer = BytePacketBuffer::new();
    buffer.seek(510).unwrap();
    assert_eq!(buffer.write_u32(0x0A0B0C0D), Err(DnsError::OutOfBounds));
    assert_eq!(buffer.buf[510], 0x0A);
    assert_eq!(buffer.buf[511], 0x0B);
    assert_eq!(buffer.pos(), 512);
    assert_eq!(buffer.write_u8(1), Err(DnsError::OutOfBounds));
    assert_eq!(buffer.write_u16(1), Err(DnsError::OutOfBounds));
    assert_eq!(buffer.write(1), Err(DnsError::OutOfBounds));
    assert_eq!(buffer.pos(), 512);
    buffer.seek(510).unwrap();
    assert_eq!(buffer.write_u16(0x0102), Ok(()));
    assert_eq!(buffer.pos(), 512);
}
