use zerotier_dns::byte_packet_buffer::BytePacketBuffer;
use zerotier_dns::error::DnsError;
use zerotier_dns::header::DnsHeader;
use zerotier_dns::query_type::QueryType;
use zerotier_dns::result_code::ResultCode;

#[test]
fn query_type_codes() {
    assert_eq!(QueryType::A.to_num(), 1);
    assert_eq!(QueryType::UNKNOWN(99).to_num(), 99);
    assert_eq!(QueryType::UNKNOWN(0).to_num(), 0);
    assert_eq!(QueryType::from_num(1), QueryType::A);
    assert_eq!(QueryType::from_num(0), QueryType::UNKNOWN(0));
    assert_eq!(QueryType::from_num(28), QueryType::UNKNOWN(28));
    assert_eq!(QueryType::from_num(65535), QueryType::UNKNOWN(65535));
}

#[test]
fn query_type_code_comes_back_from_every_number() {
    for num in 0..=65535u16 {
        assert_eq!(QueryType::from_num(num).to_num(), num);
    }
    assert_eq!(QueryType::from_num(QueryType::UNKNOWN(1).to_num()), QueryType::A);
}

#[test]
fn result_codes_have_sixteen_values() {
    let all = [
        ResultCode::NOERROR,
        ResultCode::FORMERR,
        ResultCode::SERVFAIL,
        ResultCode::NXDOMAIN,
        ResultCode::NOTIMP,
        ResultCode::REFUSED,
        ResultCode::RESERVED6,
        ResultCode::RESERVED7,
        ResultCode::RESERVED8,
        ResultCode::RESERVED9,
        ResultCode::RESERVED10,
        ResultCode::RESERVED11,
        ResultCode::RESERVED12,
        ResultCode::RESERVED13,
        ResultCode::RESERVED14,
        ResultCode::RESERVED15,
    ];
    for (i, code) in all.iter().enumerate() {
        assert_eq!(code.to_num(), i as u8);
        assert_eq!(ResultCode::from_num(i as u8), *code);
    }
}

#[test]
fn result_code_takes_the_low_four_bits() {
    assert_eq!(ResultCode::from_num(16), ResultCode::NOERROR);
    assert_eq!(ResultCode::from_num(0x83), ResultCode::NXDOMAIN);
    assert_eq!(ResultCode::from_num(255), ResultCode::RESERVED15);
    for num in 0..=255u8 {
        assert_eq!(ResultCode::from_num(num).to_num(), num % 16);
    }
}

#[test]
fn new_header_is_all_zero() {
    let header = DnsHeader::new();
    assert_eq!(header.id, 0);
    assert!(!header.recursion_desired);
    assert!(!header.truncated_message);
    assert!(!header.authoritative_answer);
    assert_eq!(header.opcode, 0);
    assert!(!header.response);
    assert_eq!(header.rescode, ResultCode::NOERROR);
    assert!(!header.checking_disabled);
    assert!(!header.authed_data);
    assert!(!header.z);
    assert!(!header.recursion_available);
    assert_eq!(header.questions, 0);
    assert_eq!(header.answers, 0);
    assert_eq!(header.authorities, 0);
    assert_eq!(header.resources, 0);
    let mut buffer = BytePacketBuffer::new();
    for i in 0..12 {
        buffer.buf[i] = 0xEE;
    }
    assert_eq!(header.write(&mut buffer), Ok(()));
    assert_eq!(&buffer.buf[0..13], &[0u8; 13][..]);
    assert_eq!(buffer.pos(), 12);
}

#[test]
fn header_reads_each_flag_from_its_bit() {
    let mut buffer = BytePacketBuffer::new();
    let bytes: [u8; 12] = [0x12, 0x34, 0x81, 0x80, 0, 1, 0, 2, 0, 3, 0, 4];
    for (i, b) in bytes.iter().enumerate() {
        buffer.buf[i] = *b;
    }
    let header = DnsHeader::read(&mut buffer).unwrap();
    assert_eq!(buffer.pos(), 12);
    assert_eq!(header.id, 0x1234);
    assert!(header.response);
    assert_eq!(header.opcode, 0);
    assert!(!header.authoritative_answer);
    assert!(!header.truncated_message);
    assert!(header.recursion_desired);
    assert!(header.recursion_available);
    assert!(!header.z);
    assert!(!header.checking_disabled);
    assert!(!header.authed_data);
    assert_eq!(header.rescode, ResultCode::NOERROR);
    assert_eq!(header.questions, 1);
    assert_eq!(header.answers, 2);
    assert_eq!(header.authorities, 3);
    assert_eq!(header.resources, 4);
}

#[test]
fn header_flag_bits_one_by_one() {
    let cases: [(u8, u8); 10] = [
        (0x80, 0), (0x78, 0), (0x04, 0), (0x02, 0), (0x01, 0),
        (0, 0x80), (0, 0x40), (0, 0x20), (0, 0x10), (0, 0x0F),
    ];
    for (n, (a, b)) in cases.iter().enumerate() {
        let mut buffer = BytePacketBuffer::new();
        buffer.buf[2] = *a;
        buffer.buf[3] = *b;
        let h = DnsHeader::read(&mut buffer).unwrap();
        assert_eq!(h.response, n == 0);
        assert_eq!(h.opcode, if n == 1 { 15 } else { 0 });
        assert_eq!(h.authoritative_answer, n == 2);
        assert_eq!(h.truncated_message, n == 3);
        assert_eq!(h.recursion_desired, n == 4);
        assert_eq!(h.recursion_available, n == 5);
        assert_eq!(h.z, n == 6);
        assert_eq!(h.checking_disabled, n == 7);
        assert_eq!(h.authed_data, n == 8);
        assert_eq!(h.rescode, if n == 9 { ResultCode::RESERVED15 } else { ResultCode::NOERROR });
        let mut out = BytePacketBuffer::new();
        assert_eq!(h.write(&mut out), Ok(()));
        assert_eq!(out.buf[2], *a);
        assert_eq!(out.buf[3], *b);
    }
}

#[test]
fn header_writes_exact_bytes() {
    let mut header = DnsHeader::new();
    header.id = 0xBEEF;
    header.response = true;
    header.opcode = 2;
    header.authoritative_answer = true;
    header.recursion_desired = true;
    header.recursion_available = true;
    header.authed_data = true;
    header.rescode = ResultCode::NXDOMAIN;
    header.questions = 1;
    header.answers = 0x0102;
    header.authorities = 3;
    header.resources = 0xFFFF;
    let mut buffer = BytePacketBuffer::new();
    buffer.seek(100).unwrap();
    assert_eq!(header.write(&mut buffer), Ok(()));
    assert_eq!(buffer.pos(), 112);
    assert_eq!(
        &buffer.buf[100..112],
        &[0xBE, 0xEF, 0x95, 0x93, 0, 1, 1, 2, 0, 3, 0xFF, 0xFF][..]
    );
    buffer.seek(100).unwrap();
    assert_eq!(DnsHeader::read(&mut buffer), Ok(header));
}

#[test]
fn header_round_trip_over_all_flag_bytes() {
    for a in 0..=255u8 {
        for b in [0u8, 0x0F, 0x10, 0x25, 0x4A, 0x80, 0xFF] {
            let mut buffer = BytePacketBuffer::new();
            buffer.buf[2] = a;
            buffer.buf[3] = b;
            let header = DnsHeader::read(&mut buffer).unwrap();
            assert!(header.opcode < 16);
            let mut out = BytePacketBuffer::new();
            header.write(&mut out).unwrap();
            assert_eq!(out.buf[2], a);
            assert_eq!(out.buf[3], b);
        }
    }
}

#[test]
fn header_writes_the_low_four_bits_of_the_opcode() {
    let mut header = DnsHeader::new();
    header.opcode = 0x1F;
    let mut buffer = BytePacketBuffer::new();
    assert_eq!(header.write(&mut buffer), Ok(()));
    assert_eq!(buffer.buf[2], 0x78);
    buffer.seek(0).unwrap();
    assert_eq!(DnsHeader::read(&mut buffer).unwrap().opcode, 15);
}

#[test]
fn header_at_the_end_of_the_buffer() {
    let mut buffer = BytePacketBuffer::new();
    buffer.seek(501).unwrap();
    assert_eq!(DnsHeader::read(&mut buffer), Err(DnsError::OutOfBounds));
    assert_eq!(buffer.pos(), 512);
    buffer.seek(501).unwrap();
    let mut header = DnsHeader::new();
    header.id = 0x0A0B;
    header.questions = 0x0C0D;
    assert_eq!(header.write(&mut buffer), Err(DnsError::OutOfBounds));
    assert_eq!(buffer.pos(), 512);
    assert_eq!(&buffer.buf[501..512], &[0x0A, 0x0B, 0, 0, 0x0C, 0x0D, 0, 0, 0, 0, 0][..]);
    buffer.seek(500).unwrap();
    assert_eq!(header.write(&mut buffer), Ok(()));
    buffer.seek(500).unwrap();
    assert_eq!(DnsHeader::read(&mut buffer), Ok(header));
    assert_eq!(buffer.pos(), 512);
}
