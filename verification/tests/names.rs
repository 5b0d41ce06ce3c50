use zerotier_dns::byte_packet_buffer::BytePacketBuffer;
use zerotier_dns::error::DnsError;
use zerotier_dns::text::{append_label, label_string, name_string};

fn put(buffer: &mut BytePacketBuffer, at: usize, bytes: &[u8]) {
    for (i, b) in bytes.iter().enumerate() {
        buffer.buf[at + i] = *b;
    }
}

const GOOGLE: [u8; 16] = [
    3, b'w', b'w', b'w', 6, b'g', b'o', b'o', b'g', b'l', b'e', 3, b'c', b'o', b'm', 0,
];

#[test]
fn name_with_pointer_reads_the_same_from_both_places() {
    let mut buffer = BytePacketBuffer::new();
    put(&mut buffer, 20, &GOOGLE);
    put(&mut buffer, 100, &[0xC0, 20]);
    buffer.seek(20).unwrap();
    let mut direct = String::new();
    buffer.read_qname(&mut direct).unwrap();
    assert_eq!(direct, "www.google.com");
    assert_eq!(buffer.pos(), 36);
    buffer.seek(100).unwrap();
    let mut pointed = String::new();
    buffer.read_qname(&mut pointed).unwrap();
    assert_eq!(pointed, "www.google.com");
    assert_eq!(buffer.pos(), 102);
}

#[test]
fn pointer_with_high_offset_bits_is_followed() {
    let mut buffer = BytePacketBuffer::new();
    put(&mut buffer, 0x1F0, &[2, b'a', b'b', 0]);
    put(&mut buffer, 0, &[1, b'x', 0xC1, 0xF0]);
    let mut name = String::new();
    assert_eq!(buffer.read_qname(&mut name), Ok(()));
    assert_eq!(name, "x.ab");
    assert_eq!(buffer.pos(), 4);
}

#[test]
fn forward_pointer_is_followed() {
    let mut buffer = BytePacketBuffer::new();
    put(&mut buffer, 0, &[0xC0, 50]);
    put(&mut buffer, 50, &[3, b'o', b'r', b'g', 0]);
    let mut name = String::new();
    assert_eq!(buffer.read_qname(&mut name), Ok(()));
    assert_eq!(name, "org");
    assert_eq!(buffer.pos(), 2);
}

#[test]
fn pointer_to_itself_is_a_format_error() {
    let mut buffer = BytePacketBuffer::new();
    put(&mut buffer, 30, &[0xC0, 30]);
    buffer.seek(30).unwrap();
    let mut name = String::from("kept");
    assert_eq!(buffer.read_qname(&mut name), Err(DnsError::FormatError));
    assert_eq!(name, "kept");
    assert_eq!(buffer.pos(), 30);
}

#[test]
fn pointer_cycle_through_labels_is_a_format_error() {
    let mut buffer = BytePacketBuffer::new();
    put(&mut buffer, 10, &[1, b'a', 0xC0, 40]);
    put(&mut buffer, 40, &[1, b'b', 0xC0, 10]);
    buffer.seek(10).unwrap();
    let mut name = String::new();
    assert_eq!(buffer.read_qname(&mut name), Err(DnsError::FormatError));
    assert_eq!(name, "");
    assert_eq!(buffer.pos(), 10);
    assert_eq!(buffer.labels_at(40), Err(DnsError::FormatError));
}

#[test]
fn pointer_beyond_the_buffer_is_out_of_bounds() {
    let mut buffer = BytePacketBuffer::new();
    put(&mut buffer, 0, &[0xFF, 0xFF]);
    let mut name = String::new();
    assert_eq!(buffer.read_qname(&mut name), Err(DnsError::OutOfBounds));
    assert_eq!(buffer.pos(), 0);
    buffer.buf[511] = 0xC0;
    buffer.seek(511).unwrap();
    assert_eq!(buffer.read_qname(&mut name), Err(DnsError::OutOfBounds));
}

#[test]
fn label_that_runs_past_the_end_is_out_of_bounds() {
    let mut buffer = BytePacketBuffer::new();
    put(&mut buffer, 508, &[5, b'a', b'b', b'c']);
    buffer.seek(508).unwrap();
    let mut name = String::new();
    assert_eq!(buffer.read_qname(&mut name), Err(DnsError::OutOfBounds));
    assert_eq!(name, "");
    assert_eq!(buffer.pos(), 508);
    put(&mut buffer, 508, &[3, b'a', b'b', b'c']);
    assert_eq!(buffer.read_qname(&mut name), Err(DnsError::OutOfBounds));
    put(&mut buffer, 507, &[3, b'a', b'b', b'c', 0]);
    buffer.seek(507).unwrap();
    assert_eq!(buffer.read_qname(&mut name), Ok(()));
    assert_eq!(name, "abc");
    assert_eq!(buffer.pos(), 512);
}

#[test]
fn reading_a_name_beyond_the_buffer_is_out_of_bounds() {
    let mut buffer = BytePacketBuffer::new();
    buffer.seek(512).unwrap();
    let mut name = String::new();
    assert_eq!(buffer.read_qname(&mut name), Err(DnsError::OutOfBounds));
    assert_eq!(buffer.labels_at(9999), Err(DnsError::OutOfBounds));
}

#[test]
fn names_are_folded_to_lower_case() {
    let mut buffer = BytePacketBuffer::new();
    put(&mut buffer, 0, &[3, b'W', b'w', b'W', 2, b'D', b'E', 0]);
    let mut name = String::from("=");
    assert_eq!(buffer.read_qname(&mut name), Ok(()));
    assert_eq!(name, "=www.de");
    assert_eq!(buffer.pos(), 8);
}

#[test]
fn root_name_is_empty_text() {
    let mut buffer = BytePacketBuffer::new();
    let mut name = String::new();
    assert_eq!(buffer.read_qname(&mut name), Ok(()));
    assert_eq!(name, "");
    assert_eq!(buffer.pos(), 1);
}

#[test]
fn long_length_bytes_below_the_pointer_mark_are_labels() {
    let mut buffer = BytePacketBuffer::new();
    buffer.buf[0] = 100;
    for i in 1..=100usize {
        buffer.buf[i] = b'z';
    }
    let (labels, next) = buffer.labels_at(0).unwrap();
    assert_eq!(labels.len(), 1);
    assert_eq!(labels[0].len(), 100);
    assert_eq!(next, 102);
}

#[test]
fn labels_at_returns_raw_labels_and_resume_offset() {
    let mut buffer = BytePacketBuffer::new();
    put(&mut buffer, 20, &GOOGLE);
    put(&mut buffer, 60, &[4, b'M', b'a', b'i', b'l', 0xC0, 24]);
    let (labels, next) = buffer.labels_at(60).unwrap();
    assert_eq!(labels, vec![b"Mail".to_vec(), b"google".to_vec(), b"com".to_vec()]);
    assert_eq!(next, 67);
    assert_eq!(buffer.pos(), 0);
}

#[test]
fn label_string_replaces_bad_utf8_and_folds_case() {
    assert_eq!(label_string(b"MiXeD"), "mixed");
    assert_eq!(label_string(&[b'A', 0xFF, b'B']), "a\u{FFFD}b");
    assert_eq!(label_string("ÄÖ".as_bytes()), "äö");
    assert_eq!(label_string(b""), "");
}

#[test]
fn append_label_puts_a_dot_between_labels() {
    let mut name = String::new();
    append_label(&mut name, "www", true);
    assert_eq!(name, "www");
    append_label(&mut name, "example", false);
    assert_eq!(name, "www.example");
    append_label(&mut name, "", false);
    assert_eq!(name, "www.example.");
}

#[test]
fn name_string_joins_the_labels() {
    assert_eq!(name_string(&vec![]), "");
    assert_eq!(name_string(&vec![b"One".to_vec()]), "one");
    assert_eq!(name_string(&vec![b"a".to_vec(), b"B".to_vec(), b"c".to_vec()]), "a.b.c");
}

#[test]
fn write_qname_writes_labels_and_a_zero() {
    let mut buffer = BytePacketBuffer::new();
    buffer.seek(5).unwrap();
    assert_eq!(buffer.write_qname("www.google.com"), Ok(()));
    assert_eq!(&buffer.buf[5..21], &GOOGLE[..]);
    assert_eq!(buffer.pos(), 21);
}

#[test]
fn write_qname_leaves_out_empty_labels() {
    let mut buffer = BytePacketBuffer::new();
    assert_eq!(buffer.write_qname("a..b."), Ok(()));
    assert_eq!(&buffer.buf[0..6], &[1, b'a', 1, b'b', 0, 0][..]);
    assert_eq!(buffer.pos(), 5);
    let mut root = BytePacketBuffer::new();
    root.buf[0] = 9;
    assert_eq!(root.write_qname(""), Ok(()));
    assert_eq!(root.buf[0], 0);
    assert_eq!(root.pos(), 1);
    let mut dots = BytePacketBuffer::new();
    dots.buf[0] = 9;
    assert_eq!(dots.write_qname("..."), Ok(()));
    assert_eq!(dots.buf[0], 0);
    assert_eq!(dots.pos(), 1);
}

#[test]
fn write_qname_keeps_the_case_of_the_text() {
    let mut buffer = BytePacketBuffer::new();
    assert_eq!(buffer.write_qname("Ab.C"), Ok(()));
    assert_eq!(&buffer.buf[0..6], &[2, b'A', b'b', 1, b'C', 0][..]);
}

#[test]
fn label_of_63_bytes_is_written_and_64_is_refused() {
    let mut buffer = BytePacketBuffer::new();
    let label63 = "a".repeat(63);
    assert_eq!(buffer.write_qname(&label63), Ok(()));
    assert_eq!(buffer.buf[0], 63);
    assert_eq!(buffer.buf[63], b'a');
    assert_eq!(buffer.buf[64], 0);
    assert_eq!(buffer.pos(), 65);

    let mut other = BytePacketBuffer::new();
    let label64 = "a".repeat(64);
    assert_eq!(other.write_qname(&label64), Err(DnsError::FormatError));
    assert_eq!(other.pos(), 0);
    assert!(other.buf.iter().all(|b| *b == 0));
}

#[test]
fn label_of_53_bytes_is_written() {
    let mut buffer = BytePacketBuffer::new();
    let name = format!("{}.com", "b".repeat(53));
    assert_eq!(buffer.write_qname(&name), Ok(()));
    assert_eq!(buffer.buf[0], 53);
    assert_eq!(buffer.pos(), 59);
}

#[test]
fn long_label_after_short_ones_stops_the_writing_there() {
    let mut buffer = BytePacketBuffer::new();
    let name = format!("ok.{}.com", "x".repeat(64));
    assert_eq!(buffer.write_qname(&name), Err(DnsError::FormatError));
    assert_eq!(&buffer.buf[0..4], &[2, b'o', b'k', 0][..]);
    assert_eq!(buffer.pos(), 3);
}

#[test]
fn label_length_counts_bytes_not_characters() {
    let mut buffer = BytePacketBuffer::new();
    let name = "é".repeat(32);
    assert_eq!(name.len(), 64);
    assert_eq!(buffer.write_qname(&name), Err(DnsError::FormatError));
    let mut other = BytePacketBuffer::new();
    let fits = format!("{}a", "é".repeat(31));
    assert_eq!(other.write_qname(&fits), Ok(()));
    assert_eq!(other.buf[0], 63);
}

#[test]
fn write_qname_at_the_end_of_the_buffer_is_out_of_bounds() {
    let mut buffer = BytePacketBuffer::new();
    buffer.seek(509).unwrap();
    assert_eq!(buffer.write_qname("abc"), Err(DnsError::OutOfBounds));
    assert_eq!(&buffer.buf[509..512], &[3, b'a', b'b'][..]);
    assert_eq!(buffer.pos(), 512);
    let mut exact = BytePacketBuffer::new();
    exact.seek(507).unwrap();
    assert_eq!(exact.write_qname("abc"), Ok(()));
    assert_eq!(exact.pos(), 512);
    let mut outside = BytePacketBuffer::new();
    outside.seek(600).unwrap();
    assert_eq!(outside.write_qname("abc"), Err(DnsError::OutOfBounds));
    assert_eq!(outside.pos(), 600);
}

#[test]
fn out_of_bounds_comes_before_a_long_label_that_is_not_reached() {
    let mut buffer = BytePacketBuffer::new();
    buffer.seek(510).unwrap();
    let name = format!("abc.{}", "x".repeat(64));
    assert_eq!(buffer.write_qname(&name), Err(DnsError::OutOfBounds));
}

#[test]
fn written_name_reads_back_in_canonical_text() {
    let mut buffer = BytePacketBuffer::new();
    assert_eq!(buffer.write_qname("Www..Example.ORG."), Ok(()));
    let end = buffer.pos();
    buffer.seek(0).unwrap();
    let mut name = String::new();
    assert_eq!(buffer.read_qname(&mut name), Ok(()));
    assert_eq!(name, "www.example.org");
    assert_eq!(buffer.pos(), end);
}
