//! A resource record: an address record, or the outline of a record of
//! any other type.

use vstd::prelude::*;
use vstd::utf8::encode_utf8;
use crate::byte_packet_buffer::BytePacketBuffer;
use crate::error::DnsError;
use crate::name::{lemma_walk_resume, name_emission, parse_name, text_labels, MAX_JUMPS};
use crate::query_type::{QueryType, A_CODE};
use crate::question::CLASS_IN;
use crate::text::name_text;
use crate::wire::{
    be16, be32, lemma_followed_by_nothing, lemma_overlay_empty, lemma_u32_join_bytes,
    lemma_wrote_then, outcome, overlay, reach, u16_bytes, u32_bytes, wrote, Emission, Parsed,
    CAPACITY,
};

verus! {

/// The bytes of a record between its name and its data: type, class,
/// time to live, and the length of the data.
pub const FIXED_LEN: usize = 10;

/// The length of the data of an address record.
pub const ADDRESS_LEN: u16 = 4;

/// A resource record. An address record holds the four octets of its
/// address. Of a record of another type only the type and the length of
/// its data are kept; such a record is passed over when it is read and
/// left out when it is written.
#[derive(Debug, Clone, PartialEq, Eq, Hash, PartialOrd, Ord)]
#[allow(dead_code)]
pub enum DnsRecord {
    UNKNOWN { domain: String, qtype: u16, data_len: u16, ttl: u32 },
    A { domain: String, addr: [u8; 4], ttl: u32 },
}

/// A record as a value.
pub enum RecordView {
    Unknown { domain: Seq<char>, qtype: u16, data_len: u16, ttl: u32 },
    Address { domain: Seq<char>, addr: Seq<u8>, ttl: u32 },
}

impl View for DnsRecord {
    type V = RecordView;

    open spec fn view(&self) -> RecordView {
        match *self {
            DnsRecord::UNKNOWN { domain, qtype, data_len, ttl } => RecordView::Unknown {
                domain: domain@,
                qtype,
                data_len,
                ttl,
            },
            DnsRecord::A { domain, addr, ttl } => RecordView::Address {
                domain: domain@,
                addr: addr@,
                ttl,
            },
        }
    }
}

impl RecordView {
    /// What writing this record puts out. An address record: the name,
    /// the code of its type, the class, the time to live, the length 4
    /// and the four octets. Any other record: nothing.
    pub open spec fn emission(self) -> Emission {
        match self {
            RecordView::Unknown { .. } => Emission::whole(Seq::empty()),
            RecordView::Address { domain, addr, ttl } => address_emission(domain, addr, ttl),
        }
    }
}

/// What writing an address record puts out: the name, the code of the
/// type, the class, the time to live, the length of the address and the
/// address.
pub open spec fn address_emission(domain: Seq<char>, addr: Seq<u8>, ttl: u32) -> Emission {
    name_emission(text_labels(encode_utf8(domain))).followed_by(
        Emission::whole(
            u16_bytes(A_CODE) + u16_bytes(CLASS_IN) + u32_bytes(ttl) + u16_bytes(ADDRESS_LEN)
                + addr,
        ),
    )
}

/// The record that starts at `pos`: a name, then type, class, time to
/// live and length of data. The data of an address record are its four
/// octets. The data of any other record are passed over by their length
/// without a look at them, wherever that puts the cursor. Where the name
/// cannot be read the cursor stays.
pub open spec fn parse_record(buf: Seq<u8>, pos: int) -> Parsed<RecordView> {
    match parse_name(buf, pos) {
        Err(e) => Parsed { value: Err(e), cursor: pos },
        Ok(name) => {
            let at = name.1;
            let qtype = be16(buf[at], buf[at + 1]);
            let ttl = be32(buf[at + 4], buf[at + 5], buf[at + 6], buf[at + 7]);
            let data_len = be16(buf[at + 8], buf[at + 9]);
            if at + FIXED_LEN > CAPACITY {
                Parsed { value: Err(DnsError::OutOfBounds), cursor: reach(at, FIXED_LEN as int) }
            } else if qtype != A_CODE {
                Parsed {
                    value: Ok(
                        RecordView::Unknown { domain: name_text(name.0), qtype, data_len, ttl },
                    ),
                    cursor: at + FIXED_LEN + data_len,
                }
            } else if at + FIXED_LEN + 4 > CAPACITY {
                Parsed { value: Err(DnsError::OutOfBounds), cursor: CAPACITY as int }
            } else {
                Parsed {
                    value: Ok(
                        RecordView::Address {
                            domain: name_text(name.0),
                            addr: buf.subrange(at + FIXED_LEN, at + FIXED_LEN + 4),
                            ttl,
                        },
                    ),
                    cursor: at + FIXED_LEN + 4,
                }
            }
        },
    }
}

/// How a write of a record ends: with the number of bytes written, or as
/// `outcome` says.
pub open spec fn counted(pos: int, out: Emission) -> Result<usize, DnsError> {
    match outcome(pos, out) {
        Ok(_) => Ok(out.len() as usize),
        Err(e) => Err(e),
    }
}

impl DnsRecord {
    /// Reads a record at the cursor.
    pub fn read(buffer: &mut BytePacketBuffer) -> (r: Result<DnsRecord, DnsError>)
        ensures
            final(buffer).buf == old(buffer).buf,
            final(buffer).pos == parse_record(old(buffer).buf@, old(buffer).pos as int).cursor,
            match parse_record(old(buffer).buf@, old(buffer).pos as int).value {
                Ok(record) => r is Ok && r->Ok_0@ == record,
                Err(e) => r is Err && r->Err_0 == e,
            },
    {
        proof {
            if parse_name(buffer.buf@, buffer.pos as int) is Ok {
                lemma_walk_resume(buffer.buf@, buffer.pos as int, MAX_JUMPS as nat);
            }
        }
        let mut domain: String = String::new();
        buffer.read_qname(&mut domain)?;
        assert(domain@ =~= name_text(
            parse_name(old(buffer).buf@, old(buffer).pos as int)->Ok_0.0,
        ));
        let ghost at = buffer.pos as int;

        let qtype_num: u16 = buffer.read_u16()?;
        let qtype: QueryType = QueryType::from_num(qtype_num);
        let _ = buffer.read_u16()?;
        let ttl: u32 = buffer.read_u32()?;
        let data_len: u16 = buffer.read_u16()?;

        match qtype {
            QueryType::A => {
                let raw_addr: u32 = buffer.read_u32()?;
                assert((raw_addr >> 24) & 0xFF == raw_addr / 0x100_0000 && (raw_addr >> 16) & 0xFF
                    == raw_addr / 0x1_0000 % 256 && (raw_addr >> 8) & 0xFF == raw_addr / 0x100
                    % 256 && (raw_addr >> 0) & 0xFF == raw_addr % 256) by (bit_vector);
                let addr: [u8; 4] = [
                    ((raw_addr >> 24) & 0xFF) as u8,
                    ((raw_addr >> 16) & 0xFF) as u8,
                    ((raw_addr >> 8) & 0xFF) as u8,
                    ((raw_addr >> 0) & 0xFF) as u8,
                ];
                proof {
                    let b = buffer.buf@;
                    lemma_u32_join_bytes(b[at + 10], b[at + 11], b[at + 12], b[at + 13]);
                    assert(addr@ =~= b.subrange(at + 10, at + 14));
                }
                Ok(DnsRecord::A { domain: domain, addr: addr, ttl: ttl })
            },
            QueryType::UNKNOWN(_) => {
                buffer.step(data_len as usize)?;
                Ok(
                    DnsRecord::UNKNOWN {
                        domain: domain,
                        qtype: qtype_num,
                        data_len: data_len,
                        ttl: ttl,
                    },
                )
            },
        }
    }

    /// Writes an address record at the cursor.
    fn write_address(domain: &str, addr: &[u8; 4], ttl: u32, buffer: &mut BytePacketBuffer) -> (r:
        Result<(), DnsError>)
        ensures
            wrote(
                old(buffer).buf@,
                old(buffer).pos as int,
                address_emission(domain@, addr@, ttl),
                final(buffer).buf@,
                final(buffer).pos as int,
                r,
            ),
    {
        let ghost base = old(buffer).buf@;
        let ghost at = old(buffer).pos as int;
        let ghost none = Emission::whole(Seq::empty());
        proof {
            lemma_overlay_empty(base, at);
        }
        let ghost name = name_emission(text_labels(encode_utf8(domain@)));
        let ghost w1 = Emission::whole(u16_bytes(A_CODE));
        let ghost w2 = Emission::whole(u16_bytes(CLASS_IN));
        let ghost w3 = Emission::whole(u32_bytes(ttl));
        let ghost w4 = Emission::whole(u16_bytes(ADDRESS_LEN));
        let ghost w5 = Emission::whole(seq![addr@[0]]);
        let ghost w6 = Emission::whole(seq![addr@[1]]);
        let ghost w7 = Emission::whole(seq![addr@[2]]);
        let ghost w8 = Emission::whole(seq![addr@[3]]);
        let ghost w9 = none;
        let ghost t8 = w8.followed_by(w9);
        let ghost t7 = w7.followed_by(t8);
        let ghost t6 = w6.followed_by(t7);
        let ghost t5 = w5.followed_by(t6);
        let ghost t4 = w4.followed_by(t5);
        let ghost t3 = w3.followed_by(t4);
        let ghost t2 = w2.followed_by(t3);
        let ghost t1 = w1.followed_by(t2);
        let ghost d1 = name.followed_by(w1);
        let ghost d2 = d1.followed_by(w2);
        let ghost d3 = d2.followed_by(w3);
        let ghost d4 = d3.followed_by(w4);
        let ghost d5 = d4.followed_by(w5);
        let ghost d6 = d5.followed_by(w6);
        let ghost d7 = d6.followed_by(w7);
        proof {
            lemma_followed_by_nothing(name);
            assert(t1.bytes =~= u16_bytes(A_CODE) + u16_bytes(CLASS_IN) + u32_bytes(ttl)
                + u16_bytes(ADDRESS_LEN) + addr@);
            assert(name.followed_by(t1) == address_emission(domain@, addr@, ttl));
        }
        let r0 = buffer.write_qname(domain);
        proof {
            lemma_wrote_then(base, at, none, name, t1, buffer.buf@, buffer.pos as int, r0);
        }
        r0?;
        let r1 = buffer.write_u16(QueryType::A.to_num());
        proof {
            lemma_wrote_then(base, at, name, w1, t2, buffer.buf@, buffer.pos as int, r1);
        }
        r1?;
        let r2 = buffer.write_u16(1);
        proof {
            lemma_wrote_then(base, at, d1, w2, t3, buffer.buf@, buffer.pos as int, r2);
        }
        r2?;
        let r3 = buffer.write_u32(ttl);
        proof {
            lemma_wrote_then(base, at, d2, w3, t4, buffer.buf@, buffer.pos as int, r3);
        }
        r3?;
        let r4 = buffer.write_u16(4);
        proof {
            lemma_wrote_then(base, at, d3, w4, t5, buffer.buf@, buffer.pos as int, r4);
        }
        r4?;
        let r5 = buffer.write_u8(addr[0]);
        proof {
            lemma_wrote_then(base, at, d4, w5, t6, buffer.buf@, buffer.pos as int, r5);
        }
        r5?;
        let r6 = buffer.write_u8(addr[1]);
        proof {
            lemma_wrote_then(base, at, d5, w6, t7, buffer.buf@, buffer.pos as int, r6);
        }
        r6?;
        let r7 = buffer.write_u8(addr[2]);
        proof {
            lemma_wrote_then(base, at, d6, w7, t8, buffer.buf@, buffer.pos as int, r7);
        }
        r7?;
        let r8 = buffer.write_u8(addr[3]);
        proof {
            lemma_wrote_then(base, at, d7, w8, w9, buffer.buf@, buffer.pos as int, r8);
        }
        r8
    }

    /// Writes this record at the cursor and returns the number of bytes
    /// written: for an address record the length of its name on the wire
    /// and 14 more, for any other record none. Writing stops at the first
    /// label that is too long and at the end of the buffer; what was
    /// written before stays written.
    pub fn write(&self, buffer: &mut BytePacketBuffer) -> (r: Result<usize, DnsError>)
        ensures
            final(buffer).buf@ == overlay(
                old(buffer).buf@,
                old(buffer).pos as int,
                self@.emission().bytes,
            ),
            final(buffer).pos == reach(old(buffer).pos as int, self@.emission().len()),
            r == counted(old(buffer).pos as int, self@.emission()),
    {
        let start_pos: usize = buffer.pos();
        match self {
            DnsRecord::A { domain, addr, ttl } => {
                Self::write_address(domain.as_str(), addr, *ttl, buffer)?;
            },
            DnsRecord::UNKNOWN { .. } => {
                proof {
                    lemma_overlay_empty(buffer.buf@, buffer.pos as int);
                }
            },
        }
        Ok(buffer.pos() - start_pos)
    }
}

/// The bytes of an address record that is written whole: its name on the
/// wire, the ten bytes of type, class, time to live and length, and the
/// four octets.
pub proof fn lemma_address_length(domain: Seq<char>, addr: Seq<u8>, ttl: u32)
    requires
        addr.len() == 4,
        address_emission(domain, addr, ttl).complete,
    ensures
        address_emission(domain, addr, ttl).len() == name_emission(
            text_labels(encode_utf8(domain)),
        ).len() + FIXED_LEN + 4,
{
}

/// A record of a type that is not modelled is passed over by the length
/// it declares. Where the name of the record ends at `at` and the ten
/// bytes behind it lie in the buffer and name another type than the
/// address record, the record is read as an unknown one with that type
/// and length, and the cursor ends that many bytes behind the length
/// field. The bytes passed over are not looked at: a buffer that differs
/// from `buf` in them alone reads the same from `at` on.
pub proof fn lemma_unknown_is_skipped(buf: Seq<u8>, other: Seq<u8>, pos: int)
    requires
        parse_name(buf, pos) is Ok,
        parse_name(buf, pos)->Ok_0.1 + FIXED_LEN <= CAPACITY,
        be16(buf[parse_name(buf, pos)->Ok_0.1], buf[parse_name(buf, pos)->Ok_0.1 + 1]) != A_CODE,
        parse_name(other, pos) == parse_name(buf, pos),
        forall|i: int|
            parse_name(buf, pos)->Ok_0.1 <= i < parse_name(buf, pos)->Ok_0.1 + FIXED_LEN
                ==> other[i] == buf[i],
    ensures
        parse_record(buf, pos).value is Ok,
        parse_record(buf, pos).value->Ok_0 is Unknown,
        parse_record(buf, pos).value->Ok_0->Unknown_qtype == be16(
            buf[parse_name(buf, pos)->Ok_0.1],
            buf[parse_name(buf, pos)->Ok_0.1 + 1],
        ),
        parse_record(buf, pos).value->Ok_0->Unknown_data_len == be16(
            buf[parse_name(buf, pos)->Ok_0.1 + 8],
            buf[parse_name(buf, pos)->Ok_0.1 + 9],
        ),
        parse_record(buf, pos).cursor == parse_name(buf, pos)->Ok_0.1 + FIXED_LEN + parse_record(
            buf,
            pos,
        ).value->Ok_0->Unknown_data_len,
        parse_record(other, pos) == parse_record(buf, pos),
{
    lemma_walk_resume(buf, pos, MAX_JUMPS as nat);
}

} // verus!
