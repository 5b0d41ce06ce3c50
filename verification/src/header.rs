//! The twelve bytes at the head of every message.

use vstd::prelude::*;
use crate::byte_packet_buffer::BytePacketBuffer;
use crate::error::DnsError;
use crate::result_code::ResultCode;
use crate::wire::{
    be16, lemma_overlay_empty, lemma_wrote_then, reach, u16_bytes, wrote, Emission, CAPACITY,
};

verus! {

/// The number of bytes of a header on the wire.
pub const HEADER_LEN: usize = 12;

/// A flag as the bit that it sets.
pub open spec fn bit(flag: bool) -> int {
    if flag {
        1
    } else {
        0
    }
}

/// The header of a message: the transaction id, the flags, the opcode, the
/// result code, and the number of entries in each of the four sections.
#[derive(Clone, Copy, Debug, PartialEq, Eq, Structural)]
pub struct DnsHeader {
    pub id: u16,
    pub recursion_desired: bool,
    pub truncated_message: bool,
    pub authoritative_answer: bool,
    pub opcode: u8,
    pub response: bool,
    pub rescode: ResultCode,
    pub checking_disabled: bool,
    pub authed_data: bool,
    pub z: bool,
    pub recursion_available: bool,
    pub questions: u16,
    pub answers: u16,
    pub authorities: u16,
    pub resources: u16,
}

impl DnsHeader {
    /// The opcode has four bits on the wire. A header with a larger one is
    /// written with its low four bits.
    pub open spec fn wf(self) -> bool {
        self.opcode < 16
    }

    /// The first byte of flags: the response flag in bit 7, the opcode in
    /// bits 3 to 6, then authoritative answer, truncation and recursion
    /// desired in bits 2, 1 and 0.
    pub open spec fn flags_high(self) -> u8 {
        (128 * bit(self.response) + 8 * (self.opcode % 16) + 4 * bit(self.authoritative_answer) + 2
            * bit(self.truncated_message) + bit(self.recursion_desired)) as u8
    }

    /// The second byte of flags: recursion available in bit 7, the
    /// reserved bit in bit 6, checking disabled in bit 5, authenticated
    /// data in bit 4, and the result code in bits 0 to 3.
    pub open spec fn flags_low(self) -> u8 {
        (128 * bit(self.recursion_available) + 64 * bit(self.z) + 32 * bit(self.checking_disabled)
            + 16 * bit(self.authed_data) + self.rescode.code()) as u8
    }

    /// The twelve bytes of this header.
    pub open spec fn wire(self) -> Seq<u8> {
        u16_bytes(self.id) + seq![self.flags_high(), self.flags_low()] + u16_bytes(self.questions)
            + u16_bytes(self.answers) + u16_bytes(self.authorities) + u16_bytes(self.resources)
    }

    /// The header that twelve bytes spell.
    pub open spec fn of_wire(bytes: Seq<u8>) -> DnsHeader {
        DnsHeader {
            id: be16(bytes[0], bytes[1]),
            recursion_desired: bytes[2] % 2 == 1,
            truncated_message: bytes[2] / 2 % 2 == 1,
            authoritative_answer: bytes[2] / 4 % 2 == 1,
            opcode: (bytes[2] / 8 % 16) as u8,
            response: bytes[2] / 128 == 1,
            rescode: ResultCode::of_code(bytes[3]),
            checking_disabled: bytes[3] / 32 % 2 == 1,
            authed_data: bytes[3] / 16 % 2 == 1,
            z: bytes[3] / 64 % 2 == 1,
            recursion_available: bytes[3] / 128 == 1,
            questions: be16(bytes[4], bytes[5]),
            answers: be16(bytes[6], bytes[7]),
            authorities: be16(bytes[8], bytes[9]),
            resources: be16(bytes[10], bytes[11]),
        }
    }

    /// The header of a query with no entries: every field zero or false.
    pub open spec fn new_spec() -> DnsHeader {
        DnsHeader {
            id: 0,
            recursion_desired: false,
            truncated_message: false,
            authoritative_answer: false,
            opcode: 0,
            response: false,
            rescode: ResultCode::NOERROR,
            checking_disabled: false,
            authed_data: false,
            z: false,
            recursion_available: false,
            questions: 0,
            answers: 0,
            authorities: 0,
            resources: 0,
        }
    }

    /// A header of a query with no entries: every field zero or false.
    #[verifier::when_used_as_spec(new_spec)]
    pub fn new() -> (r: DnsHeader)
        ensures
            r == DnsHeader::new_spec(),
    {
        DnsHeader {
            id: 0,
            recursion_desired: false,
            truncated_message: false,
            authoritative_answer: false,
            opcode: 0,
            response: false,
            rescode: ResultCode::NOERROR,
            checking_disabled: false,
            authed_data: false,
            z: false,
            recursion_available: false,
            questions: 0,
            answers: 0,
            authorities: 0,
            resources: 0,
        }
    }

    /// Reads a header at the cursor. The cursor moves over the bytes that
    /// could be read.
    pub fn read(buffer: &mut BytePacketBuffer) -> (r: Result<DnsHeader, DnsError>)
        ensures
            final(buffer).buf == old(buffer).buf,
            final(buffer).pos == reach(old(buffer).pos as int, HEADER_LEN as int),
            old(buffer).pos + HEADER_LEN <= CAPACITY ==> r == Ok::<DnsHeader, DnsError>(
                DnsHeader::of_wire(
                    old(buffer).buf@.subrange(
                        old(buffer).pos as int,
                        old(buffer).pos + HEADER_LEN,
                    ),
                ),
            ),
            old(buffer).pos + HEADER_LEN > CAPACITY ==> r == Err::<DnsHeader, DnsError>(
                DnsError::OutOfBounds,
            ),
    {
        let id: u16 = buffer.read_u16()?;
        let a: u8 = buffer.read()?;
        let b: u8 = buffer.read()?;
        let questions: u16 = buffer.read_u16()?;
        let answers: u16 = buffer.read_u16()?;
        let authorities: u16 = buffer.read_u16()?;
        let resources: u16 = buffer.read_u16()?;
        assert((a & 0x01u8) > 0 <==> a % 2 == 1) by (bit_vector);
        assert((a & 0x02u8) > 0 <==> a / 2 % 2 == 1) by (bit_vector);
        assert((a & 0x04u8) > 0 <==> a / 4 % 2 == 1) by (bit_vector);
        assert((a >> 3) & 0x0F == a / 8 % 16) by (bit_vector);
        assert((a & 0x80u8) > 0 <==> a / 128 == 1) by (bit_vector);
        assert((b & 0x10u8) > 0 <==> b / 16 % 2 == 1) by (bit_vector);
        assert((b & 0x20u8) > 0 <==> b / 32 % 2 == 1) by (bit_vector);
        assert((b & 0x40u8) > 0 <==> b / 64 % 2 == 1) by (bit_vector);
        assert((b & 0x80u8) > 0 <==> b / 128 == 1) by (bit_vector);
        Ok(
            DnsHeader {
                id,
                recursion_desired: (a & 0x01u8) > 0,
                truncated_message: (a & 0x02u8) > 0,
                authoritative_answer: (a & 0x04u8) > 0,
                opcode: (a >> 3) & 0x0F,
                response: (a & 0x80u8) > 0,
                rescode: ResultCode::from_num(b),
                checking_disabled: (b & 0x20u8) > 0,
                authed_data: (b & 0x10u8) > 0,
                z: (b & 0x40u8) > 0,
                recursion_available: (b & 0x80u8) > 0,
                questions,
                answers,
                authorities,
                resources,
            },
        )
    }

    /// The bit that a flag sets, as a byte.
    fn flag(set: bool) -> (r: u8)
        ensures
            r == bit(set),
    {
        if set {
            1
        } else {
            0
        }
    }

    /// Writes this header at the cursor. Of a header that does not fit,
    /// the bytes that do are written.
    pub fn write(&self, buffer: &mut BytePacketBuffer) -> (r: Result<(), DnsError>)
        ensures
            wrote(
                old(buffer).buf@,
                old(buffer).pos as int,
                Emission::whole(self.wire()),
                final(buffer).buf@,
                final(buffer).pos as int,
                r,
            ),
    {
        let ghost base = old(buffer).buf@;
        let ghost at = old(buffer).pos as int;
        let rd: u8 = Self::flag(self.recursion_desired);
        let tc: u8 = Self::flag(self.truncated_message);
        let aa: u8 = Self::flag(self.authoritative_answer);
        let qr: u8 = Self::flag(self.response);
        let opcode: u8 = self.opcode;
        let high: u8 = rd | (tc << 1) | (aa << 2) | ((opcode & 0x0F) << 3) | (qr << 7);
        let rc: u8 = self.rescode.to_num();
        let ad: u8 = Self::flag(self.authed_data);
        let cd: u8 = Self::flag(self.checking_disabled);
        let z: u8 = Self::flag(self.z);
        let ra: u8 = Self::flag(self.recursion_available);
        let low: u8 = rc | (ad << 4) | (cd << 5) | (z << 6) | (ra << 7);
        proof {
            assert(rd <= 1 && tc <= 1 && aa <= 1 && qr <= 1 ==> (rd | (tc << 1) | (aa << 2) | ((
            opcode & 0x0F) << 3) | (qr << 7)) == 128 * qr + 8 * (opcode % 16) + 4 * aa + 2 * tc
                + rd) by (bit_vector);
            assert(rc < 16 && ad <= 1 && cd <= 1 && z <= 1 && ra <= 1 ==> (rc | (ad << 4) | (cd
                << 5) | (z << 6) | (ra << 7)) == 128 * ra + 64 * z + 32 * cd + 16 * ad + rc)
                by (bit_vector);
        }
        let ghost w0 = u16_bytes(self.id);
        let ghost w1 = seq![high];
        let ghost w2 = seq![low];
        let ghost w3 = u16_bytes(self.questions);
        let ghost w4 = u16_bytes(self.answers);
        let ghost w5 = u16_bytes(self.authorities);
        let ghost w6 = u16_bytes(self.resources);
        let ghost none = Seq::<u8>::empty();
        proof {
            lemma_overlay_empty(base, at);
            assert(none + w0 =~= w0);
            assert(w0 + (w1 + w2 + w3 + w4 + w5 + w6) =~= self.wire());
            assert(w0 + w1 + (w2 + w3 + w4 + w5 + w6) =~= self.wire());
            assert(w0 + w1 + w2 + (w3 + w4 + w5 + w6) =~= self.wire());
            assert(w0 + w1 + w2 + w3 + (w4 + w5 + w6) =~= self.wire());
            assert(w0 + w1 + w2 + w3 + w4 + (w5 + w6) =~= self.wire());
            assert(w0 + w1 + w2 + w3 + w4 + w5 + w6 =~= self.wire());
            assert(w0 + w1 + w2 + w3 + w4 + w5 + w6 + none =~= self.wire());
        }
        let r0 = buffer.write_u16(self.id);
        proof {
            lemma_wrote_then(
                base,
                at,
                Emission::whole(none),
                Emission::whole(w0),
                Emission::whole(w1 + w2 + w3 + w4 + w5 + w6),
                buffer.buf@,
                buffer.pos as int,
                r0,
            );
        }
        r0?;
        let r1 = buffer.write_u8(high);
        proof {
            lemma_wrote_then(
                base,
                at,
                Emission::whole(w0),
                Emission::whole(w1),
                Emission::whole(w2 + w3 + w4 + w5 + w6),
                buffer.buf@,
                buffer.pos as int,
                r1,
            );
        }
        r1?;
        let r2 = buffer.write_u8(low);
        proof {
            lemma_wrote_then(
                base,
                at,
                Emission::whole(w0 + w1),
                Emission::whole(w2),
                Emission::whole(w3 + w4 + w5 + w6),
                buffer.buf@,
                buffer.pos as int,
                r2,
            );
        }
        r2?;
        let r3 = buffer.write_u16(self.questions);
        proof {
            lemma_wrote_then(
                base,
                at,
                Emission::whole(w0 + w1 + w2),
                Emission::whole(w3),
                Emission::whole(w4 + w5 + w6),
                buffer.buf@,
                buffer.pos as int,
                r3,
            );
        }
        r3?;
        let r4 = buffer.write_u16(self.answers);
        proof {
            lemma_wrote_then(
                base,
                at,
                Emission::whole(w0 + w1 + w2 + w3),
                Emission::whole(w4),
                Emission::whole(w5 + w6),
                buffer.buf@,
                buffer.pos as int,
                r4,
            );
        }
        r4?;
        let r5 = buffer.write_u16(self.authorities);
        proof {
            lemma_wrote_then(
                base,
                at,
                Emission::whole(w0 + w1 + w2 + w3 + w4),
                Emission::whole(w5),
                Emission::whole(w6),
                buffer.buf@,
                buffer.pos as int,
                r5,
            );
        }
        r5?;
        let r6 = buffer.write_u16(self.resources);
        proof {
            lemma_wrote_then(
                base,
                at,
                Emission::whole(w0 + w1 + w2 + w3 + w4 + w5),
                Emission::whole(w6),
                Emission::whole(none),
                buffer.buf@,
                buffer.pos as int,
                r6,
            );
        }
        r6
    }

    /// A header with a four-bit opcode is read back as it was written.
    pub proof fn lemma_wire_round_trip(self)
        ensures
            self.wire().len() == HEADER_LEN,
            DnsHeader::of_wire(self.wire()) == (DnsHeader { opcode: self.opcode % 16, ..self }),
            self.wf() ==> DnsHeader::of_wire(self.wire()) == self,
    {
        crate::wire::lemma_u16_bytes_join(self.id);
        crate::wire::lemma_u16_bytes_join(self.questions);
        crate::wire::lemma_u16_bytes_join(self.answers);
        crate::wire::lemma_u16_bytes_join(self.authorities);
        crate::wire::lemma_u16_bytes_join(self.resources);
        ResultCode::lemma_code_round_trip(0, self.rescode);
        let bytes = self.wire();
        assert(bytes[2] == self.flags_high());
        assert(bytes[3] == self.flags_low());
        lemma_unpack(
            bit(self.response),
            bit(self.authoritative_answer),
            bit(self.truncated_message),
            bit(self.recursion_desired),
            (self.opcode % 16) as int,
        );
        lemma_unpack(
            bit(self.recursion_available),
            bit(self.z),
            bit(self.checking_disabled),
            bit(self.authed_data),
            self.rescode.code() as int,
        );
        let back = DnsHeader::of_wire(bytes);
        assert(back.id == self.id);
        assert(back.questions == self.questions);
        assert(back.answers == self.answers);
        assert(back.authorities == self.authorities);
        assert(back.resources == self.resources);
        assert(back.opcode == self.opcode % 16);
        assert(back.rescode == self.rescode);
    }
}

/// The two layouts of a flags byte, taken apart again: one bit, a field of
/// four bits and three bits; and four bits above a field of four bits.
proof fn lemma_unpack(b7: int, x: int, y: int, z: int, low: int)
    requires
        0 <= b7 <= 1,
        0 <= x <= 1,
        0 <= y <= 1,
        0 <= z <= 1,
        0 <= low < 16,
    ensures
        ({
            let high = 128 * b7 + 8 * low + 4 * x + 2 * y + z;
            &&& 0 <= high < 256
            &&& high % 2 == z
            &&& high / 2 % 2 == y
            &&& high / 4 % 2 == x
            &&& high / 8 % 16 == low
            &&& high / 128 == b7
        }),
        ({
            let lower = 128 * b7 + 64 * x + 32 * y + 16 * z + low;
            &&& 0 <= lower < 256
            &&& lower % 16 == low
            &&& lower / 16 % 2 == z
            &&& lower / 32 % 2 == y
            &&& lower / 64 % 2 == x
            &&& lower / 128 == b7
        }),
{
}

} // verus!
