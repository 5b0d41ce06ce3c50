//! What is written can be read: a message of address records comes back
//! from the bytes that writing it put out.

use vstd::prelude::*;
use vstd::utf8::encode_utf8;
use crate::error::DnsError;
use crate::header::{DnsHeader, HEADER_LEN};
use crate::name::{
    lemma_name_reads_back, lemma_text_labels_nonempty, name_emission, name_wire, parse_name,
    text_labels, MAX_JUMPS,
};
use crate::packet::{
    parse_packet, parse_questions, parse_records, question_emissions, record_emissions,
    section_count, PacketView,
};
use crate::query_type::{QueryType, A_CODE};
use crate::question::{parse_question, QuestionView, CLASS_IN};
use crate::record::{parse_record, RecordView, ADDRESS_LEN};
use crate::text::canonical_name;
use crate::wire::{
    chain, holds, lemma_holds_index, lemma_holds_split, lemma_u16_bytes_join, lemma_u32_bytes_join,
    u16_bytes, u32_bytes, Parsed, CAPACITY,
};

verus! {

impl QuestionView {
    /// This question as it is read once it was written: the name in its
    /// canonical text, the type as its code names it.
    pub open spec fn as_read(self) -> QuestionView {
        QuestionView {
            name: canonical_name(self.name),
            qtype: QueryType::of_code(self.qtype.code()),
        }
    }
}

impl RecordView {
    /// An address record with an address of four octets.
    pub open spec fn is_address(self) -> bool {
        self matches RecordView::Address { addr, .. } && addr.len() == 4
    }

    /// This record as it is read once it was written: the name in its
    /// canonical text, all else as it is.
    pub open spec fn as_read(self) -> RecordView {
        match self {
            RecordView::Unknown { domain, qtype, data_len, ttl } => RecordView::Unknown {
                domain: canonical_name(domain),
                qtype,
                data_len,
                ttl,
            },
            RecordView::Address { domain, addr, ttl } => RecordView::Address {
                domain: canonical_name(domain),
                addr,
                ttl,
            },
        }
    }
}

/// Every record of a section is an address record.
pub open spec fn all_addresses(items: Seq<RecordView>) -> bool {
    forall|i: int| 0 <= i < items.len() ==> (#[trigger] items[i]).is_address()
}

impl PacketView {
    /// This message as it is read once it was written: the opcode in four
    /// bits, every question and record as it is read.
    pub open spec fn as_read(self) -> PacketView {
        PacketView {
            header: DnsHeader { opcode: self.header.opcode % 16, ..self.header },
            questions: self.questions.map_values(|item: QuestionView| item.as_read()),
            answers: self.answers.map_values(|item: RecordView| item.as_read()),
            authorities: self.authorities.map_values(|item: RecordView| item.as_read()),
            resources: self.resources.map_values(|item: RecordView| item.as_read()),
        }
    }
}

/// A name that was written whole is read back with its labels.
proof fn lemma_written_name(buf: Seq<u8>, at: int, name: Seq<char>)
    requires
        buf.len() == CAPACITY,
        name_emission(text_labels(encode_utf8(name))).complete,
        holds(buf, at, name_wire(text_labels(encode_utf8(name)))),
    ensures
        parse_name(buf, at) == Ok::<(Seq<Seq<u8>>, int), DnsError>(
            (
                text_labels(encode_utf8(name)),
                at + name_wire(text_labels(encode_utf8(name))).len(),
            ),
        ),
        name_wire(text_labels(encode_utf8(name))).len() >= 1,
{
    let labels = text_labels(encode_utf8(name));
    lemma_text_labels_nonempty(encode_utf8(name));
    lemma_name_reads_back(buf, at, labels, MAX_JUMPS as nat);
    crate::name::lemma_walk_resume(buf, at, MAX_JUMPS as nat);
}

/// A question that was written whole is read back.
pub proof fn lemma_question_round_trip(buf: Seq<u8>, at: int, question: QuestionView)
    requires
        buf.len() == CAPACITY,
        question.emission().complete,
        holds(buf, at, question.emission().bytes),
    ensures
        parse_question(buf, at) == (Parsed {
            value: Ok::<QuestionView, DnsError>(question.as_read()),
            cursor: at + question.emission().len(),
        }),
        question.emission().len() >= 5,
{
    let labels = text_labels(encode_utf8(question.name));
    let name = name_wire(labels);
    let kind = u16_bytes(question.qtype.code());
    let class = u16_bytes(CLASS_IN);
    lemma_holds_split(buf, at, name, kind + class);
    lemma_written_name(buf, at, question.name);
    let then = at + name.len();
    lemma_holds_index(buf, then, kind + class, 0);
    lemma_holds_index(buf, then, kind + class, 1);
    lemma_u16_bytes_join(question.qtype.code());
}

/// An address record that was written whole is read back.
pub proof fn lemma_record_round_trip(buf: Seq<u8>, at: int, record: RecordView)
    requires
        buf.len() == CAPACITY,
        record.is_address(),
        record.emission().complete,
        holds(buf, at, record.emission().bytes),
    ensures
        parse_record(buf, at) == (Parsed {
            value: Ok::<RecordView, DnsError>(record.as_read()),
            cursor: at + record.emission().len(),
        }),
        record.emission().len() >= 5,
{
    let domain = record->Address_domain;
    let addr = record->Address_addr;
    let ttl = record->Address_ttl;
    let labels = text_labels(encode_utf8(domain));
    let name = name_wire(labels);
    let fixed = u16_bytes(A_CODE) + u16_bytes(CLASS_IN) + u32_bytes(ttl) + u16_bytes(ADDRESS_LEN);
    assert(u16_bytes(A_CODE) + u16_bytes(CLASS_IN) + u32_bytes(ttl) + u16_bytes(ADDRESS_LEN) + addr
        =~= fixed + addr);
    lemma_holds_split(buf, at, name, fixed + addr);
    lemma_written_name(buf, at, domain);
    let then = at + name.len();
    lemma_holds_split(buf, then, fixed, addr);
    assert(fixed.len() == 10);
    lemma_holds_index(buf, then, fixed, 0);
    lemma_holds_index(buf, then, fixed, 1);
    lemma_holds_index(buf, then, fixed, 4);
    lemma_holds_index(buf, then, fixed, 5);
    lemma_holds_index(buf, then, fixed, 6);
    lemma_holds_index(buf, then, fixed, 7);
    lemma_holds_index(buf, then, fixed, 8);
    lemma_holds_index(buf, then, fixed, 9);
    lemma_u16_bytes_join(A_CODE);
    lemma_u32_bytes_join(ttl);
    assert(fixed[0] == u16_bytes(A_CODE)[0]);
    assert(fixed[1] == u16_bytes(A_CODE)[1]);
    assert(fixed[4] == u32_bytes(ttl)[0]);
    assert(fixed[5] == u32_bytes(ttl)[1]);
    assert(fixed[6] == u32_bytes(ttl)[2]);
    assert(fixed[7] == u32_bytes(ttl)[3]);
}

/// Questions that were written whole, one after the other, are read back
/// in their order.
pub proof fn lemma_questions_round_trip(buf: Seq<u8>, at: int, items: Seq<QuestionView>)
    requires
        buf.len() == CAPACITY,
        chain(question_emissions(items)).complete,
        holds(buf, at, chain(question_emissions(items)).bytes),
    ensures
        parse_questions(buf, at, items.len()) == (Parsed {
            value: Ok::<Seq<QuestionView>, DnsError>(
                items.map_values(|item: QuestionView| item.as_read()),
            ),
            cursor: at + chain(question_emissions(items)).len(),
        }),
        chain(question_emissions(items)).len() >= 5 * items.len(),
    decreases items.len(),
{
    let parts = question_emissions(items);
    let read = items.map_values(|item: QuestionView| item.as_read());
    if items.len() == 0 {
        assert(read =~= Seq::<QuestionView>::empty());
    } else {
        let front = items.drop_last();
        let last = items.last();
        assert(parts.drop_last() =~= question_emissions(front));
        assert(parts.last() == last.emission());
        lemma_holds_split(buf, at, chain(question_emissions(front)).bytes, last.emission().bytes);
        lemma_questions_round_trip(buf, at, front);
        lemma_question_round_trip(buf, at + chain(question_emissions(front)).len(), last);
        assert(read =~= front.map_values(|item: QuestionView| item.as_read()).push(
            last.as_read(),
        ));
    }
}

/// Address records that were written whole, one after the other, are read
/// back in their order.
pub proof fn lemma_records_round_trip(buf: Seq<u8>, at: int, items: Seq<RecordView>)
    requires
        buf.len() == CAPACITY,
        all_addresses(items),
        chain(record_emissions(items)).complete,
        holds(buf, at, chain(record_emissions(items)).bytes),
    ensures
        parse_records(buf, at, items.len()) == (Parsed {
            value: Ok::<Seq<RecordView>, DnsError>(
                items.map_values(|item: RecordView| item.as_read()),
            ),
            cursor: at + chain(record_emissions(items)).len(),
        }),
        chain(record_emissions(items)).len() >= 5 * items.len(),
    decreases items.len(),
{
    let parts = record_emissions(items);
    let read = items.map_values(|item: RecordView| item.as_read());
    if items.len() == 0 {
        assert(read =~= Seq::<RecordView>::empty());
    } else {
        let front = items.drop_last();
        let last = items.last();
        assert(parts.drop_last() =~= record_emissions(front));
        assert(parts.last() == last.emission());
        assert(last.is_address());
        assert forall|i: int| 0 <= i < front.len() implies (#[trigger] front[i]).is_address() by {
            assert(front[i] == items[i]);
        }
        lemma_holds_split(buf, at, chain(record_emissions(front)).bytes, last.emission().bytes);
        lemma_records_round_trip(buf, at, front);
        lemma_record_round_trip(buf, at + chain(record_emissions(front)).len(), last);
        assert(read =~= front.map_values(|item: RecordView| item.as_read()).push(last.as_read()));
    }
}

/// A header that was written is read back, with its opcode in four bits.
pub proof fn lemma_header_round_trip(buf: Seq<u8>, at: int, header: DnsHeader)
    requires
        holds(buf, at, header.wire()),
    ensures
        header.wire().len() == HEADER_LEN,
        DnsHeader::of_wire(buf.subrange(at, at + HEADER_LEN)) == (DnsHeader {
            opcode: header.opcode % 16,
            ..header
        }),
{
    header.lemma_wire_round_trip();
}

/// What writing a message puts out, section by section.
proof fn lemma_packet_sections(buf: Seq<u8>, at: int, packet: PacketView)
    requires
        packet.emission().complete,
        holds(buf, at, packet.emission().bytes),
    ensures
        holds(buf, at, packet.header.wire()),
        chain(question_emissions(packet.questions)).complete,
        chain(record_emissions(packet.answers)).complete,
        chain(record_emissions(packet.authorities)).complete,
        chain(record_emissions(packet.resources)).complete,
        holds(
            buf,
            at + packet.header.wire().len(),
            chain(question_emissions(packet.questions)).bytes,
        ),
        holds(
            buf,
            at + packet.header.wire().len() + chain(question_emissions(packet.questions)).len(),
            chain(record_emissions(packet.answers)).bytes,
        ),
        holds(
            buf,
            at + packet.header.wire().len() + chain(question_emissions(packet.questions)).len()
                + chain(record_emissions(packet.answers)).len(),
            chain(record_emissions(packet.authorities)).bytes,
        ),
        holds(
            buf,
            at + packet.header.wire().len() + chain(question_emissions(packet.questions)).len()
                + chain(record_emissions(packet.answers)).len() + chain(
                record_emissions(packet.authorities),
            ).len(),
            chain(record_emissions(packet.resources)).bytes,
        ),
        packet.emission().len() == packet.header.wire().len() + chain(
            question_emissions(packet.questions),
        ).len() + chain(record_emissions(packet.answers)).len() + chain(
            record_emissions(packet.authorities),
        ).len() + chain(record_emissions(packet.resources)).len(),
{
    let e0 = packet.header.wire();
    let e1 = chain(question_emissions(packet.questions));
    let e2 = chain(record_emissions(packet.answers));
    let e3 = chain(record_emissions(packet.authorities));
    let e4 = chain(record_emissions(packet.resources));
    assert(packet.emission().bytes =~= e0 + (e1.bytes + (e2.bytes + (e3.bytes + e4.bytes))));
    lemma_holds_split(buf, at, e0, e1.bytes + (e2.bytes + (e3.bytes + e4.bytes)));
    let a1 = at + e0.len();
    lemma_holds_split(buf, a1, e1.bytes, e2.bytes + (e3.bytes + e4.bytes));
    let a2 = a1 + e1.len();
    lemma_holds_split(buf, a2, e2.bytes, e3.bytes + e4.bytes);
    let a3 = a2 + e2.len();
    lemma_holds_split(buf, a3, e3.bytes, e4.bytes);
}

/// The sections of a message of address records that was written are
/// read back one by one, each where the one before it ended.
proof fn lemma_sections_round_trip(buf: Seq<u8>, at: int, packet: PacketView)
    requires
        buf.len() == CAPACITY,
        all_addresses(packet.answers),
        all_addresses(packet.authorities),
        all_addresses(packet.resources),
        packet.emission().complete,
        holds(buf, at, packet.emission().bytes),
    ensures
        at + HEADER_LEN <= CAPACITY,
        DnsHeader::of_wire(buf.subrange(at, at + HEADER_LEN)) == packet.as_read().header,
        packet.questions.len() < 0x1_0000,
        packet.answers.len() < 0x1_0000,
        packet.authorities.len() < 0x1_0000,
        packet.resources.len() < 0x1_0000,
        ({
            let questions = parse_questions(buf, at + HEADER_LEN, packet.questions.len());
            let answers = parse_records(buf, questions.cursor, packet.answers.len());
            let authorities = parse_records(buf, answers.cursor, packet.authorities.len());
            let resources = parse_records(buf, authorities.cursor, packet.resources.len());
            &&& questions.value == Ok::<Seq<QuestionView>, DnsError>(packet.as_read().questions)
            &&& answers.value == Ok::<Seq<RecordView>, DnsError>(packet.as_read().answers)
            &&& authorities.value == Ok::<Seq<RecordView>, DnsError>(
                packet.as_read().authorities,
            )
            &&& resources.value == Ok::<Seq<RecordView>, DnsError>(packet.as_read().resources)
            &&& resources.cursor == at + packet.emission().len()
        }),
{
    let e1 = chain(question_emissions(packet.questions));
    let e2 = chain(record_emissions(packet.answers));
    let e3 = chain(record_emissions(packet.authorities));
    let e4 = chain(record_emissions(packet.resources));
    lemma_packet_sections(buf, at, packet);
    lemma_header_round_trip(buf, at, packet.header);
    let a1 = at + HEADER_LEN;
    let a2 = a1 + e1.len();
    let a3 = a2 + e2.len();
    let a4 = a3 + e3.len();
    lemma_questions_round_trip(buf, a1, packet.questions);
    lemma_records_round_trip(buf, a2, packet.answers);
    lemma_records_round_trip(buf, a3, packet.authorities);
    lemma_records_round_trip(buf, a4, packet.resources);
}

/// A message of address records that was written is read back.
///
/// Let `packet` be a message as `write` leaves it: the counts of its
/// header are those of its sections. Let all its records be address
/// records, and let `buf` hold all that writing it puts out, from `at`
/// on. Then reading a message at `at` succeeds and ends behind these
/// bytes. The message read has the same header, with the opcode in four
/// bits, and so the same four counts; it has the same questions and
/// records in the same order, each with its name in canonical text, its
/// type, its address and its time to live.
pub proof fn lemma_packet_round_trip(buf: Seq<u8>, at: int, packet: PacketView)
    requires
        buf.len() == CAPACITY,
        packet.is_counted(),
        all_addresses(packet.answers),
        all_addresses(packet.authorities),
        all_addresses(packet.resources),
        packet.emission().complete,
        holds(buf, at, packet.emission().bytes),
    ensures
        parse_packet(buf, at) == (Parsed {
            value: Ok::<PacketView, DnsError>(packet.as_read()),
            cursor: at + packet.emission().len(),
        }),
        packet.as_read().header.questions == packet.questions.len(),
        packet.as_read().header.answers == packet.answers.len(),
        packet.as_read().header.authorities == packet.authorities.len(),
        packet.as_read().header.resources == packet.resources.len(),
{
    lemma_sections_round_trip(buf, at, packet);
    lemma_counts_fit(packet);
    lemma_packet_of_sections(buf, at, packet.as_read(), at + packet.emission().len());
}

/// Counts of sections that fit in sixteen bits are the lengths of the
/// sections.
proof fn lemma_counts_fit(packet: PacketView)
    requires
        packet.is_counted(),
        packet.questions.len() < 0x1_0000,
        packet.answers.len() < 0x1_0000,
        packet.authorities.len() < 0x1_0000,
        packet.resources.len() < 0x1_0000,
    ensures
        packet.as_read().header.questions as nat == packet.questions.len(),
        packet.as_read().header.answers as nat == packet.answers.len(),
        packet.as_read().header.authorities as nat == packet.authorities.len(),
        packet.as_read().header.resources as nat == packet.resources.len(),
{
}

/// A message is read where its header and its four sections are read.
proof fn lemma_packet_of_sections(buf: Seq<u8>, at: int, read: PacketView, end: int)
    requires
        at + HEADER_LEN <= CAPACITY,
        DnsHeader::of_wire(buf.subrange(at, at + HEADER_LEN)) == read.header,
        ({
            let questions = parse_questions(buf, at + HEADER_LEN, read.header.questions as nat);
            let answers = parse_records(buf, questions.cursor, read.header.answers as nat);
            let authorities = parse_records(buf, answers.cursor, read.header.authorities as nat);
            let resources = parse_records(buf, authorities.cursor, read.header.resources as nat);
            &&& questions.value == Ok::<Seq<QuestionView>, DnsError>(read.questions)
            &&& answers.value == Ok::<Seq<RecordView>, DnsError>(read.answers)
            &&& authorities.value == Ok::<Seq<RecordView>, DnsError>(read.authorities)
            &&& resources.value == Ok::<Seq<RecordView>, DnsError>(read.resources)
            &&& resources.cursor == end
        }),
    ensures
        parse_packet(buf, at) == (Parsed { value: Ok::<PacketView, DnsError>(read), cursor: end }),
{
}

/// The counts that are read are those of the sections written. Whatever
/// the counts of the header held before, a buffer that holds what writing
/// a message puts out holds, in its header, the number of entries of each
/// section of the message, in sixteen bits.
pub proof fn lemma_written_counts(buf: Seq<u8>, at: int, packet: PacketView)
    requires
        holds(buf, at, packet.recounted().emission().bytes),
    ensures
        DnsHeader::of_wire(buf.subrange(at, at + HEADER_LEN)).questions == section_count(
            packet.questions.len(),
        ),
        DnsHeader::of_wire(buf.subrange(at, at + HEADER_LEN)).answers == section_count(
            packet.answers.len(),
        ),
        DnsHeader::of_wire(buf.subrange(at, at + HEADER_LEN)).authorities == section_count(
            packet.authorities.len(),
        ),
        DnsHeader::of_wire(buf.subrange(at, at + HEADER_LEN)).resources == section_count(
            packet.resources.len(),
        ),
{
    let written = packet.recounted();
    let e0 = written.header.wire();
    let rest = chain(question_emissions(written.questions)).followed_by(
        chain(record_emissions(written.answers)).followed_by(
            chain(record_emissions(written.authorities)).followed_by(
                chain(record_emissions(written.resources)),
            ),
        ),
    );
    assert(written.emission().bytes =~= e0 + rest.bytes);
    lemma_holds_split(buf, at, e0, rest.bytes);
    lemma_header_round_trip(buf, at, written.header);
}

/// Writing and then reading. Let `packet` be a message of address records
/// with the counts of its header set, and let writing it at `at` succeed.
/// Then the buffer that the write leaves reads, from `at` on, as the
/// message, and the reader ends where the writer ended.
pub proof fn lemma_write_then_read(base: Seq<u8>, at: int, packet: PacketView)
    requires
        base.len() == CAPACITY,
        0 <= at,
        packet.is_counted(),
        all_addresses(packet.answers),
        all_addresses(packet.authorities),
        all_addresses(packet.resources),
        crate::wire::outcome(at, packet.emission()) is Ok,
    ensures
        parse_packet(crate::wire::overlay(base, at, packet.emission().bytes), at) == (Parsed {
            value: Ok::<PacketView, DnsError>(packet.as_read()),
            cursor: crate::wire::reach(at, packet.emission().len()),
        }),
{
    let out = packet.emission();
    let buf = crate::wire::overlay(base, at, out.bytes);
    packet.header.lemma_wire_round_trip();
    assert(out.len() >= HEADER_LEN);
    crate::wire::lemma_overlay_holds(base, at, out.bytes);
    lemma_packet_round_trip(buf, at, packet);
}

} // verus!
