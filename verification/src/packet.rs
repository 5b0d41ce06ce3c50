//! A whole message: the header, the questions, and the three sections of
//! records, read and written in that order.

use vstd::prelude::*;
use crate::byte_packet_buffer::BytePacketBuffer;
use crate::error::DnsError;
use crate::header::{DnsHeader, HEADER_LEN};
use crate::question::{parse_question, DnsQuestion, QuestionView};
use crate::record::{counted, parse_record, DnsRecord, RecordView};
use crate::wire::{
    chain, lemma_chain_push, lemma_chain_split, lemma_followed_by_nothing, lemma_overlay_empty,
    lemma_wrote_then, overlay, reach, wrote, Emission, Parsed, CAPACITY,
};

verus! {

/// A message.
#[derive(Clone, Debug)]
pub struct DnsPacket {
    pub header: DnsHeader,
    pub questions: Vec<DnsQuestion>,
    pub answers: Vec<DnsRecord>,
    pub authorities: Vec<DnsRecord>,
    pub resources: Vec<DnsRecord>,
}

/// A message as a value.
pub struct PacketView {
    pub header: DnsHeader,
    pub questions: Seq<QuestionView>,
    pub answers: Seq<RecordView>,
    pub authorities: Seq<RecordView>,
    pub resources: Seq<RecordView>,
}

/// The questions that a vector holds, as values.
pub open spec fn question_views(items: Seq<DnsQuestion>) -> Seq<QuestionView> {
    items.map_values(|item: DnsQuestion| item@)
}

/// The records that a vector holds, as values.
pub open spec fn record_views(items: Seq<DnsRecord>) -> Seq<RecordView> {
    items.map_values(|item: DnsRecord| item@)
}

/// What writing each of `items` puts out.
pub open spec fn question_emissions(items: Seq<QuestionView>) -> Seq<Emission> {
    items.map_values(|item: QuestionView| item.emission())
}

/// What writing each of `items` puts out.
pub open spec fn record_emissions(items: Seq<RecordView>) -> Seq<Emission> {
    items.map_values(|item: RecordView| item.emission())
}

/// The number of entries of a section as its count in the header holds
/// it: in sixteen bits.
pub open spec fn section_count(len: nat) -> u16 {
    (len % 0x1_0000) as u16
}

impl View for DnsPacket {
    type V = PacketView;

    open spec fn view(&self) -> PacketView {
        PacketView {
            header: self.header,
            questions: question_views(self.questions@),
            answers: record_views(self.answers@),
            authorities: record_views(self.authorities@),
            resources: record_views(self.resources@),
        }
    }
}

impl PacketView {
    /// This message with the four counts of its header taken from its
    /// sections.
    pub open spec fn recounted(self) -> PacketView {
        PacketView {
            header: DnsHeader {
                questions: section_count(self.questions.len()),
                answers: section_count(self.answers.len()),
                authorities: section_count(self.authorities.len()),
                resources: section_count(self.resources.len()),
                ..self.header
            },
            ..self
        }
    }

    /// The four counts of the header are those of the sections, as
    /// `recounted` sets them.
    pub open spec fn is_counted(self) -> bool {
        &&& self.header.questions == section_count(self.questions.len())
        &&& self.header.answers == section_count(self.answers.len())
        &&& self.header.authorities == section_count(self.authorities.len())
        &&& self.header.resources == section_count(self.resources.len())
    }

    /// What writing this message puts out: the header as it stands, the
    /// questions, the answers, the authorities and the additional
    /// records.
    pub open spec fn emission(self) -> Emission {
        Emission::whole(self.header.wire()).followed_by(
            chain(question_emissions(self.questions)).followed_by(
                chain(record_emissions(self.answers)).followed_by(
                    chain(record_emissions(self.authorities)).followed_by(
                        chain(record_emissions(self.resources)),
                    ),
                ),
            ),
        )
    }
}

/// The first `count` questions from `pos` on. Reading stops at the first
/// that fails, with the cursor where that one left it.
pub open spec fn parse_questions(buf: Seq<u8>, pos: int, count: nat) -> Parsed<Seq<QuestionView>>
    decreases count,
{
    if count == 0 {
        Parsed { value: Ok(Seq::empty()), cursor: pos }
    } else {
        let before = parse_questions(buf, pos, (count - 1) as nat);
        match before.value {
            Err(_) => before,
            Ok(items) => {
                let next = parse_question(buf, before.cursor);
                match next.value {
                    Err(e) => Parsed { value: Err(e), cursor: next.cursor },
                    Ok(item) => Parsed { value: Ok(items.push(item)), cursor: next.cursor },
                }
            },
        }
    }
}

/// The first `count` records from `pos` on. Reading stops at the first
/// that fails, with the cursor where that one left it.
pub open spec fn parse_records(buf: Seq<u8>, pos: int, count: nat) -> Parsed<Seq<RecordView>>
    decreases count,
{
    if count == 0 {
        Parsed { value: Ok(Seq::empty()), cursor: pos }
    } else {
        let before = parse_records(buf, pos, (count - 1) as nat);
        match before.value {
            Err(_) => before,
            Ok(items) => {
                let next = parse_record(buf, before.cursor);
                match next.value {
                    Err(e) => Parsed { value: Err(e), cursor: next.cursor },
                    Ok(item) => Parsed { value: Ok(items.push(item)), cursor: next.cursor },
                }
            },
        }
    }
}

/// The message that starts at `pos`: the header, then as many questions,
/// answers, authorities and additional records as the header counts. The
/// first failure ends the reading and is the result.
pub open spec fn parse_packet(buf: Seq<u8>, pos: int) -> Parsed<PacketView> {
    if pos + HEADER_LEN > CAPACITY {
        Parsed { value: Err(DnsError::OutOfBounds), cursor: reach(pos, HEADER_LEN as int) }
    } else {
        let header = DnsHeader::of_wire(buf.subrange(pos, pos + HEADER_LEN));
        let questions = parse_questions(buf, pos + HEADER_LEN, header.questions as nat);
        let answers = parse_records(buf, questions.cursor, header.answers as nat);
        let authorities = parse_records(buf, answers.cursor, header.authorities as nat);
        let resources = parse_records(buf, authorities.cursor, header.resources as nat);
        if questions.value is Err {
            Parsed { value: Err(questions.value->Err_0), cursor: questions.cursor }
        } else if answers.value is Err {
            Parsed { value: Err(answers.value->Err_0), cursor: answers.cursor }
        } else if authorities.value is Err {
            Parsed { value: Err(authorities.value->Err_0), cursor: authorities.cursor }
        } else if resources.value is Err {
            Parsed { value: Err(resources.value->Err_0), cursor: resources.cursor }
        } else {
            Parsed {
                value: Ok(
                    PacketView {
                        header,
                        questions: questions.value->Ok_0,
                        answers: answers.value->Ok_0,
                        authorities: authorities.value->Ok_0,
                        resources: resources.value->Ok_0,
                    },
                ),
                cursor: resources.cursor,
            }
        }
    }
}

/// The number of entries of a section as its count in the header holds it.
fn count_of(len: usize) -> (r: u16)
    ensures
        r == section_count(len as nat),
{
    (len % 0x1_0000) as u16
}

/// Reads `count` questions at the cursor.
fn read_questions(buffer: &mut BytePacketBuffer, count: u16) -> (r: Result<
    Vec<DnsQuestion>,
    DnsError,
>)
    ensures
        final(buffer).buf == old(buffer).buf,
        final(buffer).pos == parse_questions(
            old(buffer).buf@,
            old(buffer).pos as int,
            count as nat,
        ).cursor,
        match parse_questions(old(buffer).buf@, old(buffer).pos as int, count as nat).value {
            Ok(items) => r is Ok && question_views(r->Ok_0@) == items,
            Err(e) => r is Err && r->Err_0 == e,
        },
{
    let mut items: Vec<DnsQuestion> = Vec::new();
    let mut i: u16 = 0;
    assert(question_views(items@) =~= Seq::<QuestionView>::empty());
    while i < count
        invariant
            i <= count,
            buffer.buf == old(buffer).buf,
            parse_questions(old(buffer).buf@, old(buffer).pos as int, i as nat) == (Parsed {
                value: Ok::<Seq<QuestionView>, DnsError>(question_views(items@)),
                cursor: buffer.pos as int,
            }),
        decreases count - i,
    {
        let ghost before = question_views(items@);
        match DnsQuestion::read(buffer) {
            Ok(item) => {
                items.push(item);
                assert(question_views(items@) =~= before.push(item@));
            },
            Err(e) => {
                proof {
                    lemma_parse_questions_stops(
                        old(buffer).buf@,
                        old(buffer).pos as int,
                        (i + 1) as nat,
                        count as nat,
                    );
                }
                return Err(e);
            },
        }
        i += 1;
    }
    Ok(items)
}

/// Reads `count` records at the cursor.
fn read_records(buffer: &mut BytePacketBuffer, count: u16) -> (r: Result<Vec<DnsRecord>, DnsError>)
    ensures
        final(buffer).buf == old(buffer).buf,
        final(buffer).pos == parse_records(
            old(buffer).buf@,
            old(buffer).pos as int,
            count as nat,
        ).cursor,
        match parse_records(old(buffer).buf@, old(buffer).pos as int, count as nat).value {
            Ok(items) => r is Ok && record_views(r->Ok_0@) == items,
            Err(e) => r is Err && r->Err_0 == e,
        },
{
    let mut items: Vec<DnsRecord> = Vec::new();
    let mut i: u16 = 0;
    assert(record_views(items@) =~= Seq::<RecordView>::empty());
    while i < count
        invariant
            i <= count,
            buffer.buf == old(buffer).buf,
            parse_records(old(buffer).buf@, old(buffer).pos as int, i as nat) == (Parsed {
                value: Ok::<Seq<RecordView>, DnsError>(record_views(items@)),
                cursor: buffer.pos as int,
            }),
        decreases count - i,
    {
        let ghost before = record_views(items@);
        match DnsRecord::read(buffer) {
            Ok(item) => {
                items.push(item);
                assert(record_views(items@) =~= before.push(item@));
            },
            Err(e) => {
                proof {
                    lemma_parse_records_stops(
                        old(buffer).buf@,
                        old(buffer).pos as int,
                        (i + 1) as nat,
                        count as nat,
                    );
                }
                return Err(e);
            },
        }
        i += 1;
    }
    Ok(items)
}

/// Writes the questions one after the other and stops at the first that
/// fails.
fn write_questions(items: &Vec<DnsQuestion>, buffer: &mut BytePacketBuffer) -> (r: Result<
    (),
    DnsError,
>)
    ensures
        wrote(
            old(buffer).buf@,
            old(buffer).pos as int,
            chain(question_emissions(question_views(items@))),
            final(buffer).buf@,
            final(buffer).pos as int,
            r,
        ),
{
    let ghost base = old(buffer).buf@;
    let ghost at = old(buffer).pos as int;
    let ghost parts = question_emissions(question_views(items@));
    let mut i: usize = 0;
    proof {
        lemma_overlay_empty(base, at);
        assert(parts.take(0) =~= Seq::<Emission>::empty());
    }
    while i < items.len()
        invariant
            i <= items@.len(),
            base == old(buffer).buf@,
            at == old(buffer).pos,
            parts == question_emissions(question_views(items@)),
            wrote(
                base,
                at,
                chain(parts.take(i as int)),
                buffer.buf@,
                buffer.pos as int,
                Ok::<(), DnsError>(()),
            ),
        decreases items@.len() - i,
    {
        let ghost done = chain(parts.take(i as int));
        let r = items[i].write(buffer);
        proof {
            assert(parts.take(i + 1) =~= parts.take(i as int).push(parts[i as int]));
            lemma_chain_push(parts.take(i as int), parts[i as int]);
            lemma_wrote_then(
                base,
                at,
                done,
                parts[i as int],
                chain(parts.skip(i + 1)),
                buffer.buf@,
                buffer.pos as int,
                r,
            );
            lemma_chain_split(parts, i + 1);
        }
        r?;
        i += 1;
    }
    assert(parts.take(i as int) =~= parts);
    Ok(())
}

/// Writes the records one after the other and stops at the first that
/// fails.
fn write_records(items: &Vec<DnsRecord>, buffer: &mut BytePacketBuffer) -> (r: Result<
    (),
    DnsError,
>)
    ensures
        wrote(
            old(buffer).buf@,
            old(buffer).pos as int,
            chain(record_emissions(record_views(items@))),
            final(buffer).buf@,
            final(buffer).pos as int,
            r,
        ),
{
    let ghost base = old(buffer).buf@;
    let ghost at = old(buffer).pos as int;
    let ghost parts = record_emissions(record_views(items@));
    let mut i: usize = 0;
    proof {
        lemma_overlay_empty(base, at);
        assert(parts.take(0) =~= Seq::<Emission>::empty());
    }
    while i < items.len()
        invariant
            i <= items@.len(),
            base == old(buffer).buf@,
            at == old(buffer).pos,
            parts == record_emissions(record_views(items@)),
            wrote(
                base,
                at,
                chain(parts.take(i as int)),
                buffer.buf@,
                buffer.pos as int,
                Ok::<(), DnsError>(()),
            ),
        decreases items@.len() - i,
    {
        let ghost done = chain(parts.take(i as int));
        let ghost mid = buffer.pos as int;
        let n = items[i].write(buffer);
        let ghost r = match n {
            Ok(_) => Ok::<(), DnsError>(()),
            Err(e) => Err::<(), DnsError>(e),
        };
        proof {
            assert(parts.take(i + 1) =~= parts.take(i as int).push(parts[i as int]));
            lemma_chain_push(parts.take(i as int), parts[i as int]);
            lemma_wrote_then(
                base,
                at,
                done,
                parts[i as int],
                chain(parts.skip(i + 1)),
                buffer.buf@,
                buffer.pos as int,
                r,
            );
            lemma_chain_split(parts, i + 1);
        }
        n?;
        i += 1;
    }
    assert(parts.take(i as int) =~= parts);
    Ok(())
}

/// Once a question fails, asking for more questions changes nothing.
pub proof fn lemma_parse_questions_stops(buf: Seq<u8>, pos: int, failed: nat, count: nat)
    requires
        failed <= count,
        parse_questions(buf, pos, failed).value is Err,
    ensures
        parse_questions(buf, pos, count) == parse_questions(buf, pos, failed),
    decreases count,
{
    if failed < count {
        lemma_parse_questions_stops(buf, pos, failed, (count - 1) as nat);
    }
}

/// Once a record fails, asking for more records changes nothing.
pub proof fn lemma_parse_records_stops(buf: Seq<u8>, pos: int, failed: nat, count: nat)
    requires
        failed <= count,
        parse_records(buf, pos, failed).value is Err,
    ensures
        parse_records(buf, pos, count) == parse_records(buf, pos, failed),
    decreases count,
{
    if failed < count {
        lemma_parse_records_stops(buf, pos, failed, (count - 1) as nat);
    }
}

impl DnsPacket {
    /// A message with a fresh header and no entries.
    pub fn new() -> (r: DnsPacket)
        ensures
            r.header == DnsHeader::new_spec(),
            r.questions@.len() == 0,
            r.answers@.len() == 0,
            r.authorities@.len() == 0,
            r.resources@.len() == 0,
    {
        DnsPacket {
            header: DnsHeader::new(),
            questions: Vec::new(),
            answers: Vec::new(),
            authorities: Vec::new(),
            resources: Vec::new(),
        }
    }

    /// Reads a message at the cursor. The counts of the header say how
    /// many entries each section has. The first failure ends the reading
    /// and is returned; no part of a message is.
    pub fn from_buffer(buffer: &mut BytePacketBuffer) -> (r: Result<DnsPacket, DnsError>)
        ensures
            final(buffer).buf == old(buffer).buf,
            final(buffer).pos == parse_packet(old(buffer).buf@, old(buffer).pos as int).cursor,
            match parse_packet(old(buffer).buf@, old(buffer).pos as int).value {
                Ok(packet) => r is Ok && r->Ok_0@ == packet,
                Err(e) => r is Err && r->Err_0 == e,
            },
    {
        let header: DnsHeader = DnsHeader::read(buffer)?;
        let questions: Vec<DnsQuestion> = read_questions(buffer, header.questions)?;
        let answers: Vec<DnsRecord> = read_records(buffer, header.answers)?;
        let authorities: Vec<DnsRecord> = read_records(buffer, header.authorities)?;
        let resources: Vec<DnsRecord> = read_records(buffer, header.resources)?;
        Ok(DnsPacket { header, questions, answers, authorities, resources })
    }
    /// Writes the header as it stands and the four sections.
    fn write_sections(&self, buffer: &mut BytePacketBuffer) -> (r: Result<(), DnsError>)
        ensures
            wrote(
                old(buffer).buf@,
                old(buffer).pos as int,
                self@.emission(),
                final(buffer).buf@,
                final(buffer).pos as int,
                r,
            ),
    {
        let ghost base = old(buffer).buf@;
        let ghost at = old(buffer).pos as int;
        let ghost none = Emission::whole(Seq::empty());
        let ghost e0 = Emission::whole(self.header.wire());
        let ghost e1 = chain(question_emissions(self@.questions));
        let ghost e2 = chain(record_emissions(self@.answers));
        let ghost e3 = chain(record_emissions(self@.authorities));
        let ghost e4 = chain(record_emissions(self@.resources));
        let ghost t3 = e3.followed_by(e4);
        let ghost t2 = e2.followed_by(t3);
        let ghost t1 = e1.followed_by(t2);
        let ghost d1 = e0.followed_by(e1);
        let ghost d2 = d1.followed_by(e2);
        let ghost d3 = d2.followed_by(e3);
        proof {
            lemma_overlay_empty(base, at);
            lemma_followed_by_nothing(e0);
            lemma_followed_by_nothing(e4);
            assert(self@.emission() == e0.followed_by(t1));
        }
        let r0 = self.header.write(buffer);
        proof {
            lemma_wrote_then(base, at, none, e0, t1, buffer.buf@, buffer.pos as int, r0);
        }
        r0?;
        let r1 = write_questions(&self.questions, buffer);
        proof {
            lemma_wrote_then(base, at, e0, e1, t2, buffer.buf@, buffer.pos as int, r1);
        }
        r1?;
        let r2 = write_records(&self.answers, buffer);
        proof {
            lemma_wrote_then(base, at, d1, e2, t3, buffer.buf@, buffer.pos as int, r2);
        }
        r2?;
        let r3 = write_records(&self.authorities, buffer);
        proof {
            lemma_wrote_then(base, at, d2, e3, e4, buffer.buf@, buffer.pos as int, r3);
        }
        r3?;
        let r4 = write_records(&self.resources, buffer);
        proof {
            lemma_wrote_then(base, at, d3, e4, none, buffer.buf@, buffer.pos as int, r4);
        }
        r4
    }

    /// Writes this message at the cursor and returns the number of bytes
    /// written. First the four counts of the header are set to the number
    /// of entries in the sections, whatever they held; then the header,
    /// the questions, the answers, the authorities and the additional
    /// records are written. The first failure ends the writing and is
    /// returned; what was written before stays written.
    pub fn write(&mut self, buffer: &mut BytePacketBuffer) -> (r: Result<usize, DnsError>)
        ensures
            final(self)@ == old(self)@.recounted(),
            final(buffer).buf@ == overlay(
                old(buffer).buf@,
                old(buffer).pos as int,
                final(self)@.emission().bytes,
            ),
            final(buffer).pos == reach(old(buffer).pos as int, final(self)@.emission().len()),
            r == counted(old(buffer).pos as int, final(self)@.emission()),
    {
        self.header.questions = count_of(self.questions.len());
        self.header.answers = count_of(self.answers.len());
        self.header.authorities = count_of(self.authorities.len());
        self.header.resources = count_of(self.resources.len());
        assert(self@.questions =~= old(self)@.questions);
        assert(self@.answers =~= old(self)@.answers);
        assert(self@.authorities =~= old(self)@.authorities);
        assert(self@.resources =~= old(self)@.resources);
        assert(self@ == old(self)@.recounted());
        let start_pos: usize = buffer.pos();
        self.write_sections(buffer)?;
        Ok(buffer.pos() - start_pos)
    }
}

} // verus!
