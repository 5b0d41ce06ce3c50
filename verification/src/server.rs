//! What a name server decides between receiving a query and sending the
//! response: which name to resolve, and what the response holds.

use vstd::prelude::*;
use crate::header::DnsHeader;
use crate::packet::{question_views, record_views, DnsPacket, PacketView};
use crate::query_type::QueryType;
use crate::question::{DnsQuestion, QuestionView};
use crate::record::{DnsRecord, RecordView};
use crate::result_code::ResultCode;

verus! {

/// The time to live of an address that the directory gave, in seconds.
pub const ANSWER_TTL: u32 = 3600;

/// The transaction id of a query that is sent upstream.
pub const QUERY_ID: u16 = 6666;

/// The header of every response to `request`: its id, and the flags of a
/// response from a server that recurses.
pub open spec fn response_header(request: PacketView, rescode: ResultCode) -> DnsHeader {
    DnsHeader {
        id: request.header.id,
        recursion_desired: true,
        recursion_available: true,
        response: true,
        rescode,
        ..DnsHeader::new_spec()
    }
}

/// The response to `request`, where `result` is what resolving the name
/// of its first question gave, if it gave anything.
///
/// A request without a question is answered with `FORMERR`. A name that
/// could not be resolved is answered with `SERVFAIL`. Else the response
/// repeats the first question and holds the result code and the three
/// sections of the result.
pub open spec fn response_to(request: PacketView, result: Option<PacketView>) -> PacketView {
    if request.questions.len() == 0 {
        PacketView {
            header: response_header(request, ResultCode::FORMERR),
            questions: Seq::empty(),
            answers: Seq::empty(),
            authorities: Seq::empty(),
            resources: Seq::empty(),
        }
    } else {
        match result {
            Some(found) => PacketView {
                header: response_header(request, found.header.rescode),
                questions: seq![request.questions[0]],
                answers: found.answers,
                authorities: found.authorities,
                resources: found.resources,
            },
            None => PacketView {
                header: response_header(request, ResultCode::SERVFAIL),
                questions: Seq::empty(),
                answers: Seq::empty(),
                authorities: Seq::empty(),
                resources: Seq::empty(),
            },
        }
    }
}

/// The view of a result that may be missing.
pub open spec fn result_view(result: Option<DnsPacket>) -> Option<PacketView> {
    match result {
        Some(packet) => Some(packet@),
        None => None,
    }
}

/// The name that a request asks to resolve: that of its first question.
/// A request without a question asks for none.
pub fn wanted_name(request: &DnsPacket) -> (r: Option<String>)
    ensures
        request.questions@.len() == 0 ==> r is None,
        request.questions@.len() > 0 ==> r is Some && r->Some_0@ == request.questions@[0].name@,
{
    if request.questions.len() == 0 {
        None
    } else {
        Some(request.questions[0].name.clone())
    }
}

/// Builds the response to `request` from what resolving the wanted name
/// gave.
pub fn respond(request: &DnsPacket, result: Option<DnsPacket>) -> (r: DnsPacket)
    ensures
        r@ == response_to(request@, result_view(result)),
{
    let mut packet: DnsPacket = DnsPacket::new();
    packet.header.id = request.header.id;
    packet.header.recursion_desired = true;
    packet.header.recursion_available = true;
    packet.header.response = true;
    proof {
        assert(question_views(packet.questions@) =~= Seq::<QuestionView>::empty());
        assert(record_views(packet.answers@) =~= Seq::<RecordView>::empty());
        assert(record_views(packet.authorities@) =~= Seq::<RecordView>::empty());
        assert(record_views(packet.resources@) =~= Seq::<RecordView>::empty());
    }
    if request.questions.len() == 0 {
        assert(request@.questions.len() == 0);
        packet.header.rescode = ResultCode::FORMERR;
    } else {
        assert(request@.questions.len() > 0);
        match result {
            Some(found) => {
                let question: &DnsQuestion = &request.questions[0];
                let copy: DnsQuestion = DnsQuestion::new(question.name.clone(), question.qtype);
                packet.questions.push(copy);
                packet.header.rescode = found.header.rescode;
                packet.answers = found.answers;
                packet.authorities = found.authorities;
                packet.resources = found.resources;
                proof {
                    assert(copy@ == request@.questions[0]);
                    assert(question_views(packet.questions@) =~= seq![request@.questions[0]]);
                }
            },
            None => {
                packet.header.rescode = ResultCode::SERVFAIL;
            },
        }
    }
    packet
}

/// The packet that answers a name with one address: one address record
/// in the answers, counted in the header, and nothing else.
pub fn address_answer(name: String, addr: [u8; 4]) -> (r: DnsPacket)
    ensures
        r@ == (PacketView {
            header: DnsHeader { answers: 1, ..DnsHeader::new_spec() },
            questions: Seq::empty(),
            answers: seq![RecordView::Address { domain: name@, addr: addr@, ttl: ANSWER_TTL }],
            authorities: Seq::empty(),
            resources: Seq::empty(),
        }),
{
    let mut packet: DnsPacket = DnsPacket::new();
    let record: DnsRecord = DnsRecord::A { domain: name, addr: addr, ttl: 3600 };
    packet.header.answers = 1;
    packet.answers.push(record);
    proof {
        assert(question_views(packet.questions@) =~= Seq::<QuestionView>::empty());
        assert(record_views(packet.answers@) =~= seq![record@]);
        assert(record_views(packet.authorities@) =~= Seq::<RecordView>::empty());
        assert(record_views(packet.resources@) =~= Seq::<RecordView>::empty());
    }
    packet
}

/// The query that asks an upstream server for `qname`: one question, and
/// the wish for recursion.
pub fn query_packet(qname: &str, qtype: QueryType) -> (r: DnsPacket)
    ensures
        r@ == (PacketView {
            header: DnsHeader {
                id: QUERY_ID,
                questions: 1,
                recursion_desired: true,
                ..DnsHeader::new_spec()
            },
            questions: seq![QuestionView { name: qname@, qtype }],
            answers: Seq::empty(),
            authorities: Seq::empty(),
            resources: Seq::empty(),
        }),
{
    let mut packet: DnsPacket = DnsPacket::new();
    packet.header.id = 6666;
    packet.header.questions = 1;
    packet.header.recursion_desired = true;
    let question: DnsQuestion = DnsQuestion::new(qname.to_owned(), qtype);
    packet.questions.push(question);
    proof {
        assert(question_views(packet.questions@) =~= seq![question@]);
        assert(record_views(packet.answers@) =~= Seq::<RecordView>::empty());
        assert(record_views(packet.authorities@) =~= Seq::<RecordView>::empty());
        assert(record_views(packet.resources@) =~= Seq::<RecordView>::empty());
    }
    packet
}

} // verus!
