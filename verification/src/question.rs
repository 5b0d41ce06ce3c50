//! An entry of the question section: a name and the type asked for.

use vstd::prelude::*;
use vstd::utf8::encode_utf8;
use crate::byte_packet_buffer::BytePacketBuffer;
use crate::error::DnsError;
use crate::name::{lemma_walk_resume, name_emission, parse_name, text_labels, MAX_JUMPS};
use crate::query_type::QueryType;
use crate::text::name_text;
use crate::wire::{
    be16, lemma_followed_by_nothing, lemma_overlay_empty, lemma_wrote_then, reach, u16_bytes,
    wrote, Emission, Parsed, CAPACITY,
};

verus! {

/// The class of every question and record: Internet.
pub const CLASS_IN: u16 = 1;

/// A question: the name asked about and the type of record asked for.
#[derive(Clone, Debug, PartialEq, Eq, Hash)]
pub struct DnsQuestion {
    pub name: String,
    pub qtype: QueryType,
}

/// A question as a value: the text of its name and its type.
pub struct QuestionView {
    pub name: Seq<char>,
    pub qtype: QueryType,
}

impl View for DnsQuestion {
    type V = QuestionView;

    open spec fn view(&self) -> QuestionView {
        QuestionView { name: self.name@, qtype: self.qtype }
    }
}

impl QuestionView {
    /// What writing this question puts out: the name, then the code of
    /// the type and the class.
    pub open spec fn emission(self) -> Emission {
        name_emission(text_labels(encode_utf8(self.name))).followed_by(
            Emission::whole(u16_bytes(self.qtype.code()) + u16_bytes(CLASS_IN)),
        )
    }
}

/// The question that starts at `pos`: a name, two bytes of type, and two
/// bytes of class that are passed over. Where the name cannot be read the
/// cursor stays.
pub open spec fn parse_question(buf: Seq<u8>, pos: int) -> Parsed<QuestionView> {
    match parse_name(buf, pos) {
        Err(e) => Parsed { value: Err(e), cursor: pos },
        Ok(name) => if name.1 + 4 <= CAPACITY {
            Parsed {
                value: Ok(
                    QuestionView {
                        name: name_text(name.0),
                        qtype: QueryType::of_code(be16(buf[name.1], buf[name.1 + 1])),
                    },
                ),
                cursor: name.1 + 4,
            }
        } else {
            Parsed { value: Err(DnsError::OutOfBounds), cursor: reach(name.1, 4) }
        },
    }
}

impl DnsQuestion {
    /// A question for `name` and `qtype`.
    pub fn new(name: String, qtype: QueryType) -> (r: DnsQuestion)
        ensures
            r.name == name,
            r.qtype == qtype,
    {
        DnsQuestion { name, qtype }
    }

    /// Reads a question at the cursor.
    pub fn read(buffer: &mut BytePacketBuffer) -> (r: Result<DnsQuestion, DnsError>)
        ensures
            final(buffer).buf == old(buffer).buf,
            final(buffer).pos == parse_question(old(buffer).buf@, old(buffer).pos as int).cursor,
            match parse_question(old(buffer).buf@, old(buffer).pos as int).value {
                Ok(question) => r is Ok && r->Ok_0@ == question,
                Err(e) => r is Err && r->Err_0 == e,
            },
    {
        proof {
            if parse_name(buffer.buf@, buffer.pos as int) is Ok {
                lemma_walk_resume(buffer.buf@, buffer.pos as int, MAX_JUMPS as nat);
            }
        }
        let mut name: String = String::new();
        buffer.read_qname(&mut name)?;
        assert(name@ =~= name_text(parse_name(old(buffer).buf@, old(buffer).pos as int)->Ok_0.0));
        let qtype: QueryType = QueryType::from_num(buffer.read_u16()?);
        let _ = buffer.read_u16()?;
        Ok(DnsQuestion { name, qtype })
    }

    /// Writes this question at the cursor. Writing stops at the first
    /// label that is too long and at the end of the buffer; what was
    /// written before stays written.
    pub fn write(&self, buffer: &mut BytePacketBuffer) -> (r: Result<(), DnsError>)
        ensures
            wrote(
                old(buffer).buf@,
                old(buffer).pos as int,
                self@.emission(),
                final(buffer).buf@,
                final(buffer).pos as int,
                r,
            ),
    {
        let ghost base = old(buffer).buf@;
        let ghost at = old(buffer).pos as int;
        let ghost none = Emission::whole(Seq::empty());
        let ghost name = name_emission(text_labels(encode_utf8(self.name@)));
        let ghost kind = Emission::whole(u16_bytes(self.qtype.code()));
        let ghost class = Emission::whole(u16_bytes(CLASS_IN));
        proof {
            lemma_overlay_empty(base, at);
            lemma_followed_by_nothing(name);
            lemma_followed_by_nothing(class);
        }
        let r0 = buffer.write_qname(self.name.as_str());
        proof {
            lemma_wrote_then(
                base,
                at,
                none,
                name,
                kind.followed_by(class),
                buffer.buf@,
                buffer.pos as int,
                r0,
            );
        }
        r0?;
        let r1 = buffer.write_u16(self.qtype.to_num());
        proof {
            lemma_wrote_then(base, at, name, kind, class, buffer.buf@, buffer.pos as int, r1);
        }
        r1?;
        let r2 = buffer.write_u16(1);
        proof {
            lemma_wrote_then(
                base,
                at,
                name.followed_by(kind),
                class,
                none,
                buffer.buf@,
                buffer.pos as int,
                r2,
            );
        }
        r2
    }
}

} // verus!
