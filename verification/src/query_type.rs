//! The type of a query or of a record, as a symbol and as its 16-bit code.

use vstd::prelude::*;

verus! {

/// A record type: one of those that are modelled, or the bare code of any
/// other.
#[derive(PartialEq, Eq, Structural, Debug, Clone, Copy, Hash)]
pub enum QueryType {
    UNKNOWN(u16),
    A,
}

/// The code of the address record.
pub const A_CODE: u16 = 1;

impl QueryType {
    /// The code that stands for this type on the wire.
    pub open spec fn code(self) -> u16 {
        match self {
            QueryType::UNKNOWN(num) => num,
            QueryType::A => A_CODE,
        }
    }

    /// The type that a code stands for.
    pub open spec fn of_code(num: u16) -> QueryType {
        if num == A_CODE {
            QueryType::A
        } else {
            QueryType::UNKNOWN(num)
        }
    }

    /// The code of this type.
    pub fn to_num(&self) -> (r: u16)
        ensures
            r == self.code(),
    {
        match *self {
            QueryType::UNKNOWN(num) => num,
            QueryType::A => 1,
        }
    }

    /// The type of a code. Every code has one.
    pub fn from_num(num: u16) -> (r: QueryType)
        ensures
            r == QueryType::of_code(num),
    {
        match num {
            1 => QueryType::A,
            _ => QueryType::UNKNOWN(num),
        }
    }

    /// Every code comes back from its type. A type comes back from its
    /// code unless it holds, as an unknown one, the code of a known type.
    pub proof fn lemma_code_round_trip(num: u16, qtype: QueryType)
        ensures
            QueryType::of_code(num).code() == num,
            qtype != QueryType::UNKNOWN(A_CODE) ==> QueryType::of_code(qtype.code()) == qtype,
    {
    }
}

} // verus!
