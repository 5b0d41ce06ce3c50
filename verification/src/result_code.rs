//! The four-bit result code of a response.

use vstd::prelude::*;

verus! {

/// The sixteen values of the RCODE field. Those beyond `REFUSED` have no
/// meaning here and keep their number in their name.
#[derive(PartialEq, Eq, Structural, Debug, Clone, Copy, Hash)]
pub enum ResultCode {
    NOERROR,
    FORMERR,
    SERVFAIL,
    NXDOMAIN,
    NOTIMP,
    REFUSED,
    RESERVED6,
    RESERVED7,
    RESERVED8,
    RESERVED9,
    RESERVED10,
    RESERVED11,
    RESERVED12,
    RESERVED13,
    RESERVED14,
    RESERVED15,
}

impl ResultCode {
    /// The number of this code, below 16.
    pub open spec fn code(self) -> u8 {
        match self {
            ResultCode::NOERROR => 0,
            ResultCode::FORMERR => 1,
            ResultCode::SERVFAIL => 2,
            ResultCode::NXDOMAIN => 3,
            ResultCode::NOTIMP => 4,
            ResultCode::REFUSED => 5,
            ResultCode::RESERVED6 => 6,
            ResultCode::RESERVED7 => 7,
            ResultCode::RESERVED8 => 8,
            ResultCode::RESERVED9 => 9,
            ResultCode::RESERVED10 => 10,
            ResultCode::RESERVED11 => 11,
            ResultCode::RESERVED12 => 12,
            ResultCode::RESERVED13 => 13,
            ResultCode::RESERVED14 => 14,
            ResultCode::RESERVED15 => 15,
        }
    }

    /// The code that the low four bits of `num` name.
    pub open spec fn of_code(num: u8) -> ResultCode {
        let low = num % 16;
        if low == 0 {
            ResultCode::NOERROR
        } else if low == 1 {
            ResultCode::FORMERR
        } else if low == 2 {
            ResultCode::SERVFAIL
        } else if low == 3 {
            ResultCode::NXDOMAIN
        } else if low == 4 {
            ResultCode::NOTIMP
        } else if low == 5 {
            ResultCode::REFUSED
        } else if low == 6 {
            ResultCode::RESERVED6
        } else if low == 7 {
            ResultCode::RESERVED7
        } else if low == 8 {
            ResultCode::RESERVED8
        } else if low == 9 {
            ResultCode::RESERVED9
        } else if low == 10 {
            ResultCode::RESERVED10
        } else if low == 11 {
            ResultCode::RESERVED11
        } else if low == 12 {
            ResultCode::RESERVED12
        } else if low == 13 {
            ResultCode::RESERVED13
        } else if low == 14 {
            ResultCode::RESERVED14
        } else {
            ResultCode::RESERVED15
        }
    }

    /// The number of this code.
    pub fn to_num(&self) -> (r: u8)
        ensures
            r == self.code(),
            r < 16,
    {
        match *self {
            ResultCode::NOERROR => 0,
            ResultCode::FORMERR => 1,
            ResultCode::SERVFAIL => 2,
            ResultCode::NXDOMAIN => 3,
            ResultCode::NOTIMP => 4,
            ResultCode::REFUSED => 5,
            ResultCode::RESERVED6 => 6,
            ResultCode::RESERVED7 => 7,
            ResultCode::RESERVED8 => 8,
            ResultCode::RESERVED9 => 9,
            ResultCode::RESERVED10 => 10,
            ResultCode::RESERVED11 => 11,
            ResultCode::RESERVED12 => 12,
            ResultCode::RESERVED13 => 13,
            ResultCode::RESERVED14 => 14,
            ResultCode::RESERVED15 => 15,
        }
    }

    /// The code of a number. Only the low four bits count, so every number
    /// has a code.
    pub fn from_num(num: u8) -> (r: ResultCode)
        ensures
            r == ResultCode::of_code(num),
    {
        assert(num & 0x0F == num % 16) by (bit_vector);
        match num & 0x0F {
            0 => ResultCode::NOERROR,
            1 => ResultCode::FORMERR,
            2 => ResultCode::SERVFAIL,
            3 => ResultCode::NXDOMAIN,
            4 => ResultCode::NOTIMP,
            5 => ResultCode::REFUSED,
            6 => ResultCode::RESERVED6,
            7 => ResultCode::RESERVED7,
            8 => ResultCode::RESERVED8,
            9 => ResultCode::RESERVED9,
            10 => ResultCode::RESERVED10,
            11 => ResultCode::RESERVED11,
            12 => ResultCode::RESERVED12,
            13 => ResultCode::RESERVED13,
            14 => ResultCode::RESERVED14,
            _ => ResultCode::RESERVED15,
        }
    }

    /// A code comes back from its number, and a number below 16 from its
    /// code.
    pub proof fn lemma_code_round_trip(num: u8, rescode: ResultCode)
        ensures
            ResultCode::of_code(rescode.code()) == rescode,
            ResultCode::of_code(num).code() == num % 16,
    {
    }
}

} // verus!
