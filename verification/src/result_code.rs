//! The result code of a response.

use vstd::prelude::*;

verus! {

/// What a server says of a query, in the low four bits of the header's
/// second flag byte.
#[allow(non_camel_case_types)]
#[derive(Copy, Clone, Debug, PartialEq, Eq, Structural)]
pub enum ResultCode {
    NOERROR,
    FORMERR,
    SERVFAIL,
    NXDOMAIN,
    NOTIMP,
    REFUSED,
}

impl ResultCode {
    /// The code that a number stands for; a number that stands for none is
    /// taken as `NOERROR`.
    pub open spec fn of_num(num: u8) -> ResultCode {
        if num == 1 {
            ResultCode::FORMERR
        } else if num == 2 {
            ResultCode::SERVFAIL
        } else if num == 3 {
            ResultCode::NXDOMAIN
        } else if num == 4 {
            ResultCode::NOTIMP
        } else if num == 5 {
            ResultCode::REFUSED
        } else {
            ResultCode::NOERROR
        }
    }

    /// The number that stands for a code.
    pub open spec fn num(self) -> u8 {
        match self {
            ResultCode::NOERROR => 0,
            ResultCode::FORMERR => 1,
            ResultCode::SERVFAIL => 2,
            ResultCode::NXDOMAIN => 3,
            ResultCode::NOTIMP => 4,
            ResultCode::REFUSED => 5,
        }
    }

    /// Decodes a result code.
    pub fn from_num(num: u8) -> (r: ResultCode)
        ensures
            r == Self::of_num(num),
    {
        match num {
            1 => ResultCode::FORMERR,
            2 => ResultCode::SERVFAIL,
            3 => ResultCode::NXDOMAIN,
            4 => ResultCode::NOTIMP,
            5 => ResultCode::REFUSED,
            _ => ResultCode::NOERROR,
        }
    }

    /// Encodes a result code.
    pub fn to_num(&self) -> (r: u8)
        ensures
            r == self.num(),
            r <= 5,
    {
        match self {
            ResultCode::NOERROR => 0,
            ResultCode::FORMERR => 1,
            ResultCode::SERVFAIL => 2,
            ResultCode::NXDOMAIN => 3,
            ResultCode::NOTIMP => 4,
            ResultCode::REFUSED => 5,
        }
    }
}

/// Every result code, encoded and decoded again, is itself.
pub proof fn lemma_result_code_round_trip(code: ResultCode)
    ensures
        ResultCode::of_num(code.num()) == code,
        code.num() <= 5,
{
}

/// A number from 0 to 5 is the encoding of the code it decodes to; any
/// other number decodes to `NOERROR`.
pub proof fn lemma_result_code_of_num(num: u8)
    ensures
        num <= 5 ==> ResultCode::of_num(num).num() == num,
        num > 5 ==> ResultCode::of_num(num) == ResultCode::NOERROR,
{
}

} // verus!
