//! The type of a query, which is also the type of a resource record.

use vstd::prelude::*;

verus! {

/// The record types that are understood, and a carrier for the code of any
/// other.
#[allow(non_camel_case_types)]
#[derive(Copy, Clone, Debug, PartialEq, Eq, Structural)]
pub enum QueryType {
    UNKNOWN(u16),
    A,
    NS,
    CNAME,
    MX,
    AAAA,
}

impl QueryType {
    /// The type that a 16-bit code stands for.
    pub open spec fn of_num(num: u16) -> QueryType {
        if num == 1 {
            QueryType::A
        } else if num == 2 {
            QueryType::NS
        } else if num == 5 {
            QueryType::CNAME
        } else if num == 15 {
            QueryType::MX
        } else if num == 28 {
            QueryType::AAAA
        } else {
            QueryType::UNKNOWN(num)
        }
    }

    /// The 16-bit code of a type.
    pub open spec fn num(self) -> u16 {
        match self {
            QueryType::UNKNOWN(x) => x,
            QueryType::A => 1,
            QueryType::NS => 2,
            QueryType::CNAME => 5,
            QueryType::MX => 15,
            QueryType::AAAA => 28,
        }
    }

    /// Decodes a query type.
    pub fn from_num(num: u16) -> (r: QueryType)
        ensures
            r == Self::of_num(num),
    {
        match num {
            1 => QueryType::A,
            2 => QueryType::NS,
            5 => QueryType::CNAME,
            15 => QueryType::MX,
            28 => QueryType::AAAA,
            _ => QueryType::UNKNOWN(num),
        }
    }

    /// Encodes a query type.
    pub fn to_num(&self) -> (r: u16)
        ensures
            r == self.num(),
    {
        match *self {
            QueryType::UNKNOWN(x) => x,
            QueryType::A => 1,
            QueryType::NS => 2,
            QueryType::CNAME => 5,
            QueryType::MX => 15,
            QueryType::AAAA => 28,
        }
    }
}

/// Every 16-bit code, decoded and encoded again, is itself: the five known
/// codes by their types, every other through `UNKNOWN`, which carries it.
pub proof fn lemma_query_type_round_trip(num: u16)
    ensures
        QueryType::of_num(num).num() == num,
        num == 1 ==> QueryType::of_num(num) == QueryType::A,
        num == 2 ==> QueryType::of_num(num) == QueryType::NS,
        num == 5 ==> QueryType::of_num(num) == QueryType::CNAME,
        num == 15 ==> QueryType::of_num(num) == QueryType::MX,
        num == 28 ==> QueryType::of_num(num) == QueryType::AAAA,
        num != 1 && num != 2 && num != 5 && num != 15 && num != 28 ==> QueryType::of_num(num)
            == QueryType::UNKNOWN(num),
{
}

/// A type, encoded and decoded again, is itself, unless it is `UNKNOWN`
/// with the code of a known type.
pub proof fn lemma_query_type_of_num(qtype: QueryType)
    ensures
        !(qtype matches QueryType::UNKNOWN(x) && (x == 1 || x == 2 || x == 5 || x == 15 || x
            == 28)) ==> QueryType::of_num(qtype.num()) == qtype,
{
}

} // verus!
