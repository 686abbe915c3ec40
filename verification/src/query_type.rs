use vstd::prelude::*;

verus! {

/// The type of a question or record.  Address records are understood;
/// every other code is carried as `UNKNOWN` with the raw value.
#[derive(Clone, Copy, Debug, PartialEq, Eq, Structural)]
pub enum QueryType {
    UNKNOWN(u16),
    A,
}

/// The query type a wire value names.
pub open spec fn qtype_from_num(num: u16) -> QueryType {
    if num == 1 {
        QueryType::A
    } else {
        QueryType::UNKNOWN(num)
    }
}

/// The wire value of a query type.
pub open spec fn qtype_to_num(q: QueryType) -> u16 {
    match q {
        QueryType::A => 1,
        QueryType::UNKNOWN(num) => num,
    }
}

impl QueryType {
    /// Reads a wire value back into a query type.
    pub fn from_num(num: u16) -> (r: QueryType)
        ensures
            r == qtype_from_num(num),
    {
        match num {
            1 => QueryType::A,
            _ => QueryType::UNKNOWN(num),
        }
    }

    /// The wire value of this query type.
    pub fn to_num(&self) -> (r: u16)
        ensures
            r == qtype_to_num(*self),
    {
        match *self {
            QueryType::A => 1,
            QueryType::UNKNOWN(num) => num,
        }
    }
}

/// A query type survives the trip onto the wire and back, as long as it
/// does not spell the address code under the `UNKNOWN` constructor.
pub proof fn lemma_qtype_roundtrip(q: QueryType)
    requires
        q != QueryType::UNKNOWN(1),
    ensures
        qtype_from_num(qtype_to_num(q)) == q,
{
}

} // verus!
