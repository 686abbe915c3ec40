use vstd::prelude::*;

verus! {

/// The 4-bit outcome classifier of a message header.
#[derive(Clone, Copy, Debug, PartialEq, Eq, Structural)]
pub enum ResultCode {
    NOERROR,
    FORMERR,
    SERVFAIL,
    NXDOMAIN,
    NOTIMP,
    REFUSED,
}

/// The code a wire value names.  Values above the enumerated ones fall
/// back to `NOERROR`: unknown codes are read permissively, not refused.
pub open spec fn rescode_from_num(num: u8) -> ResultCode {
    if num == 1 {
        ResultCode::FORMERR
    } else if num == 2 {
        ResultCode::SERVFAIL
    } else if num == 3 {
        ResultCode::NXDOMAIN
    } else if num == 4 {
        ResultCode::NOTIMP
    } else if num == 5 {
        ResultCode::REFUSED
    } else {
        ResultCode::NOERROR
    }
}

/// The wire value of a code; always below 16, so it fits its 4 bits.
pub open spec fn rescode_to_num(code: ResultCode) -> u8 {
    match code {
        ResultCode::NOERROR => 0,
        ResultCode::FORMERR => 1,
        ResultCode::SERVFAIL => 2,
        ResultCode::NXDOMAIN => 3,
        ResultCode::NOTIMP => 4,
        ResultCode::REFUSED => 5,
    }
}

impl ResultCode {
    /// Reads a wire value back into a code.
    pub fn from_num(num: u8) -> (r: ResultCode)
        ensures
            r == rescode_from_num(num),
    {
        match num {
            1 => ResultCode::FORMERR,
            2 => ResultCode::SERVFAIL,
            3 => ResultCode::NXDOMAIN,
            4 => ResultCode::NOTIMP,
            5 => ResultCode::REFUSED,
            _ => ResultCode::NOERROR,
        }
    }

    /// The wire value of this code.
    pub fn to_num(&self) -> (r: u8)
        ensures
            r == rescode_to_num(*self),
    {
        match *self {
            ResultCode::NOERROR => 0,
            ResultCode::FORMERR => 1,
            ResultCode::SERVFAIL => 2,
            ResultCode::NXDOMAIN => 3,
            ResultCode::NOTIMP => 4,
            ResultCode::REFUSED => 5,
        }
    }
}

/// Every enumerated code survives the trip onto the wire and back.
pub proof fn lemma_rescode_roundtrip(code: ResultCode)
    ensures
        rescode_from_num(rescode_to_num(code)) == code,
        rescode_to_num(code) < 16,
{
}

} // verus!
