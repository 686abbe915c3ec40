use vstd::prelude::*;

use crate::byte_packet_buffer::BytePacketBuffer;
use crate::dns_error::DnsError;
use crate::result_code::{lemma_rescode_roundtrip, rescode_from_num, rescode_to_num,
    ResultCode};
use crate::wire::{lemma_spliced_concat, lemma_u16_roundtrip, spliced, u16_bytes, u16_of};

verus! {

/// The fixed 12-byte message header: a correlation id, eight flag bits,
/// a 4-bit opcode, a 4-bit result code, and the four section counts.
#[derive(Clone, Copy, Debug, PartialEq, Eq, Structural)]
pub struct DnsHeader {
    pub id: u16,
    pub recursion_desired: bool,
    pub truncated_message: bool,
    pub authoritative_answer: bool,
    pub opcode: u8,
    pub response: bool,
    pub rescode: ResultCode,
    pub checking_disabled: bool,
    pub authed_data: bool,
    pub z: bool,
    pub recursion_available: bool,
    pub questions: u16,
    pub answers: u16,
    pub authoritative_entries: u16,
    pub resource_entries: u16,
}

/// The high flags byte: recursion-desired, truncated and authoritative
/// bits low, the opcode in bits 3 to 6, the response bit on top.
pub open spec fn pack_flags_hi(h: DnsHeader) -> u8 {
    (if h.recursion_desired {
        0x01u8
    } else {
        0u8
    }) | (if h.truncated_message {
        0x02u8
    } else {
        0u8
    }) | (if h.authoritative_answer {
        0x04u8
    } else {
        0u8
    }) | (h.opcode << 3) | (if h.response {
        0x80u8
    } else {
        0u8
    })
}

/// The low flags byte: the result code in the low four bits, then the
/// checking-disabled, authenticated-data, reserved and
/// recursion-available bits.
pub open spec fn pack_flags_lo(h: DnsHeader) -> u8 {
    rescode_to_num(h.rescode) | (if h.checking_disabled {
        0x10u8
    } else {
        0u8
    }) | (if h.authed_data {
        0x20u8
    } else {
        0u8
    }) | (if h.z {
        0x40u8
    } else {
        0u8
    }) | (if h.recursion_available {
        0x80u8
    } else {
        0u8
    })
}

/// The 12 wire bytes of a header.
pub open spec fn encode_header(h: DnsHeader) -> Seq<u8> {
    u16_bytes(h.id) + seq![pack_flags_hi(h), pack_flags_lo(h)] + u16_bytes(h.questions)
        + u16_bytes(h.answers) + u16_bytes(h.authoritative_entries) + u16_bytes(
        h.resource_entries,
    )
}

/// The header spelled by the 12 bytes at `p`.
pub open spec fn parse_header(data: Seq<u8>, p: int) -> DnsHeader {
    let a = data[p + 2];
    let b = data[p + 3];
    DnsHeader {
        id: u16_of(data[p], data[p + 1]),
        recursion_desired: (a & 0x01) != 0,
        truncated_message: (a & 0x02) != 0,
        authoritative_answer: (a & 0x04) != 0,
        opcode: (a >> 3) & 0x0F,
        response: (a & 0x80) != 0,
        rescode: rescode_from_num(b & 0x0F),
        checking_disabled: (b & 0x10) != 0,
        authed_data: (b & 0x20) != 0,
        z: (b & 0x40) != 0,
        recursion_available: (b & 0x80) != 0,
        questions: u16_of(data[p + 4], data[p + 5]),
        answers: u16_of(data[p + 6], data[p + 7]),
        authoritative_entries: u16_of(data[p + 8], data[p + 9]),
        resource_entries: u16_of(data[p + 10], data[p + 11]),
    }
}

/// The cleared header `DnsHeader::new` builds.
pub open spec fn header_new() -> DnsHeader {
    DnsHeader {
        id: 0,
        recursion_desired: false,
        truncated_message: false,
        authoritative_answer: false,
        opcode: 0,
        response: false,
        rescode: ResultCode::NOERROR,
        checking_disabled: false,
        authed_data: false,
        z: false,
        recursion_available: false,
        questions: 0,
        answers: 0,
        authoritative_entries: 0,
        resource_entries: 0,
    }
}

impl DnsHeader {
    /// The opcode must fit its four wire bits; everything else in the
    /// header is full-width.
    pub open spec fn wf(&self) -> bool {
        self.opcode < 16
    }

    /// A header with every field cleared.
    pub fn new() -> (r: DnsHeader)
        ensures
            r == header_new(),
            r.wf(),
    {
        DnsHeader {
            id: 0,
            recursion_desired: false,
            truncated_message: false,
            authoritative_answer: false,
            opcode: 0,
            response: false,
            rescode: ResultCode::NOERROR,
            checking_disabled: false,
            authed_data: false,
            z: false,
            recursion_available: false,
            questions: 0,
            answers: 0,
            authoritative_entries: 0,
            resource_entries: 0,
        }
    }

    /// Fills this header from the 12 bytes at the buffer's cursor.
    pub fn read(&mut self, buffer: &mut BytePacketBuffer) -> (r: Result<(), DnsError>)
        requires
            old(buffer).wf(),
        ensures
            final(buffer).wf(),
            final(buffer).buf@ == old(buffer).buf@,
            r is Ok <==> old(buffer).pos + 12 <= 512,
            r is Ok ==> *final(self) == parse_header(old(buffer).buf@, old(buffer).pos as int)
                && final(buffer).pos == old(buffer).pos + 12 && final(self).wf(),
            r is Err ==> r->Err_0 == DnsError::EndOfBuffer,
    {
        let ghost data = buffer.buf@;
        let ghost p = buffer.pos as int;
        self.id = buffer.read_u16()?;

        let flags = buffer.read_u16()?;
        let a = (flags / 256) as u8;
        let b = (flags % 256) as u8;
        proof {
            let hi = data[p + 2];
            let lo = data[p + 3];
            assert((((hi as u16) * 256 + (lo as u16)) / 256) == hi as u16
                && (((hi as u16) * 256 + (lo as u16)) % 256) == lo as u16) by (bit_vector);
            assert(a == hi && b == lo);
        }
        self.recursion_desired = (a & 0x01) > 0;
        self.truncated_message = (a & 0x02) > 0;
        self.authoritative_answer = (a & 0x04) > 0;
        self.opcode = (a >> 3) & 0x0F;
        self.response = (a & 0x80) > 0;

        self.rescode = ResultCode::from_num(b & 0x0F);
        self.checking_disabled = (b & 0x10) > 0;
        self.authed_data = (b & 0x20) > 0;
        self.z = (b & 0x40) > 0;
        self.recursion_available = (b & 0x80) > 0;

        self.questions = buffer.read_u16()?;
        self.answers = buffer.read_u16()?;
        self.authoritative_entries = buffer.read_u16()?;
        self.resource_entries = buffer.read_u16()?;
        proof {
            assert(((a >> 3) & 0x0F) < 16) by (bit_vector);
        }
        Ok(())
    }

    /// Writes this header's 12 wire bytes at the buffer's cursor.
    #[verifier::rlimit(100)]
    pub fn write(&self, buffer: &mut BytePacketBuffer) -> (r: Result<(), DnsError>)
        requires
            old(buffer).wf(),
            self.wf(),
        ensures
            final(buffer).wf(),
            r is Ok <==> old(buffer).pos + 12 <= 512,
            r is Ok ==> final(buffer).buf@ == spliced(
                old(buffer).buf@,
                old(buffer).pos as int,
                encode_header(*self),
            ) && final(buffer).pos == old(buffer).pos + 12,
            r is Err ==> r->Err_0 == DnsError::EndOfBuffer,
    {
        let ghost data = buffer.buf@;
        let ghost p = buffer.pos as int;
        let a: u8 = (if self.recursion_desired {
            0x01u8
        } else {
            0u8
        }) | (if self.truncated_message {
            0x02u8
        } else {
            0u8
        }) | (if self.authoritative_answer {
            0x04u8
        } else {
            0u8
        }) | (self.opcode << 3) | (if self.response {
            0x80u8
        } else {
            0u8
        });
        let b: u8 = self.rescode.to_num() | (if self.checking_disabled {
            0x10u8
        } else {
            0u8
        }) | (if self.authed_data {
            0x20u8
        } else {
            0u8
        }) | (if self.z {
            0x40u8
        } else {
            0u8
        }) | (if self.recursion_available {
            0x80u8
        } else {
            0u8
        });
        buffer.write_u16(self.id)?;
        buffer.write_u8(a)?;
        buffer.write_u8(b)?;
        buffer.write_u16(self.questions)?;
        buffer.write_u16(self.answers)?;
        buffer.write_u16(self.authoritative_entries)?;
        buffer.write_u16(self.resource_entries)?;
        proof {
            let s1 = u16_bytes(self.id);
            let s2 = seq![pack_flags_hi(*self), pack_flags_lo(*self)];
            lemma_spliced_concat(data, p, s1, seq![a]);
            lemma_spliced_concat(data, p, s1 + seq![a], seq![b]);
            assert((s1 + seq![a]) + seq![b] =~= s1 + s2);
            lemma_spliced_concat(data, p, s1 + s2, u16_bytes(self.questions));
            lemma_spliced_concat(data, p, s1 + s2 + u16_bytes(self.questions), u16_bytes(
                self.answers,
            ));
            lemma_spliced_concat(
                data,
                p,
                s1 + s2 + u16_bytes(self.questions) + u16_bytes(self.answers),
                u16_bytes(self.authoritative_entries),
            );
            lemma_spliced_concat(
                data,
                p,
                s1 + s2 + u16_bytes(self.questions) + u16_bytes(self.answers) + u16_bytes(
                    self.authoritative_entries,
                ),
                u16_bytes(self.resource_entries),
            );
        }
        Ok(())
    }
}

/// Decoding the 12 bytes a header encodes to gives back every flag bit,
/// the opcode, the result code, the id and all four counts — for every
/// combination of them.
pub proof fn lemma_header_roundtrip(h: DnsHeader, data: Seq<u8>, p: int)
    requires
        h.wf(),
        0 <= p,
        p + 12 <= data.len(),
        data.subrange(p, p + 12) == encode_header(h),
    ensures
        parse_header(data, p) == h,
{
    let e = encode_header(h);
    assert forall|i: int| 0 <= i < 12 implies data[p + i] == e[i] by {
        assert(data.subrange(p, p + 12)[i] == data[p + i]);
    }
    let x1: u8 = if h.recursion_desired {
        0x01u8
    } else {
        0u8
    };
    let x2: u8 = if h.truncated_message {
        0x02u8
    } else {
        0u8
    };
    let x4: u8 = if h.authoritative_answer {
        0x04u8
    } else {
        0u8
    };
    let x8: u8 = if h.response {
        0x80u8
    } else {
        0u8
    };
    let op = h.opcode;
    assert(e[2] == x1 | x2 | x4 | (op << 3) | x8);
    assert({
        &&& ((x1 | x2 | x4 | (op << 3) | x8) & 0x01) == x1
        &&& ((x1 | x2 | x4 | (op << 3) | x8) & 0x02) == x2
        &&& ((x1 | x2 | x4 | (op << 3) | x8) & 0x04) == x4
        &&& (((x1 | x2 | x4 | (op << 3) | x8) >> 3) & 0x0F) == op
        &&& ((x1 | x2 | x4 | (op << 3) | x8) & 0x80) == x8
    }) by (bit_vector)
        requires
            (x1 == 0 || x1 == 0x01) && (x2 == 0 || x2 == 0x02) && (x4 == 0 || x4 == 0x04)
                && (x8 == 0 || x8 == 0x80) && op < 16,
    ;
    let rc = rescode_to_num(h.rescode);
    let y1: u8 = if h.checking_disabled {
        0x10u8
    } else {
        0u8
    };
    let y2: u8 = if h.authed_data {
        0x20u8
    } else {
        0u8
    };
    let y4: u8 = if h.z {
        0x40u8
    } else {
        0u8
    };
    let y8: u8 = if h.recursion_available {
        0x80u8
    } else {
        0u8
    };
    assert(e[3] == rc | y1 | y2 | y4 | y8);
    assert({
        &&& ((rc | y1 | y2 | y4 | y8) & 0x0F) == rc
        &&& ((rc | y1 | y2 | y4 | y8) & 0x10) == y1
        &&& ((rc | y1 | y2 | y4 | y8) & 0x20) == y2
        &&& ((rc | y1 | y2 | y4 | y8) & 0x40) == y4
        &&& ((rc | y1 | y2 | y4 | y8) & 0x80) == y8
    }) by (bit_vector)
        requires
            rc < 16 && (y1 == 0 || y1 == 0x10) && (y2 == 0 || y2 == 0x20) && (y4 == 0 || y4
                == 0x40) && (y8 == 0 || y8 == 0x80),
    ;
    lemma_rescode_roundtrip(h.rescode);
    assert(e[0] == u16_bytes(h.id)[0] && e[1] == u16_bytes(h.id)[1]);
    assert(e[4] == u16_bytes(h.questions)[0] && e[5] == u16_bytes(h.questions)[1]);
    assert(e[6] == u16_bytes(h.answers)[0] && e[7] == u16_bytes(h.answers)[1]);
    assert(e[8] == u16_bytes(h.authoritative_entries)[0] && e[9] == u16_bytes(
        h.authoritative_entries,
    )[1]);
    assert(e[10] == u16_bytes(h.resource_entries)[0] && e[11] == u16_bytes(
        h.resource_entries,
    )[1]);
    lemma_u16_roundtrip(h.id);
    lemma_u16_roundtrip(h.questions);
    lemma_u16_roundtrip(h.answers);
    lemma_u16_roundtrip(h.authoritative_entries);
    lemma_u16_roundtrip(h.resource_entries);
}

} // verus!
