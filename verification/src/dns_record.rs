use vstd::prelude::*;

use crate::byte_packet_buffer::BytePacketBuffer;
use crate::dns_error::DnsError;
use crate::qname::{encode_qname, join_labels, labels_fit, lemma_parse_has_end,
    lemma_qname_roundtrip, name_end, parse_labels, split_dots, valid_name, MAX_JUMPS};
use crate::query_type::{qtype_from_num, QueryType};
use crate::wire::{lemma_spliced_concat, lemma_u16_roundtrip, lemma_u32_roundtrip, spliced,
    u16_bytes, u16_of, u32_bytes, u32_of};

verus! {

/// A 4-octet address, most significant octet first.
#[derive(Clone, Copy, Debug, PartialEq, Eq, Structural)]
pub struct Ipv4Address {
    pub o0: u8,
    pub o1: u8,
    pub o2: u8,
    pub o3: u8,
}

/// One resource record.  Address records are understood in full; any
/// other type is kept opaquely — domain, raw type code, declared payload
/// length and time-to-live — with the payload bytes skipped, not
/// retained.
#[derive(Clone, Debug, PartialEq, Eq)]
pub enum DnsRecord {
    UNKNOWN { domain: Vec<u8>, qtype: u16, data_len: u16, ttl: u32 },
    A { domain: Vec<u8>, addr: Ipv4Address, ttl: u32 },
}

/// What a record is mathematically.
pub ghost enum RecordView {
    Unknown { domain: Seq<u8>, qtype: u16, data_len: u16, ttl: u32 },
    A { domain: Seq<u8>, addr: Ipv4Address, ttl: u32 },
}

impl View for DnsRecord {
    type V = RecordView;

    open spec fn view(&self) -> RecordView {
        match self {
            DnsRecord::UNKNOWN { domain, qtype, data_len, ttl } => RecordView::Unknown {
                domain: domain@,
                qtype: *qtype,
                data_len: *data_len,
                ttl: *ttl,
            },
            DnsRecord::A { domain, addr, ttl } => RecordView::A {
                domain: domain@,
                addr: *addr,
                ttl: *ttl,
            },
        }
    }
}

/// The record read at `p`, and the position right after it — for an
/// opaque record, one past its skipped payload.
pub open spec fn parse_record(data: Seq<u8>, p: int) -> Option<(RecordView, int)> {
    match parse_labels(data, p, MAX_JUMPS as nat) {
        None => None,
        Some(ls) => {
            let e = name_end(data, p).unwrap();
            if e + 10 <= 512 {
                let qnum = u16_of(data[e], data[e + 1]);
                let ttl = u32_of(data[e + 4], data[e + 5], data[e + 6], data[e + 7]);
                let dlen = u16_of(data[e + 8], data[e + 9]);
                if qtype_from_num(qnum) == QueryType::A {
                    if e + 14 <= 512 {
                        Some(
                            (
                                RecordView::A {
                                    domain: join_labels(ls),
                                    addr: Ipv4Address {
                                        o0: data[e + 10],
                                        o1: data[e + 11],
                                        o2: data[e + 12],
                                        o3: data[e + 13],
                                    },
                                    ttl,
                                },
                                e + 14,
                            ),
                        )
                    } else {
                        None
                    }
                } else {
                    if e + 10 + dlen <= 512 {
                        Some(
                            (
                                RecordView::Unknown {
                                    domain: join_labels(ls),
                                    qtype: qnum,
                                    data_len: dlen,
                                    ttl,
                                },
                                e + 10 + dlen,
                            ),
                        )
                    } else {
                        None
                    }
                }
            } else {
                None
            }
        },
    }
}

/// The wire bytes of a record.  An address record is written in full;
/// an opaque record is skipped — its payload was never retained, so
/// there is nothing faithful to emit.
pub open spec fn encode_record(rv: RecordView) -> Seq<u8> {
    match rv {
        RecordView::A { domain, addr, ttl } => encode_qname(domain) + u16_bytes(1)
            + u16_bytes(1) + u32_bytes(ttl) + u16_bytes(4) + seq![
            addr.o0,
            addr.o1,
            addr.o2,
            addr.o3,
        ],
        RecordView::Unknown { .. } => seq![],
    }
}

/// Whether a record's labels let it be written.
pub open spec fn record_labels_fit(rv: RecordView) -> bool {
    match rv {
        RecordView::A { domain, .. } => labels_fit(split_dots(domain)),
        RecordView::Unknown { .. } => true,
    }
}

/// Decoding the bytes an address record encodes to gives the record
/// back, as long as its name is a valid lowercase name.
pub proof fn lemma_record_roundtrip(data: Seq<u8>, p: int, rv: RecordView)
    requires
        data.len() == 512,
        rv is A,
        valid_name(rv->A_domain),
        0 <= p,
        p + encode_record(rv).len() <= 512,
        data.subrange(p, p + encode_record(rv).len()) == encode_record(rv),
    ensures
        parse_record(data, p) == Some((rv, p + encode_record(rv).len())),
{
    let domain = rv->A_domain;
    let addr = rv->A_addr;
    let ttl = rv->A_ttl;
    let enc = encode_record(rv);
    let encn = encode_qname(domain);
    assert forall|i: int| 0 <= i < enc.len() implies data[p + i] == enc[i] by {
        assert(data.subrange(p, p + enc.len())[i] == data[p + i]);
    }
    assert(enc.len() == encn.len() + 14);
    assert forall|i: int| 0 <= i < encn.len() implies data[p + i] == encn[i] by {
        assert(enc[i] == encn[i]);
    }
    assert(data.subrange(p, p + encn.len()) =~= encn);
    lemma_qname_roundtrip(data, p, domain, MAX_JUMPS as nat);
    let e = p + encn.len();
    let k = encn.len() as int;
    assert(enc[k] == u16_bytes(1)[0] && enc[k + 1] == u16_bytes(1)[1]);
    assert(enc[k + 4] == u32_bytes(ttl)[0] && enc[k + 5] == u32_bytes(ttl)[1] && enc[k + 6]
        == u32_bytes(ttl)[2] && enc[k + 7] == u32_bytes(ttl)[3]);
    assert(enc[k + 10] == addr.o0 && enc[k + 11] == addr.o1 && enc[k + 12] == addr.o2
        && enc[k + 13] == addr.o3);
    lemma_u16_roundtrip(1);
    lemma_u32_roundtrip(ttl);
    assert(u16_of(data[e], data[e + 1]) == 1);
    assert(u32_of(data[e + 4], data[e + 5], data[e + 6], data[e + 7]) == ttl);
}

impl DnsRecord {
    /// Reads one record at the buffer's cursor, dispatching on its type
    /// code; an unrecognized type's payload is skipped, not read.
    pub fn read(buffer: &mut BytePacketBuffer) -> (r: Result<DnsRecord, DnsError>)
        requires
            old(buffer).wf(),
        ensures
            final(buffer).wf(),
            final(buffer).buf@ == old(buffer).buf@,
            r is Ok <==> parse_record(old(buffer).buf@, old(buffer).pos as int) is Some,
            r is Ok ==> ({
                let (rv, e) = parse_record(old(buffer).buf@, old(buffer).pos as int).unwrap();
                r->Ok_0@ == rv && final(buffer).pos == e
            }),
    {
        let ghost data = buffer.buf@;
        let ghost p = buffer.pos as int;
        let mut domain: Vec<u8> = Vec::new();
        buffer.read_qname(&mut domain)?;
        proof {
            lemma_parse_has_end(data, p, MAX_JUMPS as nat);
            assert(Seq::<u8>::empty() + join_labels(
                parse_labels(data, p, MAX_JUMPS as nat).unwrap(),
            ) =~= join_labels(parse_labels(data, p, MAX_JUMPS as nat).unwrap()));
        }
        let qtype_num = buffer.read_u16()?;
        let qtype = QueryType::from_num(qtype_num);
        buffer.read_u16()?;
        let ttl = buffer.read_u32()?;
        let data_len = buffer.read_u16()?;

        match qtype {
            QueryType::A => {
                let raw_addr = buffer.read_u32()?;
                proof {
                    let e = name_end(data, p).unwrap();
                    let b0 = data[e + 10];
                    let b1 = data[e + 11];
                    let b2 = data[e + 12];
                    let b3 = data[e + 13];
                    let w = u32_of(b0, b1, b2, b3);
                    assert(w == (b0 as u32) * 0x1000000 + (b1 as u32) * 0x10000 + (
                    b2 as u32) * 0x100 + (b3 as u32));
                    assert(((w >> 24) & 0xFF) == b0 as u32 && ((w >> 16) & 0xFF)
                        == b1 as u32 && ((w >> 8) & 0xFF) == b2 as u32 && (w & 0xFF)
                        == b3 as u32) by (bit_vector)
                        requires
                            w == (b0 as u32) * 0x1000000 + (b1 as u32) * 0x10000 + (
                            b2 as u32) * 0x100 + (b3 as u32),
                    ;
                }
                let addr = Ipv4Address {
                    o0: ((raw_addr >> 24) & 0xFF) as u8,
                    o1: ((raw_addr >> 16) & 0xFF) as u8,
                    o2: ((raw_addr >> 8) & 0xFF) as u8,
                    o3: (raw_addr & 0xFF) as u8,
                };
                Ok(DnsRecord::A { domain, addr, ttl })
            },
            QueryType::UNKNOWN(_) => {
                buffer.step(data_len as usize)?;
                Ok(DnsRecord::UNKNOWN { domain, qtype: qtype_num, data_len, ttl })
            },
        }
    }

    /// Writes this record at the buffer's cursor.  An opaque record
    /// writes nothing: its payload was skipped on read, so no faithful
    /// bytes exist for it.
    pub fn write(&self, buffer: &mut BytePacketBuffer) -> (r: Result<(), DnsError>)
        requires
            old(buffer).wf(),
        ensures
            final(buffer).wf(),
            r is Ok <==> record_labels_fit(self@) && old(buffer).pos + encode_record(
                self@,
            ).len() <= 512,
            r is Ok ==> final(buffer).buf@ == spliced(
                old(buffer).buf@,
                old(buffer).pos as int,
                encode_record(self@),
            ) && final(buffer).pos == old(buffer).pos + encode_record(self@).len(),
            r is Err ==> r->Err_0 == DnsError::LabelTooLong || r->Err_0
                == DnsError::EndOfBuffer,
            r is Err && r->Err_0 == DnsError::LabelTooLong ==> !record_labels_fit(self@),
            r is Err && r->Err_0 == DnsError::EndOfBuffer ==> old(buffer).pos
                + encode_record(self@).len() > 512,
    {
        let ghost data = buffer.buf@;
        let ghost p = buffer.pos as int;
        match self {
            DnsRecord::A { domain, addr, ttl } => {
                buffer.write_qname(domain)?;
                buffer.write_u16(1)?;
                buffer.write_u16(1)?;
                buffer.write_u32(*ttl)?;
                buffer.write_u16(4)?;
                buffer.write_u8(addr.o0)?;
                buffer.write_u8(addr.o1)?;
                buffer.write_u8(addr.o2)?;
                buffer.write_u8(addr.o3)?;
                proof {
                    let s1 = encode_qname(domain@);
                    let s2 = s1 + u16_bytes(1);
                    let s3 = s2 + u16_bytes(1);
                    let s4 = s3 + u32_bytes(*ttl);
                    let s5 = s4 + u16_bytes(4);
                    lemma_spliced_concat(data, p, s1, u16_bytes(1));
                    lemma_spliced_concat(data, p, s2, u16_bytes(1));
                    lemma_spliced_concat(data, p, s3, u32_bytes(*ttl));
                    lemma_spliced_concat(data, p, s4, u16_bytes(4));
                    lemma_spliced_concat(data, p, s5, seq![addr.o0]);
                    lemma_spliced_concat(data, p, s5 + seq![addr.o0], seq![addr.o1]);
                    lemma_spliced_concat(data, p, s5 + seq![addr.o0] + seq![addr.o1],
                        seq![addr.o2]);
                    lemma_spliced_concat(
                        data,
                        p,
                        s5 + seq![addr.o0] + seq![addr.o1] + seq![addr.o2],
                        seq![addr.o3],
                    );
                    assert(s5 + seq![addr.o0] + seq![addr.o1] + seq![addr.o2] + seq![
                        addr.o3,
                    ] =~= encode_record(self@));
                }
                Ok(())
            },
            DnsRecord::UNKNOWN { .. } => {
                proof {
                    assert(spliced(data, p, seq![]) =~= data);
                }
                Ok(())
            },
        }
    }
}

} // verus!
