use vstd::prelude::*;

use crate::byte_packet_buffer::BytePacketBuffer;
use crate::dns_error::DnsError;
use crate::qname::{encode_qname, join_labels, labels_fit, lemma_parse_has_end,
    lemma_qname_roundtrip, name_end, parse_labels, split_dots, valid_name, MAX_JUMPS};
use crate::query_type::{lemma_qtype_roundtrip, qtype_from_num, qtype_to_num, QueryType};
use crate::wire::{lemma_spliced_concat, lemma_u16_roundtrip, spliced, u16_bytes, u16_of};

verus! {

/// One query entry: a domain name and a query type.  The class field on
/// the wire is written as 1 (Internet) and discarded on read.
#[derive(Clone, Debug, PartialEq, Eq)]
pub struct DnsQuestion {
    pub name: Vec<u8>,
    pub qtype: QueryType,
}

/// What a question is mathematically: its name's bytes and its type.
pub ghost struct QuestionView {
    pub name: Seq<u8>,
    pub qtype: QueryType,
}

impl View for DnsQuestion {
    type V = QuestionView;

    open spec fn view(&self) -> QuestionView {
        QuestionView { name: self.name@, qtype: self.qtype }
    }
}

/// The wire bytes of a question: the encoded name, the type code, and
/// the fixed class 1.
pub open spec fn encode_question(q: QuestionView) -> Seq<u8> {
    encode_qname(q.name) + u16_bytes(qtype_to_num(q.qtype)) + u16_bytes(1)
}

/// The question read at `p`, and the position right after it.  `None`
/// is every way reading one can fail.
pub open spec fn parse_question(data: Seq<u8>, p: int) -> Option<(QuestionView, int)> {
    match parse_labels(data, p, MAX_JUMPS as nat) {
        None => None,
        Some(ls) => {
            let e = name_end(data, p).unwrap();
            if e + 4 <= 512 {
                Some(
                    (
                        QuestionView {
                            name: join_labels(ls),
                            qtype: qtype_from_num(u16_of(data[e], data[e + 1])),
                        },
                        e + 4,
                    ),
                )
            } else {
                None
            }
        },
    }
}

/// Decoding the bytes a question encodes to gives the question back,
/// as long as its name is a valid lowercase name and its type does not
/// spell the address code under the `UNKNOWN` constructor.
pub proof fn lemma_question_roundtrip(data: Seq<u8>, p: int, q: QuestionView)
    requires
        data.len() == 512,
        valid_name(q.name),
        q.qtype != QueryType::UNKNOWN(1),
        0 <= p,
        p + encode_question(q).len() <= 512,
        data.subrange(p, p + encode_question(q).len()) == encode_question(q),
    ensures
        parse_question(data, p) == Some((q, p + encode_question(q).len())),
{
    let enc = encode_question(q);
    let encn = encode_qname(q.name);
    let tb = u16_bytes(qtype_to_num(q.qtype));
    assert forall|i: int| 0 <= i < enc.len() implies data[p + i] == enc[i] by {
        assert(data.subrange(p, p + enc.len())[i] == data[p + i]);
    }
    assert(enc.len() == encn.len() + 4);
    assert forall|i: int| 0 <= i < encn.len() implies data[p + i] == encn[i] by {
        assert(enc[i] == encn[i]);
    }
    assert(data.subrange(p, p + encn.len()) =~= encn);
    lemma_qname_roundtrip(data, p, q.name, MAX_JUMPS as nat);
    let e = p + encn.len();
    let k = encn.len() as int;
    assert(enc[k] == tb[0] && enc[k + 1] == tb[1]);
    lemma_u16_roundtrip(qtype_to_num(q.qtype));
    lemma_qtype_roundtrip(q.qtype);
    assert(u16_of(data[e], data[e + 1]) == qtype_to_num(q.qtype));
}

impl DnsQuestion {
    /// A question built from its parts.
    pub fn new(name: Vec<u8>, qtype: QueryType) -> (r: DnsQuestion)
        ensures
            r@ == (QuestionView { name: name@, qtype }),
    {
        DnsQuestion { name, qtype }
    }

    /// Reads a question at the buffer's cursor: a name (appended to this
    /// question's name), a type code, and a class that is discarded.
    pub fn read(&mut self, buffer: &mut BytePacketBuffer) -> (r: Result<(), DnsError>)
        requires
            old(buffer).wf(),
        ensures
            final(buffer).wf(),
            final(buffer).buf@ == old(buffer).buf@,
            r is Ok <==> parse_question(old(buffer).buf@, old(buffer).pos as int) is Some,
            r is Ok ==> ({
                let (q, e) = parse_question(old(buffer).buf@, old(buffer).pos as int).unwrap();
                &&& final(self).name@ == old(self).name@ + q.name
                &&& final(self).qtype == q.qtype
                &&& final(buffer).pos == e
            }),
    {
        let ghost data = buffer.buf@;
        let ghost p = buffer.pos as int;
        buffer.read_qname(&mut self.name)?;
        proof {
            lemma_parse_has_end(data, p, MAX_JUMPS as nat);
        }
        self.qtype = QueryType::from_num(buffer.read_u16()?);
        buffer.read_u16()?;
        Ok(())
    }

    /// Writes this question at the buffer's cursor.
    pub fn write(&self, buffer: &mut BytePacketBuffer) -> (r: Result<(), DnsError>)
        requires
            old(buffer).wf(),
        ensures
            final(buffer).wf(),
            r is Ok <==> labels_fit(split_dots(self.name@)) && old(buffer).pos
                + encode_question(self@).len() <= 512,
            r is Ok ==> final(buffer).buf@ == spliced(
                old(buffer).buf@,
                old(buffer).pos as int,
                encode_question(self@),
            ) && final(buffer).pos == old(buffer).pos + encode_question(self@).len(),
            r is Err ==> r->Err_0 == DnsError::LabelTooLong || r->Err_0
                == DnsError::EndOfBuffer,
            r is Err && r->Err_0 == DnsError::LabelTooLong ==> !labels_fit(
                split_dots(self.name@),
            ),
            r is Err && r->Err_0 == DnsError::EndOfBuffer ==> old(buffer).pos
                + encode_question(self@).len() > 512,
    {
        let ghost data = buffer.buf@;
        let ghost p = buffer.pos as int;
        buffer.write_qname(&self.name)?;
        let typenum = self.qtype.to_num();
        buffer.write_u16(typenum)?;
        buffer.write_u16(1)?;
        proof {
            lemma_spliced_concat(data, p, encode_qname(self.name@), u16_bytes(typenum));
            lemma_spliced_concat(data, p, encode_qname(self.name@) + u16_bytes(typenum),
                u16_bytes(1));
        }
        Ok(())
    }
}

} // verus!
