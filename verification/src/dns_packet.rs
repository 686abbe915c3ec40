use vstd::prelude::*;

use crate::byte_packet_buffer::BytePacketBuffer;
use crate::dns_error::DnsError;
use crate::dns_header::{encode_header, header_new, lemma_header_roundtrip, parse_header,
    DnsHeader};
use crate::dns_question::{encode_question, lemma_question_roundtrip, parse_question,
    DnsQuestion, QuestionView};
use crate::dns_record::{encode_record, lemma_record_roundtrip, parse_record,
    record_labels_fit, DnsRecord, RecordView};
use crate::qname::{labels_fit, split_dots, valid_name};
use crate::query_type::QueryType;
use crate::wire::{lemma_spliced_concat, spliced};

verus! {

/// A whole message: header, questions, and the three record sections.
#[derive(Clone, Debug)]
pub struct DnsPacket {
    pub header: DnsHeader,
    pub questions: Vec<DnsQuestion>,
    pub answers: Vec<DnsRecord>,
    pub authorities: Vec<DnsRecord>,
    pub resources: Vec<DnsRecord>,
}

/// What a message is mathematically.
pub ghost struct PacketView {
    pub header: DnsHeader,
    pub questions: Seq<QuestionView>,
    pub answers: Seq<RecordView>,
    pub authorities: Seq<RecordView>,
    pub resources: Seq<RecordView>,
}

impl View for DnsPacket {
    type V = PacketView;

    open spec fn view(&self) -> PacketView {
        PacketView {
            header: self.header,
            questions: self.questions@.map_values(|q: DnsQuestion| q@),
            answers: self.answers@.map_values(|r: DnsRecord| r@),
            authorities: self.authorities@.map_values(|r: DnsRecord| r@),
            resources: self.resources@.map_values(|r: DnsRecord| r@),
        }
    }
}

/// `count` questions read one after another from `p`: the questions and
/// the position after the last one.
pub open spec fn parse_questions(data: Seq<u8>, p: int, count: nat) -> Option<
    (Seq<QuestionView>, int),
>
    decreases count,
{
    if count == 0 {
        Some((Seq::empty(), p))
    } else {
        match parse_question(data, p) {
            None => None,
            Some((q, e)) => match parse_questions(data, e, (count - 1) as nat) {
                None => None,
                Some((qs, e2)) => Some((seq![q] + qs, e2)),
            },
        }
    }
}

/// `count` records read one after another from `p`.
pub open spec fn parse_records(data: Seq<u8>, p: int, count: nat) -> Option<
    (Seq<RecordView>, int),
>
    decreases count,
{
    if count == 0 {
        Some((Seq::empty(), p))
    } else {
        match parse_record(data, p) {
            None => None,
            Some((r, e)) => match parse_records(data, e, (count - 1) as nat) {
                None => None,
                Some((rs, e2)) => Some((seq![r] + rs, e2)),
            },
        }
    }
}

/// A whole message read at `p`: the header, then exactly the numbers of
/// questions and records its counts promise, in the fixed section
/// order.  `None` is every way decoding can fail, a count outrunning
/// the buffer included.
pub open spec fn parse_packet(data: Seq<u8>, p: int) -> Option<(PacketView, int)> {
    if p < 0 || p + 12 > 512 {
        None
    } else {
        let h = parse_header(data, p);
        match parse_questions(data, p + 12, h.questions as nat) {
            None => None,
            Some((qs, p1)) => match parse_records(data, p1, h.answers as nat) {
                None => None,
                Some((ans, p2)) => match parse_records(data, p2, h.authoritative_entries as nat) {
                    None => None,
                    Some((auth, p3)) => match parse_records(data, p3, h.resource_entries as nat) {
                        None => None,
                        Some((res, p4)) => Some(
                            (
                                PacketView {
                                    header: h,
                                    questions: qs,
                                    answers: ans,
                                    authorities: auth,
                                    resources: res,
                                },
                                p4,
                            ),
                        ),
                    },
                },
            },
        }
    }
}

/// The wire bytes of a run of questions.
pub open spec fn encode_questions(qs: Seq<QuestionView>) -> Seq<u8>
    decreases qs.len(),
{
    if qs.len() == 0 {
        seq![]
    } else {
        encode_question(qs[0]) + encode_questions(qs.drop_first())
    }
}

/// The wire bytes of a run of records.
pub open spec fn encode_records(rs: Seq<RecordView>) -> Seq<u8>
    decreases rs.len(),
{
    if rs.len() == 0 {
        seq![]
    } else {
        encode_record(rs[0]) + encode_records(rs.drop_first())
    }
}

/// The wire bytes of a whole message, sections in their fixed order.
pub open spec fn encode_packet(pv: PacketView) -> Seq<u8> {
    encode_header(pv.header) + encode_questions(pv.questions) + encode_records(pv.answers)
        + encode_records(pv.authorities) + encode_records(pv.resources)
}

/// The packet with its header's four counts replaced by the actual
/// section lengths — what writing always does first.
pub open spec fn recount(pv: PacketView) -> PacketView {
    PacketView {
        header: DnsHeader {
            questions: pv.questions.len() as u16,
            answers: pv.answers.len() as u16,
            authoritative_entries: pv.authorities.len() as u16,
            resource_entries: pv.resources.len() as u16,
            ..pv.header
        },
        ..pv
    }
}

/// Every question's labels short enough to encode.
pub open spec fn questions_fit(qs: Seq<QuestionView>) -> bool {
    forall|i: int| 0 <= i < qs.len() ==> labels_fit(split_dots(#[trigger] qs[i].name))
}

/// Every record's labels short enough to encode.
pub open spec fn records_fit(rs: Seq<RecordView>) -> bool {
    forall|i: int| 0 <= i < rs.len() ==> record_labels_fit(#[trigger] rs[i])
}

/// Every name in the message short-labelled enough to encode.
pub open spec fn sections_fit(pv: PacketView) -> bool {
    questions_fit(pv.questions) && records_fit(pv.answers) && records_fit(pv.authorities)
        && records_fit(pv.resources)
}

/// Encoding a run of questions piecewise is encoding it whole.
pub proof fn lemma_encode_questions_concat(a: Seq<QuestionView>, b: Seq<QuestionView>)
    ensures
        encode_questions(a + b) == encode_questions(a) + encode_questions(b),
    decreases a.len(),
{
    if a.len() == 0 {
        assert(a + b =~= b);
        assert(Seq::<u8>::empty() + encode_questions(b) =~= encode_questions(b));
    } else {
        lemma_encode_questions_concat(a.drop_first(), b);
        assert((a + b).drop_first() =~= a.drop_first() + b);
        assert((a + b)[0] == a[0]);
        assert(encode_question(a[0]) + (encode_questions(a.drop_first()) + encode_questions(
            b,
        )) =~= (encode_question(a[0]) + encode_questions(a.drop_first()))
            + encode_questions(b));
    }
}

/// Encoding a run of records piecewise is encoding it whole.
pub proof fn lemma_encode_records_concat(a: Seq<RecordView>, b: Seq<RecordView>)
    ensures
        encode_records(a + b) == encode_records(a) + encode_records(b),
    decreases a.len(),
{
    if a.len() == 0 {
        assert(a + b =~= b);
        assert(Seq::<u8>::empty() + encode_records(b) =~= encode_records(b));
    } else {
        lemma_encode_records_concat(a.drop_first(), b);
        assert((a + b).drop_first() =~= a.drop_first() + b);
        assert((a + b)[0] == a[0]);
        assert(encode_record(a[0]) + (encode_records(a.drop_first()) + encode_records(b))
            =~= (encode_record(a[0]) + encode_records(a.drop_first())) + encode_records(
            b,
        ));
    }
}

/// One more question on the end of a run extends its encoding.
pub proof fn lemma_encode_questions_push(qs: Seq<QuestionView>, q: QuestionView)
    ensures
        encode_questions(qs.push(q)) == encode_questions(qs) + encode_question(q),
{
    lemma_encode_questions_concat(qs, seq![q]);
    assert(qs.push(q) =~= qs + seq![q]);
    assert(seq![q].drop_first() =~= Seq::<QuestionView>::empty());
    assert(encode_questions(Seq::<QuestionView>::empty()) == Seq::<u8>::empty());
    assert(seq![q][0] == q);
    assert(encode_question(q) + Seq::<u8>::empty() =~= encode_question(q));
    assert(encode_questions(seq![q]) =~= encode_question(q));
}

/// One more record on the end of a run extends its encoding.
pub proof fn lemma_encode_records_push(rs: Seq<RecordView>, r: RecordView)
    ensures
        encode_records(rs.push(r)) == encode_records(rs) + encode_record(r),
{
    lemma_encode_records_concat(rs, seq![r]);
    assert(rs.push(r) =~= rs + seq![r]);
    assert(seq![r].drop_first() =~= Seq::<RecordView>::empty());
    assert(encode_records(Seq::<RecordView>::empty()) == Seq::<u8>::empty());
    assert(seq![r][0] == r);
    assert(encode_record(r) + Seq::<u8>::empty() =~= encode_record(r));
    assert(encode_records(seq![r]) =~= encode_record(r));
}

/// Decoding the bytes a run of questions encodes to gives the run
/// back, question for question.
pub proof fn lemma_questions_seq_roundtrip(data: Seq<u8>, p: int, qs: Seq<QuestionView>)
    requires
        data.len() == 512,
        forall|i: int|
            0 <= i < qs.len() ==> valid_name(#[trigger] qs[i].name) && qs[i].qtype
                != QueryType::UNKNOWN(1),
        0 <= p,
        p + encode_questions(qs).len() <= 512,
        data.subrange(p, p + encode_questions(qs).len()) == encode_questions(qs),
    ensures
        parse_questions(data, p, qs.len() as nat) == Some(
            (qs, p + encode_questions(qs).len()),
        ),
    decreases qs.len(),
{
    if qs.len() == 0 {
        assert(qs =~~= Seq::<QuestionView>::empty());
    } else {
        let q0 = qs[0];
        let e0 = encode_question(q0);
        let rest = qs.drop_first();
        let enc = encode_questions(qs);
        assert(enc == e0 + encode_questions(rest));
        assert forall|i: int| 0 <= i < enc.len() implies data[p + i] == enc[i] by {
            assert(data.subrange(p, p + enc.len())[i] == data[p + i]);
        }
        assert forall|i: int| 0 <= i < e0.len() implies data[p + i] == e0[i] by {
            assert(enc[i] == e0[i]);
        }
        assert(data.subrange(p, p + e0.len()) =~= e0);
        lemma_question_roundtrip(data, p, q0);
        let p2 = p + e0.len();
        let enc2 = encode_questions(rest);
        assert forall|i: int| 0 <= i < enc2.len() implies data[p2 + i] == enc2[i] by {
            assert(enc[e0.len() + i] == enc2[i]);
        }
        assert(data.subrange(p2, p2 + enc2.len()) =~= enc2);
        assert forall|i: int|
            0 <= i < rest.len() implies valid_name(#[trigger] rest[i].name) && rest[i].qtype
                != QueryType::UNKNOWN(1) by {
            assert(rest[i] == qs[i + 1]);
        }
        lemma_questions_seq_roundtrip(data, p2, rest);
        assert(seq![q0] + rest =~~= qs);
    }
}

/// Decoding the bytes a run of address records encodes to gives the
/// run back, record for record.
pub proof fn lemma_records_seq_roundtrip(data: Seq<u8>, p: int, rs: Seq<RecordView>)
    requires
        data.len() == 512,
        forall|i: int|
            0 <= i < rs.len() ==> (#[trigger] rs[i]) is A && valid_name(rs[i]->A_domain),
        0 <= p,
        p + encode_records(rs).len() <= 512,
        data.subrange(p, p + encode_records(rs).len()) == encode_records(rs),
    ensures
        parse_records(data, p, rs.len() as nat) == Some((rs, p + encode_records(rs).len())),
    decreases rs.len(),
{
    if rs.len() == 0 {
        assert(rs =~~= Seq::<RecordView>::empty());
    } else {
        let r0 = rs[0];
        let e0 = encode_record(r0);
        let rest = rs.drop_first();
        let enc = encode_records(rs);
        assert(enc == e0 + encode_records(rest));
        assert forall|i: int| 0 <= i < enc.len() implies data[p + i] == enc[i] by {
            assert(data.subrange(p, p + enc.len())[i] == data[p + i]);
        }
        assert forall|i: int| 0 <= i < e0.len() implies data[p + i] == e0[i] by {
            assert(enc[i] == e0[i]);
        }
        assert(data.subrange(p, p + e0.len()) =~= e0);
        lemma_record_roundtrip(data, p, r0);
        let p2 = p + e0.len();
        let enc2 = encode_records(rest);
        assert forall|i: int| 0 <= i < enc2.len() implies data[p2 + i] == enc2[i] by {
            assert(enc[e0.len() + i] == enc2[i]);
        }
        assert(data.subrange(p2, p2 + enc2.len()) =~= enc2);
        assert forall|i: int|
            0 <= i < rest.len() implies (#[trigger] rest[i]) is A && valid_name(
                rest[i]->A_domain,
            ) by {
            assert(rest[i] == rs[i + 1]);
        }
        lemma_records_seq_roundtrip(data, p2, rest);
        assert(seq![r0] + rest =~~= rs);
    }
}

/// A message whose decoding must reproduce it: the opcode in range,
/// the section lengths within their 16-bit counts, every name a valid
/// lowercase name, question types never `UNKNOWN(1)`, and every record
/// an address record — an opaque record's payload is skipped on read,
/// so only address records survive a round trip whole.
pub open spec fn roundtrippable(pv: PacketView) -> bool {
    &&& pv.header.wf()
    &&& pv.questions.len() <= 0xFFFF
    &&& pv.answers.len() <= 0xFFFF
    &&& pv.authorities.len() <= 0xFFFF
    &&& pv.resources.len() <= 0xFFFF
    &&& forall|i: int|
        0 <= i < pv.questions.len() ==> valid_name(#[trigger] pv.questions[i].name)
            && pv.questions[i].qtype != QueryType::UNKNOWN(1)
    &&& forall|i: int|
        0 <= i < pv.answers.len() ==> (#[trigger] pv.answers[i]) is A && valid_name(
            pv.answers[i]->A_domain,
        )
    &&& forall|i: int|
        0 <= i < pv.authorities.len() ==> (#[trigger] pv.authorities[i]) is A && valid_name(
            pv.authorities[i]->A_domain,
        )
    &&& forall|i: int|
        0 <= i < pv.resources.len() ==> (#[trigger] pv.resources[i]) is A && valid_name(
            pv.resources[i]->A_domain,
        )
}

/// Round trip: decoding the bytes a message encodes to gives the
/// message back exactly, except that its header counts are the
/// recomputed section lengths — which encoding forces anyway.
#[verifier::rlimit(100)]
pub proof fn lemma_packet_roundtrip(data: Seq<u8>, pv: PacketView)
    requires
        data.len() == 512,
        roundtrippable(pv),
        encode_packet(recount(pv)).len() <= 512,
        data.subrange(0, encode_packet(recount(pv)).len() as int) == encode_packet(
            recount(pv),
        ),
    ensures
        parse_packet(data, 0) == Some(
            (recount(pv), encode_packet(recount(pv)).len() as int),
        ),
{
    let rpv = recount(pv);
    let enc = encode_packet(rpv);
    let eh = encode_header(rpv.header);
    let eq = encode_questions(rpv.questions);
    let ea = encode_records(rpv.answers);
    let eu = encode_records(rpv.authorities);
    let er = encode_records(rpv.resources);
    assert(eh.len() == 12);
    assert forall|i: int| 0 <= i < enc.len() implies data[i] == enc[i] by {
        assert(data.subrange(0, enc.len() as int)[i] == data[i]);
    }
    assert forall|i: int| 0 <= i < 12 implies data[i] == eh[i] by {
        assert(enc[i] == eh[i]);
    }
    assert(data.subrange(0, 12) =~= eh);
    lemma_header_roundtrip(rpv.header, data, 0);
    let p1: int = 12;
    assert forall|i: int| 0 <= i < eq.len() implies data[p1 + i] == eq[i] by {
        assert(enc[p1 + i] == eq[i]);
    }
    assert(data.subrange(p1, p1 + eq.len()) =~= eq);
    lemma_questions_seq_roundtrip(data, p1, rpv.questions);
    let p2 = p1 + eq.len();
    assert forall|i: int| 0 <= i < ea.len() implies data[p2 + i] == ea[i] by {
        assert(enc[p2 + i] == ea[i]);
    }
    assert(data.subrange(p2, p2 + ea.len()) =~= ea);
    lemma_records_seq_roundtrip(data, p2, rpv.answers);
    let p3 = p2 + ea.len();
    assert forall|i: int| 0 <= i < eu.len() implies data[p3 + i] == eu[i] by {
        assert(enc[p3 + i] == eu[i]);
    }
    assert(data.subrange(p3, p3 + eu.len()) =~= eu);
    lemma_records_seq_roundtrip(data, p3, rpv.authorities);
    let p4 = p3 + eu.len();
    assert forall|i: int| 0 <= i < er.len() implies data[p4 + i] == er[i] by {
        assert(enc[p4 + i] == er[i]);
    }
    assert(data.subrange(p4, p4 + er.len()) =~= er);
    lemma_records_seq_roundtrip(data, p4, rpv.resources);
    assert(parse_header(data, 0).questions as nat == rpv.questions.len());
    assert(parse_header(data, 0).answers as nat == rpv.answers.len());
    assert(parse_header(data, 0).authoritative_entries as nat == rpv.authorities.len());
    assert(parse_header(data, 0).resource_entries as nat == rpv.resources.len());
}

/// Reads `count` questions one after another.
fn read_questions(buffer: &mut BytePacketBuffer, count: u16) -> (r: Result<
    Vec<DnsQuestion>,
    DnsError,
>)
    requires
        old(buffer).wf(),
    ensures
        final(buffer).wf(),
        final(buffer).buf@ == old(buffer).buf@,
        r is Ok <==> parse_questions(
            old(buffer).buf@,
            old(buffer).pos as int,
            count as nat,
        ) is Some,
        r is Ok ==> ({
            let (qs, e) = parse_questions(
                old(buffer).buf@,
                old(buffer).pos as int,
                count as nat,
            ).unwrap();
            r->Ok_0@.map_values(|q: DnsQuestion| q@) == qs && final(buffer).pos == e
        }),
{
    let ghost data = buffer.buf@;
    let ghost start = buffer.pos as int;
    let mut qs: Vec<DnsQuestion> = Vec::new();
    let mut i: u16 = 0;
    proof {
        assert(qs@.map_values(|q: DnsQuestion| q@) =~= Seq::<QuestionView>::empty());
    }
    while i < count
        invariant
            i <= count,
            data == old(buffer).buf@,
            start == old(buffer).pos,
            buffer.wf(),
            buffer.buf@ == data,
            match parse_questions(data, buffer.pos as int, (count - i) as nat) {
                Some((rest, e)) => parse_questions(data, start, count as nat) == Some(
                    (qs@.map_values(|q: DnsQuestion| q@) + rest, e),
                ),
                None => parse_questions(data, start, count as nat) is None,
            },
        decreases count - i,
    {
        let ghost p = buffer.pos as int;
        let mut question = DnsQuestion::new(Vec::new(), QueryType::UNKNOWN(0));
        question.read(buffer)?;
        proof {
            let (qv, e1) = parse_question(data, p).unwrap();
            assert(question@.name =~= qv.name);
            assert(question@ == qv);
        }
        let ghost pre = qs@;
        qs.push(question);
        proof {
            let qv = parse_question(data, p).unwrap().0;
            let prev = pre.map_values(|q: DnsQuestion| q@);
            assert(qs@.map_values(|q: DnsQuestion| q@) =~= prev.push(qv));
            if parse_questions(data, buffer.pos as int, (count - (i + 1)) as nat) is Some {
                let rest2 = parse_questions(
                    data,
                    buffer.pos as int,
                    (count - (i + 1)) as nat,
                ).unwrap().0;
                assert(prev + (seq![qv] + rest2) =~= prev.push(qv) + rest2);
            }
        }
        i = i + 1;
    }
    proof {
        assert(qs@.map_values(|q: DnsQuestion| q@) + Seq::<QuestionView>::empty()
            =~= qs@.map_values(|q: DnsQuestion| q@));
    }
    Ok(qs)
}

/// Reads `count` records one after another.
fn read_records(buffer: &mut BytePacketBuffer, count: u16) -> (r: Result<
    Vec<DnsRecord>,
    DnsError,
>)
    requires
        old(buffer).wf(),
    ensures
        final(buffer).wf(),
        final(buffer).buf@ == old(buffer).buf@,
        r is Ok <==> parse_records(
            old(buffer).buf@,
            old(buffer).pos as int,
            count as nat,
        ) is Some,
        r is Ok ==> ({
            let (rs, e) = parse_records(
                old(buffer).buf@,
                old(buffer).pos as int,
                count as nat,
            ).unwrap();
            r->Ok_0@.map_values(|x: DnsRecord| x@) == rs && final(buffer).pos == e
        }),
{
    let ghost data = buffer.buf@;
    let ghost start = buffer.pos as int;
    let mut rs: Vec<DnsRecord> = Vec::new();
    let mut i: u16 = 0;
    proof {
        assert(rs@.map_values(|x: DnsRecord| x@) =~= Seq::<RecordView>::empty());
    }
    while i < count
        invariant
            i <= count,
            data == old(buffer).buf@,
            start == old(buffer).pos,
            buffer.wf(),
            buffer.buf@ == data,
            match parse_records(data, buffer.pos as int, (count - i) as nat) {
                Some((rest, e)) => parse_records(data, start, count as nat) == Some(
                    (rs@.map_values(|x: DnsRecord| x@) + rest, e),
                ),
                None => parse_records(data, start, count as nat) is None,
            },
        decreases count - i,
    {
        let ghost p = buffer.pos as int;
        let rec = DnsRecord::read(buffer)?;
        let ghost pre = rs@;
        rs.push(rec);
        proof {
            let rv = parse_record(data, p).unwrap().0;
            let prev = pre.map_values(|x: DnsRecord| x@);
            assert(rs@.map_values(|x: DnsRecord| x@) =~= prev.push(rv));
            if parse_records(data, buffer.pos as int, (count - (i + 1)) as nat) is Some {
                let rest2 = parse_records(
                    data,
                    buffer.pos as int,
                    (count - (i + 1)) as nat,
                ).unwrap().0;
                assert(prev + (seq![rv] + rest2) =~= prev.push(rv) + rest2);
            }
        }
        i = i + 1;
    }
    proof {
        assert(rs@.map_values(|x: DnsRecord| x@) + Seq::<RecordView>::empty()
            =~= rs@.map_values(|x: DnsRecord| x@));
    }
    Ok(rs)
}

/// Writes every question of a run at the buffer's cursor.
#[verifier::rlimit(100)]
fn write_questions(buffer: &mut BytePacketBuffer, qs: &Vec<DnsQuestion>) -> (r: Result<
    (),
    DnsError,
>)
    requires
        old(buffer).wf(),
    ensures
        final(buffer).wf(),
        ({
            let views = qs@.map_values(|q: DnsQuestion| q@);
            &&& (r is Ok <==> questions_fit(views) && old(buffer).pos + encode_questions(
                views,
            ).len() <= 512)
            &&& (r is Ok ==> final(buffer).buf@ == spliced(
                old(buffer).buf@,
                old(buffer).pos as int,
                encode_questions(views),
            ) && final(buffer).pos == old(buffer).pos + encode_questions(views).len())
            &&& (r is Err ==> r->Err_0 == DnsError::LabelTooLong || r->Err_0
                == DnsError::EndOfBuffer)
            &&& (r is Err && r->Err_0 == DnsError::LabelTooLong ==> !questions_fit(views))
            &&& (r is Err && r->Err_0 == DnsError::EndOfBuffer ==> old(buffer).pos
                + encode_questions(views).len() > 512)
        }),
{
    let ghost data0 = buffer.buf@;
    let ghost p0 = buffer.pos as int;
    let ghost views = qs@.map_values(|q: DnsQuestion| q@);
    let mut i: usize = 0;
    proof {
        assert(views.take(0) =~= Seq::<QuestionView>::empty());
        assert(spliced(data0, p0, seq![]) =~= data0);
    }
    while i < qs.len()
        invariant
            i <= qs@.len(),
            views == qs@.map_values(|q: DnsQuestion| q@),
            data0 == old(buffer).buf@,
            p0 == old(buffer).pos,
            data0.len() == 512,
            0 <= p0 <= 512,
            buffer.wf(),
            buffer.buf@ == spliced(data0, p0, encode_questions(views.take(i as int))),
            buffer.pos == p0 + encode_questions(views.take(i as int)).len(),
            forall|j: int|
                0 <= j < i ==> labels_fit(split_dots(#[trigger] views[j].name)),
        decreases qs@.len() - i,
    {
        let ghost done = views.take(i as int);
        let q = &qs[i];
        proof {
            assert(q@ == views[i as int]);
            lemma_view_take_decompose_q(views, i as int);
        }
        let res = q.write(buffer);
        proof {
            if res is Ok {
                lemma_spliced_concat(data0, p0, encode_questions(done), encode_question(
                    q@,
                ));
                assert(views.take(i + 1) =~= done.push(q@));
                lemma_encode_questions_push(done, q@);
            } else {
                if res->Err_0 == DnsError::LabelTooLong {
                    assert(!labels_fit(split_dots(views[i as int].name)));
                }
            }
        }
        if let Err(e) = res {
            return Err(e);
        }
        i = i + 1;
    }
    proof {
        assert(views.take(views.len() as int) =~= views);
    }
    Ok(())
}

/// The tail of a run's encoding is at least one entry's encoding long:
/// what makes a mid-run failure a failure of the whole run.
#[verifier::rlimit(100)]
proof fn lemma_view_take_decompose_q(views: Seq<QuestionView>, i: int)
    requires
        0 <= i < views.len(),
    ensures
        encode_questions(views).len() >= encode_questions(views.take(i)).len()
            + encode_question(views[i]).len(),
{
    lemma_encode_questions_concat(views.take(i), views.skip(i));
    assert(views.take(i) + views.skip(i) =~= views);
    lemma_encode_questions_concat(seq![views[i]], views.skip(i + 1));
    assert(seq![views[i]] + views.skip(i + 1) =~= views.skip(i));
    assert(seq![views[i]].drop_first() =~= Seq::<QuestionView>::empty());
    assert(encode_questions(Seq::<QuestionView>::empty()) == Seq::<u8>::empty());
    assert(seq![views[i]][0] == views[i]);
    assert(encode_questions(seq![views[i]]) =~= encode_question(views[i]));
}

/// As above, for records.
#[verifier::rlimit(100)]
proof fn lemma_view_take_decompose_r(views: Seq<RecordView>, i: int)
    requires
        0 <= i < views.len(),
    ensures
        encode_records(views).len() >= encode_records(views.take(i)).len() + encode_record(
            views[i],
        ).len(),
{
    lemma_encode_records_concat(views.take(i), views.skip(i));
    assert(views.take(i) + views.skip(i) =~= views);
    lemma_encode_records_concat(seq![views[i]], views.skip(i + 1));
    assert(seq![views[i]] + views.skip(i + 1) =~= views.skip(i));
    assert(seq![views[i]].drop_first() =~= Seq::<RecordView>::empty());
    assert(encode_records(Seq::<RecordView>::empty()) == Seq::<u8>::empty());
    assert(seq![views[i]][0] == views[i]);
    assert(encode_records(seq![views[i]]) =~= encode_record(views[i]));
}

/// Writes every record of a run at the buffer's cursor.
#[verifier::rlimit(100)]
fn write_records(buffer: &mut BytePacketBuffer, rs: &Vec<DnsRecord>) -> (r: Result<
    (),
    DnsError,
>)
    requires
        old(buffer).wf(),
    ensures
        final(buffer).wf(),
        ({
            let views = rs@.map_values(|x: DnsRecord| x@);
            &&& (r is Ok <==> records_fit(views) && old(buffer).pos + encode_records(
                views,
            ).len() <= 512)
            &&& (r is Ok ==> final(buffer).buf@ == spliced(
                old(buffer).buf@,
                old(buffer).pos as int,
                encode_records(views),
            ) && final(buffer).pos == old(buffer).pos + encode_records(views).len())
            &&& (r is Err ==> r->Err_0 == DnsError::LabelTooLong || r->Err_0
                == DnsError::EndOfBuffer)
            &&& (r is Err && r->Err_0 == DnsError::LabelTooLong ==> !records_fit(views))
            &&& (r is Err && r->Err_0 == DnsError::EndOfBuffer ==> old(buffer).pos
                + encode_records(views).len() > 512)
        }),
{
    let ghost data0 = buffer.buf@;
    let ghost p0 = buffer.pos as int;
    let ghost views = rs@.map_values(|x: DnsRecord| x@);
    let mut i: usize = 0;
    proof {
        assert(views.take(0) =~= Seq::<RecordView>::empty());
        assert(spliced(data0, p0, seq![]) =~= data0);
    }
    while i < rs.len()
        invariant
            i <= rs@.len(),
            views == rs@.map_values(|x: DnsRecord| x@),
            data0 == old(buffer).buf@,
            p0 == old(buffer).pos,
            data0.len() == 512,
            0 <= p0 <= 512,
            buffer.wf(),
            buffer.buf@ == spliced(data0, p0, encode_records(views.take(i as int))),
            buffer.pos == p0 + encode_records(views.take(i as int)).len(),
            forall|j: int| 0 <= j < i ==> record_labels_fit(#[trigger] views[j]),
        decreases rs@.len() - i,
    {
        let ghost done = views.take(i as int);
        let rec = &rs[i];
        proof {
            assert(rec@ == views[i as int]);
            lemma_view_take_decompose_r(views, i as int);
        }
        let res = rec.write(buffer);
        proof {
            if res is Ok {
                lemma_spliced_concat(data0, p0, encode_records(done), encode_record(rec@));
                assert(views.take(i + 1) =~= done.push(rec@));
                lemma_encode_records_push(done, rec@);
            } else {
                if res->Err_0 == DnsError::LabelTooLong {
                    assert(!record_labels_fit(views[i as int]));
                }
            }
        }
        if let Err(e) = res {
            return Err(e);
        }
        i = i + 1;
    }
    proof {
        assert(views.take(views.len() as int) =~= views);
    }
    Ok(())
}

impl DnsPacket {
    /// An empty message under a cleared header.
    pub fn new() -> (r: DnsPacket)
        ensures
            r@ == (PacketView {
                header: header_new(),
                questions: Seq::empty(),
                answers: Seq::empty(),
                authorities: Seq::empty(),
                resources: Seq::empty(),
            }),
            r@.header.wf(),
    {
        let r = DnsPacket {
            header: DnsHeader::new(),
            questions: Vec::new(),
            answers: Vec::new(),
            authorities: Vec::new(),
            resources: Vec::new(),
        };
        proof {
            assert(r.questions@.map_values(|q: DnsQuestion| q@) =~= Seq::<
                QuestionView,
            >::empty());
            assert(r.answers@.map_values(|x: DnsRecord| x@) =~= Seq::<RecordView>::empty());
            assert(r.authorities@.map_values(|x: DnsRecord| x@) =~= Seq::<
                RecordView,
            >::empty());
            assert(r.resources@.map_values(|x: DnsRecord| x@) =~= Seq::<
                RecordView,
            >::empty());
        }
        r
    }

    /// Decodes a whole message at the buffer's cursor: the header, then
    /// as many questions and records as its counts promise.  A count
    /// that outruns the buffer fails the whole decode.
    pub fn from_buffer(buffer: &mut BytePacketBuffer) -> (r: Result<DnsPacket, DnsError>)
        requires
            old(buffer).wf(),
        ensures
            final(buffer).wf(),
            final(buffer).buf@ == old(buffer).buf@,
            r is Ok <==> parse_packet(old(buffer).buf@, old(buffer).pos as int) is Some,
            r is Ok ==> ({
                let (pv, e) = parse_packet(old(buffer).buf@, old(buffer).pos as int).unwrap();
                r->Ok_0@ == pv && final(buffer).pos == e
            }),
    {
        let ghost data = buffer.buf@;
        let ghost p = buffer.pos as int;
        let mut result = DnsPacket::new();
        result.header.read(buffer)?;
        let qs = read_questions(buffer, result.header.questions)?;
        result.questions = qs;
        let ans = read_records(buffer, result.header.answers)?;
        result.answers = ans;
        let auth = read_records(buffer, result.header.authoritative_entries)?;
        result.authorities = auth;
        let res = read_records(buffer, result.header.resource_entries)?;
        result.resources = res;
        Ok(result)
    }

    /// Encodes this message at the buffer's cursor: first the header's
    /// four counts are overwritten with the actual section lengths, then
    /// header, questions and the three record sections are written in
    /// their fixed order.  An opaque record still counts toward its
    /// section's count but contributes no bytes (its payload was skipped
    /// on read), so a message holding one declares more records than its
    /// bytes carry — the cost of forwarding without retaining payloads.
    #[verifier::rlimit(100)]
    pub fn write(&mut self, buffer: &mut BytePacketBuffer) -> (r: Result<(), DnsError>)
        requires
            old(buffer).wf(),
            old(self).header.wf(),
            old(self).questions@.len() <= 0xFFFF,
            old(self).answers@.len() <= 0xFFFF,
            old(self).authorities@.len() <= 0xFFFF,
            old(self).resources@.len() <= 0xFFFF,
        ensures
            final(buffer).wf(),
            final(self)@ == recount(old(self)@),
            r is Ok <==> sections_fit(old(self)@) && old(buffer).pos + encode_packet(
                recount(old(self)@),
            ).len() <= 512,
            r is Ok ==> final(buffer).buf@ == spliced(
                old(buffer).buf@,
                old(buffer).pos as int,
                encode_packet(recount(old(self)@)),
            ) && final(buffer).pos == old(buffer).pos + encode_packet(
                recount(old(self)@),
            ).len(),
            r is Err ==> r->Err_0 == DnsError::LabelTooLong || r->Err_0
                == DnsError::EndOfBuffer,
            r is Err && r->Err_0 == DnsError::LabelTooLong ==> !sections_fit(old(self)@),
            r is Err && r->Err_0 == DnsError::EndOfBuffer ==> old(buffer).pos
                + encode_packet(recount(old(self)@)).len() > 512,
    {
        let ghost data0 = buffer.buf@;
        let ghost p0 = buffer.pos as int;
        self.header.questions = self.questions.len() as u16;
        self.header.answers = self.answers.len() as u16;
        self.header.authoritative_entries = self.authorities.len() as u16;
        self.header.resource_entries = self.resources.len() as u16;
        let ghost pv = recount(old(self)@);
        proof {
            assert(self.header == pv.header);
        }
        self.header.write(buffer)?;
        let ghost s1 = encode_header(pv.header);
        write_questions(buffer, &self.questions)?;
        proof {
            lemma_spliced_concat(data0, p0, s1, encode_questions(pv.questions));
        }
        let ghost s2 = s1 + encode_questions(pv.questions);
        write_records(buffer, &self.answers)?;
        proof {
            lemma_spliced_concat(data0, p0, s2, encode_records(pv.answers));
        }
        let ghost s3 = s2 + encode_records(pv.answers);
        write_records(buffer, &self.authorities)?;
        proof {
            lemma_spliced_concat(data0, p0, s3, encode_records(pv.authorities));
        }
        let ghost s4 = s3 + encode_records(pv.authorities);
        write_records(buffer, &self.resources)?;
        proof {
            lemma_spliced_concat(data0, p0, s4, encode_records(pv.resources));
        }
        Ok(())
    }
}

} // verus!
