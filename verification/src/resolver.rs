use vstd::prelude::*;

use crate::dns_header::{header_new, DnsHeader};
use crate::dns_packet::{DnsPacket, PacketView};
use crate::dns_question::{DnsQuestion, QuestionView};
use crate::query_type::QueryType;
use crate::result_code::ResultCode;

verus! {

/// A byte-for-byte copy of a name.
fn copy_name(v: &Vec<u8>) -> (r: Vec<u8>)
    ensures
        r@ == v@,
{
    let mut r: Vec<u8> = Vec::new();
    let mut i: usize = 0;
    while i < v.len()
        invariant
            i <= v@.len(),
            r@ == v@.subrange(0, i as int),
        decreases v@.len() - i,
    {
        r.push(v[i]);
        proof {
            assert(v@.subrange(0, i + 1) =~= v@.subrange(0, i as int).push(v@[i as int]));
        }
        i = i + 1;
    }
    proof {
        assert(v@.subrange(0, v@.len() as int) =~= v@);
    }
    r
}

/// The query the resolver relays upstream: a fixed correlation id, the
/// recursion-desired bit, and exactly the one question asked.  The id
/// is a constant, not random, and nothing later checks that the
/// upstream's reply carries it — a known gap of this design, kept as
/// built.
pub fn build_query(qname: Vec<u8>, qtype: QueryType) -> (r: DnsPacket)
    ensures
        r@ == (PacketView {
            header: DnsHeader { id: 6666, questions: 1, recursion_desired: true, ..header_new() },
            questions: seq![QuestionView { name: qname@, qtype }],
            answers: Seq::empty(),
            authorities: Seq::empty(),
            resources: Seq::empty(),
        }),
        r@.header.wf(),
{
    let mut packet = DnsPacket::new();
    packet.header.id = 6666;
    packet.header.questions = 1;
    packet.header.recursion_desired = true;
    packet.questions.push(DnsQuestion::new(qname, qtype));
    proof {
        assert(packet.questions@.map_values(|q: DnsQuestion| q@) =~= seq![
            QuestionView { name: qname@, qtype },
        ]);
    }
    packet
}

/// The response the server sends back, assembled from the request and
/// what became of the upstream round trip.  The request's id is copied
/// and the response, recursion-desired and recursion-available bits are
/// set.  A request without a question is answered FORMERR, header
/// only.  Otherwise `upstream` is the upstream's decoded answer where
/// the round trip succeeded: its result code and all three record
/// sections are copied over, under the request's first question; where
/// it failed, the response says SERVFAIL and carries no records.
pub fn build_response(request: &DnsPacket, upstream: Option<DnsPacket>) -> (r: DnsPacket)
    ensures
        r@.header.id == request@.header.id,
        r@.header.recursion_desired,
        r@.header.recursion_available,
        r@.header.response,
        r@.header.wf(),
        request@.questions.len() == 0 ==> r@ == (PacketView {
            header: DnsHeader {
                id: request@.header.id,
                recursion_desired: true,
                recursion_available: true,
                response: true,
                rescode: ResultCode::FORMERR,
                ..header_new()
            },
            questions: Seq::empty(),
            answers: Seq::empty(),
            authorities: Seq::empty(),
            resources: Seq::empty(),
        }),
        request@.questions.len() > 0 && upstream is Some ==> r@ == (PacketView {
            header: DnsHeader {
                id: request@.header.id,
                recursion_desired: true,
                recursion_available: true,
                response: true,
                rescode: upstream->0@.header.rescode,
                ..header_new()
            },
            questions: seq![request@.questions[0]],
            answers: upstream->0@.answers,
            authorities: upstream->0@.authorities,
            resources: upstream->0@.resources,
        }),
        request@.questions.len() > 0 && upstream is None ==> r@ == (PacketView {
            header: DnsHeader {
                id: request@.header.id,
                recursion_desired: true,
                recursion_available: true,
                response: true,
                rescode: ResultCode::SERVFAIL,
                ..header_new()
            },
            questions: Seq::empty(),
            answers: Seq::empty(),
            authorities: Seq::empty(),
            resources: Seq::empty(),
        }),
{
    let mut packet = DnsPacket::new();
    packet.header.id = request.header.id;
    packet.header.recursion_desired = true;
    packet.header.recursion_available = true;
    packet.header.response = true;

    if request.questions.len() == 0 {
        packet.header.rescode = ResultCode::FORMERR;
    } else {
        match upstream {
            Some(result) => {
                let question = &request.questions[0];
                packet.questions.push(
                    DnsQuestion::new(copy_name(&question.name), question.qtype),
                );
                packet.header.rescode = result.header.rescode;
                packet.answers = result.answers;
                packet.authorities = result.authorities;
                packet.resources = result.resources;
                proof {
                    assert(packet.questions@.map_values(|q: DnsQuestion| q@) =~= seq![
                        request@.questions[0],
                    ]);
                }
            },
            None => {
                packet.header.rescode = ResultCode::SERVFAIL;
            },
        }
    }
    packet
}

} // verus!
