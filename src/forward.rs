use vstd::prelude::*;
use vstd::slice::slice_to_vec;
use crate::buffer::{lemma_splice_holds, BytePacketBuffer, BUF_SIZE};
use crate::error::DnsError;
use crate::header::{DnsHeader, ResultCode};
use crate::packet::{packet_octets, parse_packet, with_counts, DnsPacket, PacketModel};
use crate::question::{DnsQuestion, QueryType, QuestionModel};

verus! {

/// The most entries that a section count can state.
pub const MAX_COUNT: usize = 0xffff;

/// The header of every response: the request's id, QR, RD and RA set, the
/// given response code, everything else clear.
pub open spec fn response_header(id: u16, rescode: ResultCode) -> DnsHeader {
    DnsHeader {
        id: id,
        response: true,
        recursion_desired: true,
        recursion_available: true,
        rescode: rescode,
        ..DnsHeader::new_spec()
    }
}

/// The header of a query sent upstream: the given id, RD set, one question.
pub open spec fn query_header(id: u16) -> DnsHeader {
    DnsHeader { id: id, recursion_desired: true, questions: 1, ..DnsHeader::new_spec() }
}

/// The question to forward: the request's first one, if it has any.
pub fn first_question(request: &DnsPacket) -> (r: Option<DnsQuestion>)
    ensures
        request.questions@.len() == 0 <==> r is None,
        r matches Some(q) ==> q.name == request.questions@[0].name && q.qtype == request.questions@[0].qtype,
{
    if request.questions.len() == 0 {
        None
    } else {
        let q = &request.questions[0];
        Some(DnsQuestion { name: q.name.clone(), qtype: q.qtype })
    }
}

/// The query to send upstream for one question.
pub fn query_packet(qname: &String, qtype: QueryType, id: u16) -> (r: DnsPacket)
    ensures
        r.header == query_header(id),
        r.questions@.len() == 1,
        r.questions@[0]@ == (QuestionModel { name: qname@, qtype: qtype }),
        r.answers@.len() == 0,
        r.authorities@.len() == 0,
        r.resources@.len() == 0,
{
    let mut packet = DnsPacket::new();
    packet.header.id = id;
    packet.header.questions = 1;
    packet.header.recursion_desired = true;
    packet.questions.push(DnsQuestion::new(qname.clone(), qtype));
    packet
}

/// Decodes what the upstream resolver sent back for the query with id
/// `query_id`. Any decoding failure, or a reply to another query, is an
/// upstream failure.
pub fn upstream_reply(query_id: u16, buffer: &mut BytePacketBuffer) -> (r: Result<DnsPacket, DnsError>)
    ensures
        final(buffer).buf == old(buffer).buf,
        r is Ok <==> parse_packet(old(buffer).bytes(), old(buffer).pos as int) is Ok
            && parse_packet(old(buffer).bytes(), old(buffer).pos as int)->Ok_0.0.header.id == query_id,
        r matches Ok(pk) ==> pk@ == parse_packet(old(buffer).bytes(), old(buffer).pos as int)->Ok_0.0,
        r matches Err(e) ==> e == DnsError::UpstreamFailure,
{
    match DnsPacket::from_buffer(buffer) {
        Ok(packet) => {
            if packet.header.id == query_id {
                Ok(packet)
            } else {
                Err(DnsError::UpstreamFailure)
            }
        },
        Err(_) => Err(DnsError::UpstreamFailure),
    }
}

/// The response to `request`, given what the upstream resolver answered for
/// its first question. Without a question the response is FORMERR; after an
/// upstream failure it is SERVFAIL with empty sections; otherwise it carries
/// the question, the upstream response code and the upstream's three record
/// sections in order.
pub fn build_response(request: &DnsPacket, upstream: Result<DnsPacket, DnsError>) -> (r: DnsPacket)
    ensures
        r.header.id == request.header.id,
        request.questions@.len() == 0 ==> ({
            &&& r.header == response_header(request.header.id, ResultCode::FORMERR)
            &&& r.questions@.len() == 0
            &&& r.answers@.len() == 0
            &&& r.authorities@.len() == 0
            &&& r.resources@.len() == 0
        }),
        request.questions@.len() > 0 && upstream is Err ==> ({
            &&& r.header == response_header(request.header.id, ResultCode::SERVFAIL)
            &&& r.questions@.len() == 0
            &&& r.answers@.len() == 0
            &&& r.authorities@.len() == 0
            &&& r.resources@.len() == 0
        }),
        request.questions@.len() > 0 && upstream is Ok ==> ({
            let up = upstream->Ok_0;
            &&& r.header == response_header(request.header.id, up.header.rescode)
            &&& r.questions@.len() == 1
            &&& r.questions@[0]@ == request.questions@[0]@
            &&& r.answers@ == up.answers@
            &&& r.authorities@ == up.authorities@
            &&& r.resources@ == up.resources@
        }),
{
    let mut packet = DnsPacket::new();
    packet.header.id = request.header.id;
    packet.header.recursion_desired = true;
    packet.header.recursion_available = true;
    packet.header.response = true;
    match first_question(request) {
        Some(question) => {
            match upstream {
                Ok(result) => {
                    packet.questions.push(question);
                    packet.header.rescode = result.header.rescode;
                    packet.answers = result.answers;
                    packet.authorities = result.authorities;
                    packet.resources = result.resources;
                },
                Err(_) => {
                    packet.header.rescode = ResultCode::SERVFAIL;
                },
            }
        },
        None => {
            packet.header.rescode = ResultCode::FORMERR;
        },
    }
    packet
}

impl DnsPacket {
    /// Writes the message into a fresh buffer and returns the octets written.
    /// A section with more entries than a count can state cannot be written.
    pub fn to_bytes(&mut self) -> (r: Result<Vec<u8>, DnsError>)
        ensures
            ({
                let fits = old(self).questions@.len() <= MAX_COUNT && old(self).answers@.len() <= MAX_COUNT
                    && old(self).authorities@.len() <= MAX_COUNT && old(self).resources@.len() <= MAX_COUNT;
                &&& (!fits ==> r == Err::<Vec<u8>, DnsError>(DnsError::OutOfBounds) && *final(self) == *old(self))
                &&& (fits ==> {
                    &&& final(self).header == with_counts(
                        old(self).header,
                        old(self).questions@.len() as u16,
                        old(self).answers@.len() as u16,
                        old(self).authorities@.len() as u16,
                        old(self).resources@.len() as u16,
                    )
                    &&& final(self).questions == old(self).questions
                    &&& final(self).answers == old(self).answers
                    &&& final(self).authorities == old(self).authorities
                    &&& final(self).resources == old(self).resources
                    &&& (r is Ok <==> packet_octets(final(self)@, 0) is Ok)
                    &&& (r matches Err(e) ==> packet_octets(final(self)@, 0) == Err::<Seq<u8>, DnsError>(e))
                    &&& (r matches Ok(v) ==> v@ == packet_octets(final(self)@, 0)->Ok_0)
                })
            }),
    {
        if self.questions.len() > MAX_COUNT || self.answers.len() > MAX_COUNT
            || self.authorities.len() > MAX_COUNT || self.resources.len() > MAX_COUNT {
            return Err(DnsError::OutOfBounds);
        }
        let mut buffer = BytePacketBuffer::new();
        let ghost b = buffer.bytes();
        self.write(&mut buffer)?;
        let len = buffer.pos();
        proof {
            lemma_splice_holds(b, 0, packet_octets(self@, 0)->Ok_0);
        }
        let octets = buffer.get_range(0, len)?;
        Ok(slice_to_vec(octets))
    }
}

} // verus!
