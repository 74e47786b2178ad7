use vstd::prelude::*;
use vstd::utf8::*;
use crate::buffer::{be16_at, lemma_holds_part, lemma_splice_concat, placed, splice, u16_octets, BytePacketBuffer, BUF_SIZE};
use crate::error::DnsError;
use crate::name::{lemma_legal_name, lemma_name_round_trip, legal_name, lower_text, name_text, parse_name, qname_octets};

verus! {

/// The record type of a question or a record.
#[derive(Copy, Clone, Debug, PartialEq, Eq, Hash, Structural)]
pub enum QueryType {
    UNKNOWN(u16),
    A,
    NS,
    CNAME,
    MX,
    AAAA,
}

/// The wire code of a record type.
pub open spec fn qtype_num(t: QueryType) -> u16 {
    match t {
        QueryType::UNKNOWN(x) => x,
        QueryType::A => 1,
        QueryType::NS => 2,
        QueryType::CNAME => 5,
        QueryType::MX => 15,
        QueryType::AAAA => 28,
    }
}

/// The record type of a wire code.
pub open spec fn qtype_of(num: u16) -> QueryType {
    if num == 1 {
        QueryType::A
    } else if num == 2 {
        QueryType::NS
    } else if num == 5 {
        QueryType::CNAME
    } else if num == 15 {
        QueryType::MX
    } else if num == 28 {
        QueryType::AAAA
    } else {
        QueryType::UNKNOWN(num)
    }
}

/// A record type that is not UNKNOWN carrying the code of a known type.
pub open spec fn canonical_qtype(t: QueryType) -> bool {
    t matches QueryType::UNKNOWN(x) ==> x != 1 && x != 2 && x != 5 && x != 15 && x != 28
}

impl QueryType {
    pub fn to_num(&self) -> (r: u16)
        ensures
            r == qtype_num(*self),
    {
        match *self {
            QueryType::UNKNOWN(x) => x,
            QueryType::A => 1,
            QueryType::NS => 2,
            QueryType::CNAME => 5,
            QueryType::MX => 15,
            QueryType::AAAA => 28,
        }
    }

    pub fn from_num(num: u16) -> (r: QueryType)
        ensures
            r == qtype_of(num),
            qtype_num(r) == num,
    {
        match num {
            1 => QueryType::A,
            2 => QueryType::NS,
            5 => QueryType::CNAME,
            15 => QueryType::MX,
            28 => QueryType::AAAA,
            _ => QueryType::UNKNOWN(num),
        }
    }
}

/// Converting a record type to its code and back gives the same type, for
/// every type but UNKNOWN carrying the code of a known one.
pub proof fn lemma_qtype_round_trip(t: QueryType)
    requires
        canonical_qtype(t),
    ensures
        qtype_of(qtype_num(t)) == t,
{
}

/// A question: a name and a record type; the class is always IN.
#[derive(Debug, Clone, PartialEq, Eq)]
pub struct DnsQuestion {
    pub name: String,
    pub qtype: QueryType,
}

/// What a question says: the text of its name and its record type.
pub struct QuestionModel {
    pub name: Seq<char>,
    pub qtype: QueryType,
}

impl View for DnsQuestion {
    type V = QuestionModel;

    open spec fn view(&self) -> QuestionModel {
        QuestionModel { name: self.name@, qtype: self.qtype }
    }
}

/// The class IN, the only one written.
pub const CLASS_IN: u16 = 1;

/// A question on the wire, or why it has no wire form.
pub open spec fn question_octets(q: QuestionModel) -> Result<Seq<u8>, DnsError> {
    match qname_octets(encode_utf8(q.name)) {
        Ok(w) => Ok(w + u16_octets(qtype_num(q.qtype)) + u16_octets(CLASS_IN)),
        Err(e) => Err(e),
    }
}

/// The question at `p` of `b`, and where it ends.
pub open spec fn parse_question(b: Seq<u8>, p: int) -> Result<(QuestionModel, int), DnsError> {
    match parse_name(b, p) {
        Ok((labels, e)) => if e + 4 > BUF_SIZE {
            Err(DnsError::OutOfBounds)
        } else {
            Ok((QuestionModel { name: name_text(labels), qtype: qtype_of(be16_at(b, e)) }, e + 4))
        },
        Err(err) => Err(err),
    }
}

/// Encoding a question with a legal name and a canonical type, then decoding
/// the octets, gives the same question with its name lowercased.
pub proof fn lemma_question_round_trip(q: QuestionModel, b: Seq<u8>, p: int)
    requires
        legal_name(q.name),
        canonical_qtype(q.qtype),
        0 <= p,
        b.len() == BUF_SIZE,
        p + question_octets(q)->Ok_0.len() <= BUF_SIZE,
        b.subrange(p, p + question_octets(q)->Ok_0.len()) == question_octets(q)->Ok_0,
    ensures
        question_octets(q) is Ok,
        parse_question(b, p) == Ok::<(QuestionModel, int), DnsError>((
            QuestionModel { name: lower_text(q.name), qtype: q.qtype },
            p + question_octets(q)->Ok_0.len(),
        )),
{
    lemma_legal_name(q.name);
    let n = qname_octets(encode_utf8(q.name))->Ok_0;
    let w = question_octets(q)->Ok_0;
    lemma_holds_part(b, p, w, 0, n.len() as int);
    assert(w.subrange(0, n.len() as int) =~= n);
    lemma_name_round_trip(q.name, b, p);
    let e = p + n.len();
    lemma_holds_part(b, p, w, n.len() as int, 2);
    assert(w.subrange(n.len() as int, n.len() as int + 2) =~= u16_octets(qtype_num(q.qtype)));
    assert(b[e] == b.subrange(e, e + 2)[0] && b[e + 1] == b.subrange(e, e + 2)[1]);
}

impl DnsQuestion {
    pub fn new(name: String, qtype: QueryType) -> (r: DnsQuestion)
        ensures
            r.name == name,
            r.qtype == qtype,
    {
        DnsQuestion { name: name, qtype: qtype }
    }

    /// Reads a question at the cursor: appends its name to `self.name` and
    /// sets `self.qtype`; the class is read and dropped.
    pub fn read(&mut self, buffer: &mut BytePacketBuffer) -> (r: Result<(), DnsError>)
        ensures
            final(buffer).buf == old(buffer).buf,
            r is Ok <==> parse_question(old(buffer).bytes(), old(buffer).pos as int) is Ok,
            r matches Err(e) ==> parse_question(old(buffer).bytes(), old(buffer).pos as int) == Err::<
                (QuestionModel, int),
                DnsError,
            >(e),
            r is Ok ==> ({
                let (q, end) = parse_question(old(buffer).bytes(), old(buffer).pos as int)->Ok_0;
                &&& final(self).name@ == old(self).name@ + q.name
                &&& final(self).qtype == q.qtype
                &&& final(buffer).pos == end
            }),
    {
        buffer.read_qname(&mut self.name)?;
        let num = buffer.read_u16()?;
        self.qtype = QueryType::from_num(num);
        let _ = buffer.read_u16()?;
        Ok(())
    }

    /// Writes the question at the cursor: its name, type and class IN.
    pub fn write(&self, buffer: &mut BytePacketBuffer) -> (r: Result<(), DnsError>)
        ensures
            r is Ok <==> placed(old(buffer).pos as int, question_octets(self@)) is Ok,
            r matches Err(e) ==> placed(old(buffer).pos as int, question_octets(self@)) == Err::<Seq<u8>, DnsError>(e),
            r is Ok ==> ({
                let w = question_octets(self@)->Ok_0;
                &&& final(buffer).bytes() == splice(old(buffer).bytes(), old(buffer).pos as int, w)
                &&& final(buffer).pos == old(buffer).pos + w.len()
            }),
    {
        let ghost b = buffer.bytes();
        let ghost p = buffer.pos as int;
        buffer.write_qname(self.name.as_str())?;
        let ghost n = qname_octets(encode_utf8(self.name@))->Ok_0;
        let typenum = self.qtype.to_num();
        buffer.write_u16(typenum)?;
        buffer.write_u16(CLASS_IN)?;
        proof {
            lemma_splice_concat(b, p, n, u16_octets(typenum));
            lemma_splice_concat(b, p, n + u16_octets(typenum), u16_octets(CLASS_IN));
        }
        Ok(())
    }
}

} // verus!
