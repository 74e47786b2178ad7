use vstd::prelude::*;
use crate::buffer::{lemma_be16_read, lemma_holds_part, lemma_splice_concat, placed, splice, u16_octets, BytePacketBuffer, BUF_SIZE};
use crate::error::DnsError;
use crate::header::{header_at, header_octets, DnsHeader, HEADER_SIZE};
use crate::question::{parse_question, question_octets, DnsQuestion, QueryType, QuestionModel};
use crate::record::{parse_record, record_octets, DnsRecord, RecordModel};

verus! {

/// A DNS message: a header and its four sections.
#[derive(Clone, Debug)]
pub struct DnsPacket {
    pub header: DnsHeader,
    pub questions: Vec<DnsQuestion>,
    pub answers: Vec<DnsRecord>,
    pub authorities: Vec<DnsRecord>,
    pub resources: Vec<DnsRecord>,
}

/// What a message says.
pub struct PacketModel {
    pub header: DnsHeader,
    pub questions: Seq<QuestionModel>,
    pub answers: Seq<RecordModel>,
    pub authorities: Seq<RecordModel>,
    pub resources: Seq<RecordModel>,
}

pub open spec fn question_models(v: Seq<DnsQuestion>) -> Seq<QuestionModel> {
    v.map_values(|q: DnsQuestion| q@)
}

pub open spec fn record_models(v: Seq<DnsRecord>) -> Seq<RecordModel> {
    v.map_values(|r: DnsRecord| r@)
}

impl View for DnsPacket {
    type V = PacketModel;

    open spec fn view(&self) -> PacketModel {
        PacketModel {
            header: self.header,
            questions: question_models(self.questions@),
            answers: record_models(self.answers@),
            authorities: record_models(self.authorities@),
            resources: record_models(self.resources@),
        }
    }
}

/// `n` questions read one after another from `p` on, and where they end.
pub open spec fn parse_questions(b: Seq<u8>, p: int, n: nat) -> Result<(Seq<QuestionModel>, int), DnsError>
    decreases n,
{
    if n == 0 {
        Ok((seq![], p))
    } else {
        match parse_questions(b, p, (n - 1) as nat) {
            Ok((qs, e)) => match parse_question(b, e) {
                Ok((q, e2)) => Ok((qs.push(q), e2)),
                Err(err) => Err(err),
            },
            Err(err) => Err(err),
        }
    }
}

/// `n` records read one after another from `p` on, and where they end.
pub open spec fn parse_records(b: Seq<u8>, p: int, n: nat) -> Result<(Seq<RecordModel>, int), DnsError>
    decreases n,
{
    if n == 0 {
        Ok((seq![], p))
    } else {
        match parse_records(b, p, (n - 1) as nat) {
            Ok((rs, e)) => match parse_record(b, e) {
                Ok((r, e2)) => Ok((rs.push(r), e2)),
                Err(err) => Err(err),
            },
            Err(err) => Err(err),
        }
    }
}

/// The message at `p` of `b`: the header, then as many questions, answers,
/// authorities and additional records as the header counts.
pub open spec fn parse_packet(b: Seq<u8>, p: int) -> Result<(PacketModel, int), DnsError> {
    if p + HEADER_SIZE > BUF_SIZE {
        Err(DnsError::OutOfBounds)
    } else {
        let h = header_at(b, p);
        match parse_questions(b, p + HEADER_SIZE, h.questions as nat) {
            Err(e) => Err(e),
            Ok((qs, e1)) => match parse_records(b, e1, h.answers as nat) {
                Err(e) => Err(e),
                Ok((an, e2)) => match parse_records(b, e2, h.authoritative_entries as nat) {
                    Err(e) => Err(e),
                    Ok((ns, e3)) => match parse_records(b, e3, h.resource_entries as nat) {
                        Err(e) => Err(e),
                        Ok((ar, e4)) => Ok((
                            PacketModel { header: h, questions: qs, answers: an, authorities: ns, resources: ar },
                            e4,
                        )),
                    },
                },
            },
        }
    }
}

/// Questions written one after another from `pos` on, or why they could not be.
pub open spec fn questions_octets(qs: Seq<QuestionModel>, pos: int) -> Result<Seq<u8>, DnsError>
    decreases qs.len(),
{
    if qs.len() == 0 {
        Ok(seq![])
    } else {
        match questions_octets(qs.drop_last(), pos) {
            Ok(w) => match placed(pos + w.len(), question_octets(qs.last())) {
                Ok(x) => Ok(w + x),
                Err(e) => Err(e),
            },
            Err(e) => Err(e),
        }
    }
}

/// Records written one after another from `pos` on, or why they could not be.
pub open spec fn records_octets(rs: Seq<RecordModel>, pos: int) -> Result<Seq<u8>, DnsError>
    decreases rs.len(),
{
    if rs.len() == 0 {
        Ok(seq![])
    } else {
        match records_octets(rs.drop_last(), pos) {
            Ok(w) => match placed(pos + w.len(), record_octets(rs.last())) {
                Ok(x) => Ok(w + x),
                Err(e) => Err(e),
            },
            Err(e) => Err(e),
        }
    }
}

/// A message written at `pos` with its header as it stands, or why it could not be.
pub open spec fn packet_octets(m: PacketModel, pos: int) -> Result<Seq<u8>, DnsError> {
    if pos + HEADER_SIZE > BUF_SIZE {
        Err(DnsError::OutOfBounds)
    } else {
        let h = header_octets(m.header);
        match questions_octets(m.questions, pos + HEADER_SIZE) {
            Err(e) => Err(e),
            Ok(q) => match records_octets(m.answers, pos + HEADER_SIZE + q.len()) {
                Err(e) => Err(e),
                Ok(a) => match records_octets(m.authorities, pos + HEADER_SIZE + q.len() + a.len()) {
                    Err(e) => Err(e),
                    Ok(n) => match records_octets(
                        m.resources,
                        pos + HEADER_SIZE + q.len() + a.len() + n.len(),
                    ) {
                        Err(e) => Err(e),
                        Ok(r) => Ok(h + q + a + n + r),
                    },
                },
            },
        }
    }
}

/// `h` with its four section counts replaced.
pub open spec fn with_counts(h: DnsHeader, qd: u16, an: u16, ns: u16, ar: u16) -> DnsHeader {
    DnsHeader { questions: qd, answers: an, authoritative_entries: ns, resource_entries: ar, ..h }
}

proof fn lemma_questions_fail(b: Seq<u8>, p: int, k: nat, m: nat)
    requires
        k <= m,
        parse_questions(b, p, k) is Err,
    ensures
        parse_questions(b, p, m) == parse_questions(b, p, k),
    decreases m - k,
{
    if k < m {
        lemma_questions_fail(b, p, k, (m - 1) as nat);
    }
}

proof fn lemma_records_fail(b: Seq<u8>, p: int, k: nat, m: nat)
    requires
        k <= m,
        parse_records(b, p, k) is Err,
    ensures
        parse_records(b, p, m) == parse_records(b, p, k),
    decreases m - k,
{
    if k < m {
        lemma_records_fail(b, p, k, (m - 1) as nat);
    }
}

fn read_questions(buffer: &mut BytePacketBuffer, n: u16) -> (r: Result<Vec<DnsQuestion>, DnsError>)
    ensures
        final(buffer).buf == old(buffer).buf,
        r is Ok <==> parse_questions(old(buffer).bytes(), old(buffer).pos as int, n as nat) is Ok,
        r matches Err(e) ==> parse_questions(old(buffer).bytes(), old(buffer).pos as int, n as nat)
            == Err::<(Seq<QuestionModel>, int), DnsError>(e),
        r matches Ok(v) ==> ({
            let (qs, end) = parse_questions(old(buffer).bytes(), old(buffer).pos as int, n as nat)->Ok_0;
            &&& question_models(v@) == qs
            &&& final(buffer).pos == end
        }),
{
    let ghost b = buffer.bytes();
    let ghost p = buffer.pos as int;
    let mut out: Vec<DnsQuestion> = Vec::new();
    let mut i: u16 = 0;
    assert(question_models(out@) =~= seq![]);
    while i < n
        invariant
            i <= n,
            buffer.buf == old(buffer).buf,
            b == buffer.bytes(),
            p == old(buffer).pos,
            parse_questions(b, p, i as nat) == Ok::<(Seq<QuestionModel>, int), DnsError>((question_models(out@), buffer.pos as int)),
        decreases n - i,
    {
        let mut question = DnsQuestion::new(String::new(), QueryType::UNKNOWN(0));
        let ghost before = buffer.pos as int;
        let res = question.read(buffer);
        match res {
            Ok(()) => {},
            Err(e) => {
                assert(parse_questions(b, p, (i + 1) as nat) == Err::<(Seq<QuestionModel>, int), DnsError>(e));
                proof { lemma_questions_fail(b, p, (i + 1) as nat, n as nat); }
                return Err(e);
            },
        }
        proof {
            let q = parse_question(b, before)->Ok_0.0;
            assert(question@ == q) by {
                assert(seq![] + q.name =~= q.name);
            }
        }
        let ghost prev = out@;
        out.push(question);
        assert(question_models(out@) =~= question_models(prev).push(question@));
        i = i + 1;
    }
    Ok(out)
}

fn read_records(buffer: &mut BytePacketBuffer, n: u16) -> (r: Result<Vec<DnsRecord>, DnsError>)
    ensures
        final(buffer).buf == old(buffer).buf,
        r is Ok <==> parse_records(old(buffer).bytes(), old(buffer).pos as int, n as nat) is Ok,
        r matches Err(e) ==> parse_records(old(buffer).bytes(), old(buffer).pos as int, n as nat)
            == Err::<(Seq<RecordModel>, int), DnsError>(e),
        r matches Ok(v) ==> ({
            let (rs, end) = parse_records(old(buffer).bytes(), old(buffer).pos as int, n as nat)->Ok_0;
            &&& record_models(v@) == rs
            &&& final(buffer).pos == end
        }),
{
    let ghost b = buffer.bytes();
    let ghost p = buffer.pos as int;
    let mut out: Vec<DnsRecord> = Vec::new();
    let mut i: u16 = 0;
    assert(record_models(out@) =~= seq![]);
    while i < n
        invariant
            i <= n,
            buffer.buf == old(buffer).buf,
            b == buffer.bytes(),
            p == old(buffer).pos,
            parse_records(b, p, i as nat) == Ok::<(Seq<RecordModel>, int), DnsError>((record_models(out@), buffer.pos as int)),
        decreases n - i,
    {
        let res = DnsRecord::read(buffer);
        match res {
            Ok(rec) => {
                let ghost prev = out@;
                out.push(rec);
                assert(record_models(out@) =~= record_models(prev).push(rec@));
            },
            Err(e) => {
                assert(parse_records(b, p, (i + 1) as nat) == Err::<(Seq<RecordModel>, int), DnsError>(e));
                proof { lemma_records_fail(b, p, (i + 1) as nat, n as nat); }
                return Err(e);
            },
        }
        i = i + 1;
    }
    Ok(out)
}

proof fn lemma_questions_octets_fail(qs: Seq<QuestionModel>, pos: int, k: int, m: int)
    requires
        0 <= k <= m <= qs.len(),
        questions_octets(qs.take(k), pos) is Err,
    ensures
        questions_octets(qs.take(m), pos) == questions_octets(qs.take(k), pos),
    decreases m - k,
{
    if k < m {
        lemma_questions_octets_fail(qs, pos, k, m - 1);
        assert(qs.take(m).drop_last() =~= qs.take(m - 1));
    }
}

proof fn lemma_records_octets_fail(rs: Seq<RecordModel>, pos: int, k: int, m: int)
    requires
        0 <= k <= m <= rs.len(),
        records_octets(rs.take(k), pos) is Err,
    ensures
        records_octets(rs.take(m), pos) == records_octets(rs.take(k), pos),
    decreases m - k,
{
    if k < m {
        lemma_records_octets_fail(rs, pos, k, m - 1);
        assert(rs.take(m).drop_last() =~= rs.take(m - 1));
    }
}

fn write_questions(qs: &Vec<DnsQuestion>, buffer: &mut BytePacketBuffer) -> (r: Result<(), DnsError>)
    requires
        old(buffer).pos <= BUF_SIZE,
    ensures
        r is Ok <==> questions_octets(question_models(qs@), old(buffer).pos as int) is Ok,
        r matches Err(e) ==> questions_octets(question_models(qs@), old(buffer).pos as int) == Err::<Seq<u8>, DnsError>(e),
        r is Ok ==> final(buffer).bytes() == splice(old(buffer).bytes(), old(buffer).pos as int, questions_octets(question_models(qs@), old(buffer).pos as int)->Ok_0)
            && final(buffer).pos == old(buffer).pos + questions_octets(question_models(qs@), old(buffer).pos as int)->Ok_0.len(),
{
    let ghost b = buffer.bytes();
    let ghost p = buffer.pos as int;
    let ghost ms = question_models(qs@);
    let ghost mut acc: Seq<u8> = seq![];
    let mut i: usize = 0;
    assert(ms.take(0) =~= seq![]);
    assert(splice(b, p, seq![]) =~= b);
    while i < qs.len()
        invariant
            i <= qs@.len(),
            ms == question_models(qs@),
            b.len() == BUF_SIZE,
            0 <= p <= BUF_SIZE,
            p == old(buffer).pos,
            questions_octets(ms.take(i as int), p) == Ok::<Seq<u8>, DnsError>(acc),
            buffer.pos == p + acc.len(),
            p + acc.len() <= BUF_SIZE,
            buffer.bytes() == splice(b, p, acc),
        decreases qs@.len() - i,
    {
        assert(ms.take(i + 1).drop_last() =~= ms.take(i as int));
        assert(ms.take(i + 1).last() == qs@[i as int]@);
        let res = qs[i].write(buffer);
        match res {
            Ok(()) => {
                proof {
                    let x = question_octets(qs@[i as int]@)->Ok_0;
                    lemma_splice_concat(b, p, acc, x);
                    acc = acc + x;
                }
            },
            Err(e) => {
                assert(questions_octets(ms.take(i + 1), p) == Err::<Seq<u8>, DnsError>(e));
                proof { lemma_questions_octets_fail(ms, p, i + 1, ms.len() as int); }
                assert(ms.take(ms.len() as int) =~= ms);
                assert(questions_octets(question_models(qs@), p) == Err::<Seq<u8>, DnsError>(e));
                return Err(e);
            },
        }
        i = i + 1;
    }
    assert(ms.take(ms.len() as int) =~= ms);
    Ok(())
}

fn write_records(rs: &Vec<DnsRecord>, buffer: &mut BytePacketBuffer) -> (r: Result<(), DnsError>)
    requires
        old(buffer).pos <= BUF_SIZE,
    ensures
        r is Ok <==> records_octets(record_models(rs@), old(buffer).pos as int) is Ok,
        r matches Err(e) ==> records_octets(record_models(rs@), old(buffer).pos as int) == Err::<Seq<u8>, DnsError>(e),
        r is Ok ==> final(buffer).bytes() == splice(old(buffer).bytes(), old(buffer).pos as int, records_octets(record_models(rs@), old(buffer).pos as int)->Ok_0)
            && final(buffer).pos == old(buffer).pos + records_octets(record_models(rs@), old(buffer).pos as int)->Ok_0.len(),
{
    let ghost b = buffer.bytes();
    let ghost p = buffer.pos as int;
    let ghost ms = record_models(rs@);
    let ghost mut acc: Seq<u8> = seq![];
    let mut i: usize = 0;
    assert(ms.take(0) =~= seq![]);
    assert(splice(b, p, seq![]) =~= b);
    while i < rs.len()
        invariant
            i <= rs@.len(),
            ms == record_models(rs@),
            b.len() == BUF_SIZE,
            0 <= p <= BUF_SIZE,
            p == old(buffer).pos,
            records_octets(ms.take(i as int), p) == Ok::<Seq<u8>, DnsError>(acc),
            buffer.pos == p + acc.len(),
            p + acc.len() <= BUF_SIZE,
            buffer.bytes() == splice(b, p, acc),
        decreases rs@.len() - i,
    {
        assert(ms.take(i + 1).drop_last() =~= ms.take(i as int));
        assert(ms.take(i + 1).last() == rs@[i as int]@);
        let res = rs[i].write(buffer);
        match res {
            Ok(_) => {
                proof {
                    let x = record_octets(rs@[i as int]@)->Ok_0;
                    lemma_splice_concat(b, p, acc, x);
                    acc = acc + x;
                }
            },
            Err(e) => {
                assert(records_octets(ms.take(i + 1), p) == Err::<Seq<u8>, DnsError>(e));
                proof { lemma_records_octets_fail(ms, p, i + 1, ms.len() as int); }
                assert(ms.take(ms.len() as int) =~= ms);
                assert(records_octets(record_models(rs@), p) == Err::<Seq<u8>, DnsError>(e));
                return Err(e);
            },
        }
        i = i + 1;
    }
    assert(ms.take(ms.len() as int) =~= ms);
    Ok(())
}

impl DnsPacket {
    /// An empty message with a zeroed header.
    pub fn new() -> (r: DnsPacket)
        ensures
            r.header == DnsHeader::new_spec(),
            r.questions@.len() == 0,
            r.answers@.len() == 0,
            r.authorities@.len() == 0,
            r.resources@.len() == 0,
    {
        DnsPacket {
            header: DnsHeader::new(),
            questions: Vec::new(),
            answers: Vec::new(),
            authorities: Vec::new(),
            resources: Vec::new(),
        }
    }

    /// Reads a whole message at the cursor: the header, then the four
    /// sections in order, each as long as the header counts.
    pub fn from_buffer(buffer: &mut BytePacketBuffer) -> (r: Result<DnsPacket, DnsError>)
        ensures
            final(buffer).buf == old(buffer).buf,
            r is Ok <==> parse_packet(old(buffer).bytes(), old(buffer).pos as int) is Ok,
            r matches Err(e) ==> parse_packet(old(buffer).bytes(), old(buffer).pos as int) == Err::<(PacketModel, int), DnsError>(e),
            r matches Ok(pk) ==> ({
                let (m, end) = parse_packet(old(buffer).bytes(), old(buffer).pos as int)->Ok_0;
                &&& pk@ == m
                &&& final(buffer).pos == end
            }),
    {
        let mut result = DnsPacket::new();
        result.header.read(buffer)?;
        result.questions = read_questions(buffer, result.header.questions)?;
        result.answers = read_records(buffer, result.header.answers)?;
        result.authorities = read_records(buffer, result.header.authoritative_entries)?;
        result.resources = read_records(buffer, result.header.resource_entries)?;
        Ok(result)
    }

    /// Sets the header's four counts to the lengths of the sections, then
    /// writes the header and the sections in order at the cursor.
    #[verifier::rlimit(100)]
    pub fn write(&mut self, buffer: &mut BytePacketBuffer) -> (r: Result<(), DnsError>)
        requires
            old(self).questions@.len() <= 0xffff,
            old(self).answers@.len() <= 0xffff,
            old(self).authorities@.len() <= 0xffff,
            old(self).resources@.len() <= 0xffff,
        ensures
            final(self).header == with_counts(
                old(self).header,
                old(self).questions@.len() as u16,
                old(self).answers@.len() as u16,
                old(self).authorities@.len() as u16,
                old(self).resources@.len() as u16,
            ),
            final(self).questions == old(self).questions,
            final(self).answers == old(self).answers,
            final(self).authorities == old(self).authorities,
            final(self).resources == old(self).resources,
            r is Ok <==> packet_octets(final(self)@, old(buffer).pos as int) is Ok,
            r matches Err(e) ==> packet_octets(final(self)@, old(buffer).pos as int) == Err::<Seq<u8>, DnsError>(e),
            r is Ok ==> ({
                let w = packet_octets(final(self)@, old(buffer).pos as int)->Ok_0;
                &&& final(buffer).bytes() == splice(old(buffer).bytes(), old(buffer).pos as int, w)
                &&& final(buffer).pos == old(buffer).pos + w.len()
            }),
    {
        self.header.questions = self.questions.len() as u16;
        self.header.answers = self.answers.len() as u16;
        self.header.authoritative_entries = self.authorities.len() as u16;
        self.header.resource_entries = self.resources.len() as u16;
        let ghost b = buffer.bytes();
        let ghost p = buffer.pos as int;
        let ghost m = self@;
        self.header.write(buffer)?;
        let ghost h = header_octets(self.header);
        write_questions(&self.questions, buffer)?;
        let ghost q = questions_octets(m.questions, p + HEADER_SIZE)->Ok_0;
        proof { lemma_splice_concat(b, p, h, q); }
        write_records(&self.answers, buffer)?;
        let ghost a = records_octets(m.answers, p + HEADER_SIZE + q.len())->Ok_0;
        proof { lemma_splice_concat(b, p, h + q, a); }
        write_records(&self.authorities, buffer)?;
        let ghost n = records_octets(m.authorities, p + HEADER_SIZE + q.len() + a.len())->Ok_0;
        proof { lemma_splice_concat(b, p, h + q + a, n); }
        write_records(&self.resources, buffer)?;
        let ghost rr = records_octets(m.resources, p + HEADER_SIZE + q.len() + a.len() + n.len())->Ok_0;
        proof { lemma_splice_concat(b, p, h + q + a + n, rr); }
        Ok(())
    }
}

} // verus!

verus! {

/// Once a message whose header counts its sections has been written, the
/// counts that the header octets state are the lengths of the four sections.
pub proof fn lemma_written_counts(m: PacketModel, b: Seq<u8>, p: int)
    requires
        m.header.questions == m.questions.len(),
        m.header.answers == m.answers.len(),
        m.header.authoritative_entries == m.authorities.len(),
        m.header.resource_entries == m.resources.len(),
        packet_octets(m, p) is Ok,
        0 <= p,
        b.len() == BUF_SIZE,
        p + packet_octets(m, p)->Ok_0.len() <= BUF_SIZE,
        b.subrange(p, p + packet_octets(m, p)->Ok_0.len()) == packet_octets(m, p)->Ok_0,
    ensures
        header_at(b, p).questions == m.questions.len(),
        header_at(b, p).answers == m.answers.len(),
        header_at(b, p).authoritative_entries == m.authorities.len(),
        header_at(b, p).resource_entries == m.resources.len(),
{
    let w = packet_octets(m, p)->Ok_0;
    let h = header_octets(m.header);
    assert(w.subrange(0, HEADER_SIZE as int) =~= h);
    assert(w.subrange(4, 6) =~= u16_octets(m.header.questions));
    assert(w.subrange(6, 8) =~= u16_octets(m.header.answers));
    assert(w.subrange(8, 10) =~= u16_octets(m.header.authoritative_entries));
    assert(w.subrange(10, 12) =~= u16_octets(m.header.resource_entries));
    lemma_holds_part(b, p, w, 4, 2);
    lemma_holds_part(b, p, w, 6, 2);
    lemma_holds_part(b, p, w, 8, 2);
    lemma_holds_part(b, p, w, 10, 2);
    lemma_be16_read(b, p + 4, m.header.questions);
    lemma_be16_read(b, p + 6, m.header.answers);
    lemma_be16_read(b, p + 8, m.header.authoritative_entries);
    lemma_be16_read(b, p + 10, m.header.resource_entries);
}

} // verus!
