use vstd::prelude::*;
use crate::buffer::{be16_at, lemma_splice_concat, splice, u16_octets, BytePacketBuffer, BUF_SIZE};
use crate::error::DnsError;

verus! {

/// Size of the header on the wire.
pub const HEADER_SIZE: usize = 12;

/// The response code carried in the low four bits of the second flag octet.
#[derive(Copy, Clone, Debug, PartialEq, Eq, Structural)]
pub enum ResultCode {
    NOERROR,
    FORMERR,
    SERVFAIL,
    NXDOMAIN,
    NOTIMP,
    REFUSED,
}

/// The code of `r` on the wire.
pub open spec fn rescode_num(r: ResultCode) -> u8 {
    match r {
        ResultCode::NOERROR => 0,
        ResultCode::FORMERR => 1,
        ResultCode::SERVFAIL => 2,
        ResultCode::NXDOMAIN => 3,
        ResultCode::NOTIMP => 4,
        ResultCode::REFUSED => 5,
    }
}

/// The response code of a wire value; unknown values read as NOERROR.
pub open spec fn rescode_of(num: u8) -> ResultCode {
    if num == 1 {
        ResultCode::FORMERR
    } else if num == 2 {
        ResultCode::SERVFAIL
    } else if num == 3 {
        ResultCode::NXDOMAIN
    } else if num == 4 {
        ResultCode::NOTIMP
    } else if num == 5 {
        ResultCode::REFUSED
    } else {
        ResultCode::NOERROR
    }
}

impl ResultCode {
    pub fn from_num(num: u8) -> (r: ResultCode)
        ensures
            r == rescode_of(num),
    {
        match num {
            1 => ResultCode::FORMERR,
            2 => ResultCode::SERVFAIL,
            3 => ResultCode::NXDOMAIN,
            4 => ResultCode::NOTIMP,
            5 => ResultCode::REFUSED,
            _ => ResultCode::NOERROR,
        }
    }

    pub fn to_num(&self) -> (r: u8)
        ensures
            r == rescode_num(*self),
    {
        match self {
            ResultCode::NOERROR => 0,
            ResultCode::FORMERR => 1,
            ResultCode::SERVFAIL => 2,
            ResultCode::NXDOMAIN => 3,
            ResultCode::NOTIMP => 4,
            ResultCode::REFUSED => 5,
        }
    }
}

/// The twelve header octets as semantic fields.
#[derive(Copy, Clone, Debug, PartialEq, Eq, Structural)]
pub struct DnsHeader {
    pub id: u16,
    pub recursion_desired: bool,
    pub truncated_message: bool,
    pub authoritative_answer: bool,
    pub opcode: u8,
    pub response: bool,
    pub rescode: ResultCode,
    pub checking_disabled: bool,
    pub authed_data: bool,
    pub z: bool,
    pub recursion_available: bool,
    pub questions: u16,
    pub answers: u16,
    pub authoritative_entries: u16,
    pub resource_entries: u16,
}

pub open spec fn bit(b: bool) -> u8 {
    if b { 1 } else { 0 }
}

/// First flag octet: RD, TC, AA, four opcode bits, QR, from the low bit up.
pub open spec fn flags_hi(h: DnsHeader) -> u8 {
    bit(h.recursion_desired) | (bit(h.truncated_message) << 1u8) | (bit(h.authoritative_answer) << 2u8)
        | ((h.opcode & 0x0f) << 3u8) | (bit(h.response) << 7u8)
}

/// Second flag octet: four rescode bits, CD, AD, Z, RA, from the low bit up.
pub open spec fn flags_lo(h: DnsHeader) -> u8 {
    rescode_num(h.rescode) | (bit(h.checking_disabled) << 4u8) | (bit(h.authed_data) << 5u8)
        | (bit(h.z) << 6u8) | (bit(h.recursion_available) << 7u8)
}

/// The header on the wire.
pub open spec fn header_octets(h: DnsHeader) -> Seq<u8> {
    u16_octets(h.id) + seq![flags_hi(h), flags_lo(h)] + u16_octets(h.questions) + u16_octets(h.answers)
        + u16_octets(h.authoritative_entries) + u16_octets(h.resource_entries)
}

/// The header whose twelve octets start at `p` of `b`.
pub open spec fn header_at(b: Seq<u8>, p: int) -> DnsHeader {
    let a = b[p + 2];
    let c = b[p + 3];
    DnsHeader {
        id: be16_at(b, p),
        recursion_desired: a & 1 != 0,
        truncated_message: a & 2 != 0,
        authoritative_answer: a & 4 != 0,
        opcode: (a >> 3u8) & 0x0f,
        response: a & 0x80 != 0,
        rescode: rescode_of(c & 0x0f),
        checking_disabled: c & 0x10 != 0,
        authed_data: c & 0x20 != 0,
        z: c & 0x40 != 0,
        recursion_available: c & 0x80 != 0,
        questions: be16_at(b, p + 4),
        answers: be16_at(b, p + 6),
        authoritative_entries: be16_at(b, p + 8),
        resource_entries: be16_at(b, p + 10),
    }
}

/// A header has legal field ranges when its opcode fits in four bits.
pub open spec fn legal_header(h: DnsHeader) -> bool {
    h.opcode < 16
}

fn flag(b: bool) -> (r: u8)
    ensures
        r == bit(b),
{
    if b { 1 } else { 0 }
}

proof fn lemma_flags(rd: u8, tc: u8, aa: u8, op: u8, qr: u8)
    requires
        rd <= 1,
        tc <= 1,
        aa <= 1,
        qr <= 1,
        op < 16,
    ensures
        ({
            let a = rd | (tc << 1u8) | (aa << 2u8) | ((op & 0x0f) << 3u8) | (qr << 7u8);
            &&& (a & 1 != 0) == (rd == 1)
            &&& (a & 2 != 0) == (tc == 1)
            &&& (a & 4 != 0) == (aa == 1)
            &&& (a >> 3u8) & 0x0f == op
            &&& (a & 0x80 != 0) == (qr == 1)
        }),
{
    assert({
        let a = rd | (tc << 1u8) | (aa << 2u8) | ((op & 0x0f) << 3u8) | (qr << 7u8);
        &&& (a & 1 != 0) == (rd == 1)
        &&& (a & 2 != 0) == (tc == 1)
        &&& (a & 4 != 0) == (aa == 1)
        &&& (a >> 3u8) & 0x0f == op
        &&& (a & 0x80 != 0) == (qr == 1)
    }) by (bit_vector)
        requires
            rd <= 1,
            tc <= 1,
            aa <= 1,
            qr <= 1,
            op < 16,
    ;
}

proof fn lemma_flags_lo(rc: u8, cd: u8, ad: u8, z: u8, ra: u8)
    requires
        rc <= 5,
        cd <= 1,
        ad <= 1,
        z <= 1,
        ra <= 1,
    ensures
        ({
            let c = rc | (cd << 4u8) | (ad << 5u8) | (z << 6u8) | (ra << 7u8);
            &&& c & 0x0f == rc
            &&& (c & 0x10 != 0) == (cd == 1)
            &&& (c & 0x20 != 0) == (ad == 1)
            &&& (c & 0x40 != 0) == (z == 1)
            &&& (c & 0x80 != 0) == (ra == 1)
        }),
{
    assert({
        let c = rc | (cd << 4u8) | (ad << 5u8) | (z << 6u8) | (ra << 7u8);
        &&& c & 0x0f == rc
        &&& (c & 0x10 != 0) == (cd == 1)
        &&& (c & 0x20 != 0) == (ad == 1)
        &&& (c & 0x40 != 0) == (z == 1)
        &&& (c & 0x80 != 0) == (ra == 1)
    }) by (bit_vector)
        requires
            rc <= 5,
            cd <= 1,
            ad <= 1,
            z <= 1,
            ra <= 1,
    ;
}

/// Encoding a header with legal field ranges and decoding the octets gives
/// the same header back.
pub proof fn lemma_header_round_trip(h: DnsHeader, b: Seq<u8>, p: int)
    requires
        legal_header(h),
        0 <= p,
        p + HEADER_SIZE <= b.len(),
        b.subrange(p, p + HEADER_SIZE) == header_octets(h),
    ensures
        header_at(b, p) == h,
{
    let w = header_octets(h);
    assert(forall|k: int| 0 <= k < HEADER_SIZE ==> b[p + k] == #[trigger] w[k]) by {
        assert forall|k: int| 0 <= k < HEADER_SIZE implies b[p + k] == #[trigger] w[k] by {
            assert(b.subrange(p, p + HEADER_SIZE)[k] == b[p + k]);
        }
    }
    assert(b[p + 0] == w[0] && b[p + 1] == w[1] && b[p + 2] == w[2] && b[p + 3] == w[3]);
    assert(b[p + 4] == w[4] && b[p + 5] == w[5] && b[p + 6] == w[6] && b[p + 7] == w[7]);
    assert(b[p + 8] == w[8] && b[p + 9] == w[9] && b[p + 10] == w[10] && b[p + 11] == w[11]);
    lemma_flags(
        bit(h.recursion_desired),
        bit(h.truncated_message),
        bit(h.authoritative_answer),
        h.opcode,
        bit(h.response),
    );
    lemma_flags_lo(
        rescode_num(h.rescode),
        bit(h.checking_disabled),
        bit(h.authed_data),
        bit(h.z),
        bit(h.recursion_available),
    );
}

impl DnsHeader {
    /// The header with every field zero or false.
    pub open spec fn new_spec() -> DnsHeader {
        DnsHeader {
            id: 0,
            recursion_desired: false,
            truncated_message: false,
            authoritative_answer: false,
            opcode: 0,
            response: false,
            rescode: ResultCode::NOERROR,
            checking_disabled: false,
            authed_data: false,
            z: false,
            recursion_available: false,
            questions: 0,
            answers: 0,
            authoritative_entries: 0,
            resource_entries: 0,
        }
    }

    /// A header with every field zero or false.
    pub fn new() -> (r: DnsHeader)
        ensures
            r == Self::new_spec(),
            r == (DnsHeader {
                id: 0,
                recursion_desired: false,
                truncated_message: false,
                authoritative_answer: false,
                opcode: 0,
                response: false,
                rescode: ResultCode::NOERROR,
                checking_disabled: false,
                authed_data: false,
                z: false,
                recursion_available: false,
                questions: 0,
                answers: 0,
                authoritative_entries: 0,
                resource_entries: 0,
            }),
    {
        DnsHeader {
            id: 0,
            recursion_desired: false,
            truncated_message: false,
            authoritative_answer: false,
            opcode: 0,
            response: false,
            rescode: ResultCode::NOERROR,
            checking_disabled: false,
            authed_data: false,
            z: false,
            recursion_available: false,
            questions: 0,
            answers: 0,
            authoritative_entries: 0,
            resource_entries: 0,
        }
    }

    /// Reads the twelve header octets at the cursor into `self`.
    pub fn read(&mut self, buffer: &mut BytePacketBuffer) -> (r: Result<(), DnsError>)
        ensures
            final(buffer).buf == old(buffer).buf,
            old(buffer).pos + HEADER_SIZE <= BUF_SIZE <==> r is Ok,
            r is Ok ==> *final(self) == header_at(old(buffer).bytes(), old(buffer).pos as int)
                && final(buffer).pos == old(buffer).pos + HEADER_SIZE,
            r matches Err(e) ==> e == DnsError::OutOfBounds && *final(self) == *old(self)
                && *final(buffer) == *old(buffer),
    {
        if buffer.pos > BUF_SIZE - HEADER_SIZE {
            return Err(DnsError::OutOfBounds);
        }
        let ghost b = buffer.bytes();
        let ghost p = buffer.pos as int;
        let id = buffer.read_u16()?;
        let flags = buffer.read_u16()?;
        let questions = buffer.read_u16()?;
        let answers = buffer.read_u16()?;
        let authoritative_entries = buffer.read_u16()?;
        let resource_entries = buffer.read_u16()?;
        let a = (flags / 256) as u8;
        let c = (flags % 256) as u8;
        assert(a == b[p + 2] && c == b[p + 3]);
        self.id = id;
        self.recursion_desired = a & 1 != 0;
        self.truncated_message = a & 2 != 0;
        self.authoritative_answer = a & 4 != 0;
        self.opcode = (a >> 3) & 0x0f;
        self.response = a & 0x80 != 0;
        self.rescode = ResultCode::from_num(c & 0x0f);
        self.checking_disabled = c & 0x10 != 0;
        self.authed_data = c & 0x20 != 0;
        self.z = c & 0x40 != 0;
        self.recursion_available = c & 0x80 != 0;
        self.questions = questions;
        self.answers = answers;
        self.authoritative_entries = authoritative_entries;
        self.resource_entries = resource_entries;
        Ok(())
    }

    /// Writes the header at the cursor and moves past it.
    pub fn write(&self, buffer: &mut BytePacketBuffer) -> (r: Result<(), DnsError>)
        ensures
            old(buffer).pos + HEADER_SIZE <= BUF_SIZE <==> r is Ok,
            r is Ok ==> final(buffer).bytes() == splice(old(buffer).bytes(), old(buffer).pos as int, header_octets(*self))
                && final(buffer).pos == old(buffer).pos + HEADER_SIZE,
            r matches Err(e) ==> e == DnsError::OutOfBounds && *final(buffer) == *old(buffer),
    {
        if buffer.pos > BUF_SIZE - HEADER_SIZE {
            return Err(DnsError::OutOfBounds);
        }
        let ghost b = buffer.bytes();
        let ghost p = buffer.pos as int;
        let hi = flag(self.recursion_desired) | (flag(self.truncated_message) << 1u8)
            | (flag(self.authoritative_answer) << 2u8) | ((self.opcode & 0x0f) << 3u8)
            | (flag(self.response) << 7u8);
        let lo = self.rescode.to_num() | (flag(self.checking_disabled) << 4u8)
            | (flag(self.authed_data) << 5u8) | (flag(self.z) << 6u8)
            | (flag(self.recursion_available) << 7u8);
        buffer.write_u16(self.id)?;
        buffer.write_u8(hi)?;
        buffer.write_u8(lo)?;
        buffer.write_u16(self.questions)?;
        buffer.write_u16(self.answers)?;
        buffer.write_u16(self.authoritative_entries)?;
        buffer.write_u16(self.resource_entries)?;
        proof {
            let w0 = u16_octets(self.id);
            let w1 = w0 + seq![hi];
            let w2 = w1 + seq![lo];
            let w3 = w2 + u16_octets(self.questions);
            let w4 = w3 + u16_octets(self.answers);
            let w5 = w4 + u16_octets(self.authoritative_entries);
            lemma_splice_concat(b, p, w0, seq![hi]);
            lemma_splice_concat(b, p, w1, seq![lo]);
            lemma_splice_concat(b, p, w2, u16_octets(self.questions));
            lemma_splice_concat(b, p, w3, u16_octets(self.answers));
            lemma_splice_concat(b, p, w4, u16_octets(self.authoritative_entries));
            lemma_splice_concat(b, p, w5, u16_octets(self.resource_entries));
            assert(w5 + u16_octets(self.resource_entries) =~= header_octets(*self));
        }
        Ok(())
    }
}

} // verus!
