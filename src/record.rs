use vstd::prelude::*;
use vstd::utf8::*;
use crate::buffer::{
    lemma_be16_read, lemma_be32_read, lemma_holds_part,
    be16_at, be32_at, lemma_splice_concat, lemma_splice_patch, placed, splice, u16_octets,
    u32_octets, BytePacketBuffer, BUF_SIZE,
};
use crate::error::DnsError;
use crate::name::{encode_qname, name_labels, text_octets, lemma_legal_name, lemma_name_round_trip, legal_name, lower_text, name_text, parse_name, qname_octets};
use crate::question::{qtype_num, qtype_of, QueryType, CLASS_IN};

verus! {

/// A resource record of one of the supported types, or an unknown one whose
/// data was skipped. IPv4 addresses are four octets; IPv6 addresses are eight
/// 16-bit groups.
#[derive(Debug, Clone, PartialEq, Eq, Hash, PartialOrd, Ord)]
pub enum DnsRecord {
    UNKNOWN { domain: String, qtype: u16, data_len: u16, ttl: u32 },
    A { domain: String, addr: [u8; 4], ttl: u32 },
    NS { domain: String, host: String, ttl: u32 },
    CNAME { domain: String, host: String, ttl: u32 },
    MX { domain: String, priority: u16, host: String, ttl: u32 },
    AAAA { domain: String, addr: [u16; 8], ttl: u32 },
}

/// What a record says, with its names as text.
pub enum RecordModel {
    UNKNOWN { domain: Seq<char>, qtype: u16, data_len: u16, ttl: u32 },
    A { domain: Seq<char>, addr: Seq<u8>, ttl: u32 },
    NS { domain: Seq<char>, host: Seq<char>, ttl: u32 },
    CNAME { domain: Seq<char>, host: Seq<char>, ttl: u32 },
    MX { domain: Seq<char>, priority: u16, host: Seq<char>, ttl: u32 },
    AAAA { domain: Seq<char>, addr: Seq<u16>, ttl: u32 },
}

impl View for DnsRecord {
    type V = RecordModel;

    open spec fn view(&self) -> RecordModel {
        match self {
            DnsRecord::UNKNOWN { domain, qtype, data_len, ttl } => RecordModel::UNKNOWN {
                domain: domain@,
                qtype: *qtype,
                data_len: *data_len,
                ttl: *ttl,
            },
            DnsRecord::A { domain, addr, ttl } => RecordModel::A { domain: domain@, addr: addr@, ttl: *ttl },
            DnsRecord::NS { domain, host, ttl } => RecordModel::NS { domain: domain@, host: host@, ttl: *ttl },
            DnsRecord::CNAME { domain, host, ttl } => RecordModel::CNAME {
                domain: domain@,
                host: host@,
                ttl: *ttl,
            },
            DnsRecord::MX { domain, priority, host, ttl } => RecordModel::MX {
                domain: domain@,
                priority: *priority,
                host: host@,
                ttl: *ttl,
            },
            DnsRecord::AAAA { domain, addr, ttl } => RecordModel::AAAA { domain: domain@, addr: addr@, ttl: *ttl },
        }
    }
}

/// Owner name, type, class IN and TTL of a record on the wire.
pub open spec fn rr_prefix(d: Seq<u8>, t: QueryType, ttl: u32) -> Seq<u8> {
    d + u16_octets(qtype_num(t)) + u16_octets(CLASS_IN) + u32_octets(ttl)
}

/// Eight 16-bit groups, most significant octet first.
#[verifier::opaque]
pub open spec fn groups_octets(g: Seq<u16>) -> Seq<u8> {
    u16_octets(g[0]) + u16_octets(g[1]) + u16_octets(g[2]) + u16_octets(g[3]) + u16_octets(g[4])
        + u16_octets(g[5]) + u16_octets(g[6]) + u16_octets(g[7])
}

/// A record whose data is a name, with `extra` octets before that name.
pub open spec fn named_rr_octets(
    domain: Seq<char>,
    t: QueryType,
    ttl: u32,
    extra: Seq<u8>,
    host: Seq<char>,
) -> Result<Seq<u8>, DnsError> {
    match qname_octets(encode_utf8(domain)) {
        Err(e) => Err(e),
        Ok(d) => match qname_octets(encode_utf8(host)) {
            Err(e) => Err(e),
            Ok(h) => Ok(rr_prefix(d, t, ttl) + u16_octets((extra.len() + h.len()) as u16) + extra + h),
        },
    }
}

/// A record on the wire, or why it has no wire form. An unknown record
/// writes nothing.
#[verifier::opaque]
pub open spec fn record_octets(r: RecordModel) -> Result<Seq<u8>, DnsError> {
    match r {
        RecordModel::UNKNOWN { .. } => Ok(seq![]),
        RecordModel::A { domain, addr, ttl } => match qname_octets(encode_utf8(domain)) {
            Err(e) => Err(e),
            Ok(d) => Ok(rr_prefix(d, QueryType::A, ttl) + u16_octets(4) + addr),
        },
        RecordModel::AAAA { domain, addr, ttl } => match qname_octets(encode_utf8(domain)) {
            Err(e) => Err(e),
            Ok(d) => Ok(rr_prefix(d, QueryType::AAAA, ttl) + u16_octets(16) + groups_octets(addr)),
        },
        RecordModel::NS { domain, host, ttl } => named_rr_octets(domain, QueryType::NS, ttl, seq![], host),
        RecordModel::CNAME { domain, host, ttl } => named_rr_octets(domain, QueryType::CNAME, ttl, seq![], host),
        RecordModel::MX { domain, priority, host, ttl } => named_rr_octets(
            domain,
            QueryType::MX,
            ttl,
            u16_octets(priority),
            host,
        ),
    }
}

/// A record whose data is a name, read at `q` (after `extra` octets).
pub open spec fn parse_named_rr(
    b: Seq<u8>,
    q: int,
    domain: Seq<char>,
    t: QueryType,
    ttl: u32,
) -> Result<(RecordModel, int), DnsError> {
    if t == QueryType::MX {
        if q + 2 > BUF_SIZE {
            Err(DnsError::OutOfBounds)
        } else {
            match parse_name(b, q + 2) {
                Ok((h, e)) => Ok((RecordModel::MX { domain, priority: be16_at(b, q), host: name_text(h), ttl }, e)),
                Err(err) => Err(err),
            }
        }
    } else {
        match parse_name(b, q) {
            Ok((h, e)) => if t == QueryType::NS {
                Ok((RecordModel::NS { domain, host: name_text(h), ttl }, e))
            } else {
                Ok((RecordModel::CNAME { domain, host: name_text(h), ttl }, e))
            },
            Err(err) => Err(err),
        }
    }
}

/// The eight 16-bit groups at `q`.
pub open spec fn groups_at(b: Seq<u8>, q: int) -> Seq<u16> {
    seq![
        be16_at(b, q), be16_at(b, q + 2), be16_at(b, q + 4), be16_at(b, q + 6),
        be16_at(b, q + 8), be16_at(b, q + 10), be16_at(b, q + 12), be16_at(b, q + 14),
    ]
}

/// The record at `p` of `b`, and where it ends. A and AAAA data is read at
/// its fixed size; unknown data is skipped by its stated length.
pub open spec fn parse_record(b: Seq<u8>, p: int) -> Result<(RecordModel, int), DnsError> {
    match parse_name(b, p) {
        Err(err) => Err(err),
        Ok((labels, e)) => if e + 10 > BUF_SIZE {
            Err(DnsError::OutOfBounds)
        } else {
            let domain = name_text(labels);
            let num = be16_at(b, e);
            let ttl = be32_at(b, e + 4);
            let data_len = be16_at(b, e + 8);
            let q = e + 10;
            match qtype_of(num) {
                QueryType::A => if q + 4 > BUF_SIZE {
                    Err(DnsError::OutOfBounds)
                } else {
                    Ok((RecordModel::A { domain, addr: b.subrange(q, q + 4), ttl }, q + 4))
                },
                QueryType::AAAA => if q + 16 > BUF_SIZE {
                    Err(DnsError::OutOfBounds)
                } else {
                    Ok((RecordModel::AAAA { domain, addr: groups_at(b, q), ttl }, q + 16))
                },
                QueryType::UNKNOWN(_) => if q + data_len > BUF_SIZE {
                    Err(DnsError::OutOfBounds)
                } else {
                    Ok((RecordModel::UNKNOWN { domain, qtype: num, data_len, ttl }, q + data_len))
                },
                t => parse_named_rr(b, q, domain, t, ttl),
            }
        },
    }
}

impl DnsRecord {
    /// Reads the record at the cursor and moves past it.
    pub fn read(buffer: &mut BytePacketBuffer) -> (r: Result<DnsRecord, DnsError>)
        ensures
            final(buffer).buf == old(buffer).buf,
            r is Ok <==> parse_record(old(buffer).bytes(), old(buffer).pos as int) is Ok,
            r matches Err(e) ==> parse_record(old(buffer).bytes(), old(buffer).pos as int) == Err::<
                (RecordModel, int),
                DnsError,
            >(e),
            r matches Ok(rec) ==> ({
                let (m, end) = parse_record(old(buffer).bytes(), old(buffer).pos as int)->Ok_0;
                &&& rec@ == m
                &&& final(buffer).pos == end
            }),
    {
        let ghost b = buffer.bytes();
        let mut domain = String::new();
        buffer.read_qname(&mut domain)?;
        let ghost e = buffer.pos as int;
        let num = buffer.read_u16()?;
        let qtype = QueryType::from_num(num);
        let _ = buffer.read_u16()?;
        let ttl = buffer.read_u32()?;
        let data_len = buffer.read_u16()?;
        match qtype {
            QueryType::A => {
                let a0 = buffer.read()?;
                let a1 = buffer.read()?;
                let a2 = buffer.read()?;
                let a3 = buffer.read()?;
                let addr: [u8; 4] = [a0, a1, a2, a3];
                assert(addr@ =~= b.subrange(e + 10, e + 14));
                Ok(DnsRecord::A { domain: domain, addr: addr, ttl: ttl })
            },
            QueryType::AAAA => {
                let g0 = buffer.read_u16()?;
                let g1 = buffer.read_u16()?;
                let g2 = buffer.read_u16()?;
                let g3 = buffer.read_u16()?;
                let g4 = buffer.read_u16()?;
                let g5 = buffer.read_u16()?;
                let g6 = buffer.read_u16()?;
                let g7 = buffer.read_u16()?;
                let addr: [u16; 8] = [g0, g1, g2, g3, g4, g5, g6, g7];
                assert(addr@ =~= groups_at(b, e + 10));
                Ok(DnsRecord::AAAA { domain: domain, addr: addr, ttl: ttl })
            },
            QueryType::NS => {
                let mut host = String::new();
                buffer.read_qname(&mut host)?;
                Ok(DnsRecord::NS { domain: domain, host: host, ttl: ttl })
            },
            QueryType::CNAME => {
                let mut host = String::new();
                buffer.read_qname(&mut host)?;
                Ok(DnsRecord::CNAME { domain: domain, host: host, ttl: ttl })
            },
            QueryType::MX => {
                let priority = buffer.read_u16()?;
                let mut host = String::new();
                buffer.read_qname(&mut host)?;
                Ok(DnsRecord::MX { domain: domain, priority: priority, host: host, ttl: ttl })
            },
            QueryType::UNKNOWN(_) => {
                buffer.step(data_len as usize)?;
                Ok(DnsRecord::UNKNOWN { domain: domain, qtype: num, data_len: data_len, ttl: ttl })
            },
        }
    }
}

/// The octets that come before the name in the data of a record.
pub open spec fn extra_octets(priority: Option<u16>) -> Seq<u8> {
    match priority {
        Some(v) => u16_octets(v),
        None => seq![],
    }
}

/// Writes a record whose data is a name (after `priority`, for MX). The data
/// length is first written as zero and patched once the data is written.
#[verifier::rlimit(50)]
fn write_named_rr(
    buffer: &mut BytePacketBuffer,
    domain: &String,
    t: QueryType,
    ttl: u32,
    priority: Option<u16>,
    host: &String,
) -> (r: Result<(), DnsError>)
    ensures
        r is Ok <==> placed(old(buffer).pos as int, named_rr_octets(domain@, t, ttl, extra_octets(priority), host@)) is Ok,
        r matches Err(e) ==> placed(old(buffer).pos as int, named_rr_octets(domain@, t, ttl, extra_octets(priority), host@))
            == Err::<Seq<u8>, DnsError>(e),
        r is Ok ==> ({
            let w = named_rr_octets(domain@, t, ttl, extra_octets(priority), host@)->Ok_0;
            &&& final(buffer).bytes() == splice(old(buffer).bytes(), old(buffer).pos as int, w)
            &&& final(buffer).pos == old(buffer).pos + w.len()
        }),
{
    let ghost b = buffer.bytes();
    let ghost p = buffer.pos as int;
    let _ = encode_qname(host.as_str())?;
    buffer.write_qname(domain.as_str())?;
    let ghost d = qname_octets(encode_utf8(domain@))->Ok_0;
    let ghost h = qname_octets(encode_utf8(host@))->Ok_0;
    let ghost extra = extra_octets(priority);
    let t_num = t.to_num();
    buffer.write_u16(t_num)?;
    proof { lemma_splice_concat(b, p, d, u16_octets(t_num)); }
    buffer.write_u16(CLASS_IN)?;
    proof { lemma_splice_concat(b, p, d + u16_octets(t_num), u16_octets(CLASS_IN)); }
    buffer.write_u32(ttl)?;
    proof { lemma_splice_concat(b, p, d + u16_octets(t_num) + u16_octets(CLASS_IN), u32_octets(ttl)); }
    let ghost pre = rr_prefix(d, t, ttl);
    let slot = buffer.pos();
    buffer.write_u16(0)?;
    proof { lemma_splice_concat(b, p, pre, u16_octets(0)); }
    match priority {
        Some(v) => {
            buffer.write_u16(v)?;
            proof { lemma_splice_concat(b, p, pre + u16_octets(0), u16_octets(v)); }
        },
        None => {
            assert(pre + u16_octets(0) + extra =~= pre + u16_octets(0));
        },
    }
    buffer.write_qname(host.as_str())?;
    proof { lemma_splice_concat(b, p, pre + u16_octets(0) + extra, h); }
    let size = buffer.pos() - (slot + 2);
    assert(size == extra.len() + h.len());
    buffer.set_u16(slot, size as u16)?;
    proof {
        assert(pre + u16_octets(0) + extra + h =~= pre + u16_octets(0) + (extra + h));
        lemma_splice_patch(b, p, pre, u16_octets(0), extra + h, u16_octets(size as u16));
        assert(pre + u16_octets(size as u16) + (extra + h) =~= pre + u16_octets(size as u16) + extra + h);
    }
    Ok(())
}

/// Writes owner name, type, class IN, TTL and a data length known in advance.
fn write_rr_head(buffer: &mut BytePacketBuffer, domain: &String, t: QueryType, ttl: u32, data_len: u16) -> (r: Result<(), DnsError>)
    ensures
        ({
            let w = match qname_octets(encode_utf8(domain@)) {
                Ok(d) => Ok(rr_prefix(d, t, ttl) + u16_octets(data_len)),
                Err(e) => Err(e),
            };
            &&& (r is Ok <==> placed(old(buffer).pos as int, w) is Ok)
            &&& (r matches Err(e) ==> placed(old(buffer).pos as int, w) == Err::<Seq<u8>, DnsError>(e))
            &&& (r is Ok ==> final(buffer).bytes() == splice(old(buffer).bytes(), old(buffer).pos as int, w->Ok_0)
                && final(buffer).pos == old(buffer).pos + w->Ok_0.len())
        }),
{
    let ghost b = buffer.bytes();
    let ghost p = buffer.pos as int;
    buffer.write_qname(domain.as_str())?;
    let ghost d = qname_octets(encode_utf8(domain@))->Ok_0;
    let t_num = t.to_num();
    buffer.write_u16(t_num)?;
    proof { lemma_splice_concat(b, p, d, u16_octets(t_num)); }
    buffer.write_u16(CLASS_IN)?;
    proof { lemma_splice_concat(b, p, d + u16_octets(t_num), u16_octets(CLASS_IN)); }
    buffer.write_u32(ttl)?;
    proof { lemma_splice_concat(b, p, d + u16_octets(t_num) + u16_octets(CLASS_IN), u32_octets(ttl)); }
    buffer.write_u16(data_len)?;
    proof { lemma_splice_concat(b, p, rr_prefix(d, t, ttl), u16_octets(data_len)); }
    Ok(())
}

fn write_a_rr(buffer: &mut BytePacketBuffer, domain: &String, addr: &[u8; 4], ttl: u32) -> (r: Result<(), DnsError>)
    ensures
        ({
            let w = record_octets(RecordModel::A { domain: domain@, addr: addr@, ttl });
            &&& (r is Ok <==> placed(old(buffer).pos as int, w) is Ok)
            &&& (r matches Err(e) ==> placed(old(buffer).pos as int, w) == Err::<Seq<u8>, DnsError>(e))
            &&& (r is Ok ==> final(buffer).bytes() == splice(old(buffer).bytes(), old(buffer).pos as int, w->Ok_0)
                && final(buffer).pos == old(buffer).pos + w->Ok_0.len())
        }),
{
    reveal(record_octets);
    let ghost b = buffer.bytes();
    let ghost p = buffer.pos as int;
    write_rr_head(buffer, domain, QueryType::A, ttl, 4)?;
    let ghost h = rr_prefix(qname_octets(encode_utf8(domain@))->Ok_0, QueryType::A, ttl) + u16_octets(4);
    let ghost a = addr@;
    buffer.write_u8(addr[0])?;
    proof { lemma_splice_concat(b, p, h, seq![a[0]]); }
    buffer.write_u8(addr[1])?;
    proof { lemma_splice_concat(b, p, h + seq![a[0]], seq![a[1]]); }
    buffer.write_u8(addr[2])?;
    proof { lemma_splice_concat(b, p, h + seq![a[0]] + seq![a[1]], seq![a[2]]); }
    buffer.write_u8(addr[3])?;
    proof {
        lemma_splice_concat(b, p, h + seq![a[0]] + seq![a[1]] + seq![a[2]], seq![a[3]]);
        assert(h + seq![a[0]] + seq![a[1]] + seq![a[2]] + seq![a[3]] =~= h + a);
    }
    Ok(())
}

/// Writes eight 16-bit groups at the cursor.
fn write_groups(buffer: &mut BytePacketBuffer, addr: &[u16; 8]) -> (r: Result<(), DnsError>)
    ensures
        old(buffer).pos + 16 <= BUF_SIZE <==> r is Ok,
        r matches Err(e) ==> e == DnsError::OutOfBounds,
        r is Ok ==> final(buffer).bytes() == splice(old(buffer).bytes(), old(buffer).pos as int, groups_octets(addr@))
            && final(buffer).pos == old(buffer).pos + 16,
        groups_octets(addr@).len() == 16,
{
    proof { reveal(groups_octets); }
    if buffer.pos > BUF_SIZE - 16 {
        return Err(DnsError::OutOfBounds);
    }
    let ghost b = buffer.bytes();
    let ghost p = buffer.pos as int;
    let ghost g = addr@;
    reveal(groups_octets);
    buffer.write_u16(addr[0])?;
    buffer.write_u16(addr[1])?;
    proof { lemma_splice_concat(b, p, u16_octets(g[0]), u16_octets(g[1])); }
    buffer.write_u16(addr[2])?;
    proof { lemma_splice_concat(b, p, u16_octets(g[0]) + u16_octets(g[1]), u16_octets(g[2])); }
    buffer.write_u16(addr[3])?;
    proof { lemma_splice_concat(b, p, u16_octets(g[0]) + u16_octets(g[1]) + u16_octets(g[2]), u16_octets(g[3])); }
    buffer.write_u16(addr[4])?;
    proof { lemma_splice_concat(b, p, u16_octets(g[0]) + u16_octets(g[1]) + u16_octets(g[2]) + u16_octets(g[3]), u16_octets(g[4])); }
    buffer.write_u16(addr[5])?;
    proof { lemma_splice_concat(b, p, u16_octets(g[0]) + u16_octets(g[1]) + u16_octets(g[2]) + u16_octets(g[3]) + u16_octets(g[4]), u16_octets(g[5])); }
    buffer.write_u16(addr[6])?;
    proof { lemma_splice_concat(b, p, u16_octets(g[0]) + u16_octets(g[1]) + u16_octets(g[2]) + u16_octets(g[3]) + u16_octets(g[4]) + u16_octets(g[5]), u16_octets(g[6])); }
    buffer.write_u16(addr[7])?;
    proof { lemma_splice_concat(b, p, u16_octets(g[0]) + u16_octets(g[1]) + u16_octets(g[2]) + u16_octets(g[3]) + u16_octets(g[4]) + u16_octets(g[5]) + u16_octets(g[6]), u16_octets(g[7])); }
    assert(u16_octets(g[0]) + u16_octets(g[1]) + u16_octets(g[2]) + u16_octets(g[3]) + u16_octets(g[4]) + u16_octets(g[5]) + u16_octets(g[6]) + u16_octets(g[7]) =~= groups_octets(g));
    Ok(())
}

fn write_aaaa_rr(buffer: &mut BytePacketBuffer, domain: &String, addr: &[u16; 8], ttl: u32) -> (r: Result<(), DnsError>)
    ensures
        ({
            let w = record_octets(RecordModel::AAAA { domain: domain@, addr: addr@, ttl });
            &&& (r is Ok <==> placed(old(buffer).pos as int, w) is Ok)
            &&& (r matches Err(e) ==> placed(old(buffer).pos as int, w) == Err::<Seq<u8>, DnsError>(e))
            &&& (r is Ok ==> final(buffer).bytes() == splice(old(buffer).bytes(), old(buffer).pos as int, w->Ok_0)
                && final(buffer).pos == old(buffer).pos + w->Ok_0.len())
        }),
{
    reveal(record_octets);
    let ghost b = buffer.bytes();
    let ghost p = buffer.pos as int;
    write_rr_head(buffer, domain, QueryType::AAAA, ttl, 16)?;
    let ghost acc = rr_prefix(qname_octets(encode_utf8(domain@))->Ok_0, QueryType::AAAA, ttl) + u16_octets(16);
    write_groups(buffer, addr)?;
    proof { lemma_splice_concat(b, p, acc, groups_octets(addr@)); }
    Ok(())
}

impl DnsRecord {
    /// Writes the record at the cursor, uncompressed, and returns how many
    /// octets it took. An unknown record is dropped: nothing is written.
    #[verifier::rlimit(100)]
    pub fn write(&self, buffer: &mut BytePacketBuffer) -> (r: Result<usize, DnsError>)
        ensures
            r is Ok <==> placed(old(buffer).pos as int, record_octets(self@)) is Ok,
            r matches Err(e) ==> placed(old(buffer).pos as int, record_octets(self@)) == Err::<Seq<u8>, DnsError>(e),
            r matches Ok(n) ==> ({
                let w = record_octets(self@)->Ok_0;
                &&& n == w.len()
                &&& final(buffer).bytes() == splice(old(buffer).bytes(), old(buffer).pos as int, w)
                &&& final(buffer).pos == old(buffer).pos + n
            }),
    {
        reveal(record_octets);
        let ghost b = buffer.bytes();
        let ghost p = buffer.pos as int;
        let start_pos = buffer.pos();
        match self {
            DnsRecord::A { domain, addr, ttl } => {
                write_a_rr(buffer, domain, addr, *ttl)?;
            },
            DnsRecord::AAAA { domain, addr, ttl } => {
                write_aaaa_rr(buffer, domain, addr, *ttl)?;
            },
            DnsRecord::NS { domain, host, ttl } => {
                write_named_rr(buffer, domain, QueryType::NS, *ttl, None, host)?;
            },
            DnsRecord::CNAME { domain, host, ttl } => {
                write_named_rr(buffer, domain, QueryType::CNAME, *ttl, None, host)?;
            },
            DnsRecord::MX { domain, priority, host, ttl } => {
                write_named_rr(buffer, domain, QueryType::MX, *ttl, Some(*priority), host)?;
            },
            DnsRecord::UNKNOWN { .. } => {
                if buffer.pos() > BUF_SIZE {
                    return Err(DnsError::OutOfBounds);
                }
                assert(splice(b, p, seq![]) =~= b);
            },
        }
        Ok(buffer.pos() - start_pos)
    }
}

} // verus!

verus! {

/// The record with its names lowercased.
pub open spec fn lower_record(r: RecordModel) -> RecordModel {
    match r {
        RecordModel::UNKNOWN { domain, qtype, data_len, ttl } => RecordModel::UNKNOWN {
            domain: lower_text(domain),
            qtype,
            data_len,
            ttl,
        },
        RecordModel::A { domain, addr, ttl } => RecordModel::A { domain: lower_text(domain), addr, ttl },
        RecordModel::NS { domain, host, ttl } => RecordModel::NS { domain: lower_text(domain), host: lower_text(host), ttl },
        RecordModel::CNAME { domain, host, ttl } => RecordModel::CNAME {
            domain: lower_text(domain),
            host: lower_text(host),
            ttl,
        },
        RecordModel::MX { domain, priority, host, ttl } => RecordModel::MX {
            domain: lower_text(domain),
            priority,
            host: lower_text(host),
            ttl,
        },
        RecordModel::AAAA { domain, addr, ttl } => RecordModel::AAAA { domain: lower_text(domain), addr, ttl },
    }
}

/// A record of a supported type whose names are legal and whose address has
/// its proper size.
pub open spec fn legal_record(r: RecordModel) -> bool {
    match r {
        RecordModel::UNKNOWN { .. } => false,
        RecordModel::A { domain, addr, .. } => legal_name(domain) && addr.len() == 4,
        RecordModel::AAAA { domain, addr, .. } => legal_name(domain) && addr.len() == 8,
        RecordModel::NS { domain, host, .. } => legal_name(domain) && legal_name(host),
        RecordModel::CNAME { domain, host, .. } => legal_name(domain) && legal_name(host),
        RecordModel::MX { domain, host, .. } => legal_name(domain) && legal_name(host),
    }
}

proof fn lemma_rr_fields(b: Seq<u8>, p: int, d: Seq<u8>, t: QueryType, ttl: u32, len: u16, data: Seq<u8>)
    requires
        0 <= p,
        p + (rr_prefix(d, t, ttl) + u16_octets(len) + data).len() <= b.len(),
        b.subrange(p, p + (rr_prefix(d, t, ttl) + u16_octets(len) + data).len()) == rr_prefix(d, t, ttl) + u16_octets(len) + data,
    ensures
        b.subrange(p, p + d.len()) == d,
        be16_at(b, p + d.len()) == qtype_num(t),
        be32_at(b, p + d.len() + 4) == ttl,
        be16_at(b, p + d.len() + 8) == len,
        b.subrange(p + d.len() + 10, p + d.len() + 10 + data.len()) == data,
{
    let w = rr_prefix(d, t, ttl) + u16_octets(len) + data;
    let n = d.len() as int;
    lemma_holds_part(b, p, w, 0, n);
    assert(w.subrange(0, n) =~= d);
    lemma_holds_part(b, p, w, n, 2);
    assert(w.subrange(n, n + 2) =~= u16_octets(qtype_num(t)));
    lemma_be16_read(b, p + n, qtype_num(t));
    lemma_holds_part(b, p, w, n + 4, 4);
    assert(w.subrange(n + 4, n + 8) =~= u32_octets(ttl));
    lemma_be32_read(b, p + n + 4, ttl);
    lemma_holds_part(b, p, w, n + 8, 2);
    assert(w.subrange(n + 8, n + 10) =~= u16_octets(len));
    lemma_be16_read(b, p + n + 8, len);
    lemma_holds_part(b, p, w, n + 10, data.len() as int);
    assert(w.subrange(n + 10, n + 10 + data.len() as int) =~= data);
}

proof fn lemma_groups_read(b: Seq<u8>, q: int, g: Seq<u16>)
    requires
        g.len() == 8,
        0 <= q,
        q + 16 <= b.len(),
        b.subrange(q, q + 16) == groups_octets(g),
    ensures
        groups_at(b, q) == g,
{
    reveal(groups_octets);
    let w = groups_octets(g);
    assert forall|k: int| 0 <= k < 8 implies be16_at(b, q + 2 * k) == #[trigger] g[k] by {
        lemma_holds_part(b, q, w, 2 * k, 2);
        assert(w.subrange(2 * k, 2 * k + 2) =~= u16_octets(g[k]));
        lemma_be16_read(b, q + 2 * k, g[k]);
    }
    assert(groups_at(b, q) =~= g);
}

/// Encoding an A, AAAA, NS, CNAME or MX record with legal fields, then
/// decoding the octets, gives the same record with its names lowercased.
#[verifier::rlimit(100)]
pub proof fn lemma_record_round_trip(r: RecordModel, b: Seq<u8>, p: int)
    requires
        legal_record(r),
        0 <= p,
        b.len() == BUF_SIZE,
        p + record_octets(r)->Ok_0.len() <= BUF_SIZE,
        b.subrange(p, p + record_octets(r)->Ok_0.len()) == record_octets(r)->Ok_0,
    ensures
        record_octets(r) is Ok,
        parse_record(b, p) == Ok::<(RecordModel, int), DnsError>((lower_record(r), p + record_octets(r)->Ok_0.len())),
{
    reveal(record_octets);
    match r {
        RecordModel::A { domain, addr, ttl } => {
            lemma_legal_name(domain);
            lemma_fixed_round_trip(domain, QueryType::A, ttl, 4, addr, b, p);
        },
        RecordModel::AAAA { domain, addr, ttl } => {
            lemma_legal_name(domain);
            assert(groups_octets(addr).len() == 16) by { reveal(groups_octets); }
            lemma_fixed_round_trip(domain, QueryType::AAAA, ttl, 16, groups_octets(addr), b, p);
            lemma_groups_read(b, p + qname_octets(encode_utf8(domain))->Ok_0.len() + 10, addr);
        },
        RecordModel::NS { domain, host, ttl } => {
            lemma_named_round_trip(domain, QueryType::NS, ttl, seq![], host, b, p);
        },
        RecordModel::CNAME { domain, host, ttl } => {
            lemma_named_round_trip(domain, QueryType::CNAME, ttl, seq![], host, b, p);
        },
        RecordModel::MX { domain, priority, host, ttl } => {
            lemma_named_round_trip(domain, QueryType::MX, ttl, u16_octets(priority), host, b, p);
        },
        RecordModel::UNKNOWN { .. } => {},
    }
}

proof fn lemma_fixed_round_trip(domain: Seq<char>, t: QueryType, ttl: u32, len: u16, data: Seq<u8>, b: Seq<u8>, p: int)
    requires
        legal_name(domain),
        t == QueryType::A || t == QueryType::AAAA,
        data.len() == len,
        0 <= p,
        b.len() == BUF_SIZE,
        p + (rr_prefix(qname_octets(encode_utf8(domain))->Ok_0, t, ttl) + u16_octets(len) + data).len() <= BUF_SIZE,
        b.subrange(p, p + (rr_prefix(qname_octets(encode_utf8(domain))->Ok_0, t, ttl) + u16_octets(len) + data).len())
            == rr_prefix(qname_octets(encode_utf8(domain))->Ok_0, t, ttl) + u16_octets(len) + data,
    ensures
        qname_octets(encode_utf8(domain)) is Ok,
        parse_name(b, p) == Ok::<(Seq<Seq<u8>>, int), DnsError>((
            name_labels(text_octets(domain)),
            p + qname_octets(encode_utf8(domain))->Ok_0.len(),
        )),
        name_text(name_labels(text_octets(domain))) == lower_text(domain),
        be16_at(b, p + qname_octets(encode_utf8(domain))->Ok_0.len()) == qtype_num(t),
        be32_at(b, p + qname_octets(encode_utf8(domain))->Ok_0.len() + 4) == ttl,
        ({
            let q = p + qname_octets(encode_utf8(domain))->Ok_0.len() + 10;
            b.subrange(q, q + data.len()) == data
        }),
{
    lemma_legal_name(domain);
    let d = qname_octets(encode_utf8(domain))->Ok_0;
    lemma_rr_fields(b, p, d, t, ttl, len, data);
    lemma_name_round_trip(domain, b, p);
}

proof fn lemma_named_round_trip(domain: Seq<char>, t: QueryType, ttl: u32, extra: Seq<u8>, host: Seq<char>, b: Seq<u8>, p: int)
    requires
        legal_name(domain),
        legal_name(host),
        t == QueryType::NS || t == QueryType::CNAME || (t == QueryType::MX && extra.len() == 2),
        t != QueryType::MX ==> extra.len() == 0,
        0 <= p,
        b.len() == BUF_SIZE,
        p + named_rr_octets(domain, t, ttl, extra, host)->Ok_0.len() <= BUF_SIZE,
        b.subrange(p, p + named_rr_octets(domain, t, ttl, extra, host)->Ok_0.len()) == named_rr_octets(domain, t, ttl, extra, host)->Ok_0,
    ensures
        named_rr_octets(domain, t, ttl, extra, host) is Ok,
        ({
            let e = p + named_rr_octets(domain, t, ttl, extra, host)->Ok_0.len();
            let dom = lower_text(domain);
            let hst = lower_text(host);
            parse_record(b, p) == Ok::<(RecordModel, int), DnsError>((
                if t == QueryType::NS {
                    RecordModel::NS { domain: dom, host: hst, ttl }
                } else if t == QueryType::CNAME {
                    RecordModel::CNAME { domain: dom, host: hst, ttl }
                } else {
                    RecordModel::MX { domain: dom, priority: be16_at(extra, 0), host: hst, ttl }
                },
                e,
            ))
        }),
{
    lemma_legal_name(domain);
    lemma_legal_name(host);
    let d = qname_octets(encode_utf8(domain))->Ok_0;
    let h = qname_octets(encode_utf8(host))->Ok_0;
    let len = (extra.len() + h.len()) as u16;
    assert(rr_prefix(d, t, ttl) + u16_octets(len) + extra + h =~= rr_prefix(d, t, ttl) + u16_octets(len) + (extra + h));
    lemma_rr_fields(b, p, d, t, ttl, len, extra + h);
    lemma_name_round_trip(domain, b, p);
    let q = p + d.len() + 10;
    lemma_holds_part(b, q, extra + h, extra.len() as int, h.len() as int);
    assert((extra + h).subrange(extra.len() as int, (extra.len() + h.len()) as int) =~= h);
    lemma_name_round_trip(host, b, q + extra.len());
    if t == QueryType::MX {
        lemma_holds_part(b, q, extra + h, 0, 2);
        assert((extra + h).subrange(0, 2) =~= extra);
        assert(b[q] == extra[0] && b[q + 1] == extra[1]) by {
            assert(b.subrange(q, q + 2)[0] == b[q]);
            assert(b.subrange(q, q + 2)[1] == b[q + 1]);
        }
    }
}

} // verus!
