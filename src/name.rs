use vstd::prelude::*;
use vstd::utf8::*;
use crate::buffer::{lemma_splice_concat, splice, BytePacketBuffer, BUF_SIZE};
use crate::error::DnsError;

verus! {

/// Most compression pointers that one name may follow.
pub const MAX_JUMPS: usize = 5;

/// Longest label, in octets.
pub const MAX_LABEL: usize = 63;

/// The octet that separates labels in a dotted name.
pub const DOT: u8 = 0x2e;

/// ASCII lowercase of one octet; other octets stay as they are.
pub open spec fn lower_octet(b: u8) -> u8 {
    if 0x41 <= b <= 0x5a { (b + 32) as u8 } else { b }
}

pub open spec fn lower_octets(s: Seq<u8>) -> Seq<u8> {
    s.map_values(|b: u8| lower_octet(b))
}

/// The characters of a sequence of ASCII octets.
pub open spec fn ascii_text(s: Seq<u8>) -> Seq<char> {
    s.map_values(|b: u8| b as char)
}

/// ASCII lowercase of a character sequence.
pub open spec fn lower_text(s: Seq<char>) -> Seq<char> {
    s.map_values(|c: char| lower_octet(c as u8) as char)
}

pub open spec fn is_ascii_octets(s: Seq<u8>) -> bool {
    forall|i: int| 0 <= i < s.len() ==> s[i] < 0x80
}

/// Labels joined by dots.
pub open spec fn dotted(labels: Seq<Seq<u8>>) -> Seq<u8>
    decreases labels.len(),
{
    if labels.len() == 0 {
        seq![]
    } else if labels.len() == 1 {
        labels[0]
    } else {
        dotted(labels.drop_last()) + seq![DOT] + labels.last()
    }
}

/// The text that a decoded name reads as: its labels, lowercased, joined by dots.
pub open spec fn name_text(labels: Seq<Seq<u8>>) -> Seq<char> {
    ascii_text(lower_octets(dotted(labels)))
}

/// Decodes the possibly compressed name at `pos` of `b`, having followed
/// `jumps` pointers already: its labels, and where the reading cursor ends
/// (just past the first pointer, or past the terminating zero octet).
pub open spec fn walk_name(b: Seq<u8>, pos: int, jumps: int) -> Result<(Seq<Seq<u8>>, int), DnsError>
    decreases MAX_JUMPS + 1 - jumps, BUF_SIZE - pos,
{
    if jumps > MAX_JUMPS {
        Err(DnsError::TooManyJumps)
    } else if pos < 0 || pos >= BUF_SIZE {
        Err(DnsError::OutOfBounds)
    } else {
        let len = b[pos];
        if len & 0xc0 == 0xc0 {
            if pos + 1 >= BUF_SIZE {
                Err(DnsError::OutOfBounds)
            } else {
                let target = (len & 0x3f) as int * 256 + b[pos + 1] as int;
                match walk_name(b, target, jumps + 1) {
                    Ok((labels, _)) => Ok((labels, pos + 2)),
                    Err(e) => Err(e),
                }
            }
        } else if len & 0xc0 != 0 {
            Err(DnsError::MalformedLabel)
        } else if len == 0 {
            Ok((seq![], pos + 1))
        } else if pos + 1 + len > BUF_SIZE {
            Err(DnsError::OutOfBounds)
        } else if !is_ascii_octets(b.subrange(pos + 1, pos + 1 + len)) {
            Err(DnsError::MalformedLabel)
        } else {
            match walk_name(b, pos + 1 + len, jumps) {
                Ok((rest, end)) => Ok((seq![b.subrange(pos + 1, pos + 1 + len)] + rest, end)),
                Err(e) => Err(e),
            }
        }
    }
}

/// The name at `pos` of a buffer holding `b`, read from the start.
pub open spec fn parse_name(b: Seq<u8>, pos: int) -> Result<(Seq<Seq<u8>>, int), DnsError> {
    walk_name(b, pos, 0)
}

/// Prefixes `prefix` to the labels of a walk; `end`, when set, replaces its end.
pub open spec fn extend_walk(
    prefix: Seq<Seq<u8>>,
    end: Option<int>,
    r: Result<(Seq<Seq<u8>>, int), DnsError>,
) -> Result<(Seq<Seq<u8>>, int), DnsError> {
    match r {
        Ok((labels, e)) => Ok((
            prefix + labels,
            match end {
                Some(x) => x,
                None => e,
            },
        )),
        Err(err) => Err(err),
    }
}

proof fn lemma_lower_octets_concat(a: Seq<u8>, b: Seq<u8>)
    ensures
        lower_octets(a + b) == lower_octets(a) + lower_octets(b),
{
    assert(lower_octets(a + b) =~= lower_octets(a) + lower_octets(b));
}

proof fn lemma_dotted_push(labels: Seq<Seq<u8>>, l: Seq<u8>)
    requires
        labels.len() > 0,
    ensures
        dotted(labels.push(l)) == dotted(labels) + seq![DOT] + l,
{
    assert(labels.push(l).drop_last() =~= labels);
}

proof fn lemma_dotted_ascii(labels: Seq<Seq<u8>>)
    requires
        forall|i: int| 0 <= i < labels.len() ==> is_ascii_octets(#[trigger] labels[i]),
    ensures
        is_ascii_octets(dotted(labels)),
    decreases labels.len(),
{
    if labels.len() > 1 {
        lemma_dotted_ascii(labels.drop_last());
        let d = dotted(labels.drop_last());
        let l = labels.last();
        assert(is_ascii_octets(l));
        assert forall|i: int| 0 <= i < dotted(labels).len() implies dotted(labels)[i] < 0x80 by {
            if i < d.len() {
            } else if i == d.len() {
            } else {
                assert(dotted(labels)[i] == l[i - d.len() - 1]);
            }
        }
    }
}

proof fn lemma_lower_ascii(s: Seq<u8>)
    requires
        is_ascii_octets(s),
    ensures
        is_ascii_octets(lower_octets(s)),
{
}

/// ASCII octets are valid UTF-8 and decode to the characters of the same codes.
pub proof fn lemma_ascii_utf8(s: Seq<u8>)
    requires
        is_ascii_octets(s),
    ensures
        valid_utf8(s),
        decode_utf8(s) == ascii_text(s),
{
    let t = ascii_text(s);
    assert(is_ascii_chars(t)) by {
        assert forall|i: int| 0 <= i < t.len() implies '\0' <= #[trigger] t[i] <= '\u{7f}' by {
            assert(s[i] < 0x80);
        }
    }
    is_ascii_chars_encode_utf8(t);
    assert(encode_utf8(t) =~= s) by {
        assert forall|i: int| 0 <= i < s.len() implies encode_utf8(t)[i] == s[i] by {
            assert(t[i] as u8 == encode_utf8(t)[i]);
            assert(t[i] == s[i] as char);
        }
    }
    encode_utf8_valid_utf8(t);
    encode_utf8_decode_utf8(t);
}

/// Splits a dotted name: the labels closed by a dot so far (empty ones
/// skipped), and the label still open at the end.
pub open spec fn split_dots(s: Seq<u8>) -> (Seq<Seq<u8>>, Seq<u8>)
    decreases s.len(),
{
    if s.len() == 0 {
        (seq![], seq![])
    } else {
        let (done, cur) = split_dots(s.drop_last());
        if s.last() == DOT {
            (if cur.len() > 0 { done.push(cur) } else { done }, seq![])
        } else {
            (done, cur.push(s.last()))
        }
    }
}

/// The non-empty labels of a dotted name, in order.
pub open spec fn name_labels(s: Seq<u8>) -> Seq<Seq<u8>> {
    let (done, cur) = split_dots(s);
    if cur.len() > 0 { done.push(cur) } else { done }
}

/// Every label is at most 63 octets long.
pub open spec fn labels_fit(labels: Seq<Seq<u8>>) -> bool {
    forall|i: int| 0 <= i < labels.len() ==> (#[trigger] labels[i]).len() <= MAX_LABEL
}

/// Each label prefixed by its length, without the terminating zero octet.
pub open spec fn labels_wire(labels: Seq<Seq<u8>>) -> Seq<u8>
    decreases labels.len(),
{
    if labels.len() == 0 {
        seq![]
    } else {
        seq![labels[0].len() as u8] + labels[0] + labels_wire(labels.drop_first())
    }
}

/// The uncompressed wire form of the dotted name `s`, or why it has none.
pub open spec fn qname_octets(s: Seq<u8>) -> Result<Seq<u8>, DnsError> {
    if labels_fit(name_labels(s)) {
        Ok(labels_wire(name_labels(s)) + seq![0u8])
    } else {
        Err(DnsError::MalformedLabel)
    }
}

/// The octets of ASCII text.
pub open spec fn text_octets(t: Seq<char>) -> Seq<u8> {
    t.map_values(|c: char| c as u8)
}

/// A name that encodes and decodes back to itself, lowercased: ASCII, each
/// label 1 to 63 octets, and nothing but its labels joined by dots (no
/// leading, trailing or doubled dot).
pub open spec fn legal_name(t: Seq<char>) -> bool {
    &&& is_ascii_chars(t)
    &&& labels_fit(name_labels(text_octets(t)))
    &&& dotted(name_labels(text_octets(t))) == text_octets(t)
}

pub proof fn lemma_labels_wire_push(labels: Seq<Seq<u8>>, l: Seq<u8>)
    ensures
        labels_wire(labels.push(l)) == labels_wire(labels) + seq![l.len() as u8] + l,
    decreases labels.len(),
{
    if labels.len() == 0 {
        assert(labels.push(l).drop_first() =~= seq![]);
        assert(labels_wire(labels.push(l).drop_first()) == Seq::<u8>::empty());
        assert(labels.push(l)[0] == l);
        assert(labels_wire(labels.push(l)) =~= labels_wire(labels) + seq![l.len() as u8] + l);
    } else {
        assert(labels.push(l).drop_first() =~= labels.drop_first().push(l));
        lemma_labels_wire_push(labels.drop_first(), l);
        assert(labels_wire(labels.push(l)) =~= labels_wire(labels) + seq![l.len() as u8] + l);
    }
}

proof fn lemma_split_dots(s: Seq<u8>)
    ensures
        forall|i: int| 0 <= i < split_dots(s).0.len() ==> (#[trigger] split_dots(s).0[i]).len() > 0,
        is_ascii_octets(s) ==> is_ascii_octets(split_dots(s).1),
        is_ascii_octets(s) ==> forall|i: int| 0 <= i < split_dots(s).0.len() ==> is_ascii_octets(#[trigger] split_dots(s).0[i]),
    decreases s.len(),
{
    if s.len() > 0 {
        lemma_split_dots(s.drop_last());
        if is_ascii_octets(s) {
            assert(is_ascii_octets(s.drop_last()));
        }
    }
}

/// The labels of a dotted name are non-empty, and ASCII where the name is.
pub proof fn lemma_name_labels(s: Seq<u8>)
    ensures
        forall|i: int| 0 <= i < name_labels(s).len() ==> (#[trigger] name_labels(s)[i]).len() > 0,
        is_ascii_octets(s) ==> forall|i: int| 0 <= i < name_labels(s).len() ==> is_ascii_octets(#[trigger] name_labels(s)[i]),
{
    lemma_split_dots(s);
}

/// A name written as its labels, each 1 to 63 ASCII octets, reads back as
/// those labels, with the cursor just past the terminating zero octet.
pub proof fn lemma_walk_labels_wire(b: Seq<u8>, p: int, labels: Seq<Seq<u8>>, jumps: int)
    requires
        0 <= p,
        0 <= jumps <= MAX_JUMPS,
        labels_fit(labels),
        forall|i: int| 0 <= i < labels.len() ==> (#[trigger] labels[i]).len() > 0,
        forall|i: int| 0 <= i < labels.len() ==> is_ascii_octets(#[trigger] labels[i]),
        p + labels_wire(labels).len() + 1 <= BUF_SIZE,
        b.len() == BUF_SIZE,
        b.subrange(p, p + labels_wire(labels).len() + 1) == labels_wire(labels) + seq![0u8],
    ensures
        walk_name(b, p, jumps) == Ok::<(Seq<Seq<u8>>, int), DnsError>((labels, p + labels_wire(labels).len() + 1)),
    decreases labels.len(),
{
    let w = labels_wire(labels) + seq![0u8];
    assert(b[p] == w[0]);
    if labels.len() == 0 {
        assert(b[p] == 0);
        assert(0u8 & 0xc0 == 0) by (bit_vector);
        assert(labels =~= seq![]);
    } else {
        let l = labels[0];
        let len = l.len() as u8;
        assert(len & 0xc0 == 0) by (bit_vector)
            requires len <= 63;
        let rest = labels.drop_first();
        let q = p + 1 + l.len();
        assert(labels_wire(labels) == seq![len] + l + labels_wire(rest));
        assert(b.subrange(p + 1, q) =~= l) by {
            assert forall|k: int| 0 <= k < l.len() implies b.subrange(p + 1, q)[k] == l[k] by {
                assert(b[p + 1 + k] == w[1 + k]);
            }
        }
        assert(b.subrange(q, q + labels_wire(rest).len() + 1) =~= labels_wire(rest) + seq![0u8]) by {
            assert forall|k: int| 0 <= k < labels_wire(rest).len() + 1
                implies b.subrange(q, q + labels_wire(rest).len() + 1)[k] == (labels_wire(rest) + seq![0u8])[k] by {
                assert(b[q + k] == w[1 + l.len() + k]);
            }
        }
        assert forall|i: int| 0 <= i < rest.len() implies (#[trigger] rest[i]).len() > 0 && rest[i].len() <= MAX_LABEL && is_ascii_octets(rest[i]) by {
            assert(rest[i] == labels[i + 1]);
        }
        lemma_walk_labels_wire(b, q, rest, jumps);
        assert(seq![l] + rest =~= labels);
    }
}

/// Relies on String::from_utf8: it succeeds exactly on valid UTF-8, and then
/// holds the characters that the octets encode.
#[verifier::external_body]
fn utf8_string(v: Vec<u8>) -> (r: Option<String>)
    ensures
        r is Some <==> valid_utf8(v@),
        r matches Some(s) ==> s@ == decode_utf8(v@),
{
    String::from_utf8(v).ok()
}

fn lower_ascii(b: u8) -> (r: u8)
    ensures
        r == lower_octet(b),
{
    if 0x41 <= b && b <= 0x5a {
        b + 32
    } else {
        b
    }
}

/// The uncompressed wire form of a dotted name: each non-empty label prefixed
/// by its length, then a zero octet. A label longer than 63 octets is refused.
pub fn encode_qname(qname: &str) -> (r: Result<Vec<u8>, DnsError>)
    ensures
        r is Ok <==> qname_octets(encode_utf8(qname@)) is Ok,
        r matches Ok(v) ==> Ok::<Seq<u8>, DnsError>(v@) == qname_octets(encode_utf8(qname@)),
        r matches Err(e) ==> Err::<Seq<u8>, DnsError>(e) == qname_octets(encode_utf8(qname@)),
{
    let bytes = qname.as_bytes();
    let ghost s = bytes@;
    let mut out: Vec<u8> = Vec::new();
    let mut fits: bool = true;
    let mut start: usize = 0;
    let mut i: usize = 0;
    let ghost mut done: Seq<Seq<u8>> = seq![];
    while i < bytes.len()
        invariant
            s == bytes@,
            s == encode_utf8(qname@),
            start <= i <= s.len(),
            split_dots(s.subrange(0, i as int)) == (done, s.subrange(start as int, i as int)),
            out@ == labels_wire(done),
            fits == labels_fit(done),
        decreases s.len() - i,
    {
        let ghost pre = s.subrange(0, i as int);
        assert(s.subrange(0, i + 1).drop_last() =~= pre);
        if bytes[i] == DOT {
            if i > start {
                let ghost cur = s.subrange(start as int, i as int);
                if i - start > MAX_LABEL {
                    fits = false;
                }
                out.push((i - start) as u8);
                let ghost before = out@;
                let mut j: usize = start;
                while j < i
                    invariant
                        s == bytes@,
                        start <= j <= i,
                        i < s.len(),
                        out@ == before + s.subrange(start as int, j as int),
                    decreases i - j,
                {
                    out.push(bytes[j]);
                    assert(s.subrange(start as int, j + 1) =~= s.subrange(start as int, j as int).push(s[j as int]));
                    j = j + 1;
                }
                proof {
                    lemma_labels_wire_push(done, cur);
                    assert(fits == labels_fit(done.push(cur))) by {
                        if !labels_fit(done) {
                            let k = choose|k: int| 0 <= k < done.len() && (#[trigger] done[k]).len() > MAX_LABEL;
                            assert(done.push(cur)[k] == done[k]);
                        }
                        if cur.len() > MAX_LABEL {
                            assert(done.push(cur)[done.len() as int] == cur);
                        }
                    }
                    done = done.push(cur);
                }
            }
            start = i + 1;
        }
        proof {
            if s[i as int] != DOT {
                assert(s.subrange(start as int, i + 1) =~= s.subrange(start as int, i as int).push(s[i as int]));
            }
            assert(s.subrange(i + 1, i + 1) =~= Seq::<u8>::empty());
        }
        i = i + 1;
    }
    let ghost cur = s.subrange(start as int, i as int);
    assert(s.subrange(0, s.len() as int) =~= s);
    assert(cur.len() > 0 <==> i > start);
    if i > start {
        if i - start > MAX_LABEL {
            fits = false;
        }
        out.push((i - start) as u8);
        let ghost before = out@;
        let mut j: usize = start;
        while j < i
            invariant
                s == bytes@,
                start <= j <= i,
                i == s.len(),
                out@ == before + s.subrange(start as int, j as int),
            decreases i - j,
        {
            out.push(bytes[j]);
            assert(s.subrange(start as int, j + 1) =~= s.subrange(start as int, j as int).push(s[j as int]));
            j = j + 1;
        }
        proof {
            lemma_labels_wire_push(done, cur);
            assert(s.subrange(start as int, j as int) == cur);
            assert(out@ =~= labels_wire(done) + seq![cur.len() as u8] + cur);
            assert(fits == labels_fit(done.push(cur))) by {
                if !labels_fit(done) {
                    let k = choose|k: int| 0 <= k < done.len() && (#[trigger] done[k]).len() > MAX_LABEL;
                    assert(done.push(cur)[k] == done[k]);
                }
                if cur.len() > MAX_LABEL {
                    assert(done.push(cur)[done.len() as int] == cur);
                }
            }
            done = done.push(cur);
        }
    }
    assert(done == name_labels(s));
    if !fits {
        return Err(DnsError::MalformedLabel);
    }
    let ghost body = out@;
    out.push(0);
    assert(out@ =~= body + seq![0u8]);
    Ok(out)
}

impl BytePacketBuffer {
    /// Decodes the possibly compressed name at the cursor and appends its text,
    /// lowercased, to `outstr`. On success the cursor moves past the name as it
    /// stands at the cursor (past its first pointer, if it has one).
    pub fn read_qname(&mut self, outstr: &mut String) -> (r: Result<(), DnsError>)
        ensures
            final(self).buf == old(self).buf,
            r is Ok <==> parse_name(old(self).bytes(), old(self).pos as int) is Ok,
            r matches Err(e) ==> parse_name(old(self).bytes(), old(self).pos as int) == Err::<
                (Seq<Seq<u8>>, int),
                DnsError,
            >(e) && *final(self) == *old(self) && final(outstr)@ == old(outstr)@,
            r is Ok ==> ({
                let (labels, end) = parse_name(old(self).bytes(), old(self).pos as int)->Ok_0;
                &&& final(self).pos == end
                &&& final(outstr)@ == old(outstr)@ + name_text(labels)
            }),
    {
        let ghost b = self.bytes();
        let ghost whole = parse_name(b, self.pos as int);
        let mut pos: usize = self.pos;
        let mut jumped: bool = false;
        let mut jumps: usize = 0;
        let mut end: usize = 0;
        let mut text: Vec<u8> = Vec::new();
        let ghost mut labels: Seq<Seq<u8>> = seq![];
        let mut has_label: bool = false;
        if pos > BUF_SIZE {
            return Err(DnsError::OutOfBounds);
        }
        loop
            invariant_except_break
                whole == extend_walk(labels, if jumped { Some(end as int) } else { None }, walk_name(b, pos as int, jumps as int)),
            invariant
                b == self.bytes(),
                *self == *old(self),
                jumps <= MAX_JUMPS + 1,
                pos <= 0x4000,
                !jumped ==> pos <= BUF_SIZE,
                jumped ==> end <= BUF_SIZE,
                whole == parse_name(old(self).bytes(), old(self).pos as int),
                forall|i: int| 0 <= i < labels.len() ==> is_ascii_octets(#[trigger] labels[i]),
                forall|i: int| 0 <= i < labels.len() ==> (#[trigger] labels[i]).len() > 0,
                text@ == lower_octets(dotted(labels)),
                has_label == (labels.len() > 0),
            ensures
                whole == extend_walk(labels, if jumped { Some(end as int) } else { None }, Ok((seq![], pos as int))),
                pos <= BUF_SIZE,
            decreases MAX_JUMPS + 1 - jumps, BUF_SIZE - pos,
        {
            if jumps > MAX_JUMPS {
                assert(walk_name(b, pos as int, jumps as int) is Err);
                return Err(DnsError::TooManyJumps);
            }
            if pos >= BUF_SIZE {
                assert(walk_name(b, pos as int, jumps as int) is Err);
                return Err(DnsError::OutOfBounds);
            }
            let len = self.buf[pos];
            if len & 0xc0 == 0xc0 {
                if pos + 1 >= BUF_SIZE {
                    assert(walk_name(b, pos as int, jumps as int) is Err);
                    return Err(DnsError::OutOfBounds);
                }
                let b2 = self.buf[pos + 1];
                if !jumped {
                    end = pos + 2;
                }
                proof {
                    assert(len & 0x3f <= 0x3f) by (bit_vector);
                }
                pos = ((len & 0x3f) as usize) * 256 + b2 as usize;
                jumped = true;
                jumps = jumps + 1;
            } else if len & 0xc0 != 0 {
                assert(walk_name(b, pos as int, jumps as int) is Err);
                return Err(DnsError::MalformedLabel);
            } else {
                if len == 0 {
                    assert(walk_name(b, pos as int, jumps as int) == Ok::<(Seq<Seq<u8>>, int), DnsError>((seq![], pos + 1)));
                    pos = pos + 1;
                    break;
                }
                pos = pos + 1;
                if pos > BUF_SIZE || len as usize > BUF_SIZE - pos {
                    assert(walk_name(b, pos - 1, jumps as int) is Err);
                    return Err(DnsError::OutOfBounds);
                }
                proof {
                    assert(len & 0xc0 == 0 ==> len < 64) by (bit_vector);
                }
                let octets = self.get_range(pos, len as usize)?;
                let ghost label = b.subrange(pos as int, pos + len);
                let mut ascii: bool = true;
                let mut i: usize = 0;
                while i < len as usize
                    invariant
                        octets@ == label,
                        label.len() == len,
                        i <= len,
                        ascii == (forall|k: int| 0 <= k < i ==> label[k] < 0x80),
                    decreases len - i,
                {
                    if octets[i] >= 0x80 {
                        ascii = false;
                    }
                    i = i + 1;
                }
                if !ascii {
                    assert(walk_name(b, pos - 1, jumps as int) is Err);
                    return Err(DnsError::MalformedLabel);
                }
                assert(label =~= octets@);
                assert(walk_name(b, pos - 1, jumps as int) == extend_walk(seq![b.subrange(pos as int, pos + len)], None, walk_name(b, pos + len, jumps as int)));
                if has_label {
                    text.push(DOT);
                }
                let ghost before = text@;
                let mut j: usize = 0;
                while j < len as usize
                    invariant
                        octets@ == label,
                        label.len() == len,
                        j <= len,
                        text@ == before + lower_octets(label.subrange(0, j as int)),
                    decreases len - j,
                {
                    let c = lower_ascii(octets[j]);
                    text.push(c);
                    proof {
                        assert(label.subrange(0, j + 1) =~= label.subrange(0, j as int).push(label[j as int]));
                        lemma_lower_octets_concat(label.subrange(0, j as int), seq![label[j as int]]);
                        assert(lower_octets(seq![label[j as int]]) =~= seq![c]);
                    }
                    j = j + 1;
                }
                proof {
                    assert(label.subrange(0, len as int) =~= label);
                    if labels.len() > 0 {
                        lemma_dotted_push(labels, label);
                        lemma_lower_octets_concat(dotted(labels) + seq![DOT], label);
                        lemma_lower_octets_concat(dotted(labels), seq![DOT]);
                        assert(lower_octets(seq![DOT]) =~= seq![DOT]);
                    } else {
                        assert(dotted(seq![label]) == label);
                        assert(seq![label] =~= labels.push(label));
                    }
                    assert(labels + (seq![label] + walk_name(b, (pos + len) as int, jumps as int)->Ok_0.0)
                        =~= labels.push(label) + walk_name(b, (pos + len) as int, jumps as int)->Ok_0.0);
                    labels = labels.push(label);
                }
                has_label = true;
                pos = pos + len as usize;
            }
        }
        if !jumped {
            end = pos;
        }
        proof {
            assert(labels + seq![] =~= labels);
            lemma_dotted_ascii(labels);
            lemma_lower_ascii(dotted(labels));
            lemma_ascii_utf8(text@);
        }
        match utf8_string(text) {
            Some(s) => {
                outstr.append(s.as_str());
                self.pos = end;
                Ok(())
            },
            None => Err(DnsError::MalformedLabel),
        }
    }
    /// Writes `qname` uncompressed at the cursor and moves past it. A label
    /// longer than 63 octets is refused; on any failure nothing is written.
    pub fn write_qname(&mut self, qname: &str) -> (r: Result<(), DnsError>)
        ensures
            qname_octets(encode_utf8(qname@)) matches Err(e) ==> r == Err::<(), DnsError>(e),
            qname_octets(encode_utf8(qname@)) matches Ok(w) ==> {
                &&& (old(self).pos + w.len() <= BUF_SIZE <==> r is Ok)
                &&& (r is Ok ==> final(self).bytes() == splice(old(self).bytes(), old(self).pos as int, w)
                    && final(self).pos == old(self).pos + w.len())
                &&& (r is Err ==> r == Err::<(), DnsError>(DnsError::OutOfBounds))
            },
            r is Err ==> *final(self) == *old(self),
    {
        let octets = encode_qname(qname)?;
        if self.pos > BUF_SIZE || octets.len() > BUF_SIZE - self.pos {
            return Err(DnsError::OutOfBounds);
        }
        let ghost b0 = self.bytes();
        let ghost p0 = self.pos as int;
        let mut i: usize = 0;
        while i < octets.len()
            invariant
                i <= octets@.len(),
                p0 + octets@.len() <= BUF_SIZE,
                self.pos == p0 + i,
                self.bytes() == splice(b0, p0, octets@.subrange(0, i as int)),
                b0.len() == BUF_SIZE,
            decreases octets@.len() - i,
        {
            let ghost before = self.bytes();
            self.write(octets[i])?;
            proof {
                lemma_splice_concat(b0, p0, octets@.subrange(0, i as int), seq![octets@[i as int]]);
                assert(octets@.subrange(0, i as int) + seq![octets@[i as int]] =~= octets@.subrange(0, i + 1));
            }
            i = i + 1;
        }
        assert(octets@.subrange(0, i as int) =~= octets@);
        Ok(())
    }
}

} // verus!

verus! {

/// What a legal name gives: its octets are its characters, it has a wire
/// form, and its labels read back as its lowercased text.
pub proof fn lemma_legal_name(t: Seq<char>)
    requires
        legal_name(t),
    ensures
        encode_utf8(t) == text_octets(t),
        is_ascii_octets(text_octets(t)),
        qname_octets(encode_utf8(t)) == Ok::<Seq<u8>, DnsError>(labels_wire(name_labels(text_octets(t))) + seq![0u8]),
        name_text(name_labels(text_octets(t))) == lower_text(t),
        forall|i: int| 0 <= i < name_labels(text_octets(t)).len() ==> (#[trigger] name_labels(text_octets(t))[i]).len() > 0,
        forall|i: int| 0 <= i < name_labels(text_octets(t)).len() ==> is_ascii_octets(#[trigger] name_labels(text_octets(t))[i]),
{
    let s = text_octets(t);
    is_ascii_chars_encode_utf8(t);
    assert(encode_utf8(t) =~= s);
    assert(is_ascii_octets(s)) by {
        assert forall|i: int| 0 <= i < s.len() implies s[i] < 0x80 by {
            assert('\0' <= t[i] <= '\u{7f}');
        }
    }
    lemma_name_labels(s);
    assert(name_text(name_labels(s)) =~= lower_text(t));
}

/// A legal name written at `p` reads back as its labels, with the cursor
/// just past it.
pub proof fn lemma_name_round_trip(t: Seq<char>, b: Seq<u8>, p: int)
    requires
        legal_name(t),
        0 <= p,
        b.len() == BUF_SIZE,
        p + qname_octets(encode_utf8(t))->Ok_0.len() <= BUF_SIZE,
        b.subrange(p, p + qname_octets(encode_utf8(t))->Ok_0.len()) == qname_octets(encode_utf8(t))->Ok_0,
    ensures
        parse_name(b, p) == Ok::<(Seq<Seq<u8>>, int), DnsError>((
            name_labels(text_octets(t)),
            p + qname_octets(encode_utf8(t))->Ok_0.len(),
        )),
        name_text(name_labels(text_octets(t))) == lower_text(t),
{
    lemma_legal_name(t);
    lemma_walk_labels_wire(b, p, name_labels(text_octets(t)), 0);
}

} // verus!

verus! {

/// The two octets at `p` are a compression pointer.
pub open spec fn is_pointer(b: Seq<u8>, p: int) -> bool {
    0 <= p && p + 1 < BUF_SIZE && b[p] & 0xc0 == 0xc0
}

/// The offset that the pointer at `p` points to.
pub open spec fn pointer_target(b: Seq<u8>, p: int) -> int {
    (b[p] & 0x3f) as int * 256 + b[p + 1] as int
}

proof fn lemma_chain_from(b: Seq<u8>, chain: Seq<int>, k: int)
    requires
        chain.len() >= 6,
        0 <= k < 6,
        forall|i: int| 0 <= i < 6 ==> is_pointer(b, #[trigger] chain[i]),
        forall|i: int| 0 <= i < 5 ==> pointer_target(b, #[trigger] chain[i]) == chain[i + 1],
    ensures
        walk_name(b, chain[k], k) == Err::<(Seq<Seq<u8>>, int), DnsError>(DnsError::TooManyJumps),
    decreases 6 - k,
{
    assert(is_pointer(b, chain[k]));
    let t = pointer_target(b, chain[k]);
    if k < 5 {
        lemma_chain_from(b, chain, k + 1);
        assert(t == chain[k + 1]);
    } else {
        assert(walk_name(b, t, 6) == Err::<(Seq<Seq<u8>>, int), DnsError>(DnsError::TooManyJumps));
    }
}

/// A name that runs through six compression pointers in a row, each but the
/// last pointing at the next, fails with TooManyJumps.
pub proof fn lemma_pointer_chain(b: Seq<u8>, chain: Seq<int>)
    requires
        chain.len() >= 6,
        forall|i: int| 0 <= i < 6 ==> is_pointer(b, #[trigger] chain[i]),
        forall|i: int| 0 <= i < 5 ==> pointer_target(b, #[trigger] chain[i]) == chain[i + 1],
    ensures
        parse_name(b, chain[0]) == Err::<(Seq<Seq<u8>>, int), DnsError>(DnsError::TooManyJumps),
{
    lemma_chain_from(b, chain, 0);
}

/// A name that is a pointer to itself fails with TooManyJumps.
pub proof fn lemma_self_pointer(b: Seq<u8>, p: int)
    requires
        is_pointer(b, p),
        pointer_target(b, p) == p,
    ensures
        parse_name(b, p) == Err::<(Seq<Seq<u8>>, int), DnsError>(DnsError::TooManyJumps),
{
    let chain = seq![p, p, p, p, p, p];
    lemma_pointer_chain(b, chain);
}

/// A pointer to an offset past the buffer fails with OutOfBounds.
pub proof fn lemma_pointer_out_of_bounds(b: Seq<u8>, p: int)
    requires
        is_pointer(b, p),
        pointer_target(b, p) >= BUF_SIZE,
    ensures
        parse_name(b, p) == Err::<(Seq<Seq<u8>>, int), DnsError>(DnsError::OutOfBounds),
{
    assert(walk_name(b, pointer_target(b, p), 1) == Err::<(Seq<Seq<u8>>, int), DnsError>(DnsError::OutOfBounds));
}

/// A label whose length runs past the buffer fails with OutOfBounds.
pub proof fn lemma_label_out_of_bounds(b: Seq<u8>, p: int)
    requires
        b.len() == BUF_SIZE,
        0 <= p < BUF_SIZE,
        0 < b[p] < 64,
        p + 1 + b[p] > BUF_SIZE,
    ensures
        parse_name(b, p) == Err::<(Seq<Seq<u8>>, int), DnsError>(DnsError::OutOfBounds),
{
    let len = b[p];
    assert(len & 0xc0 == 0) by (bit_vector)
        requires len < 64;
}

} // verus!
