use vstd::prelude::*;
use crate::error::DnsError;

verus! {

/// Size of a DNS datagram, and of the buffer that holds one.
pub const BUF_SIZE: usize = 512;

/// The two octets of `v`, most significant first.
pub open spec fn u16_octets(v: u16) -> Seq<u8> {
    seq![(v / 256) as u8, (v % 256) as u8]
}

/// The four octets of `v`, most significant first.
pub open spec fn u32_octets(v: u32) -> Seq<u8> {
    seq![
        (v / 0x100_0000) as u8,
        ((v / 0x1_0000) % 256) as u8,
        ((v / 256) % 256) as u8,
        (v % 256) as u8,
    ]
}

/// The big-endian 16-bit word at `p`.
pub open spec fn be16_at(b: Seq<u8>, p: int) -> u16 {
    (b[p] as int * 256 + b[p + 1] as int) as u16
}

/// The big-endian 32-bit word at `p`.
pub open spec fn be32_at(b: Seq<u8>, p: int) -> u32 {
    (b[p] as int * 0x100_0000 + b[p + 1] as int * 0x1_0000 + b[p + 2] as int * 256
        + b[p + 3] as int) as u32
}

/// `b` with `data` stored from position `p` on.
pub open spec fn splice(b: Seq<u8>, p: int, data: Seq<u8>) -> Seq<u8> {
    b.subrange(0, p) + data + b.subrange(p + data.len(), b.len() as int)
}

pub proof fn lemma_splice_concat(b: Seq<u8>, p: int, d1: Seq<u8>, d2: Seq<u8>)
    requires
        0 <= p,
        p + d1.len() + d2.len() <= b.len(),
    ensures
        splice(splice(b, p, d1), p + d1.len(), d2) == splice(b, p, d1 + d2),
        splice(b, p, d1).len() == b.len(),
{
    assert(splice(splice(b, p, d1), p + d1.len(), d2) =~= splice(b, p, d1 + d2));
}

/// A DNS datagram of 512 octets with one cursor shared by reads and writes.
pub struct BytePacketBuffer {
    pub buf: [u8; 512],
    pub pos: usize,
}

impl BytePacketBuffer {
    /// The octets of the buffer.
    pub open spec fn bytes(&self) -> Seq<u8> {
        self.buf@
    }

    /// A zeroed buffer with the cursor at the start.
    pub fn new() -> (r: BytePacketBuffer)
        ensures
            r.pos == 0,
            r.bytes().len() == BUF_SIZE,
            forall|i: int| 0 <= i < BUF_SIZE ==> r.bytes()[i] == 0,
    {
        BytePacketBuffer { buf: [0u8; 512], pos: 0 }
    }

    /// The current cursor.
    pub fn pos(&self) -> (r: usize)
        ensures
            r == self.pos,
    {
        self.pos
    }

    /// Moves the cursor forward by `steps`; fails if it would pass the end.
    pub fn step(&mut self, steps: usize) -> (r: Result<(), DnsError>)
        ensures
            final(self).buf == old(self).buf,
            old(self).pos + steps <= BUF_SIZE <==> r is Ok,
            r is Ok ==> final(self).pos == old(self).pos + steps,
            r matches Err(e) ==> e == DnsError::OutOfBounds && final(self).pos == old(self).pos,
    {
        if self.pos > BUF_SIZE || steps > BUF_SIZE - self.pos {
            return Err(DnsError::OutOfBounds);
        }
        self.pos = self.pos + steps;
        Ok(())
    }

    /// Sets the cursor; fails for a position past the end.
    pub fn seek(&mut self, pos: usize) -> (r: Result<(), DnsError>)
        ensures
            final(self).buf == old(self).buf,
            pos <= BUF_SIZE <==> r is Ok,
            r is Ok ==> final(self).pos == pos,
            r matches Err(e) ==> e == DnsError::OutOfBounds && final(self).pos == old(self).pos,
    {
        if pos > BUF_SIZE {
            return Err(DnsError::OutOfBounds);
        }
        self.pos = pos;
        Ok(())
    }

    /// Reads the octet at the cursor and moves past it.
    pub fn read(&mut self) -> (r: Result<u8, DnsError>)
        ensures
            final(self).buf == old(self).buf,
            old(self).pos < BUF_SIZE <==> r is Ok,
            r matches Ok(v) ==> v == old(self).bytes()[old(self).pos as int]
                && final(self).pos == old(self).pos + 1,
            r matches Err(e) ==> e == DnsError::OutOfBounds && final(self).pos == old(self).pos,
    {
        if self.pos >= BUF_SIZE {
            return Err(DnsError::OutOfBounds);
        }
        let res = self.buf[self.pos];
        self.pos = self.pos + 1;
        Ok(res)
    }

    /// The octet at `pos`, without moving the cursor.
    pub fn get(&self, pos: usize) -> (r: Result<u8, DnsError>)
        ensures
            pos < BUF_SIZE <==> r is Ok,
            r matches Ok(v) ==> v == self.bytes()[pos as int],
            r matches Err(e) ==> e == DnsError::OutOfBounds,
    {
        if pos >= BUF_SIZE {
            return Err(DnsError::OutOfBounds);
        }
        Ok(self.buf[pos])
    }

    /// The `len` octets from `start` on, without moving the cursor.
    pub fn get_range(&self, start: usize, len: usize) -> (r: Result<&[u8], DnsError>)
        ensures
            start + len <= BUF_SIZE <==> r is Ok,
            r matches Ok(s) ==> s@ == self.bytes().subrange(start as int, start + len),
            r matches Err(e) ==> e == DnsError::OutOfBounds,
    {
        if start > BUF_SIZE || len > BUF_SIZE - start {
            return Err(DnsError::OutOfBounds);
        }
        Ok(&self.buf.as_slice()[start..start + len])
    }

    /// Reads a big-endian 16-bit word and moves past it.
    pub fn read_u16(&mut self) -> (r: Result<u16, DnsError>)
        ensures
            final(self).buf == old(self).buf,
            old(self).pos + 2 <= BUF_SIZE <==> r is Ok,
            r matches Ok(v) ==> v == be16_at(old(self).bytes(), old(self).pos as int)
                && final(self).pos == old(self).pos + 2,
            r matches Err(e) ==> e == DnsError::OutOfBounds,
    {
        if self.pos > BUF_SIZE - 2 {
            return Err(DnsError::OutOfBounds);
        }
        let hi = self.read()?;
        let lo = self.read()?;
        Ok((hi as u16) * 256 + lo as u16)
    }

    /// Reads a big-endian 32-bit word and moves past it.
    pub fn read_u32(&mut self) -> (r: Result<u32, DnsError>)
        ensures
            final(self).buf == old(self).buf,
            old(self).pos + 4 <= BUF_SIZE <==> r is Ok,
            r matches Ok(v) ==> v == be32_at(old(self).bytes(), old(self).pos as int)
                && final(self).pos == old(self).pos + 4,
            r matches Err(e) ==> e == DnsError::OutOfBounds,
    {
        if self.pos > BUF_SIZE - 4 {
            return Err(DnsError::OutOfBounds);
        }
        let b0 = self.read()?;
        let b1 = self.read()?;
        let b2 = self.read()?;
        let b3 = self.read()?;
        Ok((b0 as u32) * 0x100_0000 + (b1 as u32) * 0x1_0000 + (b2 as u32) * 256 + b3 as u32)
    }

    /// Stores one octet at the cursor and moves past it.
    pub fn write(&mut self, val: u8) -> (r: Result<(), DnsError>)
        ensures
            old(self).pos < BUF_SIZE <==> r is Ok,
            r is Ok ==> final(self).bytes() == splice(old(self).bytes(), old(self).pos as int, seq![val])
                && final(self).pos == old(self).pos + 1,
            r matches Err(e) ==> e == DnsError::OutOfBounds && *final(self) == *old(self),
    {
        if self.pos >= BUF_SIZE {
            return Err(DnsError::OutOfBounds);
        }
        self.buf[self.pos] = val;
        self.pos = self.pos + 1;
        proof {
            assert(self.bytes() =~= splice(old(self).bytes(), old(self).pos as int, seq![val]));
        }
        Ok(())
    }

    /// Stores one octet at the cursor and moves past it.
    pub fn write_u8(&mut self, val: u8) -> (r: Result<(), DnsError>)
        ensures
            old(self).pos < BUF_SIZE <==> r is Ok,
            r is Ok ==> final(self).bytes() == splice(old(self).bytes(), old(self).pos as int, seq![val])
                && final(self).pos == old(self).pos + 1,
            r matches Err(e) ==> e == DnsError::OutOfBounds && *final(self) == *old(self),
    {
        self.write(val)
    }

    /// Stores a big-endian 16-bit word at the cursor and moves past it.
    pub fn write_u16(&mut self, val: u16) -> (r: Result<(), DnsError>)
        ensures
            old(self).pos + 2 <= BUF_SIZE <==> r is Ok,
            r is Ok ==> final(self).bytes() == splice(old(self).bytes(), old(self).pos as int, u16_octets(val))
                && final(self).pos == old(self).pos + 2,
            r matches Err(e) ==> e == DnsError::OutOfBounds && *final(self) == *old(self),
    {
        if self.pos > BUF_SIZE - 2 {
            return Err(DnsError::OutOfBounds);
        }
        let ghost b0 = self.bytes();
        let ghost p = self.pos as int;
        self.write((val / 256) as u8)?;
        self.write((val % 256) as u8)?;
        proof {
            lemma_splice_concat(b0, p, seq![(val / 256) as u8], seq![(val % 256) as u8]);
            assert(seq![(val / 256) as u8] + seq![(val % 256) as u8] =~= u16_octets(val));
        }
        Ok(())
    }

    /// Stores a big-endian 32-bit word at the cursor and moves past it.
    pub fn write_u32(&mut self, val: u32) -> (r: Result<(), DnsError>)
        ensures
            old(self).pos + 4 <= BUF_SIZE <==> r is Ok,
            r is Ok ==> final(self).bytes() == splice(old(self).bytes(), old(self).pos as int, u32_octets(val))
                && final(self).pos == old(self).pos + 4,
            r matches Err(e) ==> e == DnsError::OutOfBounds && *final(self) == *old(self),
    {
        if self.pos > BUF_SIZE - 4 {
            return Err(DnsError::OutOfBounds);
        }
        let ghost b0 = self.bytes();
        let ghost p = self.pos as int;
        let o0 = (val / 0x100_0000) as u8;
        let o1 = ((val / 0x1_0000) % 256) as u8;
        let o2 = ((val / 256) % 256) as u8;
        let o3 = (val % 256) as u8;
        self.write(o0)?;
        self.write(o1)?;
        self.write(o2)?;
        self.write(o3)?;
        proof {
            lemma_splice_concat(b0, p, seq![o0], seq![o1]);
            lemma_splice_concat(b0, p, seq![o0] + seq![o1], seq![o2]);
            lemma_splice_concat(b0, p, seq![o0] + seq![o1] + seq![o2], seq![o3]);
            assert(seq![o0] + seq![o1] + seq![o2] + seq![o3] =~= u32_octets(val));
        }
        Ok(())
    }

    /// Overwrites the octet at `pos` without moving the cursor.
    pub fn set(&mut self, pos: usize, val: u8) -> (r: Result<(), DnsError>)
        ensures
            final(self).pos == old(self).pos,
            pos < BUF_SIZE <==> r is Ok,
            r is Ok ==> final(self).bytes() == splice(old(self).bytes(), pos as int, seq![val]),
            r matches Err(e) ==> e == DnsError::OutOfBounds && *final(self) == *old(self),
    {
        if pos >= BUF_SIZE {
            return Err(DnsError::OutOfBounds);
        }
        self.buf[pos] = val;
        proof {
            assert(self.bytes() =~= splice(old(self).bytes(), pos as int, seq![val]));
        }
        Ok(())
    }

    /// Overwrites a big-endian 16-bit word at `pos` without moving the cursor.
    pub fn set_u16(&mut self, pos: usize, val: u16) -> (r: Result<(), DnsError>)
        ensures
            final(self).pos == old(self).pos,
            pos + 2 <= BUF_SIZE <==> r is Ok,
            r is Ok ==> final(self).bytes() == splice(old(self).bytes(), pos as int, u16_octets(val)),
            r matches Err(e) ==> e == DnsError::OutOfBounds && *final(self) == *old(self),
    {
        if pos > BUF_SIZE - 2 {
            return Err(DnsError::OutOfBounds);
        }
        let ghost b0 = self.bytes();
        self.set(pos, (val / 256) as u8)?;
        self.set(pos + 1, (val % 256) as u8)?;
        proof {
            lemma_splice_concat(b0, pos as int, seq![(val / 256) as u8], seq![(val % 256) as u8]);
            assert(seq![(val / 256) as u8] + seq![(val % 256) as u8] =~= u16_octets(val));
        }
        Ok(())
    }
}

} // verus!

verus! {

/// What writing `w` at `pos` gives: its octets, or why they are not written.
pub open spec fn placed(pos: int, w: Result<Seq<u8>, DnsError>) -> Result<Seq<u8>, DnsError> {
    match w {
        Ok(o) => if pos + o.len() <= BUF_SIZE {
            Ok(o)
        } else {
            Err(DnsError::OutOfBounds)
        },
        Err(e) => Err(e),
    }
}

/// Where `b` holds `w` from `p` on, it holds any part of `w` at the matching place.
pub proof fn lemma_holds_part(b: Seq<u8>, p: int, w: Seq<u8>, off: int, len: int)
    requires
        0 <= p,
        p + w.len() <= b.len(),
        b.subrange(p, p + w.len()) == w,
        0 <= off,
        0 <= len,
        off + len <= w.len(),
    ensures
        b.subrange(p + off, p + off + len) == w.subrange(off, off + len),
{
    assert forall|k: int| 0 <= k < len implies #[trigger] b.subrange(p + off, p + off + len)[k] == w.subrange(off, off + len)[k] by {
        assert(b.subrange(p, p + w.len())[off + k] == b[p + off + k]);
    }
    assert(b.subrange(p + off, p + off + len) =~= w.subrange(off, off + len));
}

/// Storing `w` at `p` leaves `w` there.
pub proof fn lemma_splice_holds(b: Seq<u8>, p: int, w: Seq<u8>)
    requires
        0 <= p,
        p + w.len() <= b.len(),
    ensures
        splice(b, p, w).subrange(p, p + w.len()) == w,
        splice(b, p, w).len() == b.len(),
{
    assert(splice(b, p, w).subrange(p, p + w.len()) =~= w);
}

} // verus!

verus! {

/// Overwriting two octets inside what was stored at `p` patches them in place.
pub proof fn lemma_splice_patch(b: Seq<u8>, p: int, pre: Seq<u8>, old2: Seq<u8>, post: Seq<u8>, new2: Seq<u8>)
    requires
        0 <= p,
        old2.len() == 2,
        new2.len() == 2,
        p + pre.len() + 2 + post.len() <= b.len(),
    ensures
        splice(splice(b, p, pre + old2 + post), p + pre.len(), new2) == splice(b, p, pre + new2 + post),
{
    assert(splice(splice(b, p, pre + old2 + post), p + pre.len(), new2) =~= splice(b, p, pre + new2 + post));
}

} // verus!

verus! {

/// A word stored at `e` reads back as itself.
pub proof fn lemma_be16_read(b: Seq<u8>, e: int, v: u16)
    requires
        0 <= e,
        e + 2 <= b.len(),
        b.subrange(e, e + 2) == u16_octets(v),
    ensures
        be16_at(b, e) == v,
{
    assert(b[e] == b.subrange(e, e + 2)[0] && b[e + 1] == b.subrange(e, e + 2)[1]);
}

/// A double word stored at `e` reads back as itself.
pub proof fn lemma_be32_read(b: Seq<u8>, e: int, v: u32)
    requires
        0 <= e,
        e + 4 <= b.len(),
        b.subrange(e, e + 4) == u32_octets(v),
    ensures
        be32_at(b, e) == v,
{
    let s = b.subrange(e, e + 4);
    assert(b[e] == s[0] && b[e + 1] == s[1] && b[e + 2] == s[2] && b[e + 3] == s[3]);
}

} // verus!
