use vstd::prelude::*;

verus! {

/// The first `n` bytes of `s`, padded with zeros where `s` runs out.
pub open spec fn take_padded(s: Seq<u8>, n: nat) -> Seq<u8> {
    Seq::new(n, |i: int| if i < s.len() { s[i] } else { 0u8 })
}

/// What remains of `s` once `n` bytes are consumed; empty when `n` exceeds it.
pub open spec fn rest_after(s: Seq<u8>, n: nat) -> Seq<u8> {
    if n < s.len() {
        s.subrange(n as int, s.len() as int)
    } else {
        Seq::empty()
    }
}

/// Little-endian `u16` at the front of `s`, or zero when fewer than two bytes remain.
pub open spec fn le_u16(s: Seq<u8>) -> u16 {
    if s.len() >= 2 {
        (s[0] as int + 256 * s[1] as int) as u16
    } else {
        0
    }
}

/// Little-endian `u32` at the front of `s`, or zero when fewer than four bytes remain.
pub open spec fn le_u32(s: Seq<u8>) -> u32 {
    if s.len() >= 4 {
        (s[0] as int + 0x100 * s[1] as int + 0x1_0000 * s[2] as int + 0x100_0000
            * s[3] as int) as u32
    } else {
        0
    }
}

/// The byte at the front of `s`, or zero when `s` is empty.
pub open spec fn first_byte(s: Seq<u8>) -> u8 {
    if s.len() >= 1 {
        s[0]
    } else {
        0
    }
}

/// No read makes more bytes remain, and a read of more bytes than remain
/// leaves none.
pub proof fn lemma_short_read_exhausts(s: Seq<u8>, n: nat)
    ensures
        rest_after(s, n).len() <= s.len(),
        n >= s.len() ==> rest_after(s, n).len() == 0,
        n < s.len() ==> rest_after(s, n).len() == s.len() - n,
{
}

/// Consuming `a` bytes and then `b` bytes consumes `a + b` bytes.
pub proof fn lemma_rest_after_twice(s: Seq<u8>, a: nat, b: nat)
    ensures
        rest_after(rest_after(s, a), b) == rest_after(s, a + b),
{
    assert(rest_after(rest_after(s, a), b) =~= rest_after(s, a + b));
}

/// What `String::from_utf8_lossy` makes of a byte sequence.
pub uninterp spec fn utf8_lossy(b: Seq<u8>) -> Seq<char>;

/// Relies on `String::from_utf8_lossy`: the text depends on the bytes alone.
#[verifier::external_body]
fn lossy_string(b: &[u8]) -> (r: String)
    ensures
        r@ == utf8_lossy(b@),
{
    String::from_utf8_lossy(b).to_string()
}

/// The bytes of `data` from `start` on.
pub fn slice_from(data: &[u8], start: usize) -> (r: Vec<u8>)
    requires
        start <= data@.len(),
    ensures
        r@ == data@.subrange(start as int, data@.len() as int),
{
    let mut out: Vec<u8> = Vec::new();
    let mut i = start;
    while i < data.len()
        invariant
            start <= i <= data@.len(),
            out@ == data@.subrange(start as int, i as int),
        decreases data@.len() - i,
    {
        out.push(data[i]);
        i = i + 1;
        assert(out@ =~= data@.subrange(start as int, i as int));
    }
    out
}

/// Sequential little-endian reads over an owned buffer.
///
/// Reads never fail: a read that asks for more than remains yields zeros
/// (or the remainder padded with zeros) and leaves nothing to read.
pub struct Reader {
    stream: Vec<u8>,
    pos: usize,
}

impl View for Reader {
    type V = Seq<u8>;

    /// The bytes not yet read.
    closed spec fn view(&self) -> Seq<u8> {
        self.stream@.subrange(self.pos as int, self.stream@.len() as int)
    }
}

impl Reader {
    #[verifier::type_invariant]
    spec fn inv(&self) -> bool {
        self.pos <= self.stream.len()
    }

    /// Create a new `Reader` over a buffer.
    pub fn new(stream: Vec<u8>) -> (r: Self)
        ensures
            r@ == stream@,
    {
        let r = Reader { stream, pos: 0 };
        assert(r@ =~= r.stream@);
        r
    }

    /// Bytes left in the data stream.
    pub fn len(&self) -> (r: usize)
        ensures
            r == self@.len(),
    {
        proof {
            use_type_invariant(self);
        }
        self.stream.len() - self.pos
    }

    /// Moves past `size` bytes, or to the end when fewer remain.
    pub fn skip(&mut self, size: usize)
        ensures
            final(self)@ == rest_after(old(self)@, size as nat),
    {
        proof {
            use_type_invariant(&*self);
        }
        let left = self.stream.len() - self.pos;
        if size < left {
            self.pos = self.pos + size;
            assert(self@ =~= rest_after(old(self)@, size as nat));
        } else {
            self.pos = self.stream.len();
            assert(self@ =~= rest_after(old(self)@, size as nat));
        }
    }

    /// Read exactly `size` bytes; those past the end of the stream read as zeros.
    pub fn read(&mut self, size: usize) -> (r: Vec<u8>)
        ensures
            r@ == take_padded(old(self)@, size as nat),
            final(self)@ == rest_after(old(self)@, size as nat),
    {
        proof {
            use_type_invariant(&*self);
        }
        let mut buf: Vec<u8> = Vec::with_capacity(size);
        let mut i: usize = 0;
        let left = self.stream.len() - self.pos;
        while i < size
            invariant
                i <= size,
                left == self@.len(),
                self.pos + left == self.stream.len(),
                *self == *old(self),
                buf@.len() == i,
                forall|j: int| 0 <= j < i ==> buf@[j] == take_padded(self@, size as nat)[j],
            decreases size - i,
        {
            if i < left {
                buf.push(self.stream[self.pos + i]);
            } else {
                buf.push(0u8);
            }
            i = i + 1;
        }
        assert(buf@ =~= take_padded(old(self)@, size as nat));
        self.skip(size);
        buf
    }

    /// Read one byte from the stream.
    pub fn read_byte(&mut self) -> (r: u8)
        ensures
            r == first_byte(old(self)@),
            final(self)@ == rest_after(old(self)@, 1),
    {
        proof {
            use_type_invariant(&*self);
        }
        let r = if self.pos < self.stream.len() {
            self.stream[self.pos]
        } else {
            0u8
        };
        self.skip(1);
        r
    }

    /// Read an unsigned 16-bit little-endian integer from the stream.
    pub fn read_uint16(&mut self) -> (r: u16)
        ensures
            r == le_u16(old(self)@),
            final(self)@ == rest_after(old(self)@, 2),
    {
        proof {
            use_type_invariant(&*self);
        }
        let r = if self.stream.len() - self.pos >= 2 {
            let b0 = self.stream[self.pos] as u16;
            let b1 = self.stream[self.pos + 1] as u16;
            b0 + 256 * b1
        } else {
            0u16
        };
        self.skip(2);
        r
    }

    /// Read an unsigned 32-bit little-endian integer from the stream.
    pub fn read_uint32(&mut self) -> (r: u32)
        ensures
            r == le_u32(old(self)@),
            final(self)@ == rest_after(old(self)@, 4),
    {
        proof {
            use_type_invariant(&*self);
        }
        let r = if self.stream.len() - self.pos >= 4 {
            let b0 = self.stream[self.pos] as u32;
            let b1 = self.stream[self.pos + 1] as u32;
            let b2 = self.stream[self.pos + 2] as u32;
            let b3 = self.stream[self.pos + 3] as u32;
            b0 + 0x100 * b1 + 0x1_0000 * b2 + 0x100_0000 * b3
        } else {
            0u32
        };
        self.skip(4);
        r
    }

    /// Read a signed 16-bit little-endian integer from the stream.
    pub fn read_int16(&mut self) -> (r: i16)
        ensures
            r == le_u16(old(self)@) as i16,
            final(self)@ == rest_after(old(self)@, 2),
    {
        let u = self.read_uint16();
        u as i16
    }

    /// Read a signed 32-bit little-endian integer from the stream.
    pub fn read_int32(&mut self) -> (r: i32)
        ensures
            r == le_u32(old(self)@) as i32,
            final(self)@ == rest_after(old(self)@, 4),
    {
        let u = self.read_uint32();
        u as i32
    }

    /// Read `length` bytes from the stream and return them as text, with
    /// invalid UTF-8 replaced.
    pub fn read_string(&mut self, length: usize) -> (r: String)
        ensures
            r@ == utf8_lossy(take_padded(old(self)@, length as nat)),
            final(self)@ == rest_after(old(self)@, length as nat),
    {
        let bytes = self.read(length);
        lossy_string(bytes.as_slice())
    }
}

} // verus!
