//! A byte stream: a byte buffer, the number of bytes in use, and a cursor.
use vstd::prelude::*;
use crate::bitstream::MAX_STREAM_BYTES;

verus! {

/// A cursor over a byte buffer.
pub struct ByteStream {
    pub buf: Vec<u8>,
    /// Number of bytes of `buf` in use.
    pub count: i64,
    /// Index of the next byte to read or write.
    pub current_byte: i64,
    /// Whether textual encoders indent their output.
    pub encode_white_space: bool,
}

/// `bytes` with the positions from `pos` on overwritten by `s`.
pub open spec fn splice_bytes(bytes: Seq<u8>, pos: int, s: Seq<u8>) -> Seq<u8> {
    bytes.subrange(0, pos) + s + bytes.subrange(pos + s.len(), bytes.len() as int)
}

impl ByteStream {
    /// The stream's fields are consistent.
    pub open spec fn wf(&self) -> bool {
        &&& 0 <= self.current_byte <= self.count <= self.buf@.len()
        &&& self.buf@.len() <= MAX_STREAM_BYTES
        &&& self.buf@.len() < usize::MAX
    }

    /// Number of bytes between the cursor and the end of the data.
    pub open spec fn room(&self) -> int {
        self.count - self.current_byte
    }

    /// The bytes between the cursor and the end of the data.
    pub open spec fn avail(&self) -> Seq<u8> {
        self.buf@.subrange(self.current_byte as int, self.count as int)
    }

    /// `self` is `old` with `s` written at the cursor and the cursor moved past it.
    pub open spec fn wrote(&self, old: ByteStream, s: Seq<u8>) -> bool {
        &&& self.wf()
        &&& self.count == old.count
        &&& self.encode_white_space == old.encode_white_space
        &&& self.buf@ == splice_bytes(old.buf@, old.current_byte as int, s)
        &&& self.current_byte == old.current_byte + s.len()
    }

    /// `self` is `old` after a write of `s` that ran out of room: the bytes
    /// of `s` that fitted were written, and the cursor is at the end of the
    /// data.
    pub open spec fn wrote_until_full(&self, old: ByteStream, s: Seq<u8>) -> bool {
        &&& old.room() < s.len()
        &&& self.wrote(old, s.subrange(0, old.room()))
    }

    /// `self` holds the data of `old` (the cursor may have moved).
    pub open spec fn same_data(&self, old: ByteStream) -> bool {
        &&& self.wf()
        &&& self.count == old.count
        &&& self.encode_white_space == old.encode_white_space
        &&& self.buf@ == old.buf@
    }

    /// A stream over `buf`, with the buffer cleared, all of it in use, and
    /// the cursor at the start.
    pub fn init(buf: Vec<u8>) -> (r: ByteStream)
        requires
            buf@.len() <= MAX_STREAM_BYTES,
            buf@.len() < usize::MAX,
        ensures
            r.wf(),
            r.buf@ == Seq::new(buf@.len(), |i: int| 0u8),
            r.count == buf@.len(),
            r.current_byte == 0,
            !r.encode_white_space,
    {
        let mut buf = buf;
        let n = buf.len();
        let mut i: usize = 0;
        while i < n
            invariant
                buf@.len() == n,
                i <= n,
                forall|j: int| 0 <= j < i ==> buf@[j] == 0u8,
            decreases n - i,
        {
            buf.set(i, 0u8);
            i = i + 1;
        }
        assert(buf@ =~= Seq::new(n as nat, |i: int| 0u8));
        ByteStream { buf, count: n as i64, current_byte: 0, encode_white_space: false }
    }

    /// A stream over `buf` as it is, with all of it in use and the cursor at the start.
    pub fn attach_buffer(buf: Vec<u8>) -> (r: ByteStream)
        requires
            buf@.len() <= MAX_STREAM_BYTES,
            buf@.len() < usize::MAX,
        ensures
            r.wf(),
            r.buf@ == buf@,
            r.count == buf@.len(),
            r.current_byte == 0,
            !r.encode_white_space,
    {
        let n = buf.len();
        ByteStream { buf, count: n as i64, current_byte: 0, encode_white_space: false }
    }
}

} // verus!
