//! Byte-at-a-time reading and writing, over bytes held in memory.

use vstd::prelude::*;

verus! {

/// A source of bytes read one at a time.
pub trait BufferedRead {
    /// The next byte, or 0 once the bytes are exhausted.
    fn read_byte(&mut self) -> u8;

    /// The next byte, or `None` once the bytes are exhausted.
    fn read_byte_checked(&mut self) -> Option<u8>;
}

/// A sink of bytes written one at a time.
pub trait BufferedWrite {
    /// Appends a byte.
    fn write_byte(&mut self, output: u8);

    /// Hands on the bytes written so far.
    fn flush_buffer(&mut self);
}

/// A `ByteSource` seen as its bytes and the position of the next one.
#[verifier::ext_equal]
pub struct ByteSourceView {
    pub data: Seq<u8>,
    pub pos: int,
}

/// The byte at `j`, or 0 past the end.
pub open spec fn byte_at(data: Seq<u8>, j: int) -> u8 {
    if 0 <= j < data.len() {
        data[j]
    } else {
        0
    }
}

impl ByteSourceView {
    /// Reads a byte: the next one, or 0 at the end, where the position
    /// stays.
    pub open spec fn next(self) -> (ByteSourceView, u8) {
        if self.pos < self.data.len() {
            (ByteSourceView { pos: self.pos + 1, ..self }, self.data[self.pos])
        } else {
            (self, 0u8)
        }
    }
}

/// Bytes held in memory, read from the front.
pub struct ByteSource {
    data: Vec<u8>,
    pos: usize,
}

impl View for ByteSource {
    type V = ByteSourceView;

    closed spec fn view(&self) -> ByteSourceView {
        ByteSourceView { data: self.data@, pos: self.pos as int }
    }
}

impl ByteSource {
    #[verifier::type_invariant]
    spec fn position_inside(&self) -> bool {
        self.pos <= self.data@.len()
    }

    /// The position lies within the bytes.
    pub open spec fn wf(&self) -> bool {
        0 <= self@.pos <= self@.data.len()
    }

    /// A source positioned at the first of `data`.
    pub fn new(data: Vec<u8>) -> (s: Self)
        ensures
            s.wf(),
            s@ == (ByteSourceView { data: data@, pos: 0 }),
    {
        ByteSource { data, pos: 0 }
    }
}

impl BufferedRead for ByteSource {
    fn read_byte(&mut self) -> (b: u8)
        ensures
            final(self).wf(),
            (final(self)@, b) == old(self)@.next(),
    {
        proof {
            use_type_invariant(&*self);
        }
        if self.pos < self.data.len() {
            let b = self.data[self.pos];
            self.pos = self.pos + 1;
            b
        } else {
            0
        }
    }

    fn read_byte_checked(&mut self) -> (b: Option<u8>)
        ensures
            final(self).wf(),
            final(self)@ == old(self)@.next().0,
            b == (if old(self)@.pos < old(self)@.data.len() {
                Some(old(self)@.data[old(self)@.pos])
            } else {
                None
            }),
    {
        proof {
            use_type_invariant(&*self);
        }
        if self.pos < self.data.len() {
            let b = self.data[self.pos];
            self.pos = self.pos + 1;
            Some(b)
        } else {
            None
        }
    }
}

/// Bytes collected in memory.
pub struct ByteSink {
    data: Vec<u8>,
}

impl View for ByteSink {
    type V = Seq<u8>;

    closed spec fn view(&self) -> Seq<u8> {
        self.data@
    }
}

impl ByteSink {
    /// An empty sink.
    pub fn new() -> (s: Self)
        ensures
            s@ == Seq::<u8>::empty(),
    {
        ByteSink { data: Vec::new() }
    }

    /// The bytes written.
    pub fn into_bytes(self) -> (v: Vec<u8>)
        ensures
            v@ == self@,
    {
        self.data
    }
}

impl BufferedWrite for ByteSink {
    fn write_byte(&mut self, output: u8)
        ensures
            final(self)@ == old(self)@.push(output),
    {
        self.data.push(output);
    }

    fn flush_buffer(&mut self)
        ensures
            final(self)@ == old(self)@,
    {
    }
}

} // verus!
