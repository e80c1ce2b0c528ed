//! The buffers that travel between a reader and its background reader.

use vstd::prelude::*;

verus! {

/// A chunk of the stream: `data[..end]` are the bytes from `start_pos` on.
#[derive(Debug)]
pub struct Buffer {
    data: Vec<u8>,
    start_pos: u64,
    end: usize,
    generation: u64,
}

/// What a [`Buffer`] holds.
#[verifier::ext_equal]
pub struct BufferView {
    pub data: Seq<u8>,
    pub start_pos: int,
    pub end: int,
    pub generation: int,
}

impl BufferView {
    /// The bytes of the stream that the buffer holds.
    pub open spec fn bytes(self) -> Seq<u8> {
        self.data.take(self.end)
    }

    /// The position in the stream behind the last of those bytes.
    pub open spec fn limit(self) -> int {
        self.start_pos + self.end
    }

    /// How many bytes the buffer has room for.
    pub open spec fn capacity(self) -> int {
        self.data.len() as int
    }

    /// What holds of every buffer.
    pub open spec fn wf(self) -> bool {
        &&& 0 <= self.end <= self.data.len()
        &&& 0 < self.data.len() <= isize::MAX
        &&& 0 <= self.start_pos
        &&& self.limit() <= u64::MAX
        &&& 0 <= self.generation <= u64::MAX
    }
}

impl View for Buffer {
    type V = BufferView;

    closed spec fn view(&self) -> BufferView {
        BufferView {
            data: self.data@,
            start_pos: self.start_pos as int,
            end: self.end as int,
            generation: self.generation as int,
        }
    }
}

/// What one read of the source came to.
#[derive(Debug)]
pub enum ReadOutcome<E> {
    /// The bytes that were read; none at the end of the source.
    Data(Vec<u8>),
    /// The read was interrupted before it gave anything.
    Interrupted,
    /// The read failed.
    Failed(E),
}

/// How a refill stands.
#[derive(Debug)]
pub enum Refill<E> {
    /// Up to this many more bytes are wanted.
    Wants(usize),
    /// Nothing has come yet, and the read was interrupted: it is to be made again.
    Again,
    /// The buffer is ready.
    Done,
    /// The source failed, and the buffer holds nothing.
    Failed(E),
}

/// The buffer after one more read of the source.
pub open spec fn refilled<E>(b: BufferView, outcome: ReadOutcome<E>) -> BufferView {
    match outcome {
        ReadOutcome::Data(bytes) => BufferView {
            data: b.bytes() + bytes@ + b.data.skip(b.end + bytes@.len()),
            end: b.end + bytes@.len(),
            ..b
        },
        ReadOutcome::Interrupted => b,
        ReadOutcome::Failed(_) => BufferView { end: 0, ..b },
    }
}

/// How a refill of `b` stands after one more read of the source.
pub open spec fn progress<E>(b: BufferView, outcome: ReadOutcome<E>) -> Refill<E> {
    match outcome {
        ReadOutcome::Data(bytes) => if 0 < bytes@.len() < b.capacity() - b.end {
            Refill::Wants((b.capacity() - b.end - bytes@.len()) as usize)
        } else {
            Refill::Done
        },
        ReadOutcome::Interrupted => if b.end == 0 {
            Refill::Again
        } else {
            Refill::Done
        },
        ReadOutcome::Failed(e) => Refill::Failed(e),
    }
}

impl Buffer {
    /// What holds of every buffer.
    #[verifier::type_invariant]
    pub open spec fn inv(self) -> bool {
        self@.wf()
    }

    /// An empty buffer with room for `size` bytes, for the bytes from `start_pos` on.
    pub fn new(size: usize, start_pos: u64) -> (r: Buffer)
        requires
            0 < size <= isize::MAX,
        ensures
            r@ == (BufferView {
                data: Seq::new(size as nat, |i: int| 0u8),
                start_pos: start_pos as int,
                end: 0,
                generation: 0,
            }),
    {
        let r = Buffer { data: vec![0; size], start_pos, end: 0, generation: 0 };
        assert(r@.data =~= Seq::new(size as nat, |i: int| 0u8));
        r
    }

    /// The position in the stream of the first byte.
    pub fn start_pos(&self) -> (r: u64)
        ensures
            r == self@.start_pos,
    {
        self.start_pos
    }

    /// How many bytes of the stream the buffer holds.
    pub fn end(&self) -> (r: usize)
        ensures
            r == self@.end,
    {
        self.end
    }

    /// The generation that the buffer was filled for.
    pub fn generation(&self) -> (r: u64)
        ensures
            r == self@.generation,
    {
        self.generation
    }

    /// How many bytes the buffer has room for.
    pub fn capacity(&self) -> (r: usize)
        ensures
            r == self@.capacity(),
    {
        self.data.len()
    }

    /// Copies `n` of the buffer's bytes, from offset `from` on, into `out`, from offset `at` on.
    pub fn copy_to(&self, from: usize, n: usize, out: &mut [u8], at: usize)
        requires
            from + n <= self@.end,
            at + n <= old(out)@.len(),
        ensures
            final(out)@ == old(out)@.take(at as int) + self@.bytes().subrange(
                from as int,
                from + n,
            ) + old(out)@.skip(at + n),
    {
        proof {
            use_type_invariant(self);
        }
        let len: usize = out.len();
        let ghost before = out@;
        let mut i: usize = 0;
        while i < n
            invariant
                i <= n,
                from + n <= self.end <= self.data@.len(),
                at + n <= len == before.len() == out@.len(),
                out@ =~= before.take(at as int) + self.data@.subrange(from as int, from + i)
                    + before.skip(at + i),
            decreases n - i,
        {
            out[at + i] = self.data[from + i];
            i += 1;
        }
        assert(self@.bytes().subrange(from as int, from + n) =~= self.data@.subrange(
            from as int,
            from + n,
        ));
    }

    /// Empties the buffer, for the bytes from `start_pos` on.
    pub fn begin(&mut self, start_pos: u64, generation: u64)
        ensures
            final(self)@ == (BufferView {
                start_pos: start_pos as int,
                end: 0,
                generation: generation as int,
                ..old(self)@
            }),
    {
        proof {
            use_type_invariant(&*self);
        }
        self.end = 0;
        self.start_pos = start_pos;
        self.generation = generation;
    }

    /// Goes on filling the buffer with what a read of the source came to. The buffer is ready when
    /// it is full, at the end of the source, or when a read was interrupted after others gave
    /// something; a read that was interrupted before that is to be made again.
    pub fn refill<E>(&mut self, outcome: ReadOutcome<E>) -> (r: Refill<E>)
        requires
            outcome matches ReadOutcome::Data(bytes) ==> {
                &&& old(self)@.end + bytes@.len() <= old(self)@.capacity()
                &&& old(self)@.limit() + bytes@.len() <= u64::MAX
            },
        ensures
            final(self)@ == refilled(old(self)@, outcome),
            r == progress(old(self)@, outcome),
    {
        proof {
            use_type_invariant(&*self);
        }
        match outcome {
            ReadOutcome::Data(bytes) => {
                let n: usize = bytes.len();
                let from: usize = self.end;
                let ghost before = self.data@;
                let mut i: usize = 0;
                while i < n
                    invariant
                        i <= n == bytes@.len(),
                        from + n <= before.len() == self.data@.len(),
                        self.inv(),
                        self.data@ =~= before.take(from as int) + bytes@.take(i as int)
                            + before.skip(from + i),
                        self.start_pos == old(self).start_pos,
                        self.generation == old(self).generation,
                        self.end == old(self).end == from,
                    decreases n - i,
                {
                    self.data[from + i] = bytes[i];
                    i += 1;
                }
                self.end = from + n;
                if n == 0 || self.end == self.data.len() {
                    Refill::Done
                } else {
                    Refill::Wants(self.data.len() - self.end)
                }
            },
            ReadOutcome::Interrupted => if self.end == 0 {
                Refill::Again
            } else {
                Refill::Done
            },
            ReadOutcome::Failed(e) => {
                self.end = 0;
                Refill::Failed(e)
            },
        }
    }
}

} // verus!
