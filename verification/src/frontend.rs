use vstd::prelude::*;

verus! {

/// The packet filters the balancer can apply to a message.
#[derive(Clone, Copy, Debug, PartialEq, Eq, Structural)]
pub enum Filter {
    /// Every message passes.
    NoFilter,
    /// No message passes.
    AllFilter,
}

/// What a filter lets through of a message: the message itself, or nothing.
pub open spec fn filtered(buffer: Seq<u8>, f: Filter) -> Option<Seq<u8>> {
    match f {
        Filter::NoFilter => Some(buffer),
        Filter::AllFilter => None,
    }
}

/// Applies a filter to a message.
pub fn filter<'a>(buffer: &'a [u8], f: Filter) -> (r: Option<&'a [u8]>)
    ensures
        r matches Some(b) ==> filtered(buffer@, f) == Some(b@),
        r is None <==> filtered(buffer@, f) is None,
{
    match f {
        Filter::NoFilter => Filter::no_filter(buffer),
        Filter::AllFilter => Filter::all_filter(buffer),
    }
}

impl Filter {
    /// Lets the message through unchanged.
    pub fn no_filter(buffer: &[u8]) -> (r: Option<&[u8]>)
        ensures
            r matches Some(b) && b@ == buffer@,
    {
        Some(buffer)
    }

    /// Lets nothing through.
    #[allow(unused_variables)]
    pub fn all_filter(buffer: &[u8]) -> (r: Option<&[u8]>)
        ensures
            r is None,
    {
        None
    }
}

/// The size of the buffer a stream is read into.
pub const RECV_BUFFER_SIZE: usize = 1024;

/// The buffer a stream is read into, one read at a time, with the number of
/// bytes read so far. Each read is appended after the bytes already read; the
/// message is the first `total` bytes of the buffer once the stream has ended.
pub struct RecvBuffer {
    buf: Vec<u8>,
    total: usize,
}

impl View for RecvBuffer {
    type V = (Seq<u8>, nat);

    closed spec fn view(&self) -> (Seq<u8>, nat) {
        (self.buf@, self.total as nat)
    }
}

/// The buffer after a read of `chunk`: the chunk written after the bytes read
/// so far, and the count grown by its length.
pub open spec fn after_read(b: (Seq<u8>, nat), chunk: Seq<u8>) -> (Seq<u8>, nat) {
    (b.0.take(b.1 as int) + chunk + b.0.skip((b.1 + chunk.len()) as int), b.1 + chunk.len())
}

/// A zeroed buffer with nothing read.
pub open spec fn empty_buffer() -> (Seq<u8>, nat) {
    (Seq::new(RECV_BUFFER_SIZE as nat, |i: int| 0u8), 0nat)
}

/// The buffer after reading `chunks` one after another into an empty buffer.
pub open spec fn read_all(chunks: Seq<Seq<u8>>) -> (Seq<u8>, nat)
    decreases chunks.len(),
{
    if chunks.len() == 0 {
        empty_buffer()
    } else {
        after_read(read_all(chunks.drop_last()), chunks.last())
    }
}

impl RecvBuffer {
    /// The buffer's invariant: it keeps its size and holds no more than that.
    pub closed spec fn wf(&self) -> bool {
        &&& self.buf@.len() == RECV_BUFFER_SIZE
        &&& self.total <= RECV_BUFFER_SIZE
    }

    /// A zeroed buffer with nothing read.
    pub fn new() -> (r: RecvBuffer)
        ensures
            r.wf(),
            r@ == empty_buffer(),
    {
        let mut buf: Vec<u8> = Vec::new();
        let mut i: usize = 0;
        while i < RECV_BUFFER_SIZE
            invariant
                i <= RECV_BUFFER_SIZE,
                buf@ == Seq::new(i as nat, |k: int| 0u8),
            decreases RECV_BUFFER_SIZE - i,
        {
            buf.push(0);
            i = i + 1;
        }
        RecvBuffer { buf, total: 0 }
    }

    /// Records one read of `chunk`, which must fit in what is left of the
    /// buffer.
    pub fn received(&mut self, chunk: &[u8])
        requires
            old(self).wf(),
            old(self)@.1 + chunk@.len() <= RECV_BUFFER_SIZE,
        ensures
            final(self).wf(),
            final(self)@ == after_read(old(self)@, chunk@),
    {
        let ghost b0 = self.buf@;
        let start = self.total;
        let mut i: usize = 0;
        while i < chunk.len()
            invariant
                i <= chunk@.len(),
                start + chunk@.len() <= RECV_BUFFER_SIZE,
                b0.len() == RECV_BUFFER_SIZE,
                self.buf@.len() == RECV_BUFFER_SIZE,
                self.total == start,
                start == old(self).total,
                self.buf@ == b0.take(start as int) + chunk@.take(i as int) + b0.skip(start + i),
            decreases chunk@.len() - i,
        {
            self.buf.set(start + i, chunk[i]);
            assert(self.buf@ =~= b0.take(start as int) + chunk@.take(i + 1) + b0.skip(start + i + 1));
            i = i + 1;
        }
        assert(chunk@.take(chunk@.len() as int) =~= chunk@);
        self.total = self.total + chunk.len();
    }

    /// The number of bytes read so far.
    pub fn total(&self) -> (n: usize)
        ensures
            n == self@.1,
    {
        self.total
    }

    /// The message: the first `total` bytes of the buffer.
    pub fn message(&self) -> (m: &[u8])
        requires
            self.wf(),
        ensures
            m@ == self@.0.take(self@.1 as int),
    {
        let s = self.buf.as_slice();
        vstd::slice::slice_subrange(s, 0, self.total)
    }
}

/// Reading a message in any number of reads gives it back whole: the buffer's
/// message is the reads concatenated in order, as long as they fit.
pub proof fn law_reads_concatenate(chunks: Seq<Seq<u8>>)
    requires
        chunks.flatten_alt().len() <= RECV_BUFFER_SIZE,
    ensures
        read_all(chunks).1 == chunks.flatten_alt().len(),
        read_all(chunks).0.len() == RECV_BUFFER_SIZE,
        read_all(chunks).0.take(read_all(chunks).1 as int) == chunks.flatten_alt(),
        read_all(chunks).0.take(read_all(chunks).1 as int) == chunks.flatten(),
    decreases chunks.len(),
{
    chunks.lemma_flatten_and_flatten_alt_are_equivalent();
    if chunks.len() > 0 {
        let init = chunks.drop_last();
        assert(chunks.flatten_alt() == init.flatten_alt() + chunks.last());
        law_reads_concatenate(init);
        let b = read_all(init);
        let c = chunks.last();
        let b1 = after_read(b, c);
        assert(b1.0.take(b1.1 as int) =~= b.0.take(b.1 as int) + c);
    }
}

} // verus!
