use vstd::prelude::*;

verus! {

/// Where the interpreter reads bytes from, one at a time; `None` when no byte is
/// available.
pub trait ByteSource {
    fn next_byte(&mut self) -> Option<u8>;
}

/// Where the interpreter writes bytes to, one at a time.
pub trait ByteSink {
    fn put(&mut self, b: u8);
}

/// A byte source together with the log of every answer it has handed out through
/// this reader, in order.
pub struct Reader<I> {
    pub source: I,
    log: Ghost<Seq<Option<u8>>>,
}

impl<I: ByteSource> Reader<I> {
    /// A reader over `source`, with an empty log.
    pub fn new(source: I) -> (r: Self)
        ensures
            r.taken() == Seq::<Option<u8>>::empty(),
            r.inner() == source,
    {
        Reader { source, log: Ghost(Seq::empty()) }
    }

    /// The source read from.
    pub closed spec fn inner(&self) -> I {
        self.source
    }

    /// The answers handed out so far.
    pub closed spec fn taken(&self) -> Seq<Option<u8>> {
        self.log@
    }

    /// Asks the source for one byte and logs the answer.
    pub fn next_byte(&mut self) -> (r: Option<u8>)
        ensures
            final(self).taken() == old(self).taken().push(r),
    {
        let r = self.source.next_byte();
        self.log = Ghost(self.log@.push(r));
        r
    }
}

/// A byte sink together with the log of every byte it has received through this
/// writer, in order.
pub struct Writer<O> {
    pub sink: O,
    log: Ghost<Seq<u8>>,
}

impl<O: ByteSink> Writer<O> {
    /// A writer into `sink`, with an empty log.
    pub fn new(sink: O) -> (r: Self)
        ensures
            r.written() == Seq::<u8>::empty(),
            r.inner() == sink,
    {
        Writer { sink, log: Ghost(Seq::empty()) }
    }

    /// The sink written to.
    pub closed spec fn inner(&self) -> O {
        self.sink
    }

    /// The bytes handed to the sink so far.
    pub closed spec fn written(&self) -> Seq<u8> {
        self.log@
    }

    /// Hands one byte to the sink and logs it.
    pub fn put(&mut self, b: u8)
        ensures
            final(self).written() == old(self).written().push(b),
    {
        self.sink.put(b);
        self.log = Ghost(self.log@.push(b));
    }
}

/// A source that hands out the bytes of a buffer, in order, then `None`.
pub struct VecSource {
    bytes: Vec<u8>,
    pos: usize,
}

impl VecSource {
    /// A source over `bytes`.
    pub fn new(bytes: Vec<u8>) -> (r: Self)
        ensures
            r.unread() == bytes@,
    {
        assert(bytes@.subrange(0, bytes@.len() as int) =~= bytes@);
        VecSource { bytes, pos: 0 }
    }

    /// The bytes not handed out yet.
    pub closed spec fn unread(&self) -> Seq<u8> {
        if self.pos <= self.bytes@.len() {
            self.bytes@.subrange(self.pos as int, self.bytes@.len() as int)
        } else {
            Seq::empty()
        }
    }

    /// How many bytes have not been handed out yet.
    pub fn unread_len(&self) -> (r: usize)
        ensures
            r == self.unread().len(),
    {
        if self.pos <= self.bytes.len() {
            self.bytes.len() - self.pos
        } else {
            0
        }
    }
}

impl ByteSource for VecSource {
    fn next_byte(&mut self) -> Option<u8> {
        if self.pos < self.bytes.len() {
            let b = self.bytes[self.pos];
            self.pos = self.pos + 1;
            Some(b)
        } else {
            None
        }
    }
}

/// A sink that collects the bytes it receives.
pub struct VecSink {
    pub bytes: Vec<u8>,
}

impl VecSink {
    /// An empty sink.
    pub fn new() -> (r: Self)
        ensures
            r.bytes@ == Seq::<u8>::empty(),
    {
        VecSink { bytes: Vec::new() }
    }
}

impl ByteSink for VecSink {
    fn put(&mut self, b: u8) {
        self.bytes.push(b);
    }
}

} // verus!
