use vstd::prelude::*;

verus! {

/// A growable byte region owned by exactly one holder at a time.
/// Its view is the sequence of bytes written and not yet consumed.
pub struct Buffer {
    data: Vec<u8>,
}

impl View for Buffer {
    type V = Seq<u8>;

    closed spec fn view(&self) -> Seq<u8> {
        self.data@
    }
}

impl Buffer {
    /// An empty buffer.
    pub fn new() -> (r: Buffer)
        ensures
            r@ == Seq::<u8>::empty(),
    {
        Buffer { data: Vec::new() }
    }

    /// An empty buffer that reserves room for `capacity` bytes.
    pub fn with_capacity(capacity: usize) -> (r: Buffer)
        ensures
            r@ == Seq::<u8>::empty(),
    {
        Buffer { data: Vec::with_capacity(capacity) }
    }

    /// A buffer holding the given bytes, unconsumed.
    pub fn from_bytes(bytes: &[u8]) -> (r: Buffer)
        ensures
            r@ == bytes@,
    {
        let mut r = Buffer::new();
        r.extend(bytes);
        r
    }

    pub fn len(&self) -> (r: usize)
        ensures
            r == self@.len(),
    {
        self.data.len()
    }

    pub fn is_empty(&self) -> (r: bool)
        ensures
            r == (self@.len() == 0),
    {
        self.data.len() == 0
    }

    /// The unconsumed bytes.
    pub fn as_slice(&self) -> (r: &[u8])
        ensures
            r@ == self@,
    {
        self.data.as_slice()
    }

    /// A copy of the unconsumed bytes.
    pub fn to_vec(&self) -> (r: Vec<u8>)
        ensures
            r@ == self@,
    {
        let mut r: Vec<u8> = Vec::with_capacity(self.data.len());
        let mut i: usize = 0;
        while i < self.data.len()
            invariant
                i <= self.data@.len(),
                r@ == self.data@.subrange(0, i as int),
            decreases self.data@.len() - i,
        {
            r.push(self.data[i]);
            i = i + 1;
        }
        r
    }

    /// Appends bytes after the unconsumed ones.
    pub fn extend(&mut self, bytes: &[u8])
        ensures
            final(self)@ == old(self)@ + bytes@,
    {
        let mut i: usize = 0;
        while i < bytes.len()
            invariant
                i <= bytes@.len(),
                self@ == old(self)@ + bytes@.subrange(0, i as int),
            decreases bytes@.len() - i,
        {
            self.data.push(bytes[i]);
            i = i + 1;
            assert(bytes@.subrange(0, i as int) == bytes@.subrange(0, i - 1) + seq![bytes@[i - 1]]);
        }
        assert(bytes@.subrange(0, bytes@.len() as int) == bytes@);
    }

    /// Drops the first `n` unconsumed bytes.
    pub fn advance(&mut self, n: usize)
        requires
            n <= old(self)@.len(),
        ensures
            final(self)@ == old(self)@.subrange(n as int, old(self)@.len() as int),
    {
        let _ = self.split_to(n);
    }

    /// Removes and returns the first `n` unconsumed bytes.
    pub fn split_to(&mut self, n: usize) -> (r: Vec<u8>)
        requires
            n <= old(self)@.len(),
        ensures
            r@ == old(self)@.subrange(0, n as int),
            final(self)@ == old(self)@.subrange(n as int, old(self)@.len() as int),
    {
        let mut head: Vec<u8> = Vec::new();
        let mut tail: Vec<u8> = Vec::new();
        let len = self.data.len();
        let mut i: usize = 0;
        while i < len
            invariant
                len == self.data@.len(),
                i <= len,
                n <= len,
                head@ == self.data@.subrange(0, if i < n { i as int } else { n as int }),
                tail@ == if i <= n { Seq::<u8>::empty() } else { self.data@.subrange(n as int, i as int) },
            decreases len - i,
        {
            if i < n {
                head.push(self.data[i]);
            } else {
                tail.push(self.data[i]);
            }
            i = i + 1;
        }
        self.data = tail;
        head
    }

    /// Forgets every byte, consumed or not.
    pub fn clear(&mut self)
        ensures
            final(self)@ == Seq::<u8>::empty(),
    {
        self.data.clear();
    }
}

} // verus!
