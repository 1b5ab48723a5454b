use vstd::prelude::*;
use std::collections::VecDeque;
use crate::buffer::Buffer;

verus! {

/// How many buffers a pool hands out at most.
pub const CAPACITY: usize = 128;

/// The space each buffer reserves when the pool creates it.
pub const BUFFER_SIZE: usize = 8192;

/// A bounded pool of reusable buffers with a FIFO queue of suspended
/// acquirers, each named by the descriptor whose operation waits.
pub struct BufferPool {
    idle: VecDeque<Buffer>,
    waiters: VecDeque<i32>,
    capacity: usize,
    outstanding: usize,
}

impl BufferPool {
    pub closed spec fn idle_buffers(&self) -> Seq<Buffer> {
        self.idle@
    }

    /// Acquirers that were suspended and not yet woken, oldest first.
    pub closed spec fn waiters(&self) -> Seq<i32> {
        self.waiters@
    }

    pub closed spec fn capacity(&self) -> nat {
        self.capacity as nat
    }

    /// Buffers handed out and not yet released.
    pub closed spec fn outstanding(&self) -> nat {
        self.outstanding as nat
    }

    pub open spec fn idle_count(&self) -> nat {
        self.idle_buffers().len()
    }

    /// Every buffer is either idle or outstanding, and idle buffers hold no data.
    pub closed spec fn wf(&self) -> bool {
        &&& self.idle@.len() + self.outstanding == self.capacity
        &&& self.capacity > 0
        &&& forall|i: int| 0 <= i < self.idle@.len() ==> (#[trigger] self.idle@[i])@.len() == 0
    }

    /// A pool of `CAPACITY` empty buffers and no waiter.
    pub fn new() -> (r: BufferPool)
        ensures
            r.wf(),
            r.capacity() == CAPACITY,
            r.outstanding() == 0,
            r.idle_count() == CAPACITY,
            r.waiters() == Seq::<i32>::empty(),
    {
        let mut idle: VecDeque<Buffer> = VecDeque::with_capacity(CAPACITY);
        let mut i: usize = 0;
        while i < CAPACITY
            invariant
                i <= CAPACITY,
                idle@.len() == i,
                forall|j: int| 0 <= j < idle@.len() ==> (#[trigger] idle@[j])@.len() == 0,
            decreases CAPACITY - i,
        {
            idle.push_back(Buffer::with_capacity(BUFFER_SIZE));
            i = i + 1;
        }
        BufferPool { idle, waiters: VecDeque::new(), capacity: CAPACITY, outstanding: 0 }
    }

    /// Takes an idle buffer if there is one; otherwise queues `waiter` to be
    /// woken by a later release.
    pub fn poll_take(&mut self, waiter: i32) -> (r: Option<Buffer>)
        requires
            old(self).wf(),
        ensures
            final(self).wf(),
            final(self).capacity() == old(self).capacity(),
            old(self).idle_count() > 0 ==> {
                &&& r is Some
                &&& r->Some_0@ == Seq::<u8>::empty()
                &&& final(self).outstanding() == old(self).outstanding() + 1
                &&& final(self).idle_count() + 1 == old(self).idle_count()
                &&& final(self).waiters() == old(self).waiters()
            },
            old(self).idle_count() == 0 ==> {
                &&& r is None
                &&& final(self).idle_count() == 0
                &&& final(self).outstanding() == old(self).outstanding()
                &&& final(self).waiters() == old(self).waiters().push(waiter)
            },
    {
        match self.idle.pop_front() {
            Some(buf) => {
                assert(old(self).idle@[0] == buf);
                self.outstanding = self.outstanding + 1;
                Some(buf)
            },
            None => {
                self.waiters.push_back(waiter);
                None
            },
        }
    }

    /// Clears a buffer and returns it to the pool; if an acquirer waits, the
    /// oldest one leaves the queue and is returned, to be woken. A buffer
    /// returned while none is outstanding did not come from this pool: it is
    /// dropped, so that the pool never holds more than its capacity.
    pub fn put_back(&mut self, buf: Buffer) -> (r: Option<i32>)
        requires
            old(self).wf(),
        ensures
            final(self).wf(),
            final(self).capacity() == old(self).capacity(),
            old(self).outstanding() == 0 ==> r is None && *final(self) == *old(self),
            old(self).outstanding() > 0 ==> {
                &&& final(self).outstanding() + 1 == old(self).outstanding()
                &&& final(self).idle_count() == old(self).idle_count() + 1
                &&& old(self).waiters().len() > 0 ==> {
                    &&& r == Some(old(self).waiters()[0])
                    &&& final(self).waiters() == old(self).waiters().drop_first()
                }
                &&& old(self).waiters().len() == 0 ==> {
                    &&& r is None
                    &&& final(self).waiters() == old(self).waiters()
                }
            },
    {
        if self.outstanding == 0 {
            return None;
        }
        let mut buf = buf;
        buf.clear();
        self.idle.push_back(buf);
        self.outstanding = self.outstanding - 1;
        self.waiters.pop_front()
    }

    pub fn idle_len(&self) -> (r: usize)
        ensures
            r == self.idle_count(),
    {
        self.idle.len()
    }

    pub fn outstanding_len(&self) -> (r: usize)
        ensures
            r == self.outstanding(),
    {
        self.outstanding
    }

    pub fn waiting_len(&self) -> (r: usize)
        ensures
            r == self.waiters().len(),
    {
        self.waiters.len()
    }
}

/// Buffers outstanding at once never exceed the pool's capacity, whatever
/// sequence of acquisitions and releases led to the pool's state.
pub proof fn lemma_outstanding_within_capacity(pool: &BufferPool)
    requires
        pool.wf(),
    ensures
        0 < pool.capacity(),
        pool.outstanding() <= pool.capacity(),
        pool.outstanding() + pool.idle_count() == pool.capacity(),
{
}

/// A released buffer keeps nothing of its previous use: every idle buffer,
/// the one just released included, is empty, and so is what an acquisition
/// hands out.
pub proof fn lemma_idle_buffers_are_empty(pool: &BufferPool)
    requires
        pool.wf(),
    ensures
        forall|i: int| 0 <= i < pool.idle_count() ==> (#[trigger] pool.idle_buffers()[i])@.len() == 0,
{
}

} // verus!
