use vstd::prelude::*;
use std::collections::VecDeque;
use crate::buffer::Buffer;
use crate::buffer_pool::BufferPool;
use crate::codec::{ConnAck, Packet, connack_bytes, encode_connack, MAX_RETURN_CODE, NOT_AUTHORIZED};

verus! {

/// The bytes of queued packets, in queue order, as they will go on the wire.
pub open spec fn queued_bytes(q: Seq<ConnAck>) -> Seq<u8>
    decreases q.len(),
{
    if q.len() == 0 {
        Seq::empty()
    } else {
        connack_bytes(q[0]) + queued_bytes(q.drop_first())
    }
}

/// The refusal the broker answers every CONNECT with.
pub open spec fn refusal() -> ConnAck {
    ConnAck { session_present: false, return_code: NOT_AUTHORIZED }
}

/// The responses the broker logic queues for a sequence of packets, in order.
pub open spec fn responses(ps: Seq<Packet>) -> Seq<ConnAck>
    decreases ps.len(),
{
    if ps.len() == 0 {
        Seq::empty()
    } else if ps.last() == Packet::Connect {
        responses(ps.drop_last()).push(refusal())
    } else {
        responses(ps.drop_last())
    }
}

/// What a connection still has to send: the unsent rest of the buffer in
/// flight, then its queued packets in order.
pub open spec fn pending_stream(queue: Seq<ConnAck>, in_flight: Option<Seq<u8>>) -> Seq<u8> {
    match in_flight {
        Some(b) => b + queued_bytes(queue),
        None => queued_bytes(queue),
    }
}

/// The broker's record of one accepted connection.
pub struct Client {
    fd: i32,
    queue: VecDeque<ConnAck>,
    in_flight: Option<Buffer>,
}

impl Client {
    pub closed spec fn queue_view(&self) -> Seq<ConnAck> {
        self.queue@
    }

    pub closed spec fn in_flight_view(&self) -> Option<Seq<u8>> {
        match self.in_flight {
            Some(b) => Some(b@),
            None => None,
        }
    }

    closed spec fn wf(&self) -> bool {
        forall|i: int| 0 <= i < self.queue@.len() ==> (#[trigger] self.queue@[i]).return_code <= MAX_RETURN_CODE
    }
}

/// The next thing a connection's write path needs from its caller.
#[derive(Debug, PartialEq, Eq)]
pub enum WriteStep {
    /// Write these bytes to the socket, then report how many went out.
    Write(Vec<u8>),
    /// No buffer is free; the connection waits in the pool's queue.
    Suspended,
    /// Nothing is left to send.
    Done,
}

/// Process-wide broker state: the buffer pool, one record per connection,
/// and the descriptors woken since they were last collected.
pub struct Session {
    pool: BufferPool,
    clients: Vec<Client>,
    wakes: Vec<i32>,
}

impl Session {
    pub closed spec fn pool(&self) -> BufferPool {
        self.pool
    }

    /// Descriptors whose suspended operations were woken, oldest first.
    pub closed spec fn wakes(&self) -> Seq<i32> {
        self.wakes@
    }

    pub closed spec fn has_client(&self, fd: i32) -> bool {
        exists|i: int| 0 <= i < self.clients@.len() && (#[trigger] self.clients@[i]).fd == fd
    }

    closed spec fn client(&self, fd: i32) -> Client {
        let i = choose|i: int| 0 <= i < self.clients@.len() && (#[trigger] self.clients@[i]).fd == fd;
        self.clients@[i]
    }

    /// The packets waiting to be encoded for connection `fd`, oldest first.
    pub closed spec fn queue_of(&self, fd: i32) -> Seq<ConnAck> {
        self.client(fd).queue_view()
    }

    /// The unsent bytes of the buffer in flight for `fd`, if one is.
    pub closed spec fn in_flight_of(&self, fd: i32) -> Option<Seq<u8>> {
        self.client(fd).in_flight_view()
    }

    /// Everything connection `fd` still has to send, in order.
    pub open spec fn stream_of(&self, fd: i32) -> Seq<u8> {
        pending_stream(self.queue_of(fd), self.in_flight_of(fd))
    }

    pub closed spec fn wf(&self) -> bool {
        &&& self.pool.wf()
        &&& forall|i: int, j: int|
            0 <= i < self.clients@.len() && 0 <= j < self.clients@.len() && i != j
                ==> (#[trigger] self.clients@[i]).fd != (#[trigger] self.clients@[j]).fd
        &&& forall|i: int| 0 <= i < self.clients@.len() ==> (#[trigger] self.clients@[i]).wf()
    }

    /// Every connection's state is as it was in `other`.
    pub closed spec fn same_clients(&self, other: &Session) -> bool {
        self.clients@ == other.clients@
    }

    /// The state of every connection but `fd` is as it was in `other`.
    pub open spec fn same_except(&self, other: &Session, fd: i32) -> bool {
        forall|g: i32| g != fd ==> {
            &&& #[trigger] self.has_client(g) == other.has_client(g)
            &&& self.has_client(g) ==> self.queue_of(g) == other.queue_of(g) && self.in_flight_of(g) == other.in_flight_of(g)
        }
    }

    /// Sessions with the same connection records agree on every connection.
    pub proof fn lemma_same_clients(a: &Session, b: &Session)
        requires
            a.same_clients(b),
        ensures
            forall|g: i32| #[trigger] a.has_client(g) == b.has_client(g),
            forall|g: i32| a.queue_of(g) == b.queue_of(g) && #[trigger] a.in_flight_of(g) == b.in_flight_of(g),
            forall|g: i32| a.same_except(b, g),
    {
    }

    pub proof fn lemma_same_clients_refl(a: &Session)
        ensures
            a.same_clients(a),
    {
    }

    pub proof fn lemma_same_except_trans(a: &Session, b: &Session, c: &Session, fd: i32)
        requires
            a.same_except(b, fd),
            b.same_except(c, fd),
        ensures
            a.same_except(c, fd),
    {
        assert forall|g: i32| g != fd implies {
            &&& #[trigger] a.has_client(g) == c.has_client(g)
            &&& a.has_client(g) ==> a.queue_of(g) == c.queue_of(g) && a.in_flight_of(g) == c.in_flight_of(g)
        } by {
            assert(a.has_client(g) == b.has_client(g));
            assert(b.has_client(g) == c.has_client(g));
        }
    }

    proof fn lemma_client_at(&self, i: int)
        requires
            self.wf(),
            0 <= i < self.clients@.len(),
        ensures
            self.has_client(self.clients@[i].fd),
            self.client(self.clients@[i].fd) == self.clients@[i],
    {
        let fd = self.clients@[i].fd;
        assert(self.clients@[i].fd == fd);
        let j = choose|j: int| 0 <= j < self.clients@.len() && (#[trigger] self.clients@[j]).fd == fd;
        assert(i == j);
    }

    /// A session with no connection, drawing buffers from `pool`.
    pub fn new(pool: BufferPool) -> (r: Session)
        requires
            pool.wf(),
        ensures
            r.wf(),
            r.pool() == pool,
            r.wakes() == Seq::<i32>::empty(),
            forall|fd: i32| !r.has_client(fd),
    {
        Session { pool, clients: Vec::new(), wakes: Vec::new() }
    }

    fn find(&self, fd: i32) -> (r: Option<usize>)
        requires
            self.wf(),
        ensures
            r is None ==> !self.has_client(fd),
            r matches Some(i) ==> i < self.clients@.len() && self.clients@[i as int].fd == fd
                && self.has_client(fd) && self.client(fd) == self.clients@[i as int],
    {
        let mut i: usize = 0;
        while i < self.clients.len()
            invariant
                self.wf(),
                i <= self.clients@.len(),
                forall|j: int| 0 <= j < i ==> (#[trigger] self.clients@[j]).fd != fd,
            decreases self.clients@.len() - i,
        {
            if self.clients[i].fd == fd {
                proof { self.lemma_client_at(i as int); }
                return Some(i);
            }
            i = i + 1;
        }
        None
    }

    /// Puts a client back at index `i` after it was taken out for an update.
    proof fn lemma_put_back_client(old_s: &Session, new_s: &Session, i: int, c: Client)
        requires
            old_s.wf(),
            0 <= i < old_s.clients@.len(),
            c.fd == old_s.clients@[i].fd,
            c.wf(),
            new_s.clients@ == old_s.clients@.update(i, c),
            new_s.pool.wf(),
        ensures
            new_s.wf(),
            new_s.has_client(c.fd),
            new_s.client(c.fd) == c,
            new_s.same_except(old_s, c.fd),
    {
        assert forall|a: int, b: int|
            0 <= a < new_s.clients@.len() && 0 <= b < new_s.clients@.len() && a != b
            implies (#[trigger] new_s.clients@[a]).fd != (#[trigger] new_s.clients@[b]).fd by {
            assert(old_s.clients@[a].fd != old_s.clients@[b].fd);
        }
        assert forall|a: int| 0 <= a < new_s.clients@.len() implies (#[trigger] new_s.clients@[a]).wf() by {
            if a != i {
                assert(old_s.clients@[a].wf());
            }
        }
        new_s.lemma_client_at(i);
        assert forall|g: i32| g != c.fd implies {
            &&& #[trigger] new_s.has_client(g) == old_s.has_client(g)
            &&& new_s.has_client(g) ==> new_s.queue_of(g) == old_s.queue_of(g) && new_s.in_flight_of(g) == old_s.in_flight_of(g)
        } by {
            if old_s.has_client(g) {
                let j = choose|j: int| 0 <= j < old_s.clients@.len() && (#[trigger] old_s.clients@[j]).fd == g;
                old_s.lemma_client_at(j);
                new_s.lemma_client_at(j);
            }
            if new_s.has_client(g) {
                let j = choose|j: int| 0 <= j < new_s.clients@.len() && (#[trigger] new_s.clients@[j]).fd == g;
                assert(old_s.clients@[j].fd == g);
            }
        }
    }

    proof fn lemma_removed(old_s: &Session, new_s: &Session, i: int)
        requires
            old_s.wf(),
            0 <= i < old_s.clients@.len(),
            new_s.clients@ == old_s.clients@.remove(i),
            new_s.pool.wf(),
        ensures
            new_s.wf(),
            !new_s.has_client(old_s.clients@[i].fd),
            new_s.same_except(old_s, old_s.clients@[i].fd),
    {
        let fd = old_s.clients@[i].fd;
        assert forall|a: int, b: int|
            0 <= a < new_s.clients@.len() && 0 <= b < new_s.clients@.len() && a != b
            implies (#[trigger] new_s.clients@[a]).fd != (#[trigger] new_s.clients@[b]).fd by {
            let oa = if a < i { a } else { a + 1 };
            let ob = if b < i { b } else { b + 1 };
            assert(old_s.clients@[oa].fd != old_s.clients@[ob].fd);
        }
        assert forall|a: int| 0 <= a < new_s.clients@.len() implies (#[trigger] new_s.clients@[a]).wf() by {
            let oa = if a < i { a } else { a + 1 };
            assert(old_s.clients@[oa].wf());
        }
        if new_s.has_client(fd) {
            let j = choose|j: int| 0 <= j < new_s.clients@.len() && (#[trigger] new_s.clients@[j]).fd == fd;
            let oj = if j < i { j } else { j + 1 };
            assert(old_s.clients@[oj].fd == fd);
        }
        assert forall|g: i32| g != fd implies {
            &&& #[trigger] new_s.has_client(g) == old_s.has_client(g)
            &&& new_s.has_client(g) ==> new_s.queue_of(g) == old_s.queue_of(g) && new_s.in_flight_of(g) == old_s.in_flight_of(g)
        } by {
            if old_s.has_client(g) {
                let j = choose|j: int| 0 <= j < old_s.clients@.len() && (#[trigger] old_s.clients@[j]).fd == g;
                old_s.lemma_client_at(j);
                let nj = if j < i { j } else { j - 1 };
                assert(new_s.clients@[nj] == old_s.clients@[j]);
                new_s.lemma_client_at(nj);
            }
            if new_s.has_client(g) {
                let j = choose|j: int| 0 <= j < new_s.clients@.len() && (#[trigger] new_s.clients@[j]).fd == g;
                let oj = if j < i { j } else { j + 1 };
                assert(old_s.clients@[oj].fd == g);
            }
        }
    }

    /// Returns a buffer to the pool, recording the acquirer it wakes, if any.
    fn release(&mut self, buf: Buffer)
        requires
            old(self).wf(),
        ensures
            final(self).wf(),
            final(self).clients@ == old(self).clients@,
            final(self).pool().capacity() == old(self).pool().capacity(),
            old(self).pool().outstanding() > 0 ==> final(self).pool().outstanding() + 1 == old(self).pool().outstanding(),
            old(self).pool().outstanding() == 0 ==> final(self).pool() == old(self).pool(),
            final(self).wakes() == match (if old(self).pool().outstanding() > 0 && old(self).pool().waiters().len() > 0 {
                Some(old(self).pool().waiters()[0])
            } else {
                None::<i32>
            }) {
                Some(w) => old(self).wakes().push(w),
                None => old(self).wakes(),
            },
    {
        let woken = self.pool.put_back(buf);
        if let Some(w) = woken {
            self.wakes.push(w);
        }
    }

    /// Forgets connection `fd`, returning its buffer in flight, if any, to the
    /// pool. The other connections are untouched.
    pub fn disconnect(&mut self, fd: i32)
        requires
            old(self).wf(),
        ensures
            final(self).wf(),
            !final(self).has_client(fd),
            final(self).same_except(old(self), fd),
            final(self).pool().capacity() == old(self).pool().capacity(),
            old(self).has_client(fd) && old(self).in_flight_of(fd) is Some && old(self).pool().outstanding() > 0
                ==> final(self).pool().outstanding() + 1 == old(self).pool().outstanding(),
            !(old(self).has_client(fd) && old(self).in_flight_of(fd) is Some) ==> final(self).pool() == old(self).pool(),
    {
        match self.find(fd) {
            None => {},
            Some(i) => {
                let ghost before = *self;
                let c = self.clients.remove(i);
                proof { Session::lemma_removed(&before, self, i as int); }
                if let Some(b) = c.in_flight {
                    let ghost mid = *self;
                    self.release(b);
                    proof { assert(self.same_except(&mid, fd)); }
                }
            },
        }
    }

    /// Registers a newly accepted connection, with nothing queued and nothing
    /// in flight, and returns the reader for it. A stale record under the
    /// same descriptor is dropped first.
    pub fn accept(&mut self, fd: i32) -> (r: crate::reader::Reader)
        requires
            old(self).wf(),
        ensures
            final(self).wf(),
            final(self).has_client(fd),
            final(self).queue_of(fd) == Seq::<ConnAck>::empty(),
            final(self).in_flight_of(fd) == None::<Seq<u8>>,
            final(self).same_except(old(self), fd),
            final(self).pool().capacity() == old(self).pool().capacity(),
            r.fd() == fd,
            r.fresh(),
    {
        self.disconnect(fd);
        let ghost before = *self;
        self.clients.push(Client { fd, queue: VecDeque::new(), in_flight: None });
        proof {
            let n = before.clients@.len() as int;
            assert forall|a: int, b: int|
                0 <= a < self.clients@.len() && 0 <= b < self.clients@.len() && a != b
                implies (#[trigger] self.clients@[a]).fd != (#[trigger] self.clients@[b]).fd by {
                if a < n && b < n {
                    assert(before.clients@[a].fd != before.clients@[b].fd);
                } else if a < n {
                    assert(before.clients@[a].fd != fd);
                } else {
                    assert(before.clients@[b].fd != fd);
                }
            }
            assert forall|a: int| 0 <= a < self.clients@.len() implies (#[trigger] self.clients@[a]).wf() by {
                if a < n {
                    assert(before.clients@[a].wf());
                }
            }
            self.lemma_client_at(n);
            assert forall|g: i32| g != fd implies {
                &&& #[trigger] self.has_client(g) == before.has_client(g)
                &&& self.has_client(g) ==> self.queue_of(g) == before.queue_of(g) && self.in_flight_of(g) == before.in_flight_of(g)
            } by {
                if before.has_client(g) {
                    let j = choose|j: int| 0 <= j < before.clients@.len() && (#[trigger] before.clients@[j]).fd == g;
                    before.lemma_client_at(j);
                    assert(self.clients@[j] == before.clients@[j]);
                    self.lemma_client_at(j);
                }
                if self.has_client(g) {
                    let j = choose|j: int| 0 <= j < self.clients@.len() && (#[trigger] self.clients@[j]).fd == g;
                    assert(before.clients@[j].fd == g);
                }
            }
        }
        crate::reader::Reader::new(fd)
    }

    /// Applies the broker logic to a packet decoded on connection `fd`: a
    /// CONNECT is refused as not authorized, with no session present; any
    /// other packet gets no response.
    pub fn recv(&mut self, fd: i32, packet: Packet)
        requires
            old(self).wf(),
            old(self).has_client(fd),
        ensures
            final(self).wf(),
            final(self).has_client(fd),
            final(self).queue_of(fd) == if packet == Packet::Connect {
                old(self).queue_of(fd).push(ConnAck { session_present: false, return_code: NOT_AUTHORIZED })
            } else {
                old(self).queue_of(fd)
            },
            final(self).in_flight_of(fd) == old(self).in_flight_of(fd),
            final(self).same_except(old(self), fd),
            final(self).pool() == old(self).pool(),
            final(self).wakes() == old(self).wakes(),
    {
        if let Packet::Connect = packet {
            let i = self.find(fd).unwrap();
            let ghost before = *self;
            let mut c = self.clients.remove(i);
            c.queue.push_back(ConnAck { session_present: false, return_code: NOT_AUTHORIZED });
            self.clients.insert(i, c);
            proof {
                assert(before.clients@[i as int].wf());
                assert(self.clients@ =~= before.clients@.update(i as int, c));
                Session::lemma_put_back_client(&before, self, i as int, c);
            }
        }
    }

    /// Drives the write path of connection `fd` as far as it goes without
    /// the socket: a fully sent buffer goes back to the pool, and the oldest
    /// queued packet is encoded into a fresh buffer once nothing is in
    /// flight. What the connection still has to send is unchanged: packets
    /// leave in the order they were queued, and at most one buffer is in
    /// flight.
    pub fn poll_write(&mut self, fd: i32) -> (r: WriteStep)
        requires
            old(self).wf(),
            old(self).has_client(fd),
        ensures
            final(self).wf(),
            final(self).has_client(fd),
            final(self).same_except(old(self), fd),
            final(self).stream_of(fd) == old(self).stream_of(fd),
            final(self).pool().capacity() == old(self).pool().capacity(),
            r matches WriteStep::Write(b) ==> b@.len() > 0 && final(self).in_flight_of(fd) == Some(b@),
            r is Suspended ==> {
                &&& final(self).in_flight_of(fd) is None
                &&& final(self).queue_of(fd).len() > 0
                &&& final(self).pool().idle_count() == 0
                &&& final(self).pool().waiters().len() > 0
                &&& final(self).pool().waiters().last() == fd
            },
            r is Done ==> final(self).in_flight_of(fd) is None && final(self).queue_of(fd).len() == 0,
            r is Done <==> old(self).stream_of(fd).len() == 0,
            r is Suspended <==> {
                &&& old(self).in_flight_of(fd) is None
                &&& old(self).queue_of(fd).len() > 0
                &&& old(self).pool().idle_count() == 0
            },
    {
        loop
            invariant
                self.wf(),
                self.has_client(fd),
                self.same_except(old(self), fd),
                self.stream_of(fd) == old(self).stream_of(fd),
                self.pool().capacity() == old(self).pool().capacity(),
                ({
                    &&& old(self).in_flight_of(fd) is None
                    &&& old(self).queue_of(fd).len() > 0
                    &&& old(self).pool().idle_count() == 0
                }) <==> ({
                    &&& self.in_flight_of(fd) is None
                    &&& self.queue_of(fd).len() > 0
                    &&& self.pool().idle_count() == 0
                }),
            decreases 2 * self.queue_of(fd).len() + if self.in_flight_of(fd) is Some { 1int } else { 0int },
        {
            let i = self.find(fd).unwrap();
            let ghost before = *self;
            let Client { fd: cfd, mut queue, in_flight } = self.clients.remove(i);
            proof { assert(before.clients@[i as int].wf()); }
            match in_flight {
                Some(buf) => {
                    if buf.len() > 0 {
                        let bytes = buf.to_vec();
                        let c = Client { fd: cfd, queue, in_flight: Some(buf) };
                        self.clients.insert(i, c);
                        proof {
                            assert(self.clients@ =~= before.clients@.update(i as int, c));
                            Session::lemma_put_back_client(&before, self, i as int, c);
                        }
                        return WriteStep::Write(bytes);
                    }
                    let c = Client { fd: cfd, queue, in_flight: None };
                    self.clients.insert(i, c);
                    proof {
                        assert(self.clients@ =~= before.clients@.update(i as int, c));
                        Session::lemma_put_back_client(&before, self, i as int, c);
                        assert(buf@ + queued_bytes(queue@) =~= queued_bytes(queue@));
                        Session::lemma_same_except_trans(self, &before, old(self), fd);
                    }
                    let ghost mid = *self;
                    proof { crate::buffer_pool::lemma_outstanding_within_capacity(&self.pool); }
                    self.release(buf);
                    proof {
                        crate::buffer_pool::lemma_outstanding_within_capacity(&mid.pool);
                        crate::buffer_pool::lemma_outstanding_within_capacity(&self.pool);
                        assert(self.pool().idle_count() > 0);
                        assert(self.same_except(&mid, fd));
                        Session::lemma_same_except_trans(self, &mid, old(self), fd);
                    }
                },
                None => {
                    if queue.len() == 0 {
                        let c = Client { fd: cfd, queue, in_flight: None };
                        self.clients.insert(i, c);
                        proof {
                            assert(self.clients@ =~= before.clients@.update(i as int, c));
                            Session::lemma_put_back_client(&before, self, i as int, c);
                        }
                        return WriteStep::Done;
                    }
                    match self.pool.poll_take(fd) {
                        None => {
                            proof { lemma_queued_bytes_nonempty(queue@); }
                            let c = Client { fd: cfd, queue, in_flight: None };
                            self.clients.insert(i, c);
                            proof {
                                assert(self.clients@ =~= before.clients@.update(i as int, c));
                                Session::lemma_put_back_client(&before, self, i as int, c);
                                assert(self.queue_of(fd) == queue@);
                                assert(self.pool.waiters().last() == fd);
                            }
                            return WriteStep::Suspended;
                        },
                        Some(b) => {
                            let mut b = b;
                            let ghost q0 = queue@;
                            let ack = queue.pop_front().unwrap();
                            proof { assert(q0[0].return_code <= MAX_RETURN_CODE); }
                            encode_connack(ack, &mut b);
                            let c = Client { fd: cfd, queue, in_flight: Some(b) };
                            proof {
                                assert(queue@ == q0.drop_first());
                                assert(b@ =~= connack_bytes(ack));
                                assert forall|k: int| 0 <= k < queue@.len() implies (#[trigger] queue@[k]).return_code <= MAX_RETURN_CODE by {
                                    assert(q0[k + 1].return_code <= MAX_RETURN_CODE);
                                }
                            }
                            self.clients.insert(i, c);
                            proof {
                                assert(self.clients@ =~= before.clients@.update(i as int, c));
                                Session::lemma_put_back_client(&before, self, i as int, c);
                                Session::lemma_same_except_trans(self, &before, old(self), fd);
                            }
                        },
                    }
                },
            }
        }
    }

    /// Records that the first `n` bytes in flight on connection `fd` were
    /// written to the socket; the rest stays in flight, to be sent next.
    pub fn wrote(&mut self, fd: i32, n: usize)
        requires
            old(self).wf(),
            old(self).has_client(fd),
            old(self).in_flight_of(fd) matches Some(b) && n <= b.len(),
        ensures
            final(self).wf(),
            final(self).has_client(fd),
            final(self).same_except(old(self), fd),
            final(self).queue_of(fd) == old(self).queue_of(fd),
            final(self).in_flight_of(fd) == Some(old(self).in_flight_of(fd)->Some_0.subrange(n as int, old(self).in_flight_of(fd)->Some_0.len() as int)),
            final(self).stream_of(fd) == old(self).stream_of(fd).subrange(n as int, old(self).stream_of(fd).len() as int),
            final(self).pool() == old(self).pool(),
            final(self).wakes() == old(self).wakes(),
    {
        let i = self.find(fd).unwrap();
        let ghost before = *self;
        let Client { fd: cfd, queue, in_flight } = self.clients.remove(i);
        proof { assert(before.clients@[i as int].wf()); }
        let mut buf = in_flight.unwrap();
        let ghost b0 = buf@;
        buf.advance(n);
        let c = Client { fd: cfd, queue, in_flight: Some(buf) };
        self.clients.insert(i, c);
        proof {
            assert(self.clients@ =~= before.clients@.update(i as int, c));
            Session::lemma_put_back_client(&before, self, i as int, c);
            let q = queued_bytes(queue@);
            assert((b0 + q).subrange(n as int, (b0 + q).len() as int) =~= b0.subrange(n as int, b0.len() as int) + q);
        }
    }

    /// Hands over the descriptors woken since the last call, oldest first.
    pub fn take_wakes(&mut self) -> (r: Vec<i32>)
        requires
            old(self).wf(),
        ensures
            final(self).wf(),
            r@ == old(self).wakes(),
            final(self).wakes() == Seq::<i32>::empty(),
            final(self).pool() == old(self).pool(),
            forall|g: i32| #[trigger] final(self).has_client(g) == old(self).has_client(g),
            forall|g: i32| final(self).queue_of(g) == old(self).queue_of(g) && #[trigger] final(self).in_flight_of(g) == old(self).in_flight_of(g),
    {
        let mut r: Vec<i32> = Vec::new();
        let mut k: usize = 0;
        while k < self.wakes.len()
            invariant
                k <= self.wakes@.len(),
                r@ == self.wakes@.subrange(0, k as int),
            decreases self.wakes@.len() - k,
        {
            r.push(self.wakes[k]);
            k = k + 1;
        }
        proof { assert(r@ =~= self.wakes@); }
        self.wakes.clear();
        r
    }

    /// The packets queued on connection `fd`, oldest first.
    pub fn queued(&self, fd: i32) -> (r: Vec<ConnAck>)
        requires
            self.wf(),
        ensures
            self.has_client(fd) ==> r@ == self.queue_of(fd),
            !self.has_client(fd) ==> r@.len() == 0,
    {
        let mut r: Vec<ConnAck> = Vec::new();
        match self.find(fd) {
            None => {},
            Some(i) => {
                let q = &self.clients[i].queue;
                let mut k: usize = 0;
                while k < q.len()
                    invariant
                        k <= q@.len(),
                        r@ == q@.subrange(0, k as int),
                    decreases q@.len() - k,
                {
                    r.push(q[k]);
                    k = k + 1;
                }
            },
        }
        r
    }

    pub fn is_connected(&self, fd: i32) -> (r: bool)
        requires
            self.wf(),
        ensures
            r == self.has_client(fd),
    {
        self.find(fd).is_some()
    }

    /// The pool's count of idle buffers.
    pub fn idle_buffers(&self) -> (r: usize)
        ensures
            r == self.pool().idle_count(),
    {
        self.pool.idle_len()
    }

    /// Takes a buffer from the pool for connection `fd`, which is queued to
    /// be woken when none is idle.
    pub fn take_buffer(&mut self, fd: i32) -> (r: Option<Buffer>)
        requires
            old(self).wf(),
        ensures
            final(self).wf(),
            final(self).same_clients(old(self)),
            final(self).wakes() == old(self).wakes(),
            final(self).pool().capacity() == old(self).pool().capacity(),
            old(self).pool().idle_count() > 0 ==> (r matches Some(b) && b@ == Seq::<u8>::empty()),
            old(self).pool().idle_count() == 0 ==> r is None && final(self).pool().waiters() == old(self).pool().waiters().push(fd)
                && final(self).pool().idle_count() == 0,
    {
        self.pool.poll_take(fd)
    }

    /// Returns a buffer to the pool, recording the acquirer it wakes, if any.
    pub fn give_back(&mut self, buf: Buffer)
        requires
            old(self).wf(),
        ensures
            final(self).wf(),
            final(self).same_clients(old(self)),
            final(self).pool().capacity() == old(self).pool().capacity(),
            old(self).pool().outstanding() > 0 ==> final(self).pool().outstanding() + 1 == old(self).pool().outstanding(),
            old(self).pool().outstanding() == 0 ==> final(self).pool() == old(self).pool(),
    {
        self.release(buf);
    }
}

proof fn lemma_queued_bytes_nonempty(q: Seq<ConnAck>)
    requires
        q.len() > 0,
    ensures
        queued_bytes(q).len() >= 4,
{
    assert(queued_bytes(q) == connack_bytes(q[0]) + queued_bytes(q.drop_first()));
}

/// Packets go out in the order they were queued: what a connection sends
/// for a queue with one more packet at its back is what it sent before,
/// followed by that packet's bytes.
pub proof fn lemma_queue_order_kept(q: Seq<ConnAck>, ack: ConnAck)
    ensures
        queued_bytes(q.push(ack)) == queued_bytes(q) + connack_bytes(ack),
    decreases q.len(),
{
    if q.len() == 0 {
        let one = q.push(ack);
        assert(one.drop_first() =~= Seq::<ConnAck>::empty());
        assert(queued_bytes(one.drop_first()) == Seq::<u8>::empty());
        assert(one[0] == ack);
        assert(queued_bytes(one) == connack_bytes(ack) + queued_bytes(one.drop_first()));
        assert(queued_bytes(one) =~= queued_bytes(q) + connack_bytes(ack));
    } else {
        assert(q.push(ack).drop_first() =~= q.drop_first().push(ack));
        lemma_queue_order_kept(q.drop_first(), ack);
        assert(queued_bytes(q.push(ack)) =~= queued_bytes(q) + connack_bytes(ack));
    }
}

} // verus!
