use vstd::prelude::*;
use crate::buffer::Buffer;
use crate::codec::{Frame, Packet, decode_frame, frame_length, frame_of, packet_of, reserved_qos_publish};
use crate::session::{Session, responses};

verus! {

/// The bytes of a sequence of frames, one after the other.
pub open spec fn concat(frames: Seq<Seq<u8>>) -> Seq<u8>
    decreases frames.len(),
{
    if frames.len() == 0 {
        Seq::empty()
    } else {
        concat(frames.drop_last()) + frames.last()
    }
}

/// The front of `s` cannot become a packet: its remaining length is
/// malformed, or it is a whole frame that the codec does not accept.
pub open spec fn broken(s: Seq<u8>) -> bool {
    match frame_of(s) {
        Frame::Malformed => true,
        Frame::Complete(n) => reserved_qos_publish(s.subrange(0, n as int))
            || packet_of(s.subrange(0, n as int)) is None,
        Frame::Incomplete => false,
    }
}

/// Why a connection's receive side stopped for good.
#[derive(Clone, Copy, Debug, PartialEq, Eq, Structural)]
pub enum ReadError {
    /// The peer closed its write side.
    UnexpectedEof,
    /// The bytes do not make a packet the codec accepts.
    Malformed,
}

/// How far a poll of the receive side got.
#[derive(Clone, Copy, Debug, PartialEq, Eq, Structural)]
pub enum ReadStep {
    /// Every whole packet was dispatched; more bytes must be read.
    NeedBytes,
    /// No buffer is free; the connection waits in the pool's queue.
    Suspended,
    /// The stream is broken and the connection must be torn down.
    Failed(ReadError),
}

/// The receive side of one connection: the bytes read and not yet decoded,
/// and (as ghost state) every byte received and every frame dispatched.
pub struct Reader {
    fd: i32,
    pending_read: Option<Buffer>,
    received: Ghost<Seq<u8>>,
    frames: Ghost<Seq<Seq<u8>>>,
}

impl Reader {
    pub closed spec fn fd(&self) -> i32 {
        self.fd
    }

    /// Holding no buffer and no undecoded byte.
    pub closed spec fn fresh(&self) -> bool {
        &&& self.pending_read is None
        &&& self.received@ == Seq::<u8>::empty()
        &&& self.frames@ == Seq::<Seq<u8>>::empty()
    }

    pub closed spec fn has_buffer(&self) -> bool {
        self.pending_read is Some
    }

    /// The bytes read and not yet cut into packets.
    pub closed spec fn unconsumed(&self) -> Seq<u8> {
        match self.pending_read {
            Some(b) => b@,
            None => Seq::empty(),
        }
    }

    /// Every byte this connection has received, in arrival order.
    pub closed spec fn received(&self) -> Seq<u8> {
        self.received@
    }

    /// Every frame dispatched to the broker logic, in dispatch order.
    pub closed spec fn frames(&self) -> Seq<Seq<u8>> {
        self.frames@
    }

    /// The packets dispatched to the broker logic, in dispatch order.
    pub open spec fn packets(&self) -> Seq<Packet> {
        self.frames().map_values(|f: Seq<u8>| packet_of(f)->Some_0)
    }

    /// The dispatched frames followed by the unconsumed bytes are exactly
    /// the bytes received, and each dispatched frame is one whole packet.
    pub closed spec fn wf(&self) -> bool {
        &&& self.received@ == concat(self.frames@) + self.unconsumed()
        &&& forall|i: int| 0 <= i < self.frames@.len()
            ==> frame_of(#[trigger] self.frames@[i]) == Frame::Complete(self.frames@[i].len() as usize)
                && packet_of(self.frames@[i]) is Some
    }

    pub fn new(fd: i32) -> (r: Reader)
        ensures
            r.fd() == fd,
            r.fresh(),
            r.wf(),
    {
        Reader { fd, pending_read: None, received: Ghost(Seq::empty()), frames: Ghost(Seq::empty()) }
    }

    pub fn fd_of(&self) -> (r: i32)
        ensures
            r == self.fd(),
    {
        self.fd
    }

    pub fn holds_buffer(&self) -> (r: bool)
        ensures
            r == self.has_buffer(),
    {
        self.pending_read.is_some()
    }

    /// Takes in bytes just read from the socket. A read of zero bytes means
    /// the peer closed its write side.
    pub fn fill(&mut self, bytes: &[u8]) -> (r: Result<(), ReadError>)
        requires
            old(self).wf(),
            old(self).has_buffer(),
        ensures
            final(self).wf(),
            final(self).fd() == old(self).fd(),
            final(self).has_buffer(),
            final(self).frames() == old(self).frames(),
            bytes@.len() == 0 ==> r == Err::<(), ReadError>(ReadError::UnexpectedEof) && *final(self) == *old(self),
            bytes@.len() > 0 ==> {
                &&& r is Ok
                &&& final(self).received() == old(self).received() + bytes@
                &&& final(self).unconsumed() == old(self).unconsumed() + bytes@
            },
    {
        if bytes.len() == 0 {
            return Err(ReadError::UnexpectedEof);
        }
        let mut buf = self.pending_read.take().unwrap();
        buf.extend(bytes);
        self.pending_read = Some(buf);
        self.received = Ghost(self.received@ + bytes@);
        proof {
            assert(self.received@ =~= concat(self.frames@) + self.unconsumed());
        }
        Ok(())
    }

    /// Drives the receive pipeline until it needs bytes from the socket: takes
    /// a buffer if none is held, then cuts every whole packet off the front of
    /// the unconsumed bytes and hands it to the broker logic, in order.
    pub fn poll(&mut self, session: &mut Session) -> (r: ReadStep)
        requires
            old(self).wf(),
            old(session).wf(),
            old(session).has_client(old(self).fd()),
        ensures
            final(self).wf(),
            final(self).fd() == old(self).fd(),
            final(self).received() == old(self).received(),
            old(self).frames().is_prefix_of(final(self).frames()),
            final(session).wf(),
            final(session).has_client(old(self).fd()),
            final(session).same_except(old(session), old(self).fd()),
            final(session).in_flight_of(old(self).fd()) == old(session).in_flight_of(old(self).fd()),
            final(session).queue_of(old(self).fd()) == old(session).queue_of(old(self).fd())
                + responses(final(self).packets().subrange(old(self).packets().len() as int, final(self).packets().len() as int)),
            final(session).pool().capacity() == old(session).pool().capacity(),
            r is NeedBytes ==> final(self).has_buffer() && frame_of(final(self).unconsumed()) == Frame::Incomplete,
            r is Suspended <==> !old(self).has_buffer() && old(session).pool().idle_count() == 0,
            r is Suspended ==> {
                &&& *final(self) == *old(self)
                &&& final(session).pool().waiters() == old(session).pool().waiters().push(old(self).fd())
            },
            r matches ReadStep::Failed(e) ==> {
                &&& e == ReadError::Malformed
                &&& final(self).has_buffer()
                &&& broken(final(self).unconsumed())
            },
    {
        let fd = self.fd;
        if self.pending_read.is_none() {
            match session.take_buffer(fd) {
                None => {
                    proof {
                        Session::lemma_same_clients(session, old(session));
                        assert(self.packets().subrange(self.packets().len() as int, self.packets().len() as int) =~= Seq::<Packet>::empty());
                        assert(session.queue_of(fd) =~= old(session).queue_of(fd) + Seq::<crate::codec::ConnAck>::empty());
                    }
                    return ReadStep::Suspended;
                },
                Some(b) => {
                    self.pending_read = Some(b);
                    proof {
                        Session::lemma_same_clients(session, old(session));
                        assert(self.received@ =~= concat(self.frames@) + self.unconsumed());
                    }
                },
            }
        }
        let mut buf = self.pending_read.take().unwrap();
        let ghost k0 = self.frames@.len();
        loop
            invariant
                self.fd == fd,
                fd == old(self).fd(),
                old(self).has_buffer() || old(session).pool().idle_count() > 0,
                self.pending_read is None,
                self.received@ == old(self).received(),
                self.received@ == concat(self.frames@) + buf@,
                forall|i: int| 0 <= i < self.frames@.len()
                    ==> frame_of(#[trigger] self.frames@[i]) == Frame::Complete(self.frames@[i].len() as usize)
                        && packet_of(self.frames@[i]) is Some,
                k0 == old(self).frames().len(),
                old(self).frames().is_prefix_of(self.frames@),
                session.wf(),
                session.has_client(fd),
                session.same_except(old(session), fd),
                session.in_flight_of(fd) == old(session).in_flight_of(fd),
                session.queue_of(fd) == old(session).queue_of(fd)
                    + responses(self.packets().subrange(k0 as int, self.packets().len() as int)),
                session.pool().capacity() == old(session).pool().capacity(),
            decreases buf@.len(),
        {
            match frame_length(buf.as_slice()) {
                Frame::Incomplete => {
                    self.pending_read = Some(buf);
                    return ReadStep::NeedBytes;
                },
                Frame::Malformed => {
                    self.pending_read = Some(buf);
                    return ReadStep::Failed(ReadError::Malformed);
                },
                Frame::Complete(n) => {
                    proof { crate::codec::lemma_frame_within(buf@); }
                    let ghost b0 = buf@;
                    let frame = buf.split_to(n);
                    proof { crate::codec::lemma_whole_frame(b0, n); }
                    match decode_frame(frame.as_slice()) {
                        None => {
                            let mut whole = Buffer::from_bytes(frame.as_slice());
                            whole.extend(buf.as_slice());
                            proof { assert(whole@ =~= b0); }
                            self.pending_read = Some(whole);
                            return ReadStep::Failed(ReadError::Malformed);
                        },
                        Some(p) => {
                            let ghost before = *session;
                            let ghost old_frames = self.frames@;
                            session.recv(fd, p);
                            self.frames = Ghost(self.frames@.push(frame@));
                            proof {
                                let sub0 = old_frames.map_values(|f: Seq<u8>| packet_of(f)->Some_0).subrange(k0 as int, old_frames.len() as int);
                                let sub1 = self.packets().subrange(k0 as int, self.packets().len() as int);
                                assert(sub1.drop_last() =~= sub0);
                                assert(sub1.last() == p);
                                assert(session.queue_of(fd) =~= old(session).queue_of(fd) + responses(sub1));
                                assert(b0 =~= frame@ + buf@);
                                assert(self.frames@.drop_last() =~= old_frames);
                                assert(concat(self.frames@) == concat(old_frames) + frame@);
                                assert(self.received@ =~= concat(self.frames@) + buf@);
                                Session::lemma_same_except_trans(session, &before, old(session), fd);
                                assert(old(self).frames().is_prefix_of(self.frames@));
                            }
                        },
                    }
                },
            }
        }
    }

    /// Ends the receive side, returning its buffer, if it holds one, to the pool.
    pub fn close(self, session: &mut Session)
        requires
            old(session).wf(),
        ensures
            final(session).wf(),
            final(session).same_clients(old(session)),
            final(session).pool().capacity() == old(session).pool().capacity(),
            self.has_buffer() && old(session).pool().outstanding() > 0
                ==> final(session).pool().outstanding() + 1 == old(session).pool().outstanding(),
            !self.has_buffer() ==> final(session).pool() == old(session).pool(),
    {
        if let Some(b) = self.pending_read {
            session.give_back(b);
        } else {
            proof { Session::lemma_same_clients_refl(session); }
        }
    }
}

/// Packets reach the broker logic in the order their bytes arrived: the
/// dispatched frames, one after the other, are the front of the bytes
/// received, however the reads were split.
pub proof fn lemma_dispatched_in_arrival_order(r: &Reader)
    requires
        r.wf(),
    ensures
        concat(r.frames()).is_prefix_of(r.received()),
        r.received() == concat(r.frames()) + r.unconsumed(),
{
    assert(concat(r.frames()).is_prefix_of(concat(r.frames()) + r.unconsumed())) by {
        assert forall|i: int| 0 <= i < concat(r.frames()).len() implies
            (concat(r.frames()) + r.unconsumed())[i] == concat(r.frames())[i] by {}
    }
}

} // verus!
