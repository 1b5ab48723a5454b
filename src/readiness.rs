use vstd::prelude::*;

verus! {

/// Readiness flag: the descriptor can be read.
pub const READABLE: u32 = 0x001;

/// Readiness flag: the descriptor can be written.
pub const WRITABLE: u32 = 0x004;

/// The flags that the readiness events of `events` report for `fd`, merged
/// by bitwise or, and whether any event concerns `fd` at all. An event on
/// `wake_fd` stands for every descriptor in `wakes`, readable and writable.
pub open spec fn merged(events: Seq<(i32, u32)>, wake_fd: i32, wakes: Seq<i32>, fd: i32) -> Option<u32>
    decreases events.len(),
{
    if events.len() == 0 {
        None
    } else {
        let prev = merged(events.drop_last(), wake_fd, wakes, fd);
        let (e, f) = events.last();
        let add: Option<u32> = if e == wake_fd {
            if wakes.contains(fd) { Some(READABLE | WRITABLE) } else { None }
        } else if e == fd {
            Some(f)
        } else {
            None
        };
        match (prev, add) {
            (Some(p), Some(a)) => Some(p | a),
            (Some(p), None) => Some(p),
            (None, a) => a,
        }
    }
}

/// The readiness of one loop iteration: one entry per descriptor, with the
/// flags of all its events merged, in ascending descriptor order.
pub struct Readiness {
    entries: Vec<(i32, u32)>,
}

impl Readiness {
    pub closed spec fn entries_view(&self) -> Seq<(i32, u32)> {
        self.entries@
    }

    /// The merged flags of `fd`, if any event concerned it.
    pub open spec fn flags_of(&self, fd: i32) -> Option<u32> {
        if exists|i: int| 0 <= i < self.entries_view().len() && (#[trigger] self.entries_view()[i]).0 == fd {
            let i = choose|i: int| 0 <= i < self.entries_view().len() && (#[trigger] self.entries_view()[i]).0 == fd;
            Some(self.entries_view()[i].1)
        } else {
            None
        }
    }

    /// Descriptors strictly ascend, so each appears once.
    pub open spec fn wf(&self) -> bool {
        forall|i: int, j: int| 0 <= i < j < self.entries_view().len()
            ==> (#[trigger] self.entries_view()[i]).0 < (#[trigger] self.entries_view()[j]).0
    }

    pub fn new() -> (r: Readiness)
        ensures
            r.wf(),
            forall|fd: i32| r.flags_of(fd) is None,
    {
        Readiness { entries: Vec::new() }
    }

    proof fn lemma_flags_at(&self, i: int)
        requires
            self.wf(),
            0 <= i < self.entries_view().len(),
        ensures
            self.flags_of(self.entries_view()[i].0) == Some(self.entries_view()[i].1),
    {
        let fd = self.entries_view()[i].0;
        assert(self.entries_view()[i].0 == fd);
        let j = choose|j: int| 0 <= j < self.entries_view().len() && (#[trigger] self.entries_view()[j]).0 == fd;
        if j < i {
            assert(self.entries_view()[j].0 < self.entries_view()[i].0);
        } else if i < j {
            assert(self.entries_view()[i].0 < self.entries_view()[j].0);
        }
    }

    /// Merges `flags` into the entry of `fd`, creating it if needed.
    pub fn merge(&mut self, fd: i32, flags: u32)
        requires
            old(self).wf(),
        ensures
            final(self).wf(),
            final(self).flags_of(fd) == match old(self).flags_of(fd) {
                Some(p) => Some(p | flags),
                None => Some(flags),
            },
            forall|g: i32| g != fd ==> #[trigger] final(self).flags_of(g) == old(self).flags_of(g),
    {
        let ghost old_e = self.entries@;
        let mut i: usize = 0;
        while i < self.entries.len() && self.entries[i].0 < fd
            invariant
                self.entries@ == old_e,
                i <= old_e.len(),
                forall|j: int| 0 <= j < i ==> (#[trigger] old_e[j]).0 < fd,
            decreases old_e.len() - i,
        {
            i = i + 1;
        }
        if i < self.entries.len() && self.entries[i].0 == fd {
            let (e, f) = self.entries[i];
            proof { self.lemma_flags_at(i as int); }
            self.entries.set(i, (e, f | flags));
            proof {
                assert forall|a: int, b: int| 0 <= a < b < self.entries_view().len()
                    implies (#[trigger] self.entries_view()[a]).0 < (#[trigger] self.entries_view()[b]).0 by {
                    assert(old_e[a].0 < old_e[b].0);
                }
                self.lemma_flags_at(i as int);
                assert forall|g: i32| g != fd implies #[trigger] self.flags_of(g) == old(self).flags_of(g) by {
                    if old(self).flags_of(g) is Some {
                        let j = choose|j: int| 0 <= j < old_e.len() && (#[trigger] old_e[j]).0 == g;
                        old(self).lemma_flags_at(j);
                        self.lemma_flags_at(j);
                    }
                    if self.flags_of(g) is Some {
                        let j = choose|j: int| 0 <= j < self.entries_view().len() && (#[trigger] self.entries_view()[j]).0 == g;
                        assert(old_e[j].0 == g);
                    }
                }
            }
        } else {
            proof {
                if old(self).flags_of(fd) is Some {
                    let j = choose|j: int| 0 <= j < old_e.len() && (#[trigger] old_e[j]).0 == fd;
                    if j >= i {
                        assert(old_e[i as int].0 <= old_e[j].0);
                    }
                }
            }
            self.entries.insert(i, (fd, flags));
            proof {
                assert forall|a: int, b: int| 0 <= a < b < self.entries_view().len()
                    implies (#[trigger] self.entries_view()[a]).0 < (#[trigger] self.entries_view()[b]).0 by {
                    if a < i && b < i {
                        assert(old_e[a].0 < old_e[b].0);
                    } else if a < i && b > i {
                        assert(old_e[a].0 < fd);
                        if b - 1 > i { assert(old_e[i as int].0 < old_e[b - 1].0); }
                    } else if a > i {
                        assert(old_e[a - 1].0 < old_e[b - 1].0);
                    } else if b > i {
                        if b - 1 > i { assert(old_e[i as int].0 < old_e[b - 1].0); }
                    }
                }
                self.lemma_flags_at(i as int);
                assert forall|g: i32| g != fd implies #[trigger] self.flags_of(g) == old(self).flags_of(g) by {
                    if old(self).flags_of(g) is Some {
                        let j = choose|j: int| 0 <= j < old_e.len() && (#[trigger] old_e[j]).0 == g;
                        old(self).lemma_flags_at(j);
                        let nj = if j < i { j } else { j + 1 };
                        assert(self.entries_view()[nj] == old_e[j]);
                        self.lemma_flags_at(nj);
                    }
                    if self.flags_of(g) is Some {
                        let j = choose|j: int| 0 <= j < self.entries_view().len() && (#[trigger] self.entries_view()[j]).0 == g;
                        let oj = if j < i { j } else { j - 1 };
                        assert(old_e[oj].0 == g);
                    }
                }
            }
        }
    }

    /// The entries in ascending descriptor order.
    pub fn entries(&self) -> (r: Vec<(i32, u32)>)
        requires
            self.wf(),
        ensures
            r@ == self.entries_view(),
            forall|i: int, j: int| 0 <= i < j < r@.len() ==> (#[trigger] r@[i]).0 < (#[trigger] r@[j]).0,
            forall|i: int| 0 <= i < r@.len() ==> self.flags_of((#[trigger] r@[i]).0) == Some(r@[i].1),
    {
        proof {
            assert forall|i: int| 0 <= i < self.entries_view().len() implies self.flags_of((#[trigger] self.entries_view()[i]).0) == Some(self.entries_view()[i].1) by {
                self.lemma_flags_at(i);
            }
        }
        let mut r: Vec<(i32, u32)> = Vec::new();
        let mut i: usize = 0;
        while i < self.entries.len()
            invariant
                i <= self.entries@.len(),
                r@ == self.entries@.subrange(0, i as int),
            decreases self.entries@.len() - i,
        {
            r.push(self.entries[i]);
            i = i + 1;
        }
        proof { assert(r@ =~= self.entries@); }
        r
    }
}

/// Merges one iteration's readiness events: the flags of events on the same
/// descriptor are or-ed together, and an event on `wake_fd` marks every
/// descriptor in `wakes` readable and writable.
pub fn collect(events: &[(i32, u32)], wake_fd: i32, wakes: &[i32]) -> (r: Readiness)
    ensures
        r.wf(),
        forall|fd: i32| #[trigger] r.flags_of(fd) == merged(events@, wake_fd, wakes@, fd),
{
    let mut r = Readiness::new();
    let mut k: usize = 0;
    while k < events.len()
        invariant
            k <= events@.len(),
            r.wf(),
            forall|fd: i32| #[trigger] r.flags_of(fd) == merged(events@.subrange(0, k as int), wake_fd, wakes@, fd),
        decreases events@.len() - k,
    {
        let (e, f) = events[k];
        let ghost before = r;
        if e == wake_fd {
            let mut w: usize = 0;
            while w < wakes.len()
                invariant
                    w <= wakes@.len(),
                    r.wf(),
                    forall|fd: i32| #[trigger] r.flags_of(fd) == if wakes@.subrange(0, w as int).contains(fd) {
                        match before.flags_of(fd) {
                            Some(p) => Some(p | (READABLE | WRITABLE)),
                            None => Some(READABLE | WRITABLE),
                        }
                    } else {
                        before.flags_of(fd)
                    },
                decreases wakes@.len() - w,
            {
                let ghost mid = r;
                r.merge(wakes[w], READABLE | WRITABLE);
                proof {
                    let x = wakes@[w as int];
                    assert forall|fd: i32| #[trigger] r.flags_of(fd) == if wakes@.subrange(0, w + 1).contains(fd) {
                        match before.flags_of(fd) {
                            Some(p) => Some(p | (READABLE | WRITABLE)),
                            None => Some(READABLE | WRITABLE),
                        }
                    } else {
                        before.flags_of(fd)
                    } by {
                        let s0 = wakes@.subrange(0, w as int);
                        let s1 = wakes@.subrange(0, w + 1);
                        assert(s1 =~= s0.push(x));
                        if s0.contains(fd) {
                            let j = choose|j: int| 0 <= j < s0.len() && s0[j] == fd;
                            assert(s1[j] == fd);
                        }
                        if fd == x {
                            assert(s1[w as int] == fd);
                        }
                        if s1.contains(fd) && fd != x {
                            let j = choose|j: int| 0 <= j < s1.len() && s1[j] == fd;
                            assert(j < w);
                            assert(s0[j] == fd);
                        }
                        if fd == x && wakes@.subrange(0, w as int).contains(fd) {
                            match before.flags_of(fd) {
                                Some(p) => {
                                    let a = p | (READABLE | WRITABLE);
                                    assert(a | (READABLE | WRITABLE) == a) by (bit_vector)
                                        requires a == p | (0x001u32 | 0x004u32);
                                },
                                None => {
                                    assert((0x001u32 | 0x004u32) | (0x001u32 | 0x004u32) == (0x001u32 | 0x004u32)) by (bit_vector);
                                },
                            }
                        }
                    }
                }
                w = w + 1;
            }
            proof {
                assert(wakes@.subrange(0, wakes@.len() as int) =~= wakes@);
            }
        } else {
            r.merge(e, f);
        }
        proof {
            let s1 = events@.subrange(0, k + 1);
            assert(s1.drop_last() =~= events@.subrange(0, k as int));
            assert(s1.last() == (e, f));
        }
        k = k + 1;
    }
    proof { assert(events@.subrange(0, events@.len() as int) =~= events@); }
    r
}

/// What the reactor does with one descriptor's merged readiness.
#[derive(Clone, Copy, Debug, PartialEq, Eq, Structural)]
pub enum Route {
    /// Poll the acceptor for a new connection.
    Accept,
    /// Poll the connection's reader.
    Read,
    /// Drive the connection's write path.
    Write,
    /// Neither the acceptor nor a live connection with a usable flag: a
    /// broken invariant.
    Stale,
}

/// Picks the operation a descriptor's readiness calls for: the acceptor is
/// polled; a live connection is read when readable, otherwise written when
/// writable.
pub fn route(fd: i32, flags: u32, acceptor_fd: i32, is_connection: bool) -> (r: Route)
    ensures
        fd == acceptor_fd ==> r == Route::Accept,
        fd != acceptor_fd && is_connection && flags & READABLE != 0 ==> r == Route::Read,
        fd != acceptor_fd && is_connection && flags & READABLE == 0 && flags & WRITABLE != 0 ==> r == Route::Write,
        fd != acceptor_fd && (!is_connection || flags & (READABLE | WRITABLE) == 0) ==> r == Route::Stale,
{
    proof {
        assert(flags & (0x001u32 | 0x004u32) == 0 ==> flags & 0x001u32 == 0 && flags & 0x004u32 == 0) by (bit_vector);
    }
    if fd == acceptor_fd {
        Route::Accept
    } else if !is_connection {
        Route::Stale
    } else if flags & READABLE != 0 {
        Route::Read
    } else if flags & WRITABLE != 0 {
        Route::Write
    } else {
        proof {
            assert(flags & 0x001u32 == 0 && flags & 0x004u32 == 0 ==> flags & (0x001u32 | 0x004u32) == 0) by (bit_vector);
        }
        Route::Stale
    }
}

} // verus!
