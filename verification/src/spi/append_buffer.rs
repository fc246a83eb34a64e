//! Writer-private bounded append bytes. Dropping a buffer performs no I/O.
use vstd::prelude::*;

verus! {

pub const APPEND_CAPACITY: usize = 64 * 1024;

#[derive(Debug)]
pub struct AppendBuffer {
    start: u64,
    bytes: Vec<u8>,
    room: usize,
}

impl AppendBuffer {
    /// Where the first pending byte belongs.
    pub closed spec fn from(self) -> int {
        self.start as int
    }

    /// The bytes that were not written yet.
    pub closed spec fn held(self) -> Seq<u8> {
        self.bytes@
    }

    /// How many bytes the buffer may hold.
    pub closed spec fn capacity(self) -> int {
        self.room as int
    }

    pub closed spec fn wf(self) -> bool {
        &&& self.bytes@.len() <= self.room
        &&& self.room <= APPEND_CAPACITY
        &&& self.start + self.bytes@.len() <= u64::MAX
    }

    pub fn new(start: u64, enabled: bool) -> (b: AppendBuffer)
        ensures
            b.wf(),
            b.from() == start,
            b.held() == Seq::<u8>::empty(),
            b.capacity() == if enabled {
                APPEND_CAPACITY as int
            } else {
                0
            },
    {
        let room: usize = if enabled {
            APPEND_CAPACITY
        } else {
            0
        };
        AppendBuffer { start, bytes: Vec::with_capacity(room), room }
    }

    pub fn start(&self) -> (s: u64)
        ensures
            s == self.from(),
    {
        self.start
    }

    pub fn remaining(&self) -> (n: usize)
        requires
            self.wf(),
        ensures
            n == self.capacity() - self.held().len(),
    {
        self.room - self.bytes.len()
    }

    /// The held bytes from `at` on, or nothing where `at` is not held.
    pub fn pending(&self, at: u64) -> (r: Option<&[u8]>)
        ensures
            r is Some <==> self.from() <= at < self.from() + self.held().len(),
            r matches Some(s) ==> s@ == self.held().skip(at - self.from()),
    {
        if at < self.start {
            return None;
        }
        let offset: u64 = at - self.start;
        let size: usize = self.bytes.len();
        if offset >= size as u64 {
            return None;
        }
        let s: &[u8] = vstd::slice::slice_subrange(self.bytes.as_slice(), offset as usize, size);
        assert(s@ =~= self.bytes@.skip(offset as int));
        Some(s)
    }

    pub fn extend(&mut self, bytes: &[u8])
        requires
            old(self).wf(),
            bytes@.len() <= old(self).capacity() - old(self).held().len(),
            old(self).from() + old(self).held().len() + bytes@.len() <= u64::MAX,
        ensures
            final(self).wf(),
            final(self).from() == old(self).from(),
            final(self).held() == old(self).held() + bytes@,
            final(self).capacity() == old(self).capacity(),
    {
        let ghost had = self.bytes@;
        self.bytes.extend_from_slice(bytes);
        assert(self.bytes@ =~= had + bytes@);
    }

    /// Forgets the held bytes because they were written.
    pub fn settle(&mut self)
        requires
            old(self).wf(),
        ensures
            final(self).wf(),
            final(self).from() == old(self).from() + old(self).held().len(),
            final(self).held() == Seq::<u8>::empty(),
            final(self).capacity() == old(self).capacity(),
    {
        self.start = self.start + self.bytes.len() as u64;
        self.bytes.clear();
    }

    /// Hands the held bytes to `write`. Only when it succeeds are they gone; an
    /// empty buffer writes nothing.
    pub fn flush<E, F: FnOnce(u64, &[u8]) -> Result<(), E>>(&mut self, write: F) -> (r: Result<
        (),
        E,
    >)
        requires
            old(self).wf(),
            forall|s: &[u8]|
                old(self).held().len() > 0 && s@ == old(self).held() ==> #[trigger] write.requires(
                    (old(self).from() as u64, s),
                ),
        ensures
            final(self).wf(),
            final(self).capacity() == old(self).capacity(),
            old(self).held().len() == 0 ==> r is Ok,
            old(self).held().len() > 0 ==> exists|s: &[u8]| #[trigger]
                write.ensures((old(self).from() as u64, s), r) && s@ == old(self).held(),
            r is Ok ==> final(self).from() == old(self).from() + old(self).held().len()
                && final(self).held() == Seq::<u8>::empty(),
            r is Err ==> final(self).from() == old(self).from() && final(self).held() == old(
                self,
            ).held(),
    {
        if self.bytes.is_empty() {
            assert(self.bytes@ =~= Seq::<u8>::empty());
            return Ok(());
        }
        let s: &[u8] = self.bytes.as_slice();
        let at: u64 = self.start;
        assert(at == old(self).from() as u64);
        assert(write.requires((old(self).from() as u64, s)));
        let r = write(at, s);
        assert(write.ensures((old(self).from() as u64, s), r));
        if r.is_ok() {
            self.settle();
        }
        r
    }

    /// Moves an empty buffer behind bytes that were written directly.
    pub fn advance_direct(&mut self, end: u64)
        requires
            old(self).wf(),
            old(self).held().len() == 0,
            end >= old(self).from(),
        ensures
            final(self).wf(),
            final(self).from() == end,
            final(self).held() == Seq::<u8>::empty(),
            final(self).capacity() == old(self).capacity(),
    {
        self.start = end;
        assert(self.bytes@ =~= Seq::<u8>::empty());
    }

    /// The held bytes.
    pub fn bytes(&self) -> (s: &[u8])
        ensures
            s@ == self.held(),
    {
        self.bytes.as_slice()
    }
}

} // verus!
