//! The copy-on-write writer: appends records and rebuilds the index path.
use vstd::prelude::*;

use super::append_buffer::{AppendBuffer, APPEND_CAPACITY};
use super::arena::{
    append_record, extends, node_at, node_grows_tree, node_payload, read_back, read_node,
    read_record, record_bytes, record_spans, spans_to, tree_at, tree_root, tree_stable, Node, NodeView, HEADER, NODE,
};
use super::bytes::{copy, get32, le32};
use super::cache::{cost, CacheView, ItemView};
use super::effects::{
    counted, covers, covers_grows, covers_push, injected, quiet_push, spared, stage_push, stopped, struck,
    Fault, Stage, Step,
};
use super::epoch::{coherent_grows, Epoch};
use super::model::{budget, Error, Fail, Options, MAX_KEY, MAX_VALUE};
use super::tree::{join, Tree};

verus! {

broadcast use super::arena::tree_empty;

/// The cache after the nodes among the records from `pos` on were offered to it, in order.
pub open spec fn offered(c: CacheView, b: Seq<u8>, pos: int) -> CacheView
    decreases b.len() - pos,
{
    if b.len() - pos < 32 || le32(b, pos + 24) > b.len() - pos - 32 {
        c
    } else {
        offered(
            match node_at(b, b.len() as int, pos) {
                Ok(n) => c.insert(pos as u64, ItemView::Node(n)),
                Err(_) => c,
            },
            b,
            pos + 32 + le32(b, pos + 24),
        )
    }
}

/// A cache without room takes nothing.
proof fn none_offered(c: CacheView, b: Seq<u8>, pos: int)
    requires
        c.limit == 0,
    ensures
        offered(c, b, pos) == c,
    decreases b.len() - pos,
{
    if !(b.len() - pos < 32 || le32(b, pos + 24) > b.len() - pos - 32) {
        if let Ok(n) = node_at(b, b.len() as int, pos) {
            assert(cost(ItemView::Node(n)) > 0);
        }
        none_offered(c, b, pos + 32 + le32(b, pos + 24));
    }
}

/// Whether a step writes these bytes.
pub open spec fn wrote(step: Step, id: u64, from: int, content: Seq<u8>) -> bool {
    step matches Step::Write { epoch, at, bytes } && epoch == id && at == from && bytes@ == content
}

/// What a counter of written bytes does not count of an arena that is written up to here. As
/// every byte that is written is counted once, it stays the same.
#[verifier::opaque]
pub open spec fn uncounted(bytes_written: u64, flushed: u64) -> u64 {
    bytes_written.wrapping_sub(flushed)
}

/// Where the uncounted part is the same, the counter grew by what was written.
pub proof fn all_counted(before: u64, from: u64, after: u64, to: u64)
    requires
        uncounted(after, to) == uncounted(before, from),
        from <= to,
    ensures
        after == before.wrapping_add((to - from) as u64),
{
    reveal(uncounted);
}

/// The step at a place among those that write what is held back, in two halves.
pub open spec fn flush_step(step: Step, k: int, id: u64, from: int, image: Seq<u8>) -> bool {
    let half = from + (image.len() - from) / 2;
    &&& 0 <= k < 4
    &&& k == 0 ==> wrote(step, id, from, image.subrange(from, half))
    &&& k == 1 ==> step == Step::Reached(Stage::AppendFlushHalf)
    &&& k == 2 ==> wrote(step, id, half, image.skip(half))
    &&& k == 3 ==> step == Step::Reached(Stage::AppendFlush)
}

#[derive(Debug)]
pub struct ArenaWriter {
    pub epoch: Epoch,
    pub end: u64,
    pub generation: u64,
    pub fault: Fault,
    pub append: AppendBuffer,
    pub buffering: bool,
    pub steps: Vec<Step>,
    pub base: u64,
    pub flushed: u64,
}

impl ArenaWriter {
    /// The bytes of the arena, those that are not written yet included.
    pub open spec fn image(self) -> Seq<u8> {
        self.epoch.image@
    }

    /// The tree whose root stands at `at`.
    pub open spec fn tree(self, at: u64) -> Option<Tree> {
        tree_at(self.image(), self.end as int, at)
    }

    /// What holds of a writer even after one of its operations failed: the
    /// arena is readable, and the steps write a stretch of it from `base` on.
    pub open spec fn live(self) -> bool {
        &&& self.epoch.wf()
        &&& self.base <= self.flushed <= self.image().len()
        &&& self.end <= self.image().len()
        &&& covers(
            self.steps@,
            self.epoch.id,
            self.base as int,
            self.flushed as int,
            self.image(),
        )
        &&& counted(self.steps@, self.fault.at)
    }

    pub open spec fn wf(self) -> bool {
        &&& self.live()
        &&& spared(self.steps@, self.fault.target, 0)
        &&& 8 <= self.end
        &&& self.image().len() == self.end
        &&& self.append.wf()
        &&& self.append.from() == self.flushed
        &&& self.append.held() == self.image().skip(self.flushed as int)
        &&& self.buffering ==> self.append.capacity() == APPEND_CAPACITY
    }

    /// The arena only grew, and nothing else about the writer changed.
    pub open spec fn grew_from(self, before: ArenaWriter) -> bool {
        &&& extends(self.image(), before.image())
        &&& before.end <= self.end
        &&& self.generation == before.generation
        &&& self.fault.target == before.fault.target
        &&& self.buffering == before.buffering
        &&& self.base == before.base
        &&& self.epoch.id == before.epoch.id
        &&& self.epoch.cache.limit == before.epoch.cache.limit
        &&& self.epoch.value_cache_enabled == before.epoch.value_cache_enabled
        &&& uncounted(self.epoch.bytes_written, self.flushed) == uncounted(
            before.epoch.bytes_written,
            before.flushed,
        )
    }

    /// The steps that came since.
    pub open spec fn since(self, before: ArenaWriter) -> Seq<Step> {
        self.steps@.skip(before.steps@.len() as int)
    }

    /// How many steps write what is held back.
    pub open spec fn flush_count(self) -> int {
        if self.flushed == self.end {
            0
        } else {
            4
        }
    }

    /// Whether a record of this size is held back rather than written at once.
    pub open spec fn holds_back(self, total: int) -> bool {
        self.buffering && total <= APPEND_CAPACITY
    }

    /// How many steps write what is held back before a record of this size comes: all that is
    /// held, unless the record is held back too and there is room for it.
    pub open spec fn spill_count(self, total: int) -> int {
        if self.holds_back(total) && total <= self.append.capacity() - self.append.held().len() {
            0
        } else {
            self.flush_count()
        }
    }

    /// How many steps append a record of this size.
    pub open spec fn record_count(self, total: int) -> int {
        self.spill_count(total) + if self.holds_back(total) {
            2int
        } else {
            4
        }
    }

    /// The step at a place among those that append a record.
    pub open spec fn record_step(self, step: Step, k: int, bytes: Seq<u8>) -> bool {
        let n = self.spill_count(bytes.len() as int);
        if k < n {
            flush_step(step, k, self.epoch.id, self.flushed as int, self.image())
        } else if self.holds_back(bytes.len() as int) {
            &&& k == n ==> step == Step::Reached(Stage::RecordHeader)
            &&& k == n + 1 ==> step == Step::Reached(Stage::RecordPayload)
        } else {
            &&& k == n ==> wrote(step, self.epoch.id, self.end as int, bytes.take(32))
            &&& k == n + 1 ==> step == Step::Reached(Stage::RecordHeader)
            &&& k == n + 2 ==> wrote(step, self.epoch.id, self.end + 32, bytes.skip(32))
            &&& k == n + 3 ==> step == Step::Reached(Stage::RecordPayload)
        }
    }

    /// An operation on a sound arena fails only for a synthetic fault, in the last step, or
    /// when the arena runs out of offsets.
    pub open spec fn may_fail(self, e: Fail) -> bool {
        stopped(self.steps@, self.fault.target, self.end as int, e)
    }

    pub fn new(epoch: Epoch, end: u64, generation: u64, options: &Options) -> (w: ArenaWriter)
        requires
            epoch.wf(),
            epoch.image@.len() == end,
            end >= 8,
        ensures
            w.wf(),
            w.epoch == epoch,
            w.end == end,
            w.generation == generation,
            w.fault.target == options.fail_at,
            w.fault.at == 0,
            w.buffering == options.append_buffer,
            w.base == end,
            w.flushed == end,
            w.steps@.len() == 0,
    {
        let w = ArenaWriter {
            epoch,
            end,
            generation,
            fault: Fault::new(options),
            append: AppendBuffer::new(end, options.append_buffer),
            buffering: options.append_buffer,
            steps: Vec::new(),
            base: end,
            flushed: end,
        };
        assert(w.append.held() =~= w.image().skip(end as int));
        reveal(counted);
        reveal(spared);
        w
    }

    /// Notes that a stage was reached, and fails if the synthetic fault is here.
    pub fn reach(&mut self, stage: Stage) -> (r: Result<(), Error>)
        requires
            old(self).live(),
        ensures
            final(self).live(),
            final(self).grew_from(*old(self)),
            final(self).epoch == old(self).epoch,
            final(self).end == old(self).end,
            final(self).append == old(self).append,
            final(self).flushed == old(self).flushed,
            final(self).fault.at == old(self).fault.at.wrapping_add(1),
            final(self).steps@ == old(self).steps@.push(Step::Reached(stage)),
            r matches Err(e) ==> struck(final(self).steps@, final(self).fault.target, 0) && e@
                == injected(final(self).steps@),
            r is Ok && spared(old(self).steps@, old(self).fault.target, 0) ==> spared(
                final(self).steps@,
                final(self).fault.target,
                0,
            ),
    {
        let ghost (was, at) = (self.steps@, self.fault.at);
        proof {
            covers_push(
                self.steps@,
                Step::Reached(stage),
                self.epoch.id,
                self.base as int,
                self.flushed as int,
                self.image(),
            );
        }
        self.steps.push(Step::Reached(stage));
        let _n: usize = self.steps.len();
        proof {
            stage_push(was, stage, self.fault.target, at);
        }
        self.fault.hit(stage)
    }

    /// Asks for `image[flushed..to]` to be written.
    fn write_to(&mut self, to: u64)
        requires
            old(self).live(),
            old(self).flushed <= to <= old(self).image().len(),
        ensures
            final(self).live(),
            final(self).grew_from(*old(self)),
            final(self).image() == old(self).image(),
            final(self).end == old(self).end,
            final(self).append == old(self).append,
            final(self).fault == old(self).fault,
            spared(old(self).steps@, old(self).fault.target, 0) ==> spared(
                final(self).steps@,
                final(self).fault.target,
                0,
            ),
            final(self).flushed == to,
            final(self).steps@.len() == old(self).steps@.len() + 1,
            final(self).steps@.drop_last() == old(self).steps@,
            wrote(
                final(self).steps@.last(),
                old(self).epoch.id,
                old(self).flushed as int,
                old(self).image().subrange(old(self).flushed as int, to as int),
            ),
            final(self).epoch.cache == old(self).epoch.cache,
            final(self).epoch.bytes_written == old(self).epoch.bytes_written.wrapping_add(
                (to - old(self).flushed) as u64,
            ),
    {
        let size: usize = self.epoch.image.len();
        let from: usize = self.flushed as usize;
        let part: &[u8] = vstd::slice::slice_subrange(
            self.epoch.image.as_slice(),
            from,
            to as usize,
        );
        let bytes = copy(part);
        let step = Step::Write { epoch: self.epoch.id, at: self.flushed, bytes };
        proof {
            covers_push(
                self.steps@,
                step,
                self.epoch.id,
                self.base as int,
                self.flushed as int,
                self.image(),
            );
            quiet_push(self.steps@, step, self.fault.target, 0, self.fault.at);
        }
        let ghost was = self.steps@;
        self.steps.push(step);
        assert(self.steps@.drop_last() =~= was);
        proof {
            reveal(uncounted);
        }
        self.epoch.bytes_written = self.epoch.bytes_written.wrapping_add(to - self.flushed);
        self.flushed = to;
    }

    /// Writes what the append buffer holds, in two halves.
    pub fn flush_append(&mut self) -> (r: Result<(), Error>)
        requires
            old(self).wf(),
        ensures
            final(self).live(),
            final(self).grew_from(*old(self)),
            final(self).image() == old(self).image(),
            final(self).end == old(self).end,
            r is Ok ==> final(self).wf() && final(self).flushed == final(self).end,
            final(self).steps@.len() >= old(self).steps@.len(),
            final(self).steps@.take(old(self).steps@.len() as int) == old(self).steps@,
            forall|k: int|
                0 <= k < final(self).since(*old(self)).len() ==> flush_step(
                    #[trigger] final(self).since(*old(self))[k],
                    k,
                    old(self).epoch.id,
                    old(self).flushed as int,
                    old(self).image(),
                ),
            r is Ok ==> final(self).since(*old(self)).len() == old(self).flush_count(),
            r is Err ==> final(self).since(*old(self)).len() <= old(self).flush_count(),
            r is Ok ==> final(self).append.capacity() == old(self).append.capacity(),
            r is Ok ==> final(self).epoch.cache@ == offered(
                old(self).epoch.cache@,
                old(self).image(),
                old(self).flushed as int,
            ),
            r matches Err(e) ==> final(self).may_fail(e@),
    {
        let from: u64 = self.flushed;
        let held: usize = self.append.bytes().len();
        assert(self.flushed + held == self.end);
        if held == 0 {
            return Ok(());
        }
        let half: u64 = (held / 2) as u64;
        let ghost s0 = *self;
        // Exercise a genuine partial buffered transfer.
        self.write_to(from + half);
        proof {
            steps_pushed(s0.steps@, s0.steps@, self.steps@);
        }
        let ghost s1 = *self;
        let first = self.reach(Stage::AppendFlushHalf);
        proof {
            steps_pushed(s0.steps@, s1.steps@, self.steps@);
        }
        first?;
        let ghost s2 = *self;
        self.write_to(self.end);
        proof {
            steps_pushed(s0.steps@, s2.steps@, self.steps@);
            assert(s0.image().subrange(from + half, s0.end as int) =~= s0.image().skip(from + half));
        }
        let ghost s3 = *self;
        let second = self.reach(Stage::AppendFlush);
        proof {
            steps_pushed(s0.steps@, s3.steps@, self.steps@);
        }
        second?;
        self.append.settle();
        assert(self.append.held() =~= self.image().skip(self.flushed as int));
        self.keep_nodes(from);
        Ok(())
    }

    /// Offers the nodes behind `from` to the cache, now that they are written.
    fn keep_nodes(&mut self, from: u64)
        requires
            old(self).wf(),
            from <= old(self).end,
        ensures
            final(self).wf(),
            final(self).grew_from(*old(self)),
            final(self).image() == old(self).image(),
            final(self).end == old(self).end,
            final(self).flushed == old(self).flushed,
            final(self).fault == old(self).fault,
            final(self).append == old(self).append,
            final(self).steps == old(self).steps,
            final(self).epoch.same_arena(old(self).epoch),
            final(self).epoch.reads == old(self).epoch.reads,
            final(self).epoch.cache@ == offered(
                old(self).epoch.cache@,
                old(self).image(),
                from as int,
            ),
    {
        if self.epoch.cache.limit == 0 {
            proof {
                none_offered(self.epoch.cache@, self.image(), from as int);
            }
            return;
        }
        let ghost start = *self;
        let size: usize = self.epoch.image.len();
        let mut pos: usize = from as usize;
        while pos < size && size - pos >= 32
            invariant
                start == *old(self),
                self.wf(),
                self.grew_from(start),
                self.image() == start.image(),
                self.end == start.end,
                self.flushed == start.flushed,
                self.fault == start.fault,
                self.append == start.append,
                self.steps == start.steps,
                self.epoch.same_arena(start.epoch),
                self.epoch.reads == start.epoch.reads,
                offered(self.epoch.cache@, start.image(), pos as int) == offered(
                    start.epoch.cache@,
                    start.image(),
                    from as int,
                ),
                size == self.image().len(),
                pos <= size,
            decreases size - pos,
        {
            let len: u32 = get32(self.epoch.image.as_slice(), pos + 24);
            if len as u64 > (size - pos - 32) as u64 {
                return;
            }
            let ghost c = self.epoch.cache@;
            if self.epoch.image[pos + 8] == NODE {
                let found = read_node(&self.epoch.image, pos as u64, self.end);
                if let Ok(n) = found {
                    self.epoch.keep_node(pos as u64, n);
                }
            } else {
                assert(node_at(self.image(), size as int, pos as int) is Err) by {
                    reveal(read_record);
                }
            }
            assert(self.epoch.cache@ == match node_at(self.image(), size as int, pos as int) {
                Ok(n) => c.insert(pos as u64, ItemView::Node(n)),
                Err(_) => c,
            });
            assert(offered(c, self.image(), pos as int) == offered(
                self.epoch.cache@,
                self.image(),
                pos + 32 + len,
            ));
            pos = pos + 32 + len as usize;
        }
    }

    #[verifier::rlimit(60)]
    /// Appends one record and returns its offset.
    pub fn record(&mut self, kind: u8, payload: &[u8]) -> (r: Result<u64, Error>)
        requires
            old(self).wf(),
            payload@.len() <= MAX_VALUE,
        ensures
            final(self).live(),
            final(self).grew_from(*old(self)),
            final(self).steps@.len() >= old(self).steps@.len(),
            final(self).steps@.take(old(self).steps@.len() as int) == old(self).steps@,
            forall|k: int|
                0 <= k < final(self).since(*old(self)).len() ==> old(self).record_step(
                    #[trigger] final(self).since(*old(self))[k],
                    k,
                    record_bytes(kind, old(self).generation as int, payload@),
                ),
            r is Ok ==> final(self).since(*old(self)).len() == old(self).record_count(
                HEADER + payload@.len(),
            ),
            r is Err ==> final(self).since(*old(self)).len() <= old(self).record_count(
                HEADER + payload@.len(),
            ),
            r is Ok ==> final(self).flushed == if !old(self).holds_back(HEADER + payload@.len()) {
                final(self).end
            } else if old(self).spill_count(HEADER + payload@.len()) > 0 {
                old(self).end
            } else {
                old(self).flushed
            },
            r matches Ok(at) ==> {
                &&& final(self).wf()
                &&& at == old(self).end
                &&& final(self).image() == old(self).image() + record_bytes(
                    kind,
                    old(self).generation as int,
                    payload@,
                )
            },
            r matches Err(e) ==> final(self).may_fail(e@),
    {
        let total: usize = HEADER + payload.len();
        if self.end > u64::MAX - total as u64 {
            return Err(budget("arena offset overflow"));
        }
        let ghost s0 = *self;
        let ghost bytes = record_bytes(kind, self.generation as int, payload@);
        proof {
            assert(bytes.len() == total) by {
                broadcast use super::bytes::group_encoding;

            }
            assert(self.since(s0) =~= Seq::empty());
            assert(self.steps@.take(self.steps@.len() as int) =~= self.steps@);
            assert(self.append.held().len() == self.end - self.flushed);
        }
        if self.buffering && total <= APPEND_CAPACITY {
            if self.append.remaining() < total {
                self.flush_append()?;
                assert(self.append.held() =~= Seq::<u8>::empty());
            }
            let at: u64 = self.end;
            let end: u64 = at + total as u64;
            let ghost mid = *self;
            self.grow(kind, payload);
            let ghost image = self.image();
            let size: usize = self.epoch.image.len();
            let p: usize = at as usize;
            let head: &[u8] = vstd::slice::slice_subrange(
                self.epoch.image.as_slice(),
                p,
                p + HEADER,
            );
            self.append.extend(head);
            let first = self.reach(Stage::RecordHeader);
            proof {
                steps_pushed(s0.steps@, mid.steps@, self.steps@);
            }
            first?;
            let ghost s1 = *self;
            self.append.extend(payload);
            let second = self.reach(Stage::RecordPayload);
            proof {
                steps_pushed(s0.steps@, s1.steps@, self.steps@);
            }
            second?;
            self.end = end;
            proof {
                let from = self.flushed as int;
                assert(image.skip(at as int) =~= head@ + image.skip(at + HEADER));
                assert(image.skip(from) =~= mid.image().skip(from) + image.skip(at as int));
                assert(mid.append.held() + head@ + payload@ =~= image.skip(from));
            }
            Ok(at)
        } else {
            self.flush_append()?;
            assert(self.append.held() =~= Seq::<u8>::empty());
            let at: u64 = self.end;
            let end: u64 = at + total as u64;
            let ghost mid = *self;
            self.grow(kind, payload);
            let ghost image = self.image();
            self.write_to(at + HEADER as u64);
            proof {
                steps_pushed(s0.steps@, mid.steps@, self.steps@);
                assert(image.subrange(at as int, at + HEADER) =~= bytes.take(32));
                assert(image.subrange(at + HEADER, end as int) =~= bytes.skip(32));
            }
            let ghost s1 = *self;
            let first = self.reach(Stage::RecordHeader);
            proof {
                steps_pushed(s0.steps@, s1.steps@, self.steps@);
            }
            first?;
            let ghost s2 = *self;
            self.write_to(end);
            proof {
                steps_pushed(s0.steps@, s2.steps@, self.steps@);
            }
            let ghost s3 = *self;
            let second = self.reach(Stage::RecordPayload);
            proof {
                steps_pushed(s0.steps@, s3.steps@, self.steps@);
            }
            second?;
            self.end = end;
            self.append.advance_direct(end);
            assert(self.append.held() =~= self.image().skip(self.flushed as int));
            Ok(at)
        }
    }

    /// Adds a record to the arena.
    fn grow(&mut self, kind: u8, payload: &[u8])
        requires
            old(self).wf(),
            payload@.len() <= MAX_VALUE,
        ensures
            final(self).live(),
            final(self).grew_from(*old(self)),
            final(self).image() == old(self).image() + record_bytes(
                kind,
                old(self).generation as int,
                payload@,
            ),
            final(self).image().len() == old(self).image().len() + HEADER + payload@.len(),
            final(self).image().skip(old(self).end + HEADER) == payload@,
            final(self).end == old(self).end,
            final(self).append == old(self).append,
            final(self).flushed == old(self).flushed,
            final(self).fault == old(self).fault,
            final(self).steps == old(self).steps,
    {
        let ghost before = self.image();
        append_record(&mut self.epoch.image, kind, self.generation, payload);
        proof {
            let after = self.image();
            assert(extends(after, before));
            coherent_grows(before, after, self.epoch.cache@);
            covers_grows(
                self.steps@,
                self.epoch.id,
                self.base as int,
                self.flushed as int,
                before,
                after,
            );
            let head = super::arena::header(
                kind,
                self.generation as int,
                payload@.len() as int,
                super::bytes::crc32(
                    super::arena::header(kind, self.generation as int, payload@.len() as int, 0)
                        + payload@,
                ) as int,
            );
            broadcast use super::bytes::group_encoding;

            assert(head.len() == 32);
            assert(after.skip(before.len() + HEADER) =~= payload@);
        }
    }

    /// The node at `at`. Nodes that are not written yet stay out of the cache.
    pub fn node(&mut self, at: u64) -> (r: Result<Node, Error>)
        requires
            old(self).wf(),
        ensures
            final(self).wf(),
            final(self).grew_from(*old(self)),
            final(self).image() == old(self).image(),
            final(self).end == old(self).end,
            r matches Ok(n) ==> node_at(final(self).image(), final(self).end as int, at as int)
                == Ok::<NodeView, Fail>(n@),
            r matches Err(e) ==> node_at(final(self).image(), final(self).end as int, at as int)
                == Err::<NodeView, Fail>(e@),
    {
        let held = self.append.pending(at).is_some();
        if held {
            read_node(&self.epoch.image, at, self.end)
        } else {
            self.epoch.node(at, self.end)
        }
    }

    pub fn height(&mut self, at: u64) -> (r: Result<u32, Error>)
        requires
            old(self).wf(),
        ensures
            final(self).wf(),
            final(self).grew_from(*old(self)),
            final(self).image() == old(self).image(),
            final(self).end == old(self).end,
            r matches Ok(h) ==> h <= 128,
            old(self).tree(at) matches Some(t) ==> (r matches Ok(h) && h == t.height()),
    {
        if at == 0 {
            Ok(0)
        } else {
            proof {
                if self.tree(at) is Some {
                    tree_root(self.image(), self.end as int, at);
                }
            }
            let n = self.node(at)?;
            Ok(n.height)
        }
    }

    /// Appends a node with the height that its children call for.
    pub fn save(&mut self, n: Node) -> (r: Result<u64, Error>)
        requires
            old(self).wf(),
            n.key@.len() <= MAX_KEY,
        ensures
            final(self).live(),
            final(self).grew_from(*old(self)),
            r matches Ok(at) ==> {
                &&& final(self).wf()
                &&& at == old(self).end
                &&& final(self).end == at + 72 + n.key@.len()
                &&& spans_to(final(self).image(), at as int, final(self).end as int)
            },
            old(self).tree(n.left) matches Some(l) ==> (old(self).tree(n.right) matches Some(t)
                ==> (8 <= n.value < old(self).end && l.height() < 128 && t.height() < 128 ==> {
                &&& r matches Ok(at) ==> {
                    &&& final(self).tree(at) == Some(join(n.key@, (n.value, n.revision), l, t))
                    &&& node_at(final(self).image(), final(self).end as int, at as int) matches Ok(
                        m,
                    ) && m.left == n.left && m.right == n.right && m.value == n.value
                }
                &&& r matches Err(e) ==> final(self).may_fail(e@)
            })),
    {
        let ghost start = *self;
        let hl: u32 = self.height(n.left)?;
        let hr: u32 = self.height(n.right)?;
        let height: u32 = if hl > hr {
            1 + hl
        } else {
            1 + hr
        };
        let m = Node {
            left: n.left,
            right: n.right,
            value: n.value,
            revision: n.revision,
            height,
            key: n.key,
        };
        let p = node_payload(&m);
        proof {
            broadcast use super::bytes::group_encoding;

            assert(p@.len() == 40 + m.key@.len());
            if start.tree(n.left) is Some && start.tree(n.right) is Some && 8 <= n.value < start.end
                && start.tree(n.left)->0.height() < 128 && start.tree(n.right)->0.height() < 128 {
                if n.left != 0 {
                    tree_root(start.image(), start.end as int, n.left);
                }
                if n.right != 0 {
                    tree_root(start.image(), start.end as int, n.right);
                }
                node_grows_tree(start.image(), self.generation as int, m@);
            }
        }
        proof {
            read_back(self.image(), NODE, self.generation as int, p@);
        }
        let at = self.record(NODE, p.as_slice())?;
        proof {
            record_spans(self.image(), self.end as int, at as int, NODE);
        }
        if at < self.append.start() {
            let found = read_node(&self.epoch.image, at, self.end);
            if let Ok(kept) = found {
                self.epoch.keep_node(at, kept);
            }
        }
        Ok(at)
    }
}

/// One more step behind others.
proof fn steps_pushed(start: Seq<Step>, was: Seq<Step>, now: Seq<Step>)
    requires
        start.len() <= was.len(),
        was.take(start.len() as int) =~= start,
        now.len() == was.len() + 1,
        now.drop_last() =~= was,
    ensures
        now.take(start.len() as int) == start,
        now.skip(start.len() as int) == was.skip(start.len() as int).push(now.last()),
{
    let n = start.len() as int;
    assert forall|i: int| 0 <= i < was.len() implies now[i] == was[i] by {
        assert(now.drop_last()[i] == now[i]);
    }
    assert(now.take(n) =~= was.take(n));
    assert(now.skip(n) =~= was.skip(n).push(now.last()));
}

/// A readable tree stays what it is while the writer goes on.
pub proof fn moved(a: ArenaWriter, b: ArenaWriter, at: u64)
    requires
        b.grew_from(a),
        a.tree(at) is Some,
    ensures
        b.tree(at) == a.tree(at),
{
    tree_stable(a.image(), b.image(), a.end as int, b.end as int, at);
}

} // verus!
