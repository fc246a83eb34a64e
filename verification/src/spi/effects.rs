//! What a store asks its surroundings to do, in order, and the synthetic
//! faults that can interrupt it.
use vstd::prelude::*;
use vstd::string::StringExecFns;

use super::arena::{extends, HEADER};
use super::model::{Error, Fail, Options, MAX_VALUE};

verus! {

/// The points between durable actions at which a run can be interrupted.
#[derive(Clone, Copy, PartialEq, Eq, Structural, Debug)]
pub enum Stage {
    RecordHeader,
    RecordPayload,
    AppendFlushHalf,
    AppendFlush,
    DataSync,
    CompactDataSync,
    ManifestWrite,
    ManifestSync,
    ManifestReplace,
    DirectorySync,
}

/// The name of a stage.
pub open spec fn stage_name(s: Stage) -> Seq<char> {
    match s {
        Stage::RecordHeader => "record_header"@,
        Stage::RecordPayload => "record_payload"@,
        Stage::AppendFlushHalf => "append_flush_half"@,
        Stage::AppendFlush => "append_flush"@,
        Stage::DataSync => "data_sync"@,
        Stage::CompactDataSync => "compact_data_sync"@,
        Stage::ManifestWrite => "manifest_write"@,
        Stage::ManifestSync => "manifest_sync"@,
        Stage::ManifestReplace => "manifest_replace"@,
        Stage::DirectorySync => "directory_sync"@,
    }
}

impl Stage {
    pub fn name(self) -> (s: &'static str)
        ensures
            s@ == stage_name(self),
    {
        match self {
            Stage::RecordHeader => "record_header",
            Stage::RecordPayload => "record_payload",
            Stage::AppendFlushHalf => "append_flush_half",
            Stage::AppendFlush => "append_flush",
            Stage::DataSync => "data_sync",
            Stage::CompactDataSync => "compact_data_sync",
            Stage::ManifestWrite => "manifest_write",
            Stage::ManifestSync => "manifest_sync",
            Stage::ManifestReplace => "manifest_replace",
            Stage::DirectorySync => "directory_sync",
        }
    }
}

/// One action on the files of a store.
#[derive(Debug)]
pub enum Step {
    /// Create the arena file of an epoch; it must not exist.
    Create { epoch: u64 },
    /// Write bytes into the arena file of an epoch.
    Write { epoch: u64, at: u64, bytes: Vec<u8> },
    /// Make the arena file of an epoch durable.
    Sync { epoch: u64 },
    /// Write the bytes of the pending manifest.
    Manifest { bytes: Vec<u8> },
    /// Make the pending manifest durable.
    SyncManifest,
    /// Put the pending manifest in the place of the current one.
    ReplaceManifest,
    /// Make the directory durable.
    SyncDirectory,
    /// Nothing to do; a run may be interrupted here.
    Reached(Stage),
}

/// `file` after `bytes` were written at `at`; a gap would be filled with zeros.
pub open spec fn write_over(file: Seq<u8>, at: int, bytes: Seq<u8>) -> Seq<u8> {
    let size = if at + bytes.len() > file.len() {
        at + bytes.len()
    } else {
        file.len() as int
    };
    Seq::new(
        size as nat,
        |i: int|
            if at <= i < at + bytes.len() {
                bytes[i - at]
            } else if i < file.len() {
                file[i]
            } else {
                0u8
            },
    )
}

/// The arena file of one epoch after steps were carried out.
pub open spec fn carried_out(file: Seq<u8>, id: u64, steps: Seq<Step>) -> Seq<u8>
    decreases steps.len(),
{
    if steps.len() == 0 {
        file
    } else {
        let earlier = carried_out(file, id, steps.drop_last());
        match steps.last() {
            Step::Write { epoch, at, bytes } => if epoch == id {
                write_over(earlier, at as int, bytes@)
            } else {
                earlier
            },
            _ => earlier,
        }
    }
}

/// A step that leaves both manifests and the set of arenas alone.
pub open spec fn data_step(s: Step) -> bool {
    !(s is Create) && !(s is Manifest) && !(s is ReplaceManifest)
}

/// The steps write `image[base..upto]` into the arena of `id`, from front to
/// back without a gap, and nothing else into any arena or manifest.
pub open spec fn covers(steps: Seq<Step>, id: u64, base: int, upto: int, image: Seq<u8>) -> bool
    decreases steps.len(),
{
    if steps.len() == 0 {
        upto == base
    } else {
        match steps.last() {
            Step::Write { epoch, at, bytes } => {
                &&& epoch == id
                &&& base <= at
                &&& at + bytes@.len() == upto
                &&& upto <= image.len()
                &&& bytes@ == image.subrange(at as int, upto)
                &&& covers(steps.drop_last(), id, base, at as int, image)
            },
            _ => data_step(steps.last()) && covers(steps.drop_last(), id, base, upto, image),
        }
    }
}

/// Steps that cover part of an arena cover it in every larger arena.
pub proof fn covers_grows(
    steps: Seq<Step>,
    id: u64,
    base: int,
    upto: int,
    image: Seq<u8>,
    larger: Seq<u8>,
)
    requires
        covers(steps, id, base, upto, image),
        extends(larger, image),
    ensures
        covers(steps, id, base, upto, larger),
    decreases steps.len(),
{
    if steps.len() > 0 {
        match steps.last() {
            Step::Write { epoch, at, bytes } => {
                assert(larger.subrange(at as int, upto) =~= image.subrange(at as int, upto));
                covers_grows(steps.drop_last(), id, base, at as int, image, larger);
            },
            _ => {
                covers_grows(steps.drop_last(), id, base, upto, image, larger);
            },
        }
    }
}

/// One more step.
pub proof fn covers_push(
    steps: Seq<Step>,
    step: Step,
    id: u64,
    base: int,
    upto: int,
    image: Seq<u8>,
)
    requires
        covers(steps, id, base, upto, image),
        base <= upto,
    ensures
        step matches Step::Write { epoch, at, bytes } ==> (epoch == id && at == upto && upto
            + bytes@.len() <= image.len() && bytes@ == image.subrange(upto, upto + bytes@.len())
            ==> covers(steps.push(step), id, base, upto + bytes@.len(), image)),
        !(step is Write) && data_step(step) ==> covers(
            steps.push(step),
            id,
            base,
            upto,
            image,
        ),
{
    assert(steps.push(step).drop_last() =~= steps);
}

/// Covering steps start at their base.
pub proof fn covers_from(steps: Seq<Step>, id: u64, base: int, upto: int, image: Seq<u8>)
    requires
        covers(steps, id, base, upto, image),
    ensures
        base <= upto,
    decreases steps.len(),
{
    if steps.len() > 0 {
        match steps.last() {
            Step::Write { epoch, at, bytes } => {
                covers_from(steps.drop_last(), id, base, at as int, image);
            },
            _ => {
                covers_from(steps.drop_last(), id, base, upto, image);
            },
        }
    }
}

/// Wherever a run stops, what was committed below `base` is still in the file;
/// where it completes, the file starts with the whole arena up to `upto`.
pub proof fn interrupted_run_keeps_committed(
    file: Seq<u8>,
    steps: Seq<Step>,
    done: int,
    id: u64,
    base: int,
    upto: int,
    image: Seq<u8>,
)
    requires
        covers(steps, id, base, upto, image),
        0 <= done <= steps.len(),
        0 <= base <= file.len(),
        base <= image.len(),
        file.take(base) == image.take(base),
    ensures
        carried_out(file, id, steps.take(done)).take(base) == image.take(base),
        carried_out(file, id, steps.take(done)).len() >= file.len(),
        done == steps.len() ==> upto <= image.len() && carried_out(file, id, steps).len() >= upto
            && carried_out(file, id, steps).take(upto) == image.take(upto),
    decreases steps.len(), done,
{
    covers_from(steps, id, base, upto, image);
    let now = steps.take(done);
    if done == 0 {
        if steps.len() == 0 {
            assert(steps =~= now);
        }
    } else if done < steps.len() {
        assert(steps.drop_last().take(done) =~= now);
        match steps.last() {
            Step::Write { epoch, at, bytes } => {
                interrupted_run_keeps_committed(
                    file,
                    steps.drop_last(),
                    done,
                    id,
                    base,
                    at as int,
                    image,
                );
            },
            _ => {
                interrupted_run_keeps_committed(
                    file,
                    steps.drop_last(),
                    done,
                    id,
                    base,
                    upto,
                    image,
                );
            },
        }
    } else {
        assert(now =~= steps);
        assert(steps.drop_last().take(done - 1) =~= steps.drop_last());
        match steps.last() {
            Step::Write { epoch, at, bytes } => {
                interrupted_run_keeps_committed(
                    file,
                    steps.drop_last(),
                    done - 1,
                    id,
                    base,
                    at as int,
                    image,
                );
                let earlier = carried_out(file, id, steps.drop_last());
                let later = carried_out(file, id, steps);
                assert(later.take(base) =~= image.take(base)) by {
                    assert forall|i: int| 0 <= i < base implies later[i] == image[i] by {
                        assert(earlier.take(base)[i] == image.take(base)[i]);
                    }
                }
                assert(later.take(upto) =~= image.take(upto)) by {
                    assert forall|i: int| 0 <= i < upto implies later[i] == image[i] by {
                        if i < at {
                            assert(earlier.take(at as int)[i] == image.take(at as int)[i]);
                        } else {
                            assert(bytes@[i - at] == image.subrange(at as int, upto)[i - at]);
                        }
                    }
                }
            },
            _ => {
                interrupted_run_keeps_committed(
                    file,
                    steps.drop_last(),
                    done - 1,
                    id,
                    base,
                    upto,
                    image,
                );
            },
        }
    }
}

/// How many stages steps reach.
pub open spec fn reached(steps: Seq<Step>) -> nat
    decreases steps.len(),
{
    if steps.len() == 0 {
        0
    } else {
        reached(steps.drop_last()) + if steps.last() is Reached {
            1nat
        } else {
            0nat
        }
    }
}

/// Whether steps end with the stage that is to fail, when `from` stages came before them.
#[verifier::opaque]
pub open spec fn struck(steps: Seq<Step>, target: Option<usize>, from: int) -> bool {
    &&& steps.len() > 0
    &&& steps.last() is Reached
    &&& target matches Some(t) && t == from + reached(steps)
}

/// Whether steps did not reach the stage that is to fail.
#[verifier::opaque]
pub open spec fn spared(steps: Seq<Step>, target: Option<usize>, from: int) -> bool {
    target matches Some(t) ==> t <= from || from + reached(steps) < t
}

/// The error of the synthetic fault at the end of steps.
#[verifier::opaque]
pub open spec fn injected(steps: Seq<Step>) -> Fail {
    Fail::Io("injected failure "@ + stage_name(steps.last()->Reached_0))
}

/// Steps that end with the stage that is to fail did reach it.
pub proof fn struck_or_spared(steps: Seq<Step>, target: Option<usize>, from: int)
    ensures
        !(struck(steps, target, from) && spared(steps, target, from)),
        target is None ==> spared(steps, target, from),
{
    reveal(struck);
    reveal(spared);
    if struck(steps, target, from) {
        assert(reached(steps) >= 1);
    }
}

/// Whether stages are counted right.
#[verifier::opaque]
pub open spec fn counted(steps: Seq<Step>, at: usize) -> bool {
    at == reached(steps)
}

pub proof fn reached_push(steps: Seq<Step>, s: Step)
    ensures
        reached(steps.push(s)) == reached(steps) + if s is Reached {
            1nat
        } else {
            0nat
        },
{
    assert(steps.push(s).drop_last() =~= steps);
}

/// No more stages are reached than there are steps.
pub proof fn reached_bound(steps: Seq<Step>)
    ensures
        reached(steps) <= steps.len(),
    decreases steps.len(),
{
    if steps.len() > 0 {
        reached_bound(steps.drop_last());
    }
}

/// Stages of two runs, one behind the other.
pub proof fn reached_joined(a: Seq<Step>, b: Seq<Step>)
    ensures
        reached(a + b) == reached(a) + reached(b),
    decreases b.len(),
{
    if b.len() == 0 {
        assert(a + b =~= a);
    } else {
        assert((a + b).drop_last() =~= a + b.drop_last());
        assert((a + b).last() == b.last());
        reached_joined(a, b.drop_last());
    }
}

/// A fault behind steps that it spared.
pub proof fn struck_behind(a: Seq<Step>, b: Seq<Step>, target: Option<usize>, from: int)
    ensures
        struck(b, target, from + reached(a)) ==> struck(a + b, target, from) && injected(a + b)
            == injected(b),
        spared(a, target, from) && spared(b, target, from + reached(a)) ==> spared(
            a + b,
            target,
            from,
        ),
{
    reveal(struck);
    reveal(spared);
    reveal(injected);
    reached_joined(a, b);
    if b.len() > 0 {
        assert((a + b).last() == b.last());
    }
}

/// Why an operation on sound contents fails: the synthetic fault is the last of its steps, or
/// an arena of this size has no room for a record.
pub open spec fn stopped(steps: Seq<Step>, target: Option<usize>, size: int, e: Fail) -> bool {
    ||| struck(steps, target, 0) && e == injected(steps)
    ||| size + HEADER + MAX_VALUE > u64::MAX && e == Fail::Budget("arena offset overflow"@)
}

/// A step that reaches no stage leaves the count and the fault as they are.
pub proof fn quiet_push(steps: Seq<Step>, s: Step, target: Option<usize>, from: int, at: usize)
    requires
        !(s is Reached),
    ensures
        spared(steps, target, from) ==> spared(steps.push(s), target, from),
        counted(steps, at) ==> counted(steps.push(s), at),
{
    reveal(spared);
    reveal(counted);
    reached_push(steps, s);
}

/// What a stage does to the count and the fault, where the steps can be counted.
pub proof fn stage_push(steps: Seq<Step>, stage: Stage, target: Option<usize>, at: usize)
    requires
        counted(steps, at),
        steps.len() + 1 <= usize::MAX,
    ensures
        at + 1 <= usize::MAX,
        counted(steps.push(Step::Reached(stage)), (at + 1) as usize),
        target == Some((at + 1) as usize) ==> struck(
            steps.push(Step::Reached(stage)),
            target,
            0,
        ) && injected(steps.push(Step::Reached(stage))) == Fail::Io(
            "injected failure "@ + stage_name(stage),
        ),
        target != Some((at + 1) as usize) && spared(steps, target, 0) ==> spared(
            steps.push(Step::Reached(stage)),
            target,
            0,
        ),
{
    reveal(struck);
    reveal(spared);
    reveal(counted);
    reveal(injected);
    reached_push(steps, Step::Reached(stage));
    reached_bound(steps);
}

/// A synthetic fault: the stage that is reached as the `target`-th one fails.
#[derive(Debug)]
pub struct Fault {
    pub target: Option<usize>,
    pub at: usize,
}

impl Fault {
    pub fn new(o: &Options) -> (f: Fault)
        ensures
            f.target == o.fail_at,
            f.at == 0,
    {
        Fault { target: o.fail_at, at: 0 }
    }

    pub fn hit(&mut self, stage: Stage) -> (r: Result<(), Error>)
        ensures
            final(self).target == old(self).target,
            final(self).at == old(self).at.wrapping_add(1),
            r is Err <==> old(self).target == Some(old(self).at.wrapping_add(1)),
            r matches Err(e) ==> e@ == Fail::Io("injected failure "@ + stage_name(stage)),
    {
        self.at = self.at.wrapping_add(1);
        let failing = match self.target {
            Some(t) => t == self.at,
            None => false,
        };
        if failing {
            return Err(Error::Io(String::from_str("injected failure ").concat(stage.name())));
        }
        Ok(())
    }
}

} // verus!
