//! Publishing a version, and what a run leaves on disk wherever it stops.
use vstd::prelude::*;

use super::effects::{
    carried_out, covers, injected, interrupted_run_keeps_committed, reached, reached_push, spared,
    struck, write_over, Fault, Stage, Step,
};
use super::manifest::{encode_manifest, manifest_bytes};
use super::model::{Error, Root};

verus! {

/// The files of a store: its arenas, its manifest and the manifest to come.
pub struct Disk {
    pub arenas: Map<u64, Seq<u8>>,
    pub manifest: Seq<u8>,
    pub pending: Seq<u8>,
}

impl Disk {
    /// The files after one more step.
    pub open spec fn step(self, s: Step) -> Disk {
        match s {
            Step::Create { epoch } => Disk {
                arenas: self.arenas.insert(epoch, Seq::empty()),
                ..self
            },
            Step::Write { epoch, at, bytes } => Disk {
                arenas: self.arenas.insert(
                    epoch,
                    write_over(self.arenas[epoch], at as int, bytes@),
                ),
                ..self
            },
            Step::Manifest { bytes } => Disk { pending: bytes@, ..self },
            Step::ReplaceManifest => Disk { manifest: self.pending, ..self },
            _ => self,
        }
    }

    /// The files after steps were carried out in order.
    pub open spec fn after(self, steps: Seq<Step>) -> Disk
        decreases steps.len(),
    {
        if steps.len() == 0 {
            self
        } else {
            self.after(steps.drop_last()).step(steps.last())
        }
    }
}

/// The steps that publish a manifest, by their place.
pub open spec fn publishes(s: Step, place: int, meta: Seq<u8>) -> bool {
    if place == 0 {
        s matches Step::Manifest { bytes } && bytes@ == meta
    } else if place == 1 {
        s == Step::Reached(Stage::ManifestWrite)
    } else if place == 2 {
        s == Step::SyncManifest
    } else if place == 3 {
        s == Step::Reached(Stage::ManifestSync)
    } else if place == 4 {
        s == Step::ReplaceManifest
    } else if place == 5 {
        s == Step::Reached(Stage::ManifestReplace)
    } else if place == 6 {
        s == Step::SyncDirectory
    } else if place == 7 {
        s == Step::Reached(Stage::DirectorySync)
    } else {
        false
    }
}

/// Steps of a run that writes `image` behind `base` into the arena of `id`, and
/// then publishes: the first `n` steps write data, all of it up to `upto`. Only
/// when all of `image` is written and made durable does the publication begin.
pub open spec fn orderly(
    steps: Seq<Step>,
    n: int,
    id: u64,
    base: int,
    upto: int,
    image: Seq<u8>,
    meta: Seq<u8>,
) -> bool {
    &&& 0 <= n <= steps.len()
    &&& covers(steps.take(n), id, base, upto, image)
    &&& forall|k: int| n <= k < steps.len() ==> publishes(#[trigger] steps[k], k - n, meta)
    &&& n < steps.len() ==> upto == image.len() && synced(steps.take(n), id)
}

/// Whether the arena of `id` is made durable behind the last write.
pub open spec fn synced(steps: Seq<Step>, id: u64) -> bool {
    exists|s: int|
        0 <= s < steps.len() && #[trigger] steps[s] == (Step::Sync { epoch: id })
            && no_writes_behind(steps, s)
}

pub open spec fn no_writes_behind(steps: Seq<Step>, s: int) -> bool {
    forall|k: int| s < k < steps.len() ==> !((#[trigger] steps[k]) is Write)
}

/// Whether the directory is made durable behind the last file that is created or written.
pub open spec fn entered(steps: Seq<Step>) -> bool {
    exists|s: int|
        0 <= s < steps.len() && #[trigger] steps[s] == Step::SyncDirectory && nothing_new_behind(
            steps,
            s,
        )
}

pub open spec fn nothing_new_behind(steps: Seq<Step>, s: int) -> bool {
    forall|k: int|
        s < k < steps.len() ==> !((#[trigger] steps[k]) is Write) && !(steps[k] is Create)
}

/// Data steps leave both manifests alone, and act on the arena of `id` as they
/// act on its file.
pub proof fn data_steps(d: Disk, steps: Seq<Step>, id: u64, base: int, upto: int, image: Seq<u8>)
    requires
        covers(steps, id, base, upto, image),
    ensures
        d.after(steps).manifest == d.manifest,
        d.after(steps).pending == d.pending,
        d.after(steps).arenas[id] == carried_out(d.arenas[id], id, steps),
        forall|other: u64|
            other != id ==> #[trigger] d.after(steps).arenas[other] == d.arenas[other],
    decreases steps.len(),
{
    if steps.len() > 0 {
        let init = steps.drop_last();
        match steps.last() {
            Step::Write { epoch, at, bytes } => {
                data_steps(d, init, id, base, at as int, image);
            },
            _ => {
                data_steps(d, init, id, base, upto, image);
            },
        }
    }
}

/// Any prefix of covering steps covers, up to somewhere.
pub proof fn covers_prefix(
    steps: Seq<Step>,
    done: int,
    id: u64,
    base: int,
    upto: int,
    image: Seq<u8>,
) -> (at: int)
    requires
        covers(steps, id, base, upto, image),
        0 <= done <= steps.len(),
    ensures
        covers(steps.take(done), id, base, at, image),
        done == steps.len() ==> at == upto,
    decreases steps.len(),
{
    if done == steps.len() {
        assert(steps.take(done) =~= steps);
        upto
    } else {
        assert(steps.drop_last().take(done) =~= steps.take(done));
        match steps.last() {
            Step::Write { epoch, at, bytes } => {
                covers_prefix(steps.drop_last(), done, id, base, at as int, image)
            },
            _ => { covers_prefix(steps.drop_last(), done, id, base, upto, image) },
        }
    }
}

/// Publishing steps touch no arena, and put the manifest in place with the
/// fifth of them.
pub proof fn publishing_steps(d: Disk, steps: Seq<Step>, meta: Seq<u8>)
    requires
        forall|k: int| 0 <= k < steps.len() ==> publishes(#[trigger] steps[k], k, meta),
    ensures
        d.after(steps).arenas == d.arenas,
        steps.len() > 0 ==> d.after(steps).pending == meta,
        steps.len() <= 4 ==> d.after(steps).manifest == d.manifest,
        steps.len() > 4 ==> d.after(steps).manifest == meta,
    decreases steps.len(),
{
    if steps.len() > 0 {
        let init = steps.drop_last();
        let n = steps.len() - 1;
        assert forall|k: int| 0 <= k < init.len() implies publishes(#[trigger] init[k], k, meta) by {
            assert(init[k] == steps[k]);
        }
        assert(publishes(steps[n], n, meta));
        assert(steps[n] == steps.last());
        publishing_steps(d, init, meta);
    }
}

/// Steps carried out in two parts.
pub proof fn after_splits(d: Disk, a: Seq<Step>, b: Seq<Step>)
    ensures
        d.after(a + b) == d.after(a).after(b),
    decreases b.len(),
{
    if b.len() == 0 {
        assert(a + b =~= a);
    } else {
        assert((a + b).drop_last() =~= a + b.drop_last());
        assert((a + b).last() == b.last());
        after_splits(d, a, b.drop_last());
    }
}

/// Wherever a run stops, the disk names either the version before it or the
/// version that it publishes, and holds the whole arena of the version named:
/// never a mixture.
pub proof fn interrupted_run_is_old_or_new(
    d: Disk,
    steps: Seq<Step>,
    n: int,
    done: int,
    id: u64,
    base: int,
    upto: int,
    image: Seq<u8>,
    meta: Seq<u8>,
)
    requires
        orderly(steps, n, id, base, upto, image, meta),
        0 <= done <= steps.len(),
        0 <= base <= d.arenas[id].len(),
        base <= image.len(),
        d.arenas[id].take(base) == image.take(base),
    ensures
        ({
            let x = d.after(steps.take(done));
            &&& x.arenas[id].len() >= base
            &&& x.arenas[id].take(base) == image.take(base)
            &&& forall|other: u64| other != id ==> #[trigger] x.arenas[other] == d.arenas[other]
            &&& done <= n + 4 ==> x.manifest == d.manifest
            &&& done > n + 4 ==> {
                &&& x.manifest == meta
                &&& x.arenas[id].len() >= image.len()
                &&& x.arenas[id].take(image.len() as int) == image
            }
        }),
{
    let now = steps.take(done);
    let head = if done <= n {
        done
    } else {
        n
    };
    let data = steps.take(head);
    let tail = steps.subrange(head, done);
    assert(now =~= data + tail);
    after_splits(d, data, tail);
    assert(steps.take(n).take(head) =~= data);
    let at = covers_prefix(steps.take(n), head, id, base, upto, image);
    data_steps(d, data, id, base, at, image);
    interrupted_run_keeps_committed(
        d.arenas[id],
        data,
        data.len() as int,
        id,
        base,
        at,
        image,
    );
    assert(data.take(data.len() as int) =~= data);
    let mid = d.after(data);
    assert forall|k: int| 0 <= k < tail.len() implies publishes(#[trigger] tail[k], k, meta) by {
        assert(tail[k] == steps[head + k]);
    }
    publishing_steps(mid, tail, meta);
    if done > n {
        assert(image.take(image.len() as int) =~= image);
    }
}

/// An action and its stage behind a run.
proof fn one_more_stage(start: Seq<Step>, had: Seq<Step>, now: Seq<Step>)
    requires
        start.len() <= had.len(),
        now.len() == had.len() + 2,
        now.take(had.len() as int) == had,
        had.take(start.len() as int) == start,
        !(now[had.len() as int] is Reached),
        now.last() is Reached,
    ensures
        now.take(start.len() as int) == start,
        now.skip(start.len() as int).len() > 0,
        now.skip(start.len() as int).last() == now.last(),
        reached(now.skip(start.len() as int)) == reached(had.skip(start.len() as int)) + 1,
{
    let n = start.len() as int;
    let (a, b) = (now[had.len() as int], now.last());
    let run = had.skip(n);
    assert(now.take(n) =~= had.take(n));
    assert(now =~= had.push(a).push(b)) by {
        assert forall|i: int| 0 <= i < had.len() implies now[i] == had[i] by {
            assert(now.take(had.len() as int)[i] == had[i]);
        }
    }
    assert(now.skip(n) =~= run.push(a).push(b));
    reached_push(run, a);
    reached_push(run.push(a), b);
}

/// Asks for a manifest to be published.
pub fn publish(fault: &mut Fault, steps: &mut Vec<Step>, packed: bool, root: Root) -> (r: Result<
    (),
    Error,
>)
    ensures
        final(steps)@.len() >= old(steps)@.len(),
        final(steps)@.take(old(steps)@.len() as int) == old(steps)@,
        forall|k: int|
            old(steps)@.len() <= k < final(steps)@.len() ==> publishes(
                #[trigger] final(steps)@[k],
                k - old(steps)@.len(),
                manifest_bytes(packed, root),
            ),
        r is Ok ==> final(steps)@.len() == old(steps)@.len() + 8,
        final(steps)@.len() > old(steps)@.len(),
        final(fault).target == old(fault).target,
        ({
            let run = final(steps)@.skip(old(steps)@.len() as int);
            old(fault).at + reached(run) <= usize::MAX ==> {
                &&& final(fault).at == old(fault).at + reached(run)
                &&& r is Ok ==> spared(run, old(fault).target, old(fault).at as int)
                &&& r matches Err(e) ==> struck(run, old(fault).target, old(fault).at as int) && e@
                    == injected(run)
            }
        }),
        reached(final(steps)@.skip(old(steps)@.len() as int)) <= 4,
        r matches Err(e) ==> e@ is Io,
{
    reveal(struck);
    reveal(spared);
    reveal(injected);
    let ghost start = steps@;
    let ghost n = start.len() as int;
    assert(start.skip(n) =~= Seq::empty());
    assert(start.take(n) =~= start);
    let bytes = encode_manifest(packed, root);
    let ghost had = steps@;
    steps.push(Step::Manifest { bytes });
    steps.push(Step::Reached(Stage::ManifestWrite));
    proof {
        assert(steps@.take(had.len() as int) =~= had);
        one_more_stage(start, had, steps@);
    }
    fault.hit(Stage::ManifestWrite)?;
    let ghost had = steps@;
    steps.push(Step::SyncManifest);
    steps.push(Step::Reached(Stage::ManifestSync));
    proof {
        assert(steps@.take(had.len() as int) =~= had);
        one_more_stage(start, had, steps@);
    }
    fault.hit(Stage::ManifestSync)?;
    let ghost had = steps@;
    steps.push(Step::ReplaceManifest);
    steps.push(Step::Reached(Stage::ManifestReplace));
    proof {
        assert(steps@.take(had.len() as int) =~= had);
        one_more_stage(start, had, steps@);
    }
    fault.hit(Stage::ManifestReplace)?;
    let ghost had = steps@;
    steps.push(Step::SyncDirectory);
    steps.push(Step::Reached(Stage::DirectorySync));
    proof {
        assert(steps@.take(had.len() as int) =~= had);
        one_more_stage(start, had, steps@);
    }
    fault.hit(Stage::DirectorySync)?;
    Ok(())
}

} // verus!
