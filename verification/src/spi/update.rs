//! Committing staged writes to a store, and what is left of that on disk.
use vstd::prelude::*;

use super::arena::{extends, tree_at, tree_root};
use super::commit::{begun, pages_of, ran, version, write_version};
use super::contents::{applied, stageable, Change, Version};
use super::database::{keeps_arenas, Database};
use super::effects::{spared, stopped, Step};
use super::epoch::Epoch;
use super::group::{in_one_pass, pass_size, shaped};
use super::journal::written_keys;
use super::keymap::KeyMap;
use super::manifest::{manifest_back, manifest_bytes, manifest_of, plausible};
use super::model::{budget, Error, Fail, Root};
use super::packedstore::relaid;
use super::publication::{interrupted_run_is_old_or_new, orderly, Disk};
use super::snapshot::Snapshot;
use super::tree::{node_parts, Tree};
use super::writer::{all_counted, ArenaWriter};

verus! {

broadcast use super::arena::tree_empty;

/// The steps that one operation added.
pub open spec fn added(before: Database, after: Database) -> Seq<Step> {
    after.steps@.skip(before.steps@.len() as int)
}

/// What a commit of `writes` does, whether it succeeds or not, where `next` is
/// the root that its manifest names if it came to that.
pub open spec fn updating(
    before: Database,
    after: Database,
    writes: Seq<(Seq<u8>, Change)>,
    next: Root,
) -> bool {
    let run = added(before, after);
    let id = before.current.id;
    let packed = before.view.packed;
    &&& after.steps@.len() >= before.steps@.len()
    &&& after.steps@.take(before.steps@.len() as int) == before.steps@
    &&& after.current.id == id
    &&& extends(after.current.image@, before.current.image@)
    &&& ran(
        run,
        id,
        before.view.root.end as int,
        after.current.image@,
        manifest_bytes(packed, next),
    )
    &&& begun(run) ==> {
        &&& next.generation == before.view.root.generation + 1
        &&& next.epoch == id
        &&& next.end == after.current.image@.len()
        &&& forall|want: Seq<(Seq<u8>, Version)>|
            #![trigger before.holds(want)]
            before.holds(want) && want.len() + writes.len() <= u64::MAX ==> version(
                next,
                packed,
                before.view.scan_budget,
            ).holds(
                after.current.image@,
                applied(want, writes, (before.view.root.generation + 1) as u64),
            )
    }
}

/// How a commit of `writes` lays out the version that it makes of these contents. A batch that
/// goes in one pass makes a tree of a known shape and appends so much; in a packed store every
/// page is a delta or is written anew as its rows and its writes call for.
pub open spec fn laid_out(
    before: Database,
    after: Database,
    writes: Seq<(Seq<u8>, Change)>,
    want: Seq<(Seq<u8>, Version)>,
) -> bool {
    &&& !before.view.packed && before.options.grouped_updates && in_one_pass(
        writes,
        before.options.transaction_bytes as int,
        want,
    ) ==> {
        &&& shaped(before.index(), after.index(), writes.len())
        &&& after.view.root.end == before.view.root.end + pass_size(before.index(), writes)
    }
    &&& before.view.packed && after.view.root.count > 0 ==> relaid(
        pages_of(before.view, before.current.image@),
        writes,
        after.current.image@,
        after.view.root.end as int,
        after.view.root.generation,
        pages_of(after.view, after.current.image@).fences,
    )
}

/// How much a commit appended, by the counter of written bytes.
pub open spec fn appended(before: Database, after: Database) -> bool {
    after.current.bytes_written == before.current.bytes_written.wrapping_add(
        (after.view.root.end - before.view.root.end) as u64,
    )
}

impl Database {
    /// The index of the committed version.
    pub open spec fn index(self) -> Tree {
        tree_at(self.current.image@, self.view.root.end as int, self.view.root.root)->0
    }

    #[verifier::rlimit(40)]
    /// Commits staged writes as the next generation.
    pub fn apply(&mut self, writes: &KeyMap<Option<Vec<u8>>>) -> (r: Result<u64, Error>)
        requires
            old(self).wf(),
            !old(self).poisoned,
            writes.wf(),
            stageable(writes@),
        ensures
            final(self).wf(),
            keeps_arenas(*final(self), *old(self)),
            final(self).retired == old(self).retired,
            final(self).options == old(self).options,
            writes@.len() == 0 ==> (r matches Ok(g) && g == old(self).view.root.generation)
                && *final(self) == *old(self),
            writes@.len() > 0 && old(self).view.root.generation == u64::MAX ==> (r matches Err(e)
                && e@ == Fail::Budget("generation overflow"@)) && *final(self) == *old(self),
            writes@.len() > 0 && old(self).view.root.generation < u64::MAX ==> {
                &&& exists|next: Root| #[trigger]
                    updating(*old(self), *final(self), writes@, next) && (r is Ok
                        ==> final(self).view == version(
                        next,
                        old(self).view.packed,
                        old(self).view.scan_budget,
                    ) && begun(added(*old(self), *final(self))) && added(*old(self), *final(self)).len() > 0
                        && added(*old(self), *final(self)).last() == Step::Reached(
                        super::effects::Stage::DirectorySync,
                    ))
                &&& r matches Ok(g) ==> {
                    &&& spared(
                        added(*old(self), *final(self)),
                        old(self).options.fail_at,
                        0,
                    )
                    &&& g == old(self).view.root.generation + 1
                    &&& g == final(self).view.root.generation
                    &&& !final(self).poisoned
                    &&& appended(*old(self), *final(self))
                    &&& final(self).journal@ == old(self).journal@.recorded(
                        g,
                        written_keys(writes@),
                        old(self).options.conflict_bytes as int,
                    )
                }
                &&& r is Err ==> {
                    &&& final(self).poisoned
                    &&& final(self).view == old(self).view
                    &&& final(self).journal == old(self).journal
                }
                &&& forall|want: Seq<(Seq<u8>, Version)>|
                    #![trigger old(self).holds(want)]
                    old(self).holds(want) && want.len() + writes@.len() <= u64::MAX ==> {
                        &&& r matches Ok(g) ==> final(self).holds(applied(want, writes@, g))
                        &&& r is Ok ==> laid_out(*old(self), *final(self), writes@, want)
                        &&& r matches Err(e) ==> stopped(
                            added(*old(self), *final(self)),
                            old(self).options.fail_at,
                            final(self).current.image@.len() as int,
                            e@,
                        )
                    }
            },
    {
        let ghost before = *self;
        if writes.len() == 0 {
            proof {
                same_arenas(before, *self);
            }
            return Ok(self.view.root.generation);
        }
        if self.view.root.generation == u64::MAX {
            proof {
                same_arenas(before, *self);
            }
            return Err(budget("generation overflow"));
        }
        let generation: u64 = self.view.root.generation + 1;
        let mut epoch = Epoch::new(0, Vec::new(), 0, false);
        std::mem::swap(&mut epoch, &mut self.current);
        let mut w = ArenaWriter::new(epoch, self.view.root.end, generation, &self.options);
        let (r, next) = write_version(&mut w, &self.view, &self.options, writes);
        let ghost run = w.steps@;
        self.current = w.epoch;
        let mut steps = w.steps;
        self.steps.append(&mut steps);
        proof {
            let n = before.steps@.len() as int;
            assert(self.steps@ =~= before.steps@ + run);
            assert(self.steps@.skip(n) =~= run);
            assert(self.steps@.take(n) =~= before.steps@);
            assert forall|want: Seq<(Seq<u8>, Version)>| #[trigger] before.holds(want) implies
                before.view.holds(before.current.image@, want) by {}
            assert(updating(before, *self, writes@, next));
            grown_arenas(before, *self);
        }
        match r {
            Err(e) => {
                self.poisoned = true;
                proof {
                    assert(updating(before, *self, writes@, next));
                    grown_arenas(before, *self);
                }
                Err(e)
            },
            Ok(_) => {
                proof {
                    all_counted(
                        before.current.bytes_written,
                        before.view.root.end,
                        self.current.bytes_written,
                        next.end,
                    );
                    super::journal::recorded_wf(
                        self.journal@,
                        generation,
                        written_keys(writes@),
                        self.options.conflict_bytes as int,
                    );
                }
                self.journal.record_changes(generation, writes, self.options.conflict_bytes);
                self.view = Snapshot {
                    root: next,
                    packed: self.view.packed,
                    scan_budget: self.view.scan_budget,
                };
                proof {
                    assert(updating(before, *self, writes@, next));
                    grown_arenas(before, *self);
                }
                Ok(generation)
            },
        }
    }
}

proof fn same_arenas(a: Database, b: Database)
    requires
        a == b,
    ensures
        keeps_arenas(b, a),
{
    assert forall|id: u64| #[trigger] a.arena(id) is Some implies b.arena(id) is Some && extends(
        b.arena(id)->0,
        a.arena(id)->0,
    ) by {
        assert(a.arena(id)->0.take(a.arena(id)->0.len() as int) =~= a.arena(id)->0);
    }
}

proof fn grown_arenas(a: Database, b: Database)
    requires
        b.retired == a.retired,
        b.current.id == a.current.id,
        extends(b.current.image@, a.current.image@),
    ensures
        keeps_arenas(b, a),
{
    assert forall|id: u64| #[trigger] a.arena(id) is Some implies b.arena(id) is Some && extends(
        b.arena(id)->0,
        a.arena(id)->0,
    ) by {
        assert(a.arena(id)->0.take(a.arena(id)->0.len() as int) =~= a.arena(id)->0);
    }
}

/// A version with contents has a root that a manifest can name.
pub proof fn held_plausible(s: Snapshot, image: Seq<u8>, want: Seq<(Seq<u8>, Version)>)
    requires
        s.holds(image, want),
        s.root.end >= 8,
    ensures
        plausible(s.root),
{
    let end = s.root.end as int;
    let t = tree_at(image, end, s.root.root)->0;
    if s.root.root != 0 {
        tree_root(image, end, s.root.root);
        node_parts(t);
    } else {
        assert(t.rows() =~= Seq::empty());
        assert(super::fences::flat(image, end, s.root.generation, t.rows()) =~= Seq::empty());
    }
}

/// Whether a disk has a store of these contents: a manifest, and an arena that
/// holds the version it names.
pub open spec fn disk_holds(d: Disk, scan_budget: usize, want: Seq<(Seq<u8>, Version)>) -> bool {
    manifest_of(d.manifest) matches Ok((root, packed)) && {
        &&& d.arenas[root.epoch].len() >= root.end
        &&& version(root, packed, scan_budget).holds(
            d.arenas[root.epoch].take(root.end as int),
            want,
        )
    }
}

/// Wherever a commit is interrupted, what the disk then holds is either all of
/// the contents before it or all of the contents behind it.
pub proof fn interrupted_commit_is_all_or_nothing(
    before: Database,
    after: Database,
    writes: Seq<(Seq<u8>, Change)>,
    next: Root,
    want: Seq<(Seq<u8>, Version)>,
    d: Disk,
    done: int,
)
    requires
        before.wf(),
        !before.poisoned,
        before.holds(want),
        want.len() + writes.len() <= u64::MAX,
        updating(before, after, writes, next),
        d.manifest == manifest_bytes(before.view.packed, before.view.root),
        d.arenas[before.current.id].len() >= before.view.root.end,
        d.arenas[before.current.id].take(before.view.root.end as int) == before.current.image@,
        0 <= done <= added(before, after).len(),
    ensures
        ({
            let x = d.after(added(before, after).take(done));
            let budget = before.view.scan_budget;
            let changed = applied(want, writes, (before.view.root.generation + 1) as u64);
            disk_holds(x, budget, want) || (disk_holds(x, budget, changed) && begun(
                added(before, after),
            ))
        }),
{
    let run = added(before, after);
    let id = before.current.id;
    let base = before.view.root.end as int;
    let image = after.current.image@;
    let packed = before.view.packed;
    let meta = manifest_bytes(packed, next);
    let (n, upto) = choose|n: int, upto: int| #[trigger]
        orderly(run, n, id, base, upto, image, meta);
    assert(image.take(base) =~= before.current.image@);
    interrupted_run_is_old_or_new(d, run, n, done, id, base, upto, image, meta);
    let x = d.after(run.take(done));
    held_plausible(before.view, before.current.image@, want);
    manifest_back(packed, before.view.root);
    if done <= n + 4 {
        assert(x.arenas[id].take(base) == before.current.image@);
    } else {
        assert(super::publication::publishes(run[n], 0, meta));
        assert(run[n] is Manifest);
        assert(begun(run));
        let changed = applied(want, writes, (before.view.root.generation + 1) as u64);
        held_plausible(version(next, packed, before.view.scan_budget), image, changed);
        manifest_back(packed, next);
    }
}

/// What was committed is on disk once every step is carried out.
pub proof fn committed_is_durable(
    before: Database,
    after: Database,
    writes: Seq<(Seq<u8>, Change)>,
    next: Root,
    want: Seq<(Seq<u8>, Version)>,
    d: Disk,
)
    requires
        before.wf(),
        !before.poisoned,
        before.holds(want),
        want.len() + writes.len() <= u64::MAX,
        updating(before, after, writes, next),
        added(before, after).len() > 0,
        added(before, after).last() == Step::Reached(super::effects::Stage::DirectorySync),
        d.manifest == manifest_bytes(before.view.packed, before.view.root),
        d.arenas[before.current.id].len() >= before.view.root.end,
        d.arenas[before.current.id].take(before.view.root.end as int) == before.current.image@,
        begun(added(before, after)),
    ensures
        disk_holds(
            d.after(added(before, after)),
            before.view.scan_budget,
            applied(want, writes, (before.view.root.generation + 1) as u64),
        ),
        d.after(added(before, after)).manifest == manifest_bytes(before.view.packed, next),
{
    let run = added(before, after);
    let id = before.current.id;
    let base = before.view.root.end as int;
    let image = after.current.image@;
    let packed = before.view.packed;
    let meta = manifest_bytes(packed, next);
    let (n, upto) = choose|n: int, upto: int| #[trigger]
        orderly(run, n, id, base, upto, image, meta);
    assert(image.take(base) =~= before.current.image@);
    let last = run.len() - 1;
    interrupted_run_is_old_or_new(d, run, n, run.len() as int, id, base, upto, image, meta);
    assert(run.take(run.len() as int) =~= run);
    if n <= last {
        assert(super::publication::publishes(run[last], last - n, meta));
        assert(run[last] == run.last());
    } else {
        let k = choose|k: int| 0 <= k < run.len() && (#[trigger] run[k]) is Manifest;
        assert(run.take(n) =~= run);
        super::commit::covered_data(run, id, base, upto, image);
        assert(super::effects::data_step(run[k]));
    }
    let changed = applied(want, writes, (before.view.root.generation + 1) as u64);
    held_plausible(version(next, packed, before.view.scan_budget), image, changed);
    manifest_back(packed, next);
}

} // verus!
