//! Compacting a store, dropping what no reader needs, checking and counting.
use vstd::prelude::*;

use super::arena::{arena_mark, arena_mark_bytes, extends};
use super::cache::{nodes_only, ItemView};
use super::commit::{begun, pages_of, version};
use super::contents::Version;
use super::database::{keeps_arenas, place_of, Database};
use super::effects::{
    counted, covers, covers_push, injected, interrupted_run_keeps_committed, quiet_push, reached,
    reached_bound, reached_joined, reached_push, spared, stopped, struck, struck_behind, write_over,
    Fault, Stage, Step,
};
use super::epoch::Epoch;
use super::group::copy_weight;
use super::layout::Pages;
use super::manifest::{manifest_back, manifest_bytes, manifest_of};
use super::model::{budget, Error, Fail, Root};
use super::packedcopy::page_for_page;
use super::publication::{
    after_splits, covers_prefix, data_steps, entered, no_writes_behind, nothing_new_behind, publish,
    publishes, publishing_steps, synced, Disk,
};
use super::reclaim::{all_in_use, fills_all, tree_fills};
use super::snapshot::Snapshot;
use super::staging::total_of;
use super::update::{added, disk_holds, held_plausible};
use super::writer::{all_counted, ArenaWriter};

verus! {

broadcast use {super::arena::tree_empty, super::cache::group_nodes_only};

/// A copy of a version in an arena of its own, not yet published.
pub struct Candidate {
    pub root: Root,
    pub from: Snapshot,
    pub epoch: Epoch,
    pub fault: Fault,
}

impl Candidate {
    pub open spec fn wf(self) -> bool {
        &&& self.epoch.wf()
        &&& self.epoch.id == self.root.epoch
        &&& self.epoch.cache.limit == 0
        &&& 8 <= self.root.end == self.epoch.image@.len()
        &&& self.root.generation == self.from.root.generation
        &&& self.root.count == self.from.root.count
        &&& self.root.epoch > self.from.root.epoch
        &&& self.fault.at + 4 <= usize::MAX
    }
}

/// The first epoch behind `after` that is not taken.
pub open spec fn free_epoch(after: u64, taken: Seq<u64>, id: u64) -> bool {
    &&& id > after
    &&& !taken.contains(id)
    &&& forall|x: u64| after < x < id ==> #[trigger] taken.contains(x)
}

/// The epoch that a new arena gets.
pub fn next_epoch(after: u64, taken: &Vec<u64>) -> (r: Result<u64, Error>)
    ensures
        match r {
            Ok(id) => free_epoch(after, taken@, id),
            Err(e) => e@ == Fail::Budget("epoch overflow"@) && forall|x: u64|
                x > after ==> #[trigger] taken@.contains(x),
        },
{
    let mut id: u64 = after;
    loop
        invariant
            after <= id,
            forall|x: u64| after < x <= id ==> #[trigger] taken@.contains(x),
        decreases u64::MAX - id,
    {
        if id == u64::MAX {
            return Err(budget("epoch overflow"));
        }
        id = id + 1;
        if !listed(taken, id) {
            return Ok(id);
        }
    }
}

pub(crate) fn listed(ids: &Vec<u64>, id: u64) -> (r: bool)
    ensures
        r == ids@.contains(id),
{
    let mut i: usize = 0;
    while i < ids.len()
        invariant
            i <= ids@.len(),
            forall|k: int| 0 <= k < i ==> ids@[k] != id,
        decreases ids@.len() - i,
    {
        if ids[i] == id {
            return true;
        }
        i = i + 1;
    }
    false
}

/// Steps that write a new arena from its beginning on, as far as they go.
pub open spec fn begins(steps: Seq<Step>, id: u64, upto: int, image: Seq<u8>) -> bool {
    &&& steps.len() > 0 ==> {
        &&& steps.len() >= 2
        &&& steps[0] == (Step::Create { epoch: id })
        &&& steps[1] matches Step::Write { epoch, at, bytes } && epoch == id && at == 0 && bytes@
            == arena_mark()
        &&& covers(steps.skip(2), id, 8, upto, image)
    }
}

/// Steps that write a whole new arena and make it durable, and then its name.
pub open spec fn prepares(steps: Seq<Step>, id: u64, upto: int, image: Seq<u8>) -> bool {
    &&& steps.len() >= 2
    &&& begins(steps, id, upto, image)
    &&& synced(steps.skip(2), id)
    &&& entered(steps)
}

/// Steps of a compaction, as far as it came: the first `n` write a new arena up to `upto`. Only
/// when all of it is written and made durable does the publication begin.
pub open spec fn compacting(
    steps: Seq<Step>,
    n: int,
    id: u64,
    upto: int,
    image: Seq<u8>,
    meta: Seq<u8>,
) -> bool {
    &&& 0 <= n <= steps.len()
    &&& begins(steps.take(n), id, upto, image)
    &&& forall|k: int| n <= k < steps.len() ==> publishes(#[trigger] steps[k], k - n, meta)
    &&& n < steps.len() ==> upto == image.len() && prepares(steps.take(n), id, upto, image)
}

#[verifier::rlimit(40)]
/// Copies a version and asks for the copy to be made durable.
fn copy_version(w: &mut ArenaWriter, from: &mut Epoch, view: &Snapshot) -> (r: Result<u64, Error>)
    requires
        old(w).wf(),
        old(from).wf(),
        old(w).generation == view.root.generation,
        old(w).base == 8,
        old(w).end == 8,
    ensures
        r is Ok ==> final(w).wf() && synced(final(w).steps@, final(w).epoch.id) && entered(
            final(w).steps@,
        ),
        r is Ok ==> final(w).steps@.len() - 2 >= reached(final(w).steps@),
        final(w).live(),
        final(w).grew_from(*old(w)),
        final(from).wf(),
        final(from).same_arena(*old(from)),
        nodes_only(old(from).cache@, final(from).cache@),
        r is Ok ==> final(w).flushed == final(w).end && final(w).end == final(w).image().len(),
        forall|want: Seq<(Seq<u8>, Version)>|
            #![trigger view.holds(old(from).image@, want)]
            view.holds(old(from).image@, want) ==> {
                &&& r matches Ok(x) ==> version(
                    Root {
                        generation: view.root.generation,
                        epoch: final(w).epoch.id,
                        root: x,
                        end: final(w).end,
                        count: view.root.count,
                    },
                    view.packed,
                    view.scan_budget,
                ).holds(final(w).image(), want)
                &&& r matches Ok(x) ==> tree_fills(
                    final(w).image(),
                    final(w).end as int,
                    view.root.generation,
                    view.packed,
                    x,
                    8,
                    final(w).end as int,
                )
                &&& r is Ok && !view.packed ==> final(w).end == 8 + total_of(want, copy_weight())
                &&& r matches Ok(x) ==> (view.packed ==> page_for_page(
                    pages_of(*view, old(from).image@),
                    (Pages {
                        image: final(w).image(),
                        end: final(w).end as int,
                        generation: view.root.generation,
                        fences: (final(w).tree(x)->0).rows(),
                    }),
                ))
                &&& r matches Err(e) ==> final(w).may_fail(e@)
            },
{
    let ghost b = from.image@;
    let root_at = if view.packed {
        w.copy_packed(from, view.root.end, view.root.generation, view.root.root)?
    } else {
        w.copy_tree(from, view.root.end, view.root.root)?
    };
    let ghost w1 = *w;
    w.flush_append()?;
    let sync = Step::Sync { epoch: w.epoch.id };
    proof {
        covers_push(w.steps@, sync, w.epoch.id, w.base as int, w.flushed as int, w.image());
        quiet_push(w.steps@, sync, w.fault.target, 0, w.fault.at);
        reached_bound(w.steps@);
        reached_push(w.steps@, sync);
    }
    let ghost place = w.steps@.len() as int;
    w.steps.push(sync);
    let ghost w2 = *w;
    w.reach(Stage::CompactDataSync)?;
    let ghost w3 = *w;
    let there = Step::SyncDirectory;
    proof {
        covers_push(w.steps@, there, w.epoch.id, w.base as int, w.flushed as int, w.image());
        quiet_push(w.steps@, there, w.fault.target, 0, w.fault.at);
        reached_push(w2.steps@, Step::Reached(Stage::CompactDataSync));
        reached_push(w.steps@, there);
    }
    w.steps.push(there);
    proof {
        let all = w.steps@;
        assert(all[place] == (Step::Sync { epoch: w.epoch.id }));
        assert(no_writes_behind(all, place));
        assert(all[place + 2] == Step::SyncDirectory);
        assert(nothing_new_behind(all, place + 2));
    }
    Ok(root_at)
}

impl Database {
    #[verifier::rlimit(60)]
    /// Copies the committed version into a new arena. Whatever goes wrong here
    /// leaves the store as it is.
    pub fn prepare(&mut self, taken: &Vec<u64>) -> (r: Result<Candidate, Error>)
        requires
            old(self).wf(),
        ensures
            final(self).wf(),
            final(self).current.same_arena(old(self).current),
            nodes_only(old(self).current.cache@, final(self).current.cache@),
            *final(self) == (Database {
                current: final(self).current,
                steps: final(self).steps,
                copied: final(self).copied,
                ..*old(self)
            }),
            final(self).steps@.len() >= old(self).steps@.len(),
            final(self).steps@.take(old(self).steps@.len() as int) == old(self).steps@,
            old(self).poisoned ==> (r matches Err(e) && e@ == Fail::Poisoned) && final(self).steps@
                == old(self).steps@,
            !old(self).poisoned && (forall|x: u64|
                x > old(self).view.root.epoch ==> #[trigger] taken@.contains(x)) ==> (
            r matches Err(e) && e@ == Fail::Budget("epoch overflow"@)),
            r matches Ok(c) ==> {
                &&& c.wf()
                &&& c.from == old(self).view
                &&& free_epoch(old(self).view.root.epoch, taken@, c.root.epoch)
                &&& c.fault.target == old(self).options.fail_at
                &&& c.fault.at == reached(added(*old(self), *final(self)))
                &&& spared(added(*old(self), *final(self)), old(self).options.fail_at, 0)
                &&& c.epoch.value_cache_enabled == old(self).options.value_cache
                &&& prepares(
                    added(*old(self), *final(self)),
                    c.root.epoch,
                    c.root.end as int,
                    c.epoch.image@,
                )
                &&& c.epoch.image@.take(8) == arena_mark()
                &&& c.epoch.bytes_written == c.root.end - 8
            },
            r is Err && added(*old(self), *final(self)).len() > 0 ==> exists|
                id: u64,
                upto: int,
                image: Seq<u8>,
            | #[trigger]
                begins(added(*old(self), *final(self)), id, upto, image) && free_epoch(
                    old(self).view.root.epoch,
                    taken@,
                    id,
                ),
            !begun(added(*old(self), *final(self))),
            forall|want: Seq<(Seq<u8>, Version)>|
                #![trigger old(self).holds(want)]
                old(self).holds(want) && !old(self).poisoned ==> {
                    &&& r matches Ok(c) ==> version(
                        c.root,
                        old(self).view.packed,
                        old(self).view.scan_budget,
                    ).holds(c.epoch.image@, want) && all_in_use(
                        version(c.root, old(self).view.packed, old(self).view.scan_budget),
                        c.epoch.image@,
                    )
                    &&& r matches Ok(c) ==> (!old(self).view.packed ==> c.root.end == 8 + total_of(
                        want,
                        copy_weight(),
                    ))
                    &&& r matches Ok(c) ==> (old(self).view.packed ==> page_for_page(
                        pages_of(old(self).view, old(self).current.image@),
                        pages_of(
                            version(c.root, old(self).view.packed, old(self).view.scan_budget),
                            c.epoch.image@,
                        ),
                    ))
                    &&& r matches Err(e) ==> {
                        ||| e@ == Fail::Budget("epoch overflow"@) && forall|x: u64|
                            x > old(self).view.root.epoch ==> #[trigger] taken@.contains(x)
                        ||| stopped(
                            added(*old(self), *final(self)),
                            old(self).options.fail_at,
                            final(self).copied as int,
                            e@,
                        )
                    }
                },
    {
        let ghost before = *self;
        assert(added(before, before) =~= Seq::empty());
        let from = self.snapshot()?;
        let id = next_epoch(from.root.epoch, taken)?;
        let mark = arena_mark_bytes();
        let image = arena_mark_bytes();
        let epoch = Epoch::new(id, image, 0, self.options.value_cache);
        self.steps.push(Step::Create { epoch: id });
        self.steps.push(Step::Write { epoch: id, at: 0, bytes: mark });
        let mut w = ArenaWriter::new(epoch, 8, from.root.generation, &self.options);
        let ghost start = self.steps@;
        let r = copy_version(&mut w, &mut self.current, &from);
        let ghost run = w.steps@;
        let mut steps = w.steps;
        self.steps.append(&mut steps);
        self.copied = w.end;
        let _n: usize = self.steps.len();
        proof {
            reveal(counted);
            let n = before.steps@.len() as int;
            assert(self.steps@ =~= start + run);
            assert(self.steps@.take(n) =~= before.steps@);
            let mine = added(before, *self);
            assert(mine.len() >= 2);
            assert(mine[0] == start[n]);
            assert(mine[1] == start[n + 1]);
            assert(mine.skip(2) =~= run);
            let first = mine.take(2);
            assert(mine =~= first + run);
            reveal_with_fuel(reached, 3);
            assert(reached(first) == 0);
            reached_joined(first, run);
            reveal(spared);
            struck_behind(first, run, w.fault.target, 0);
            assert(begins(mine, id, w.flushed as int, w.image()));
            super::commit::covered_data(run, id, 8, w.flushed as int, w.image());
            assert(!begun(mine)) by {
                assert forall|k: int| 0 <= k < mine.len() implies !((#[trigger] mine[k]) is Manifest) by {
                    if k >= 2 {
                        assert(mine[k] == run[k - 2]);
                        assert(super::effects::data_step(run[k - 2]));
                    }
                }
            }
            if r is Ok {
                let s = choose|s: int|
                    0 <= s < run.len() && #[trigger] run[s] == Step::SyncDirectory
                        && nothing_new_behind(run, s);
                assert(mine[s + 2] == Step::SyncDirectory);
                assert forall|k: int| s + 2 < k < mine.len() implies !((#[trigger] mine[k]) is Write)
                    && !(mine[k] is Create) by {
                    assert(mine[k] == run[k - 2]);
                }
                assert(nothing_new_behind(mine, s + 2));
                assert(prepares(mine, id, w.end as int, w.image()));
            }
        }
        let root_at = r?;
        let root = Root {
            generation: from.root.generation,
            epoch: id,
            root: root_at,
            end: w.end,
            count: from.root.count,
        };
        proof {
            let made = version(root, from.packed, from.scan_budget);
            assert forall|want: Seq<(Seq<u8>, Version)>|
                #![trigger before.holds(want)]
                before.holds(want) implies all_in_use(made, w.image()) by {
                fills_all(made, w.image());
            }
        }
        proof {
            all_counted(0, 8, w.epoch.bytes_written, w.end);
        }
        Ok(Candidate { root, from, epoch: w.epoch, fault: w.fault })
    }
}

proof fn swapped_arenas(a: Database, b: Database)
    requires
        a.wf(),
        b.current.id > a.current.id,
        b.retired@.len() == a.retired@.len() + 1,
        forall|i: int| 0 <= i < a.retired@.len() ==> b.retired@[i] == #[trigger] a.retired@[i],
        b.retired@.last().id == a.current.id,
        b.retired@.last().image@ == a.current.image@,
    ensures
        keeps_arenas(b, a),
{
    let n = a.retired@.len() as int;
    assert(b.retired@.drop_last() =~= a.retired@);
    assert forall|id: u64| #[trigger] a.arena(id) is Some implies b.arena(id) is Some && extends(
        b.arena(id)->0,
        a.arena(id)->0,
    ) by {
        super::database::place_found(a.retired@, id);
        if id == a.current.id {
            assert(place_of(b.retired@, id) == n);
        } else {
            let p = place_of(a.retired@, id);
            assert(a.retired@[p].id == id);
            assert(place_of(b.retired@, id) == p);
            assert(b.retired@[p] == a.retired@[p]);
        }
    }
}

impl Database {
    #[verifier::rlimit(40)]
    /// Publishes a copy in the place of the version that it was made from.
    pub fn publish_candidate(&mut self, c: Candidate) -> (r: Result<(), Error>)
        requires
            old(self).wf(),
            c.wf(),
            c.epoch.value_cache_enabled == old(self).options.value_cache,
        ensures
            final(self).wf(),
            keeps_arenas(*final(self), *old(self)),
            final(self).options == old(self).options,
            final(self).journal == old(self).journal,
            old(self).poisoned ==> (r matches Err(e) && e@ == Fail::Poisoned) && *final(self)
                == *old(self),
            !old(self).poisoned && old(self).view.root != c.from.root ==> (r matches Err(e)
                && e@ == Fail::Conflict) && *final(self) == *old(self),
            !old(self).poisoned && old(self).view.root == c.from.root ==> {
                &&& final(self).steps@.len() > old(self).steps@.len()
                &&& final(self).steps@.take(old(self).steps@.len() as int) == old(self).steps@
                &&& forall|k: int|
                    0 <= k < added(*old(self), *final(self)).len() ==> publishes(
                        #[trigger] added(*old(self), *final(self))[k],
                        k,
                        manifest_bytes(old(self).view.packed, c.root),
                    )
                &&& r matches Err(e) ==> struck(
                    added(*old(self), *final(self)),
                    c.fault.target,
                    c.fault.at as int,
                ) && e@ == injected(added(*old(self), *final(self)))
                &&& r is Err ==> *final(self) == (Database {
                    steps: final(self).steps,
                    poisoned: true,
                    ..*old(self)
                })
                &&& r is Ok ==> spared(
                    added(*old(self), *final(self)),
                    c.fault.target,
                    c.fault.at as int,
                )
                &&& r is Ok ==> {
                    &&& added(*old(self), *final(self)).len() == 8
                    &&& !final(self).poisoned
                    &&& final(self).view == version(
                        c.root,
                        old(self).view.packed,
                        old(self).view.scan_budget,
                    )
                    &&& final(self).current.id == c.epoch.id
                    &&& final(self).current.image@ == c.epoch.image@
                    &&& final(self).current.reads == c.epoch.reads
                    &&& final(self).current.bytes_read == c.epoch.bytes_read
                    &&& final(self).current.bytes_written == c.epoch.bytes_written
                    &&& final(self).current.cache.limit == old(self).options.cache_bytes
                    &&& final(self).current.cache@.items == c.epoch.cache@.items
                    &&& final(self).retired@.len() == old(self).retired@.len() + 1
                    &&& final(self).retired@.last().image@ == old(self).current.image@
                    &&& final(self).retired@.last().cache@.items == Map::<u64, ItemView>::empty()
                }
            },
    {
        let ghost before = *self;
        proof {
            unchanged_arenas(before);
        }
        if self.poisoned {
            return Err(Error::Poisoned);
        }
        if self.view.root != c.from.root {
            return Err(Error::Conflict);
        }
        let mut fault = c.fault;
        let r = publish(&mut fault, &mut self.steps, self.view.packed, c.root);
        proof {
            let n = before.steps@.len() as int;
            let mine = added(before, *self);
            assert forall|k: int| 0 <= k < mine.len() implies publishes(
                #[trigger] mine[k],
                k,
                manifest_bytes(before.view.packed, c.root),
            ) by {
                assert(mine[k] == self.steps@[n + k]);
            }
        }
        if let Err(e) = r {
            self.poisoned = true;
            proof {
                unchanged_arenas(before);
                assert forall|id: u64| #[trigger] before.arena(id) is Some implies self.arena(
                    id,
                ) is Some && extends(self.arena(id)->0, before.arena(id)->0) by {
                    assert(self.arena(id) == before.arena(id));
                }
            }
            return Err(e);
        }
        let mut epoch = c.epoch;
        epoch.cache.limit = self.options.cache_bytes;
        assert(epoch.cache@.items =~= c.epoch.cache@.items);
        std::mem::swap(&mut epoch, &mut self.current);
        epoch.cache.retire();
        self.retired.push(epoch);
        self.view = Snapshot {
            root: c.root,
            packed: self.view.packed,
            scan_budget: self.view.scan_budget,
        };
        proof {
            assert forall|i: int| 0 <= i < before.retired@.len() implies self.retired@[i]
                == #[trigger] before.retired@[i] by {}
            swapped_arenas(before, *self);
            assert forall|i: int| 0 <= i < self.retired@.len() implies {
                &&& (#[trigger] self.retired@[i]).wf()
                &&& self.retired@[i].id < self.current.id
                &&& self.retired@[i].cache.limit == 0
            } by {
                if i < before.retired@.len() {
                    assert(self.retired@[i] == before.retired@[i]);
                }
            }
            assert forall|i: int, j: int| 0 <= i < j < self.retired@.len() implies (
            #[trigger] self.retired@[i]).id < (#[trigger] self.retired@[j]).id by {
                assert(self.retired@[i] == before.retired@[i]);
                if j < before.retired@.len() {
                    assert(self.retired@[j] == before.retired@[j]);
                }
            }
        }
        Ok(())
    }

    /// Copies the committed version into a new arena and publishes the copy.
    /// `taken` are the epochs that have an arena file already.
    pub fn compact(&mut self, taken: &Vec<u64>) -> (r: Result<(), Error>)
        requires
            old(self).wf(),
        ensures
            final(self).wf(),
            keeps_arenas(*final(self), *old(self)),
            final(self).options == old(self).options,
            final(self).journal == old(self).journal,
            old(self).poisoned ==> (r matches Err(e) && e@ == Fail::Poisoned) && final(self).steps@
                == old(self).steps@,
            r is Ok ==> {
                &&& !final(self).poisoned
                &&& free_epoch(old(self).view.root.epoch, taken@, final(self).view.root.epoch)
                &&& final(self).view.root.generation == old(self).view.root.generation
                &&& final(self).view.root.count == old(self).view.root.count
                &&& final(self).view.packed == old(self).view.packed
                &&& final(self).retired@.len() == old(self).retired@.len() + 1
            },
            final(self).steps@.len() >= old(self).steps@.len(),
            final(self).steps@.take(old(self).steps@.len() as int) == old(self).steps@,
            r is Ok ==> {
                let run = added(*old(self), *final(self));
                let n = run.len() - 8;
                &&& prepares(
                    run.take(n),
                    final(self).current.id,
                    final(self).current.image@.len() as int,
                    final(self).current.image@,
                )
                &&& forall|k: int|
                    n <= k < run.len() ==> publishes(
                        #[trigger] run[k],
                        k - n,
                        manifest_bytes(old(self).view.packed, final(self).view.root),
                    )
                &&& compacting(
                    run,
                    n,
                    final(self).current.id,
                    final(self).current.image@.len() as int,
                    final(self).current.image@,
                    manifest_bytes(old(self).view.packed, final(self).view.root),
                )
                &&& final(self).view.root.end == final(self).current.image@.len()
                &&& final(self).current.image@.take(8) == arena_mark()
                &&& final(self).current.bytes_written == final(self).view.root.end - 8
                &&& spared(run, old(self).options.fail_at, 0)
            },
            r is Err ==> {
                let run = added(*old(self), *final(self));
                &&& exists|n: int, id: u64, upto: int, image: Seq<u8>, meta: Seq<u8>| #[trigger]
                    compacting(run, n, id, upto, image, meta)
                &&& final(self).view == old(self).view
                &&& final(self).current.image@ == old(self).current.image@
                &&& final(self).retired == old(self).retired
                &&& final(self).poisoned <==> old(self).poisoned || begun(run)
                &&& begun(run) ==> struck(run, old(self).options.fail_at, 0)
            },
            forall|want: Seq<(Seq<u8>, Version)>|
                #![trigger old(self).holds(want)]
                old(self).holds(want) && !old(self).poisoned ==> {
                    &&& final(self).holds(want)
                    &&& r is Ok ==> all_in_use(final(self).view, final(self).current.image@)
                    &&& r is Ok && !old(self).view.packed ==> final(self).view.root.end == 8
                        + total_of(want, copy_weight())
                    &&& r is Ok && old(self).view.packed ==> page_for_page(
                        pages_of(old(self).view, old(self).current.image@),
                        pages_of(final(self).view, final(self).current.image@),
                    )
                    &&& r matches Err(e) ==> {
                        ||| e@ == Fail::Budget("epoch overflow"@) && forall|x: u64|
                            x > old(self).view.root.epoch ==> #[trigger] taken@.contains(x)
                        ||| stopped(
                            added(*old(self), *final(self)),
                            old(self).options.fail_at,
                            final(self).copied as int,
                            e@,
                        )
                    }
                },
    {
        let ghost before = *self;
        let r = self.prepare(taken);
        let ghost middle = *self;
        let ghost first = added(before, middle);
        proof {
            if r is Err {
                assert(first.take(first.len() as int) =~= first);
                if first.len() > 0 {
                    let (id, upto, image) = choose|id: u64, upto: int, image: Seq<u8>| #[trigger]
                        begins(first, id, upto, image);
                    assert(compacting(first, first.len() as int, id, upto, image, Seq::empty()));
                } else {
                    assert(compacting(first, 0, 0, 0, Seq::empty(), Seq::empty()));
                }
            }
            assert forall|id: u64| #[trigger] before.arena(id) is Some implies middle.arena(
                id,
            ) is Some && middle.arena(id)->0 == before.arena(id)->0 by {
                assert(middle.retired == before.retired);
            }
        }
        let c = match r {
            Ok(c) => c,
            Err(e) => {
                return Err(e);
            },
        };
        let ghost (meta, image, id) = (
            manifest_bytes(before.view.packed, c.root),
            c.epoch.image@,
            c.root.epoch,
        );
        let ghost fault = c.fault;
        let r = self.publish_candidate(c);
        proof {
            let run = added(before, *self);
            let rest = added(middle, *self);
            let n = first.len() as int;
            two_runs(before, middle, *self);
            assert(run.take(n) =~= first);
            struck_behind(first, rest, fault.target, 0);
            assert forall|k: int| n <= k < run.len() implies publishes(
                #[trigger] run[k],
                k - n,
                meta,
            ) by {
                assert(run[k] == rest[k - n]);
            }
            assert(compacting(run, n, id, image.len() as int, image, meta));
            assert(publishes(rest[0], 0, meta));
            assert(run[n] is Manifest);
            assert(begun(run));
            assert forall|id: u64| #[trigger] before.arena(id) is Some implies self.arena(
                id,
            ) is Some && extends(self.arena(id)->0, before.arena(id)->0) by {
                assert(middle.arena(id) is Some);
            }
            assert forall|want: Seq<(Seq<u8>, Version)>| #[trigger]
                before.holds(want) && !before.poisoned implies self.holds(want) by {
                assert(middle.holds(want));
            }
        }
        r
    }
}

/// What two operations added, one behind the other.
proof fn two_runs(a: Database, b: Database, c: Database)
    requires
        b.steps@.len() >= a.steps@.len(),
        b.steps@.take(a.steps@.len() as int) == a.steps@,
        c.steps@.len() >= b.steps@.len(),
        c.steps@.take(b.steps@.len() as int) == b.steps@,
    ensures
        added(a, c) == added(a, b) + added(b, c),
        c.steps@.take(a.steps@.len() as int) == a.steps@,
{
    let (x, y) = (a.steps@.len() as int, b.steps@.len() as int);
    assert(c.steps@.take(x) =~= c.steps@.take(y).take(x));
    let all = added(a, b) + added(b, c);
    assert forall|k: int| 0 <= k < all.len() implies added(a, c)[k] == #[trigger] all[k] by {
        if k < y - x {
            assert(c.steps@.take(y)[x + k] == b.steps@[x + k]);
        }
    }
    assert(added(a, c) =~= all);
}

proof fn unchanged_arenas(a: Database)
    ensures
        keeps_arenas(a, a),
{
}

/// What publishing a copy does to a store on which others may have committed since the copy was
/// prepared. Where they have, the copy is refused and the store is as it was, still usable;
/// where they have not, the store keeps its generation, its count and its contents. Either way
/// every older version that could be read can be read, with the same contents.
pub proof fn compaction_keeps_everything(
    prepared: Database,
    c: Candidate,
    db: Database,
    after: Database,
    want: Seq<(Seq<u8>, Version)>,
    older: Snapshot,
    had: Seq<(Seq<u8>, Version)>,
)
    requires
        prepared.wf(),
        db.wf(),
        c.wf(),
        c.from == prepared.view,
        forall|w: Seq<(Seq<u8>, Version)>| #[trigger]
            prepared.holds(w) ==> version(
                c.root,
                prepared.view.packed,
                prepared.view.scan_budget,
            ).holds(c.epoch.image@, w),
        prepared.holds(want),
        keeps_arenas(db, prepared),
        db.view.packed == prepared.view.packed,
        db.view.scan_budget == prepared.view.scan_budget,
        keeps_arenas(after, db),
        db.view.root != c.from.root ==> after == db,
        db.view.root == c.from.root ==> after.view == version(
            c.root,
            db.view.packed,
            db.view.scan_budget,
        ) && after.current.image@ == c.epoch.image@,
        db.arena(older.root.epoch) is Some,
        older.holds(db.arena(older.root.epoch)->0, had),
    ensures
        after.view.root.generation == db.view.root.generation,
        after.view.root.count == db.view.root.count,
        after.poisoned == db.poisoned || db.view.root == c.from.root,
        forall|now: Seq<(Seq<u8>, Version)>| #[trigger] db.holds(now) ==> after.holds(now),
        db.view.root == c.from.root ==> db.holds(want) && after.holds(want),
        after.arena(older.root.epoch) is Some,
        older.holds(after.arena(older.root.epoch)->0, had),
{
    super::database::snapshot_stable(older, db, after, had);
    if db.view.root == c.from.root {
        assert(prepared.arena(prepared.view.root.epoch) == Some(prepared.current.image@));
        assert(db.arena(db.view.root.epoch) == Some(db.current.image@));
        super::database::snapshot_stable(prepared.view, prepared, db, want);
        assert(db.view == prepared.view);
        assert(db.holds(want));
        assert forall|now: Seq<(Seq<u8>, Version)>| #[trigger] db.holds(now) implies after.holds(
            now,
        ) by {
            super::snapshot::one_contents(db.view, db.current.image@, now, want);
        }
    }
}

/// Wherever the copying of a version is interrupted, the disk holds what it held.
pub proof fn interrupted_copy_keeps_contents(
    d: Disk,
    steps: Seq<Step>,
    done: int,
    id: u64,
    upto: int,
    image: Seq<u8>,
    scan_budget: usize,
    want: Seq<(Seq<u8>, Version)>,
)
    requires
        begins(steps, id, upto, image),
        disk_holds(d, scan_budget, want),
        (manifest_of(d.manifest)->Ok_0).0.epoch != id,
        0 <= done <= steps.len(),
    ensures
        disk_holds(d.after(steps.take(done)), scan_budget, want),
        d.after(steps.take(done)).manifest == d.manifest,
        image.take(8) == arena_mark() && 8 <= image.len() && done == steps.len() && steps.len()
            > 0 ==> d.after(
            steps,
        ).arenas[id].len() >= upto && d.after(steps).arenas[id].take(upto) == image.take(upto)
            && upto <= image.len(),
{
    if steps.len() == 0 {
        assert(steps.take(done) =~= Seq::empty());
    } else {
        let now = steps.take(done);
        let epoch = (manifest_of(d.manifest)->Ok_0).0.epoch;
        if done <= 2 {
            reveal_with_fuel(Disk::after, 4);
            if done == 2 {
                assert(now.drop_last() =~= steps.take(1));
            }
            if done >= 1 {
                assert(steps.take(1).drop_last() =~= Seq::empty());
                assert(steps.take(1).last() == steps[0]);
            }
        }
        let first = steps.take(2);
        let rest = steps.skip(2);
        assert(first.drop_last() =~= steps.take(1));
        assert(steps.take(1).drop_last() =~= Seq::empty());
        assert(first.last() == steps[1]);
        assert(steps.take(1).last() == steps[0]);
        let d2 = d.after(first);
        assert(d2.manifest == d.manifest && d2.arenas[epoch] == d.arenas[epoch] && d2.arenas[id]
            == write_over(Seq::empty(), 0, arena_mark())) by {
            reveal_with_fuel(Disk::after, 4);
        }
        assert(d2.arenas[id] =~= arena_mark());
        if done >= 2 {
            let some = rest.take(done - 2);
            assert(now =~= first + some);
            after_splits(d, first, some);
            let at = covers_prefix(rest, done - 2, id, 8, upto, image);
            data_steps(d2, some, id, 8, at, image);
            if image.take(8) == arena_mark() && 8 <= image.len() && done == steps.len() {
                assert(now =~= steps);
                assert(some =~= rest);
                assert(d2.arenas[id].take(8) =~= image.take(8));
                interrupted_run_keeps_committed(
                    d2.arenas[id],
                    rest,
                    rest.len() as int,
                    id,
                    8,
                    upto,
                    image,
                );
            }
        }
    }
}

/// Wherever the publication of a copy is interrupted, the disk holds the same
/// contents, in the old arena or in the new one.
pub proof fn interrupted_switch_keeps_contents(
    d: Disk,
    steps: Seq<Step>,
    done: int,
    root: Root,
    packed: bool,
    image: Seq<u8>,
    scan_budget: usize,
    want: Seq<(Seq<u8>, Version)>,
)
    requires
        disk_holds(d, scan_budget, want),
        forall|k: int|
            0 <= k < steps.len() ==> publishes(
                #[trigger] steps[k],
                k,
                manifest_bytes(packed, root),
            ),
        d.arenas[root.epoch].len() >= root.end,
        d.arenas[root.epoch].take(root.end as int) == image,
        version(root, packed, scan_budget).holds(image, want),
        root.end >= 8,
        0 <= done <= steps.len(),
    ensures
        disk_holds(d.after(steps.take(done)), scan_budget, want),
{
    let now = steps.take(done);
    let meta = manifest_bytes(packed, root);
    assert forall|k: int| 0 <= k < now.len() implies publishes(#[trigger] now[k], k, meta) by {
        assert(now[k] == steps[k]);
    }
    publishing_steps(d, now, meta);
    held_plausible(version(root, packed, scan_budget), image, want);
    manifest_back(packed, root);
}

/// Wherever a compaction is interrupted, in its copy or in its publication, the disk holds the
/// contents that it held. Once all its steps are carried out, the disk names the new arena.
pub proof fn interrupted_compaction_keeps_contents(
    d: Disk,
    run: Seq<Step>,
    n: int,
    upto: int,
    image: Seq<u8>,
    root: Root,
    packed: bool,
    scan_budget: usize,
    want: Seq<(Seq<u8>, Version)>,
    done: int,
)
    requires
        compacting(run, n, root.epoch, upto, image, manifest_bytes(packed, root)),
        disk_holds(d, scan_budget, want),
        (manifest_of(d.manifest)->Ok_0).0.epoch != root.epoch,
        n < run.len() ==> {
            &&& root.end == image.len()
            &&& root.end >= 8
            &&& image.take(8) == arena_mark()
            &&& version(root, packed, scan_budget).holds(image, want)
        },
        0 <= done <= run.len(),
    ensures
        disk_holds(d.after(run.take(done)), scan_budget, want),
        done == n + 8 ==> d.after(run.take(done)).manifest == manifest_bytes(packed, root),
        done <= n ==> d.after(run.take(done)).manifest == d.manifest,
{
    let first = run.take(n);
    if done <= n {
        assert(run.take(done) =~= first.take(done));
        interrupted_copy_keeps_contents(
            d,
            first,
            done,
            root.epoch,
            upto,
            image,
            scan_budget,
            want,
        );
    } else {
        assert(first.take(n) =~= first);
        interrupted_copy_keeps_contents(
            d,
            first,
            n,
            root.epoch,
            upto,
            image,
            scan_budget,
            want,
        );
        let rest = run.skip(n);
        assert forall|k: int| 0 <= k < rest.len() implies publishes(
            #[trigger] rest[k],
            k,
            manifest_bytes(packed, root),
        ) by {
            assert(rest[k] == run[n + k]);
        }
        let now = d.after(first);
        assert(image.take(image.len() as int) =~= image);
        interrupted_switch_keeps_contents(
            now,
            rest,
            done - n,
            root,
            packed,
            image,
            scan_budget,
            want,
        );
        let some = rest.take(done - n);
        assert(run.take(done) =~= first + some);
        after_splits(d, first, some);
        assert forall|k: int| 0 <= k < some.len() implies publishes(
            #[trigger] some[k],
            k,
            manifest_bytes(packed, root),
        ) by {
            assert(some[k] == rest[k]);
        }
        publishing_steps(now, some, manifest_bytes(packed, root));
    }
}

} // verus!
