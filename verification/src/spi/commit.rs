//! Writing the next version of a store.
use vstd::prelude::*;

use super::arena::{tree_at, tree_root};
use super::contents::{applied, applied_meaning, changed, stageable, stores, Change, Version};
use super::effects::{
    counted, covers, covers_push, data_step, quiet_push, reached_bound, reached_joined, spared, stopped,
    struck_behind, Stage, Step,
};
use super::group::{in_one_pass, pass_size, shaped};
use super::keymap::KeyMap;
use super::layout::Pages;
use super::manifest::manifest_bytes;
use super::model::{Error, Options, Root};
use super::packedstore::relaid;
use super::publication::{no_writes_behind, orderly, publish, publishes, synced};
use super::rows::{lookup, lookup_at, sorted};
use super::snapshot::Snapshot;
use super::tree::node_parts;
use super::writer::ArenaWriter;

verus! {

broadcast use super::arena::tree_empty;

/// Every version that writes leave has a revision, up to that of the writes.
proof fn applied_revisions(
    want: Seq<(Seq<u8>, Version)>,
    writes: Seq<(Seq<u8>, Change)>,
    revision: u64,
)
    requires
        sorted(want),
        sorted(writes),
        revision > 0,
        forall|i: int| 0 <= i < want.len() ==> 0 < (#[trigger] want[i]).1.1 <= revision,
    ensures
        forall|i: int|
            0 <= i < applied(want, writes, revision).len() ==> 0 < (#[trigger] applied(
                want,
                writes,
                revision,
            )[i]).1.1 <= revision,
{
    let now = applied(want, writes, revision);
    applied_meaning(want, writes, revision);
    assert forall|i: int| 0 <= i < now.len() implies 0 < (#[trigger] now[i]).1.1 <= revision by {
        let k = now[i].0;
        lookup_at(now, i);
        assert(lookup(now, k) == changed(lookup(writes, k), lookup(want, k), revision));
        if lookup(want, k) is Some {
            super::rows::lookup_finds(want, k);
            let r = super::rows::rank(want, k) as int;
            super::rows::rank_splits(want, k);
            assert(0 < want[r].1.1 <= revision);
        }
    }
}

/// The keys of held contents are in order.
pub proof fn held_sorted(s: Snapshot, image: Seq<u8>, want: Seq<(Seq<u8>, Version)>)
    requires
        s.holds(image, want),
    ensures
        sorted(want),
{
    let end = s.root.end as int;
    let t = tree_at(image, end, s.root.root)->0;
    if s.packed {
        super::fences::flat_sorted(image, end, s.root.generation, t.rows());
        super::fences::holds_cells_keys(
            image,
            end,
            super::fences::flat(image, end, s.root.generation, t.rows()),
            want,
            Seq::empty(),
        );
    } else {
        super::contents::holds_keys(image, end, t.rows(), want, Seq::empty());
    }
}

/// An index without rows has no root.
proof fn rootless(image: Seq<u8>, end: int, root: u64, want: Seq<(Seq<u8>, Version)>)
    requires
        stores(image, end, root, want),
        want.len() == 0,
    ensures
        root == 0,
{
    if root != 0 {
        tree_root(image, end, root);
        node_parts(tree_at(image, end, root)->0);
    }
}

proof fn rootless_all(w: ArenaWriter, root: u64)
    ensures
        forall|want: Seq<(Seq<u8>, Version)>| #[trigger]
            stores(w.image(), w.end as int, root, want) && want.len() == 0 ==> root == 0,
{
    assert forall|want: Seq<(Seq<u8>, Version)>| #[trigger]
        stores(w.image(), w.end as int, root, want) && want.len() == 0 implies root == 0 by {
        rootless(w.image(), w.end as int, root, want);
    }
}

/// The version that a root names.
pub open spec fn version(root: Root, packed: bool, scan_budget: usize) -> Snapshot {
    Snapshot { root, packed, scan_budget }
}

/// Writes the rows of the next version.
fn write_rows(
    w: &mut ArenaWriter,
    view: &Snapshot,
    options: &Options,
    writes: &KeyMap<Option<Vec<u8>>>,
) -> (r: Result<(u64, u64), Error>)
    requires
        old(w).wf(),
        writes.wf(),
        stageable(writes@),
        old(w).end == view.root.end,
        view.root.generation < old(w).generation,
    ensures
        final(w).live(),
        final(w).grew_from(*old(w)),
        r is Ok ==> final(w).wf(),
        forall|want: Seq<(Seq<u8>, Version)>|
            #![trigger view.holds(old(w).image(), want)]
            view.holds(old(w).image(), want) && want.len() + writes@.len() <= u64::MAX ==> {
                &&& r matches Ok((x, c)) ==> version(
                    Root {
                        generation: final(w).generation,
                        root: x,
                        end: final(w).end,
                        count: c,
                        epoch: view.root.epoch,
                    },
                    view.packed,
                    view.scan_budget,
                ).holds(final(w).image(), applied(want, writes@, final(w).generation))
                &&& !view.packed && options.grouped_updates && in_one_pass(
                    writes@,
                    options.transaction_bytes as int,
                    want,
                ) ==> (r matches Ok((x, _)) ==> shaped(
                    tree_at(old(w).image(), view.root.end as int, view.root.root)->0,
                    final(w).tree(x)->0,
                    writes@.len(),
                ) && final(w).end == old(w).end + pass_size(
                    tree_at(old(w).image(), view.root.end as int, view.root.root)->0,
                    writes@,
                ))
                &&& view.packed ==> (r matches Ok((x, c)) ==> (c > 0 ==> relaid(
                    pages_of(*view, old(w).image()),
                    writes@,
                    final(w).image(),
                    final(w).end as int,
                    final(w).generation,
                    (final(w).tree(x)->0).rows(),
                )))
                &&& r matches Err(e) ==> final(w).may_fail(e@)
            },
{
    let ghost w0 = *w;
    proof {
        assert forall|want: Seq<(Seq<u8>, Version)>|
            #![trigger view.holds(w0.image(), want)]
            view.holds(w0.image(), want) implies sorted(want) && forall|i: int|
            0 <= i < applied(want, writes@, w0.generation).len() ==> 0 < (#[trigger] applied(
                want,
                writes@,
                w0.generation,
            )[i]).1.1 <= w0.generation by {
            held_sorted(*view, w0.image(), want);
            applied_revisions(want, writes@, w0.generation);
        }
    }
    if view.packed {
        return w.apply_packed(
            view.root.root,
            view.root.end,
            view.root.generation,
            view.root.count,
            writes,
        );
    }
    if options.grouped_updates {
        let next = w.try_grouped(view.root.root, writes, options.transaction_bytes)?;
        if let Some(root) = next {
            let count: u64 = if view.root.root == 0 {
                writes.len() as u64
            } else {
                view.root.count
            };
            proof {
                rootless_all(*w, root);
            }
            return Ok((root, count));
        }
    }
    let r = w.apply_sequential(view.root.root, view.root.count, writes);
    proof {
        if let Ok((root, _)) = r {
            rootless_all(*w, root);
        }
    }
    r
}

/// The pages of a version, in the arena that it stands in.
pub open spec fn pages_of(view: Snapshot, image: Seq<u8>) -> Pages {
    Pages {
        image,
        end: view.root.end as int,
        generation: view.root.generation,
        fences: (tree_at(image, view.root.end as int, view.root.root)->0).rows(),
    }
}

/// Whether steps write an image behind `base` and then, if at all, publish.
pub open spec fn ran(steps: Seq<Step>, id: u64, base: int, image: Seq<u8>, meta: Seq<u8>) -> bool {
    exists|n: int, upto: int| #[trigger] orderly(steps, n, id, base, upto, image, meta)
}

/// Whether a manifest was asked for.
pub open spec fn begun(steps: Seq<Step>) -> bool {
    exists|k: int| 0 <= k < steps.len() && (#[trigger] steps[k]) is Manifest
}

/// Writes the rows, makes them durable and asks for the manifest. The root is
/// the one that the manifest names, if it came to that.
pub fn write_version(
    w: &mut ArenaWriter,
    view: &Snapshot,
    options: &Options,
    writes: &KeyMap<Option<Vec<u8>>>,
) -> (r: (Result<(), Error>, Root))
    requires
        old(w).wf(),
        old(w).steps@.len() == 0,
        writes.wf(),
        stageable(writes@),
        old(w).end == view.root.end,
        view.root.generation < old(w).generation,
        old(w).fault.target == options.fail_at,
    ensures
        final(w).epoch.wf(),
        final(w).grew_from(*old(w)),
        final(w).end <= final(w).image().len(),
        ran(
            final(w).steps@,
            final(w).epoch.id,
            final(w).base as int,
            final(w).image(),
            manifest_bytes(view.packed, r.1),
        ),
        r.0 is Ok ==> begun(final(w).steps@) && final(w).steps@.len() > 0
            && final(w).steps@.last() == Step::Reached(Stage::DirectorySync),
        begun(final(w).steps@) ==> r.1.generation == final(w).generation && r.1.epoch
            == view.root.epoch && r.1.end == final(w).image().len(),
        !begun(final(w).steps@) ==> r.0 is Err,
        r.0 is Ok ==> spared(final(w).steps@, options.fail_at, 0),
        r.0 is Ok ==> final(w).flushed == r.1.end,
        forall|want: Seq<(Seq<u8>, Version)>|
            #![trigger view.holds(old(w).image(), want)]
            view.holds(old(w).image(), want) && want.len() + writes@.len() <= u64::MAX ==> {
                &&& begun(final(w).steps@) ==> version(
                    r.1,
                    view.packed,
                    view.scan_budget,
                ).holds(final(w).image(), applied(want, writes@, final(w).generation))
                &&& begun(final(w).steps@) && !view.packed && options.grouped_updates
                    && in_one_pass(writes@, options.transaction_bytes as int, want) ==> shaped(
                    tree_at(old(w).image(), view.root.end as int, view.root.root)->0,
                    tree_at(final(w).image(), r.1.end as int, r.1.root)->0,
                    writes@.len(),
                ) && r.1.end == view.root.end + pass_size(
                    tree_at(old(w).image(), view.root.end as int, view.root.root)->0,
                    writes@,
                )
                &&& begun(final(w).steps@) && view.packed && r.1.count > 0 ==> relaid(
                    pages_of(*view, old(w).image()),
                    writes@,
                    final(w).image(),
                    r.1.end as int,
                    r.1.generation,
                    pages_of(
                        version(r.1, view.packed, view.scan_budget),
                        final(w).image(),
                    ).fences,
                )
                &&& r.0 matches Err(e) ==> stopped(
                    final(w).steps@,
                    options.fail_at,
                    final(w).image().len() as int,
                    e@,
                )
            },
{
    let ghost w0 = *w;
    let ghost none = manifest_bytes(view.packed, view.root);
    let rows = write_rows(w, view, options, writes);
    let (root, count) = match rows {
        Err(e) => {
            proof {
                unpublished(*w, none);
            }
            return (Err(e), view.root);
        },
        Ok(x) => x,
    };
    if let Err(e) = w.flush_append() {
        proof {
            unpublished(*w, none);
        }
        return (Err(e), view.root);
    }
    let ghost w2 = *w;
    let id = w.epoch.id;
    let sync = Step::Sync { epoch: id };
    proof {
        covers_push(w.steps@, sync, id, w.base as int, w.flushed as int, w.image());
        quiet_push(w.steps@, sync, w.fault.target, 0, w.fault.at);
    }
    w.steps.push(sync);
    let ghost w3 = *w;
    if let Err(e) = w.reach(Stage::DataSync) {
        proof {
            unpublished(*w, none);
        }
        return (Err(e), view.root);
    }
    let next = Root { generation: w.generation, epoch: view.root.epoch, root, end: w.end, count };
    let ghost w4 = *w;
    let ghost n = w4.steps@.len() as int;
    let ghost meta = manifest_bytes(view.packed, next);
    let r = publish(&mut w.fault, &mut w.steps, view.packed, next);
    let _n: usize = w.steps.len();
    proof {
        let all = w.steps@;
        assert(all.take(n) == w4.steps@);
        reveal(counted);
        assert(all =~= w4.steps@ + all.skip(n));
        reached_joined(w4.steps@, all.skip(n));
        reached_bound(all);
        struck_behind(w4.steps@, all.skip(n), w.fault.target, 0);
        let at = w3.steps@.len() - 1;
        assert(w4.steps@[at] == (Step::Sync { epoch: id }));
        assert(no_writes_behind(w4.steps@, at));
        assert(synced(w4.steps@, id));
        assert(orderly(all, n, id, w.base as int, w.image().len() as int, w.image(), meta));
        assert(publishes(all[n], 0, meta));
        assert(all[n] is Manifest);
        if r is Ok {
            assert(publishes(all[n + 7], 7, meta));
        }
    }
    (r, next)
}

/// Steps of a run that stops before its publication.
proof fn unpublished(w: ArenaWriter, meta: Seq<u8>)
    requires
        w.live(),
    ensures
        ran(w.steps@, w.epoch.id, w.base as int, w.image(), meta),
        !begun(w.steps@),
{
    let n = w.steps@.len() as int;
    assert(w.steps@.take(n) =~= w.steps@);
    assert(orderly(
        w.steps@,
        n,
        w.epoch.id,
        w.base as int,
        w.flushed as int,
        w.image(),
        meta,
    ));
    covered_data(w.steps@, w.epoch.id, w.base as int, w.flushed as int, w.image());
}

/// Covering steps ask for no manifest.
pub proof fn covered_data(steps: Seq<Step>, id: u64, base: int, upto: int, image: Seq<u8>)
    requires
        covers(steps, id, base, upto, image),
    ensures
        forall|k: int| 0 <= k < steps.len() ==> data_step(#[trigger] steps[k]),
    decreases steps.len(),
{
    if steps.len() > 0 {
        let init = steps.drop_last();
        match steps.last() {
            Step::Write { epoch, at, bytes } => {
                covered_data(init, id, base, at as int, image);
            },
            _ => {
                covered_data(init, id, base, upto, image);
            },
        }
        assert forall|k: int| 0 <= k < steps.len() implies data_step(#[trigger] steps[k]) by {
            if k < init.len() {
                assert(init[k] == steps[k]);
            }
        }
    }
}

} // verus!
