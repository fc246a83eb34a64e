//! Dropping arenas that no reader needs, checking a store, and counting.
use vstd::prelude::*;

use super::arena::tree_at;
use super::cache::{map_room, queue_room, Cache, ItemView};
use super::contents::Version;
use super::database::{place_found, place_of, Database};
use super::epoch::Epoch;
use super::fences::{cell_leads, flat, loaded_facts, page_ok, page_rows};
use super::group::height_limit_of;
use super::lineage::loaded;
use super::maintenance::listed;
use super::model::{corrupt, Error, Fail, Stats};
use super::packed::{cell_value, pages_intact, verify};
use super::page::{storable, BASE};
use super::scan::{intact, stores_intact, walk};
use super::snapshot::Snapshot;
use super::tree::Slot;

verus! {

broadcast use super::arena::tree_empty;

/// The ids of epochs.
pub open spec fn ids_of(epochs: Seq<Epoch>) -> Seq<u64> {
    epochs.map_values(|e: Epoch| e.id)
}

/// What a collection removes: retired arenas that nothing pins, then arena files
/// that belong to no epoch the store keeps.
pub open spec fn garbage(db: Database, pinned: Seq<u64>, found: Seq<u64>) -> Seq<u64> {
    let retired = ids_of(db.retired@);
    retired.filter(|id: u64| !pinned.contains(id)) + found.filter(
        |id: u64| id != db.current.id && !retired.contains(id),
    )
}

proof fn filter_step(s: Seq<u64>, i: int, f: spec_fn(u64) -> bool)
    requires
        0 <= i < s.len(),
    ensures
        s.take(i + 1).filter(f) == if f(s[i]) {
            s.take(i).filter(f).push(s[i])
        } else {
            s.take(i).filter(f)
        },
{
    reveal(Seq::filter);
    assert(s.take(i + 1).drop_last() =~= s.take(i));
}

impl Database {
    /// The arenas that can be removed, given the epochs that readers still use
    /// and the epochs that have an arena file.
    pub fn collect(&self, pinned: &Vec<u64>, found: &Vec<u64>) -> (r: Result<Vec<u64>, Error>)
        ensures
            self.poisoned ==> (r matches Err(e) && e@ == Fail::Poisoned),
            !self.poisoned ==> (r matches Ok(v) && v@ == garbage(*self, pinned@, found@)),
    {
        if self.poisoned {
            return Err(Error::Poisoned);
        }
        let ghost retired = ids_of(self.retired@);
        let ghost free = |id: u64| !pinned@.contains(id);
        let ghost lost = |id: u64| id != self.current.id && !retired.contains(id);
        let mut held: Vec<u64> = Vec::new();
        let mut out: Vec<u64> = Vec::new();
        let mut i: usize = 0;
        proof {
            reveal(Seq::filter);
            assert(retired.take(0) =~= Seq::empty());
            assert(out@ =~= retired.take(0).filter(free));
        }
        while i < self.retired.len()
            invariant
                i <= self.retired@.len(),
                retired == ids_of(self.retired@),
                held@ == retired.take(i as int),
                free == (|id: u64| !pinned@.contains(id)),
                out@ == retired.take(i as int).filter(free),
            decreases self.retired@.len() - i,
        {
            let id = self.retired[i].id;
            proof {
                filter_step(retired, i as int, free);
                assert(retired.take(i + 1) =~= retired.take(i as int).push(id));
            }
            held.push(id);
            if !listed(pinned, id) {
                out.push(id);
            }
            i = i + 1;
        }
        assert(retired.take(i as int) =~= retired);
        let ghost first = out@;
        let mut k: usize = 0;
        proof {
            reveal(Seq::filter);
            assert(found@.take(0) =~= Seq::empty());
            assert(out@ =~= first + found@.take(0).filter(lost));
        }
        while k < found.len()
            invariant
                k <= found@.len(),
                held@ == retired,
                lost == (|id: u64| id != self.current.id && !retired.contains(id)),
                out@ == first + found@.take(k as int).filter(lost),
            decreases found@.len() - k,
        {
            let id = found[k];
            proof {
                filter_step(found@, k as int, lost);
            }
            let ghost had = out@;
            if id != self.current.id && !listed(&held, id) {
                out.push(id);
                proof {
                    assert(out@ =~= first + found@.take(k as int).filter(lost).push(id));
                }
            }
            k = k + 1;
        }
        assert(found@.take(k as int) =~= found@);
        Ok(out)
    }

    /// Drops a retired arena whose file is gone.
    pub fn forget(&mut self, id: u64)
        requires
            old(self).wf(),
        ensures
            final(self).wf(),
            *final(self) == (Database { retired: final(self).retired, ..*old(self) }),
            final(self).retired@ == (if place_of(old(self).retired@, id) >= 0 {
                old(self).retired@.remove(place_of(old(self).retired@, id))
            } else {
                old(self).retired@
            }),
    {
        proof {
            place_found(self.retired@, id);
        }
        let ghost before = *self;
        if let Some(i) = self.find_retired(id) {
            let gone = self.retired.remove(i);
            proof {
                assert forall|k: int| 0 <= k < self.retired@.len() implies {
                    &&& (#[trigger] self.retired@[k]).wf()
                    &&& self.retired@[k].id < self.current.id
                    &&& self.retired@[k].cache.limit == 0
                } by {
                    let o = if k < i {
                        k
                    } else {
                        k + 1
                    };
                    assert(self.retired@[k] == before.retired@[o]);
                }
                assert forall|k: int, j: int| 0 <= k < j < self.retired@.len() implies (
                #[trigger] self.retired@[k]).id < (#[trigger] self.retired@[j]).id by {
                    let o = if k < i {
                        k
                    } else {
                        k + 1
                    };
                    let p = if j < i {
                        j
                    } else {
                        j + 1
                    };
                    assert(self.retired@[k] == before.retired@[o]);
                    assert(self.retired@[j] == before.retired@[p]);
                }
            }
        }
    }
}

/// No collection removes the current arena or one that is pinned and kept.
pub proof fn collection_spares_readers(db: Database, pinned: Seq<u64>, found: Seq<u64>, id: u64)
    requires
        db.wf(),
        garbage(db, pinned, found).contains(id),
    ensures
        id != db.current.id,
        pinned.contains(id) ==> place_of(db.retired@, id) < 0,
{
    let retired = ids_of(db.retired@);
    let free = |id: u64| !pinned.contains(id);
    let lost = |id: u64| id != db.current.id && !retired.contains(id);
    let x = retired.filter(free);
    let y = found.filter(lost);
    let k = choose|k: int| 0 <= k < (x + y).len() && (x + y)[k] == id;
    place_found(db.retired@, id);
    let p = place_of(db.retired@, id);
    if p >= 0 {
        assert(retired[p] == id);
    }
    if k < x.len() {
        retired.lemma_filter_pred(free, k);
        assert(x[k] == id);
        assert(x.contains(id));
        filtered_from(retired, free, id);
        let q = choose|q: int| 0 <= q < retired.len() && retired[q] == id;
        assert(db.retired@[q].id == id);
    } else {
        found.lemma_filter_pred(lost, k - x.len());
        assert(y[k - x.len()] == id);
    }
}

proof fn filtered_from(s: Seq<u64>, f: spec_fn(u64) -> bool, id: u64)
    requires
        s.filter(f).contains(id),
    ensures
        s.contains(id),
    decreases s.len(),
{
    reveal(Seq::filter);
    if s.len() > 0 {
        let init = s.drop_last();
        let sub = init.filter(f);
        let k = choose|k: int| 0 <= k < s.filter(f).len() && s.filter(f)[k] == id;
        if k < sub.len() {
            assert(sub[k] == id);
            assert(sub.contains(id));
            filtered_from(init, f, id);
            let q = choose|q: int| 0 <= q < init.len() && init[q] == id;
            assert(s[q] == id);
        } else {
            assert(s[s.len() - 1] == id);
        }
    }
}

/// How many of the listed items are values, and how many are pages.
pub open spec fn kinds(items: Map<u64, ItemView>, order: Seq<u64>) -> (int, int)
    decreases order.len(),
{
    if order.len() == 0 {
        (0, 0)
    } else {
        let (v, p) = kinds(items, order.drop_last());
        match items[order.last()] {
            ItemView::Node(_) => (v, p),
            ItemView::Value(_, _) => (v + 1, p),
            ItemView::Page(_, _) => (v, p + 1),
        }
    }
}

/// The offsets of a kind among the listed ones, counted.
proof fn kinds_counted(items: Map<u64, ItemView>, order: Seq<u64>)
    requires
        order.no_duplicates(),
    ensures
        Set::new(|at: u64| order.contains(at) && items[at] is Node).finite(),
        Set::new(|at: u64| order.contains(at) && items[at] is Value).finite(),
        Set::new(|at: u64| order.contains(at) && items[at] is Page).finite(),
        Set::new(|at: u64| order.contains(at) && items[at] is Value).len() == kinds(items, order).0,
        Set::new(|at: u64| order.contains(at) && items[at] is Page).len() == kinds(items, order).1,
        Set::new(|at: u64| order.contains(at) && items[at] is Node).len() + kinds(items, order).0
            + kinds(items, order).1 == order.len(),
    decreases order.len(),
{
    let nodes = Set::new(|at: u64| order.contains(at) && items[at] is Node);
    let values = Set::new(|at: u64| order.contains(at) && items[at] is Value);
    let pages = Set::new(|at: u64| order.contains(at) && items[at] is Page);
    if order.len() == 0 {
        assert(nodes =~= Set::empty());
        assert(values =~= Set::empty());
        assert(pages =~= Set::empty());
    } else {
        let init = order.drop_last();
        let last = order.last();
        assert forall|i: int, j: int| 0 <= i < init.len() && 0 <= j < init.len() && i != j implies init[i]
            != init[j] by {
            assert(init[i] == order[i] && init[j] == order[j]);
        }
        kinds_counted(items, init);
        let less_nodes = Set::new(|at: u64| init.contains(at) && items[at] is Node);
        let less_values = Set::new(|at: u64| init.contains(at) && items[at] is Value);
        let less_pages = Set::new(|at: u64| init.contains(at) && items[at] is Page);
        assert forall|at: u64| #[trigger] order.contains(at) <==> init.contains(at) || at == last by {
            if order.contains(at) {
                let i = choose|i: int| 0 <= i < order.len() && order[i] == at;
                if i < init.len() {
                    assert(init[i] == at);
                }
            }
            if init.contains(at) {
                let i = choose|i: int| 0 <= i < init.len() && init[i] == at;
                assert(order[i] == at);
            }
            assert(order[order.len() - 1] == last);
        }
        assert(!init.contains(last)) by {
            if init.contains(last) {
                let i = choose|i: int| 0 <= i < init.len() && init[i] == last;
                assert(order[i] == order[order.len() - 1]);
            }
        }
        match items[last] {
            ItemView::Node(_) => {
                assert(nodes =~= less_nodes.insert(last));
                assert(values =~= less_values);
                assert(pages =~= less_pages);
            },
            ItemView::Value(_, _) => {
                assert(nodes =~= less_nodes);
                assert(values =~= less_values.insert(last));
                assert(pages =~= less_pages);
            },
            ItemView::Page(_, _) => {
                assert(nodes =~= less_nodes);
                assert(values =~= less_values);
                assert(pages =~= less_pages.insert(last));
            },
        }
    }
}

/// The maps of a cache hold one entry for each listed item of their kind.
proof fn kinds_held(c: Cache)
    requires
        c.wf(),
    ensures
        (c.values@.len() as int, c.pages@.len() as int) == kinds(c@.items, c@.order),
        c.nodes@.len() + c.values@.len() + c.pages@.len() == c@.order.len(),
{
    let items = c@.items;
    let order = c@.order;
    kinds_counted(items, order);
    assert forall|at: u64| #[trigger] order.contains(at) <==> c.has(at) by {
        assert(items.contains_key(at) <==> order.contains(at));
    }
    assert(c.nodes@.dom() =~= Set::new(|at: u64| order.contains(at) && items[at] is Node));
    assert(c.values@.dom() =~= Set::new(|at: u64| order.contains(at) && items[at] is Value));
    assert(c.pages@.dom() =~= Set::new(|at: u64| order.contains(at) && items[at] is Page));
}

/// Sums of counts over epochs: nodes, listed items, values and pages.
pub open spec fn held_by(epochs: Seq<Epoch>) -> (int, int, int, int)
    decreases epochs.len(),
{
    if epochs.len() == 0 {
        (0, 0, 0, 0)
    } else {
        let (m, o, v, p) = held_by(epochs.drop_last());
        let c = epochs.last().cache@;
        let (cv, cp) = kinds(c.items, c.order);
        (m + c.order.len() - cv - cp, o + c.order.len(), v + cv, p + cp)
    }
}

/// A cache with no room holds nothing.
proof fn roomless(c: Cache)
    requires
        c.wf(),
        c.limit == 0,
    ensures
        c@.order.len() == 0,
{
    if c@.order.len() > 0 {
        assert forall|i: int| 0 <= i < c@.order.len() implies super::cache::cost(
            #[trigger] c@.items[c@.order[i]],
        ) > 0 by {
            assert(c@.order.contains(c@.order[i]));
            assert(c@.items.contains_key(c@.order[i]));
        }
        super::cache::total_positive(c@.items, c@.order);
    }
}

proof fn retired_hold_nothing(epochs: Seq<Epoch>)
    requires
        forall|i: int|
            0 <= i < epochs.len() ==> (#[trigger] epochs[i]).wf() && epochs[i].cache.limit == 0,
    ensures
        held_by(epochs) == (0int, 0int, 0int, 0int),
    decreases epochs.len(),
{
    if epochs.len() > 0 {
        let init = epochs.drop_last();
        assert forall|i: int| 0 <= i < init.len() implies (#[trigger] init[i]).wf()
            && init[i].cache.limit == 0 by {
            assert(init[i] == epochs[i]);
        }
        retired_hold_nothing(init);
        let last = epochs[epochs.len() - 1];
        assert(last == epochs.last());
        assert(last.wf() && last.cache.limit == 0);
        roomless(last.cache);
    }
}

impl Database {
    /// Counts, together with what only the file system knows. A capacity is what the
    /// container of the current cache has room for: at least its entries, and how many more
    /// is up to the allocator. The containers of a retired arena were replaced by new ones,
    /// which have no room and get no entry, so that their sums are zero.
    pub fn stats(&self, physical_bytes: u64, arena_write_calls: u64) -> (s: Stats)
        requires
            self.wf(),
        ensures
            s.generation == self.view.root.generation,
            s.keys == self.view.root.count,
            s.committed_bytes == self.view.root.end,
            s.physical_bytes == physical_bytes,
            s.arena_write_calls == arena_write_calls,
            s.packed_format == self.view.packed,
            s.cache_bytes == self.current.cache@.bytes(),
            s.cache_bytes <= self.options.cache_bytes,
            s.cache_entries == self.current.cache@.order.len(),
            s.cache_map_capacity >= s.cache_entries - s.cache_value_entries - s.cache_page_entries,
            s.cache_order_capacity >= s.cache_entries,
            (s.cache_value_entries as int, s.cache_page_entries as int) == kinds(
                self.current.cache@.items,
                self.current.cache@.order,
            ),
            s.cache_value_capacity >= s.cache_value_entries,
            s.cache_page_capacity >= s.cache_page_entries,
            (
                s.retired_cache_map_capacity as int,
                s.retired_cache_order_capacity as int,
                s.retired_cache_value_capacity as int,
                s.retired_cache_page_capacity as int,
            ) == held_by(self.retired@),
            held_by(self.retired@) == (0int, 0int, 0int, 0int),
            s.reads == self.current.reads,
            s.bytes_read == self.current.bytes_read,
            s.bytes_written == self.current.bytes_written,
            s.retained_epochs == self.retired@.len(),
    {
        let cache = &self.current.cache;
        proof {
            kinds_held(*cache);
        }
        let values: usize = cache.values.len();
        let pages: usize = cache.pages.len();
        let mut map: usize = 0;
        let mut order: usize = 0;
        let mut value: usize = 0;
        let mut page: usize = 0;
        let mut i: usize = 0;
        proof {
            retired_hold_nothing(self.retired@);
        }
        while i < self.retired.len()
            invariant
                self.wf(),
                i <= self.retired@.len(),
                map == 0 && order == 0 && value == 0 && page == 0,
            decreases self.retired@.len() - i,
        {
            let empty = &self.retired[i].cache;
            proof {
                assert(self.retired@[i as int].wf() && self.retired@[i as int].cache.limit == 0);
                roomless(*empty);
                kinds_held(*empty);
            }
            map = map + empty.nodes.len();
            order = order + empty.order.len();
            value = value + empty.values.len();
            page = page + empty.pages.len();
            i = i + 1;
        }
        let entries: usize = self.current.cache.order.len();
        Stats {
            generation: self.view.root.generation,
            keys: self.view.root.count,
            committed_bytes: self.view.root.end,
            physical_bytes,
            packed_format: self.view.packed,
            cache_bytes: self.current.cache.bytes,
            cache_entries: entries,
            cache_map_capacity: map_room(&cache.nodes),
            cache_order_capacity: queue_room(&cache.order),
            cache_value_entries: values,
            cache_value_capacity: map_room(&cache.values),
            cache_page_entries: pages,
            cache_page_capacity: map_room(&cache.pages),
            retired_cache_map_capacity: map,
            retired_cache_order_capacity: order,
            retired_cache_value_capacity: value,
            retired_cache_page_capacity: page,
            reads: self.current.reads,
            bytes_read: self.current.bytes_read,
            bytes_written: self.current.bytes_written,
            arena_write_calls,
            retained_epochs: self.retired.len(),
        }
    }

    /// Reads and checks every reachable record of the committed version in an
    /// image of its arena, without caches, and counts the keys.
    pub fn verify(&self, disk: Vec<u8>) -> (r: Result<u64, Error>)
        requires
            self.wf(),
        ensures
            self.poisoned ==> (r matches Err(e) && e@ == Fail::Poisoned),
            !self.poisoned ==> (r is Ok <==> checks_out(self.view, disk@)),
            r matches Ok(n) ==> n == self.view.root.count,
    {
        let view = self.snapshot()?;
        let root = view.root;
        let mut e = Epoch::new(root.epoch, disk, 0, false);
        let values = !view.packed;
        proof {
            if tree_at(disk@, root.end as int, root.root) is Some && (tree_at(
                disk@,
                root.end as int,
                root.root,
            )->0).valid() {
                height_limit_of(disk@, root.end as int, root.root);
            }
        }
        let (count, height) = walk(
            &mut e,
            root.generation,
            root.end,
            root.root,
            None,
            None,
            0,
            values,
        )?;
        if view.packed {
            return verify(&mut e, root.root, root.end, root.generation, root.count);
        }
        if count != root.count {
            return Err(corrupt("key count"));
        }
        Ok(count)
    }
}

/// Whether a version can be read in full from an image, and is in order.
pub open spec fn checks_out(view: Snapshot, image: Seq<u8>) -> bool {
    let end = view.root.end as int;
    let g = view.root.generation;
    let rows = (tree_at(image, end, view.root.root)->0).rows();
    &&& intact(image, end, g, view.root.root, None, None, !view.packed)
    &&& if view.packed {
        pages_intact(image, end, g, rows) && flat(image, end, g, rows).len() == view.root.count
    } else {
        rows.len() == view.root.count
    }
}

/// A version that has contents checks out.
pub proof fn held_checks_out(view: Snapshot, image: Seq<u8>, want: Seq<(Seq<u8>, Version)>)
    requires
        view.holds(image, want),
    ensures
        checks_out(view, image),
{
    let end = view.root.end as int;
    let g = view.root.generation;
    let rows = (tree_at(image, end, view.root.root)->0).rows();
    if view.packed {
        let cells = flat(image, end, g, rows);
        assert forall|i: int| 0 <= i < cells.len() implies cell_value(
            image,
            end,
            (#[trigger] cells[i]).1.1,
        ) is Some by {
            assert(cell_leads(image, end, cells[i].1, want[i].1));
        }
    } else {
        stores_intact(image, end, g, view.root.root, want);
    }
}

/// No cell of a page is newer than the version that the page belongs to.
proof fn cells_dated(b: Seq<u8>, end: int, generation: u64, fences: Seq<(Seq<u8>, Slot)>)
    requires
        forall|i: int|
            0 <= i < fences.len() ==> loaded(b, end, generation, (#[trigger] fences[i]).1.0) is Ok,
    ensures
        forall|k: int|
            0 <= k < flat(b, end, generation, fences).len() ==> 0 < (#[trigger] flat(
                b,
                end,
                generation,
                fences,
            )[k]).1.0 <= generation,
    decreases fences.len(),
{
    if fences.len() > 0 {
        let init = fences.drop_last();
        assert forall|i: int| 0 <= i < init.len() implies loaded(
            b,
            end,
            generation,
            (#[trigger] init[i]).1.0,
        ) is Ok by {
            assert(init[i] == fences[i]);
        }
        cells_dated(b, end, generation, init);
        let last = fences[fences.len() - 1];
        loaded_facts(b, end, generation, last.1.0);
        let page = page_rows(b, end, generation, last);
        let before = flat(b, end, generation, init);
        let all = flat(b, end, generation, fences);
        assert forall|k: int| 0 <= k < all.len() implies 0 < (#[trigger] all[k]).1.0 <= generation by {
            if k < before.len() {
                assert(all[k] == before[k]);
            } else {
                let row = page[k - before.len()];
                assert(all[k] == row);
                assert(storable(row, BASE, last.1.0 as int, generation as int));
            }
        }
    }
}

/// A version that checks out has contents.
pub proof fn checked_is_held(view: Snapshot, image: Seq<u8>) -> (want: Seq<(Seq<u8>, Version)>)
    requires
        checks_out(view, image),
        view.root.count == 0 ==> view.root.root == 0,
    ensures
        view.holds(image, want),
{
    let end = view.root.end as int;
    let g = view.root.generation;
    let rows = (tree_at(image, end, view.root.root)->0).rows();
    if view.packed {
        let cells = flat(image, end, g, rows);
        let want = super::packed::packed_contents(image, end, g, rows);
        assert forall|i: int| 0 <= i < cells.len() implies (#[trigger] cells[i]).0 == want[i].0
            && cell_leads(image, end, cells[i].1, want[i].1) by {
            assert(cell_value(image, end, cells[i].1.1) is Some);
        }
        assert forall|i: int| 0 <= i < rows.len() implies loaded(
            image,
            end,
            g,
            (#[trigger] rows[i]).1.0,
        ) is Ok by {
            assert(page_ok(image, end, g, rows, i));
        }
        cells_dated(image, end, g, rows);
        assert forall|i: int| 0 <= i < want.len() implies 0 < (#[trigger] want[i]).1.1 <= g by {
            assert(want[i].1.1 == cells[i].1.0);
        }
        want
    } else {
        super::scan::intact_stores(image, end, g, view.root.root);
        super::scan::contents_of(image, end, view.root.root)
    }
}

} // verus!
