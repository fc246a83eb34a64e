//! The store: its committed version, the arenas it keeps, and what it asks its
//! surroundings to do.
use vstd::prelude::*;

use super::arena::{arena_mark, arena_mark_bytes, extends, unreadable};
use super::cache::nodes_only;
use super::commit::version;
use super::contents::Version;
use super::effects::{injected, reached, spared, struck, Fault, Step};
use super::epoch::Epoch;
use super::journal::{Journal, JournalView};
use super::keymap::KeyMap;
use super::manifest::{manifest_bytes, manifest_of, read_manifest};
use super::model::{
    budget, corrupt, entries, validate_options, Entry, Error, Fail, Options, Root, MAX_KEY,
};
use super::publication::publish;
use super::rows::{lookup, range};
use super::scan::{bound_of, charge, values_of};
use super::search::{prefix_bound, prefix_end};
use super::snapshot::{bad_bounds, bytes_of, Snapshot};

verus! {

broadcast use super::cache::group_nodes_only;

/// The place of the epoch with this id, or -1.
pub open spec fn place_of(epochs: Seq<Epoch>, id: u64) -> int
    decreases epochs.len(),
{
    if epochs.len() == 0 {
        -1
    } else if epochs.last().id == id {
        epochs.len() - 1
    } else {
        place_of(epochs.drop_last(), id)
    }
}

/// An epoch that has a place is found there.
pub proof fn place_found(epochs: Seq<Epoch>, id: u64)
    ensures
        -1 <= place_of(epochs, id) < epochs.len(),
        place_of(epochs, id) >= 0 ==> epochs[place_of(epochs, id)].id == id,
        place_of(epochs, id) < 0 ==> forall|i: int|
            0 <= i < epochs.len() ==> (#[trigger] epochs[i]).id != id,
    decreases epochs.len(),
{
    if epochs.len() > 0 && epochs.last().id != id {
        let init = epochs.drop_last();
        place_found(init, id);
        if place_of(init, id) < 0 {
            assert forall|i: int| 0 <= i < epochs.len() implies (#[trigger] epochs[i]).id != id by {
                if i < init.len() {
                    assert(init[i] == epochs[i]);
                }
            }
        }
    }
}

/// Changing an epoch in its place leaves all places as they are.
proof fn place_kept(a: Seq<Epoch>, b: Seq<Epoch>, id: u64)
    requires
        a.len() == b.len(),
        forall|i: int| 0 <= i < a.len() ==> (#[trigger] a[i]).id == b[i].id,
    ensures
        place_of(a, id) == place_of(b, id),
    decreases a.len(),
{
    if a.len() > 0 {
        let n = a.len() - 1;
        assert(a[n].id == b[n].id);
        assert forall|i: int| 0 <= i < n implies (#[trigger] a.drop_last()[i]).id
            == b.drop_last()[i].id by {
            assert(a[i].id == b[i].id);
        }
        place_kept(a.drop_last(), b.drop_last(), id);
    }
}

/// A store.
pub struct Database {
    pub options: Options,
    pub view: Snapshot,
    pub current: Epoch,
    pub retired: Vec<Epoch>,
    pub poisoned: bool,
    pub journal: Journal,
    /// What is still to be carried out, in order.
    pub steps: Vec<Step>,
    /// How long the arena of the last copy became.
    pub copied: u64,
}

impl Database {
    pub open spec fn wf(self) -> bool {
        &&& self.options.usable()
        &&& self.current.wf()
        &&& self.current.id == self.view.root.epoch
        &&& 8 <= self.view.root.end <= self.current.image@.len()
        &&& !self.poisoned ==> self.view.root.end == self.current.image@.len()
        &&& self.current.cache.limit == self.options.cache_bytes
        &&& self.current.value_cache_enabled == self.options.value_cache
        &&& self.view.scan_budget == self.options.scan_bytes
        &&& forall|i: int|
            0 <= i < self.retired@.len() ==> {
                &&& (#[trigger] self.retired@[i]).wf()
                &&& self.retired@[i].id < self.current.id
                &&& self.retired@[i].cache.limit == 0
            }
        &&& forall|i: int, j: int|
            0 <= i < j < self.retired@.len() ==> (#[trigger] self.retired@[i]).id < (
            #[trigger] self.retired@[j]).id
        &&& self.journal.wf()
        &&& self.journal.floor <= self.view.root.generation
        &&& forall|i: int|
            0 <= i < self.journal@.changes.len() ==> (#[trigger] self.journal@.changes[i]).0
                <= self.view.root.generation
    }

    /// The arena of an epoch, as far as the store still keeps it.
    pub open spec fn arena(self, id: u64) -> Option<Seq<u8>> {
        if id == self.current.id {
            Some(self.current.image@)
        } else if place_of(self.retired@, id) >= 0 {
            Some(self.retired@[place_of(self.retired@, id)].image@)
        } else {
            None
        }
    }

    /// Whether these are the committed contents.
    pub open spec fn holds(self, want: Seq<(Seq<u8>, Version)>) -> bool {
        self.view.holds(self.current.image@, want)
    }

    /// Whether nothing but index nodes came into the caches.
    pub open spec fn admitted_only_nodes(self, other: Database) -> bool {
        &&& nodes_only(other.current.cache@, self.current.cache@)
        &&& self.retired@.len() == other.retired@.len()
        &&& forall|i: int|
            0 <= i < self.retired@.len() ==> nodes_only(
                (#[trigger] other.retired@[i]).cache@,
                self.retired@[i].cache@,
            )
    }

    /// Reading changes caches and counters only.
    pub open spec fn same_store(self, other: Database) -> bool {
        &&& self.options == other.options
        &&& self.view == other.view
        &&& self.poisoned == other.poisoned
        &&& self.journal == other.journal
        &&& self.steps == other.steps
        &&& self.copied == other.copied
        &&& self.current.same_arena(other.current)
        &&& self.retired@.len() == other.retired@.len()
        &&& forall|i: int|
            0 <= i < self.retired@.len() ==> (#[trigger] self.retired@[i]).same_arena(
                other.retired@[i],
            )
    }
}

/// Reading leaves every arena as it is.
pub proof fn reading_keeps_arenas(a: Database, b: Database, id: u64)
    requires
        b.same_store(a),
    ensures
        b.arena(id) == a.arena(id),
{
    assert forall|i: int| 0 <= i < a.retired@.len() implies (#[trigger] b.retired@[i]).id
        == a.retired@[i].id by {}
    place_kept(b.retired@, a.retired@, id);
    place_found(a.retired@, id);
    let p = place_of(a.retired@, id);
    if p >= 0 {
        assert(b.retired@[p].same_arena(a.retired@[p]));
    }
}

/// Every arena that one state keeps, a later one keeps too, with everything that
/// it held.
pub open spec fn keeps_arenas(later: Database, earlier: Database) -> bool {
    forall|id: u64| #[trigger]
        earlier.arena(id) is Some ==> later.arena(id) is Some && extends(
            later.arena(id)->0,
            earlier.arena(id)->0,
        )
}

/// A version that was readable stays so, with the same contents, whatever is
/// committed or compacted later.
pub proof fn snapshot_stable(
    s: Snapshot,
    earlier: Database,
    later: Database,
    want: Seq<(Seq<u8>, Version)>,
)
    requires
        keeps_arenas(later, earlier),
        earlier.arena(s.root.epoch) is Some,
        s.holds(earlier.arena(s.root.epoch)->0, want),
    ensures
        later.arena(s.root.epoch) is Some,
        s.holds(later.arena(s.root.epoch)->0, want),
{
    super::snapshot::version_stable(
        s,
        earlier.arena(s.root.epoch)->0,
        later.arena(s.root.epoch)->0,
        want,
    );
}

impl Database {
    /// The place of an epoch among the retired ones.
    pub(crate) fn find_retired(&self, id: u64) -> (r: Option<usize>)
        ensures
            match r {
                Some(i) => i < self.retired@.len() && i == place_of(self.retired@, id),
                None => place_of(self.retired@, id) < 0,
            },
    {
        let total: usize = self.retired.len();
        let mut i: usize = total;
        assert(self.retired@.take(total as int) =~= self.retired@);
        while i > 0
            invariant
                i <= total,
                total == self.retired@.len(),
                place_of(self.retired@, id) == place_of(self.retired@.take(i as int), id),
            decreases i,
        {
            i = i - 1;
            assert(self.retired@.take(i + 1).drop_last() =~= self.retired@.take(i as int));
            if self.retired[i].id == id {
                return Some(i);
            }
        }
        None
    }
}

impl Snapshot {
    /// The value of a key in this version.
    pub fn get(&self, db: &mut Database, key: &[u8]) -> (r: Result<Option<Vec<u8>>, Error>)
        requires
            old(db).wf(),
        ensures
            final(db).wf(),
            final(db).same_store(*old(db)),
            old(db).arena(self.root.epoch) is None ==> (r matches Err(x) && x@ == Fail::Corrupt(
                "epoch is not retained"@,
            )),
            old(db).arena(self.root.epoch) matches Some(image) ==> {
                &&& key@.len() > MAX_KEY ==> (r matches Err(x) && x@ == Fail::Budget(
                    "key exceeds 4096 bytes"@,
                ))
                &&& key@.len() <= MAX_KEY ==> (r matches Err(x) ==> unreadable(x@))
                &&& r matches Ok(x) ==> self.value_back(image, key@) == Some(bytes_of(x))
                &&& r is Ok && self.root.epoch == old(db).current.id ==> self.reads_value(
                    image,
                    key@,
                    old(db).current.value_cache_enabled,
                    old(db).current.cache@,
                    final(db).current.cache@,
                )
                &&& self.root.epoch != old(db).current.id ==> final(db).current == old(db).current
                &&& key@.len() <= MAX_KEY ==> forall|want: Seq<(Seq<u8>, Version)>|
                    #![trigger self.holds(image, want)]
                    self.holds(image, want) ==> match lookup(want, key@) {
                        Some(v) => r matches Ok(Some(x)) && x@ == v.0,
                        None => r matches Ok(None),
                    }
            },
    {
        if db.current.id == self.root.epoch {
            return self.value_in(&mut db.current, key);
        }
        match db.find_retired(self.root.epoch) {
            Some(i) => self.value_in(&mut db.retired[i], key),
            None => Err(corrupt("epoch is not retained")),
        }
    }

    /// The revision of a key in this version; zero where there is none.
    pub fn revision(&self, db: &mut Database, key: &[u8]) -> (r: Result<u64, Error>)
        requires
            old(db).wf(),
        ensures
            final(db).wf(),
            final(db).same_store(*old(db)),
            old(db).arena(self.root.epoch) is None ==> (r matches Err(x) && x@ == Fail::Corrupt(
                "epoch is not retained"@,
            )),
            old(db).arena(self.root.epoch) matches Some(image) ==> {
                &&& key@.len() > MAX_KEY ==> (r matches Err(x) && x@ == Fail::Budget(
                    "key exceeds 4096 bytes"@,
                ))
                &&& key@.len() <= MAX_KEY ==> (r matches Err(x) ==> unreadable(x@))
                &&& r matches Ok(g) ==> self.revision_back(image, key@) == Some(g)
                &&& key@.len() <= MAX_KEY ==> forall|want: Seq<(Seq<u8>, Version)>|
                    #![trigger self.holds(image, want)]
                    self.holds(image, want) ==> (r matches Ok(g) && g
                        == super::snapshot::revision_of(want, key@))
            },
    {
        if db.current.id == self.root.epoch {
            return self.revision_in(&mut db.current, key);
        }
        match db.find_retired(self.root.epoch) {
            Some(i) => self.revision_in(&mut db.retired[i], key),
            None => Err(corrupt("epoch is not retained")),
        }
    }

    /// The rows of this version in a range.
    pub fn scan(&self, db: &mut Database, start: &[u8], end: Option<&[u8]>) -> (r: Result<
        Vec<Entry>,
        Error,
    >)
        requires
            old(db).wf(),
        ensures
            final(db).wf(),
            final(db).same_store(*old(db)),
            final(db).admitted_only_nodes(*old(db)),
            old(db).arena(self.root.epoch) is None ==> (r matches Err(x) && x@ == Fail::Corrupt(
                "epoch is not retained"@,
            )),
            old(db).arena(self.root.epoch) matches Some(image) ==> {
                &&& bad_bounds(start@, bound_of(end)) ==> (r matches Err(x) && x@ == Fail::Budget(
                    "invalid range bounds"@,
                ))
                &&& !bad_bounds(start@, bound_of(end)) ==> (r matches Err(x) ==> unreadable(x@)
                    || x@ == Fail::Budget("scan output exceeds configured budget"@))
                &&& r matches Ok(v) ==> self.range_back(
                    image,
                    start@,
                    bound_of(end),
                    Seq::empty(),
                ) == Some(entries(v@))
                &&& r matches Ok(v) ==> charge(entries(v@), 64) <= self.scan_budget
                &&& !bad_bounds(start@, bound_of(end)) ==> forall|want: Seq<(Seq<u8>, Version)>|
                    #![trigger self.holds(image, want)]
                    self.holds(image, want) ==> {
                        let out = values_of(range(want, start@, bound_of(end)));
                        if charge(out, 64) <= self.scan_budget {
                            r matches Ok(v) && entries(v@) == out
                        } else {
                            r matches Err(f) && f@ == Fail::Budget(
                                "scan output exceeds configured budget"@,
                            )
                        }
                    }
            },
    {
        if db.current.id == self.root.epoch {
            return self.scan_in(&mut db.current, start, end);
        }
        match db.find_retired(self.root.epoch) {
            Some(i) => self.scan_in(&mut db.retired[i], start, end),
            None => Err(corrupt("epoch is not retained")),
        }
    }

    /// The rows of this version whose keys start with a prefix.
    pub fn scan_prefix(&self, db: &mut Database, prefix: &[u8]) -> (r: Result<Vec<Entry>, Error>)
        requires
            old(db).wf(),
        ensures
            final(db).wf(),
            final(db).same_store(*old(db)),
            final(db).admitted_only_nodes(*old(db)),
            old(db).arena(self.root.epoch) is None ==> (r matches Err(x) && x@ == Fail::Corrupt(
                "epoch is not retained"@,
            )),
            old(db).arena(self.root.epoch) matches Some(image) ==> {
                &&& bad_bounds(prefix@, prefix_bound(prefix@)) ==> (r matches Err(x) && x@
                    == Fail::Budget("invalid range bounds"@))
                &&& !bad_bounds(prefix@, prefix_bound(prefix@)) ==> (r matches Err(x) ==>
                    unreadable(x@) || x@ == Fail::Budget("scan output exceeds configured budget"@))
                &&& r matches Ok(v) ==> self.range_back(
                    image,
                    prefix@,
                    prefix_bound(prefix@),
                    Seq::empty(),
                ) == Some(entries(v@))
                &&& r matches Ok(v) ==> charge(entries(v@), 64) <= self.scan_budget
                &&& !bad_bounds(prefix@, prefix_bound(prefix@)) ==> forall|
                    want: Seq<(Seq<u8>, Version)>,
                |
                    #![trigger self.holds(image, want)]
                    self.holds(image, want) ==> {
                        let out = values_of(range(want, prefix@, prefix_bound(prefix@)));
                        if charge(out, 64) <= self.scan_budget {
                            r matches Ok(v) && entries(v@) == out
                        } else {
                            r matches Err(f) && f@ == Fail::Budget(
                                "scan output exceeds configured budget"@,
                            )
                        }
                    }
            },
    {
        match prefix_end(prefix) {
            Some(end) => self.scan(db, prefix, Some(end.as_slice())),
            None => self.scan(db, prefix, None),
        }
    }

    /// The rows of this version in a range whose keys are not to be passed over,
    /// with what they cost; nothing where that exceeds the limit.
    pub fn rows(
        &self,
        db: &mut Database,
        start: &[u8],
        end: Option<&[u8]>,
        limit: usize,
        each: usize,
        skip: &KeyMap<Option<Vec<u8>>>,
    ) -> (r: Result<Option<(Vec<Entry>, usize)>, Error>)
        requires
            old(db).wf(),
            skip.wf(),
            end matches Some(x) ==> !super::bytes::lt(x@, start@),
        ensures
            final(db).wf(),
            final(db).same_store(*old(db)),
            final(db).admitted_only_nodes(*old(db)),
            r matches Ok(Some((v, n))) ==> n <= limit && n == charge(entries(v@), each as int),
            old(db).arena(self.root.epoch) is None ==> (r matches Err(x) && x@ == Fail::Corrupt(
                "epoch is not retained"@,
            )),
            r matches Err(x) ==> unreadable(x@),
            r matches Ok(Some((v, _))) ==> (old(db).arena(self.root.epoch) matches Some(image)
                && self.range_back(image, start@, bound_of(end), skip@) == Some(entries(v@))),
            old(db).arena(self.root.epoch) matches Some(image) ==> forall|
                want: Seq<(Seq<u8>, Version)>,
            |
                #![trigger self.holds(image, want)]
                self.holds(image, want) ==> {
                    let out = super::scan::kept(
                        values_of(range(want, start@, bound_of(end))),
                        skip@,
                    );
                    if charge(out, each as int) <= limit {
                        r matches Ok(Some((v, n))) && entries(v@) == out && n == charge(
                            out,
                            each as int,
                        )
                    } else {
                        r matches Ok(None)
                    }
                },
    {
        if db.current.id == self.root.epoch {
            return self.rows_in(&mut db.current, start, end, limit, each, skip);
        }
        match db.find_retired(self.root.epoch) {
            Some(i) => self.rows_in(&mut db.retired[i], start, end, limit, each, skip),
            None => Err(corrupt("epoch is not retained")),
        }
    }
}

/// The first steps of a new store: its arena, durable before it is published.
pub open spec fn founding(steps: Seq<Step>) -> bool {
    &&& steps.len() == 4
    &&& steps[0] == (Step::Create { epoch: 0 })
    &&& steps[1] matches Step::Write { epoch, at, bytes } && epoch == 0 && at == 0 && bytes@
        == arena_mark()
    &&& steps[2] == (Step::Sync { epoch: 0 })
    &&& steps[3] == Step::SyncDirectory
}

/// The root of an empty store.
pub open spec fn first_root() -> Root {
    Root { generation: 0, epoch: 0, root: 0, end: 8, count: 0 }
}

impl Database {
    /// An empty store. What is to be carried out is added to `steps`, also where
    /// this fails.
    pub fn create(options: Options, steps: &mut Vec<Step>) -> (r: Result<Database, Error>)
        ensures
            !options.usable() ==> (r matches Err(e) && e@ == Fail::Budget(
                "nonzero budgets required"@,
            ) && final(steps)@ == old(steps)@),
            options.usable() ==> {
                let run = final(steps)@.skip(old(steps)@.len() as int);
                &&& r is Ok ==> spared(run, options.fail_at, 0)
                &&& r matches Err(e) ==> struck(run, options.fail_at, 0) && e@ == injected(run)
            },
            options.usable() ==> {
                let n = old(steps)@.len() as int;
                &&& final(steps)@.len() >= n + 4
                &&& final(steps)@.take(n) == old(steps)@
                &&& founding(final(steps)@.subrange(n, n + 4))
                &&& forall|k: int|
                    n + 4 <= k < final(steps)@.len() ==> super::publication::publishes(
                        #[trigger] final(steps)@[k],
                        k - n - 4,
                        manifest_bytes(options.packed_pages, first_root()),
                    )
                &&& r is Ok ==> final(steps)@.len() == n + 12
            },
            r matches Ok(db) ==> {
                &&& db.wf()
                &&& !db.poisoned
                &&& db.options == options
                &&& db.view == version(first_root(), options.packed_pages, options.scan_bytes)
                &&& db.holds(Seq::empty())
                &&& db.current.image@ == arena_mark()
                &&& db.steps@.len() == 0
                &&& db.retired@.len() == 0
                &&& db.journal@ == (JournalView { changes: Seq::empty(), floor: 0 })
            },
    {
        validate_options(&options)?;
        let ghost start = steps@;
        let mark = arena_mark_bytes();
        let image = arena_mark_bytes();
        steps.push(Step::Create { epoch: 0 });
        steps.push(Step::Write { epoch: 0, at: 0, bytes: mark });
        steps.push(Step::Sync { epoch: 0 });
        steps.push(Step::SyncDirectory);
        let root = Root { generation: 0, epoch: 0, root: 0, end: 8, count: 0 };
        let mut fault = Fault::new(&options);
        let ghost before = steps@;
        let r = publish(&mut fault, steps, options.packed_pages, root);
        proof {
            let n = start.len() as int;
            assert(steps@.take(n) =~= before.take(n));
            assert(before.take(n) =~= start);
            assert(steps@.subrange(n, n + 4) =~= steps@.take(n + 4).subrange(n, n + 4));
            assert(before.subrange(n, n + 4).len() == 4);
            let first = before.skip(n);
            let rest = steps@.skip(n + 4);
            assert(steps@.skip(n) =~= first + rest) by {
                assert(steps@.take(n + 4) =~= before);
                assert forall|i: int| 0 <= i < 4 implies #[trigger] steps@[n + i] == first[i] by {
                    assert(steps@.take(n + 4)[n + i] == before[n + i]);
                }
            }
            reveal_with_fuel(reached, 5);
            assert(reached(first) == 0);
            reveal(spared);
            super::effects::struck_behind(first, rest, options.fail_at, 0);
        }
        r?;
        let current = Epoch::new(0, image, options.cache_bytes, options.value_cache);
        let view = Snapshot { root, packed: options.packed_pages, scan_budget: options.scan_bytes };
        proof {
            empty_held(view, current.image@);
        }
        Ok(
            Database {
                options,
                view,
                current,
                retired: Vec::new(),
                poisoned: false,
                journal: Journal::new(0),
                steps: Vec::new(),
                copied: 0,
            },
        )
    }

    /// Opens a store from its manifest and the arena that the manifest names.
    /// What lies behind the committed end is left out.
    pub fn open(manifest: &[u8], arena: Vec<u8>, options: Options) -> (r: Result<Database, Error>)
        ensures
            r matches Ok(db) ==> {
                &&& opens(manifest@, arena@, options)
                &&& db.wf()
                &&& !db.poisoned
                &&& db.options == options
                &&& manifest_of(manifest@) matches Ok((root, packed)) && db.view == version(
                    root,
                    packed,
                    options.scan_bytes,
                )
                &&& db.current.image@ == arena@.take(db.view.root.end as int)
                &&& db.steps@.len() == 0
                &&& db.retired@.len() == 0
                &&& db.journal@ == (JournalView {
                    changes: Seq::empty(),
                    floor: db.view.root.generation,
                })
            },
            r is Ok <==> opens(manifest@, arena@, options),
            r matches Err(e) ==> !options.usable() ==> e@ == Fail::Budget(
                "nonzero budgets required"@,
            ),
            r matches Err(e) ==> options.usable() ==> (manifest_of(manifest@) matches Err(x)
                ==> e@ == x),
            r matches Err(e) ==> options.usable() ==> (manifest_of(manifest@) matches Ok((root, _))
                ==> (arena@.len() < root.end ==> e@ == Fail::Corrupt(
                "arena shorter than committed end"@,
            )) && (arena@.len() >= root.end && arena@.take(8) != arena_mark() ==> e@
                == Fail::Corrupt("arena magic"@)) && (arena@.len() >= root.end && arena@.take(8)
                == arena_mark() ==> unreadable(e@))),
    {
        validate_options(&options)?;
        let (root, packed) = read_manifest(manifest)?;
        let size: usize = arena.len();
        if (size as u64) < root.end {
            return Err(corrupt("arena shorter than committed end"));
        }
        let all: &[u8] = arena.as_slice();
        let mark = arena_mark_bytes();
        let head: &[u8] = vstd::slice::slice_subrange(all, 0, 8);
        assert(head@ =~= arena@.take(8));
        if !super::bytes::same(head, mark.as_slice()) {
            return Err(corrupt("arena magic"));
        }
        let part: &[u8] = vstd::slice::slice_subrange(all, 0, root.end as usize);
        let image = super::bytes::copy(part);
        assert(image@ =~= arena@.take(root.end as int));
        let mut current = Epoch::new(root.epoch, image, options.cache_bytes, options.value_cache);
        if root.root != 0 {
            let node = current.node(root.root, root.end)?;
        }
        let view = Snapshot { root, packed, scan_budget: options.scan_bytes };
        Ok(
            Database {
                options,
                view,
                current,
                retired: Vec::new(),
                poisoned: false,
                journal: Journal::new(root.generation),
                steps: Vec::new(),
                copied: 0,
            },
        )
    }

    pub fn snapshot(&self) -> (r: Result<Snapshot, Error>)
        ensures
            self.poisoned ==> (r matches Err(e) && e@ == Fail::Poisoned),
            !self.poisoned ==> (r matches Ok(s) && s == self.view),
    {
        if self.poisoned {
            return Err(Error::Poisoned);
        }
        Ok(self.view)
    }

    /// The committed value of a key.
    pub fn get(&mut self, key: &[u8]) -> (r: Result<Option<Vec<u8>>, Error>)
        requires
            old(self).wf(),
        ensures
            final(self).wf(),
            final(self).same_store(*old(self)),
            old(self).poisoned ==> (r matches Err(e) && e@ == Fail::Poisoned),
            !old(self).poisoned && key@.len() > MAX_KEY ==> (r matches Err(x) && x@
                == Fail::Budget("key exceeds 4096 bytes"@)),
            !old(self).poisoned && key@.len() <= MAX_KEY ==> (r matches Err(x) ==> unreadable(x@)),
            r matches Ok(x) ==> old(self).view.value_back(old(self).current.image@, key@) == Some(
                bytes_of(x),
            ),
            r is Ok ==> old(self).view.reads_value(
                old(self).current.image@,
                key@,
                old(self).options.value_cache,
                old(self).current.cache@,
                final(self).current.cache@,
            ),
            !old(self).poisoned && key@.len() <= MAX_KEY ==> forall|want: Seq<(Seq<u8>, Version)>|
                #![trigger old(self).holds(want)]
                old(self).holds(want) ==> match lookup(want, key@) {
                    Some(v) => r matches Ok(Some(x)) && x@ == v.0,
                    None => r matches Ok(None),
                },
    {
        let view = self.snapshot()?;
        let r = view.get(self, key);
        assert forall|want: Seq<(Seq<u8>, Version)>|
            #![trigger old(self).holds(want)]
            old(self).holds(want) && key@.len() <= MAX_KEY implies match lookup(want, key@) {
            Some(v) => r matches Ok(Some(x)) && x@ == v.0,
            None => r matches Ok(None),
        } by {
            assert(view.holds(old(self).arena(view.root.epoch)->0, want));
        }
        r
    }

    /// The committed rows whose keys start with a prefix.
    pub fn scan_prefix(&mut self, prefix: &[u8]) -> (r: Result<Vec<Entry>, Error>)
        requires
            old(self).wf(),
        ensures
            final(self).wf(),
            final(self).same_store(*old(self)),
            final(self).admitted_only_nodes(*old(self)),
            old(self).poisoned ==> (r matches Err(e) && e@ == Fail::Poisoned),
            !old(self).poisoned && bad_bounds(prefix@, prefix_bound(prefix@)) ==> (
            r matches Err(x) && x@ == Fail::Budget("invalid range bounds"@)),
            r matches Ok(v) ==> old(self).view.range_back(
                old(self).current.image@,
                prefix@,
                prefix_bound(prefix@),
                Seq::empty(),
            ) == Some(entries(v@)),
            r matches Ok(v) ==> charge(entries(v@), 64) <= old(self).options.scan_bytes,
            !old(self).poisoned && !bad_bounds(prefix@, prefix_bound(prefix@)) ==> (
            r matches Err(x) ==> unreadable(x@) || x@ == Fail::Budget(
                "scan output exceeds configured budget"@,
            )),
            !old(self).poisoned && !bad_bounds(prefix@, prefix_bound(prefix@)) ==> forall|
                want: Seq<(Seq<u8>, Version)>,
            |
                #![trigger old(self).holds(want)]
                old(self).holds(want) ==> {
                    let out = values_of(range(want, prefix@, prefix_bound(prefix@)));
                    if charge(out, 64) <= old(self).options.scan_bytes {
                        r matches Ok(v) && entries(v@) == out
                    } else {
                        r matches Err(f) && f@ == Fail::Budget(
                            "scan output exceeds configured budget"@,
                        )
                    }
                },
    {
        let view = self.snapshot()?;
        let r = view.scan_prefix(self, prefix);
        assert forall|want: Seq<(Seq<u8>, Version)>|
            #![trigger old(self).holds(want)]
            old(self).holds(want) && !bad_bounds(prefix@, prefix_bound(prefix@)) implies {
            let out = values_of(range(want, prefix@, prefix_bound(prefix@)));
            if charge(out, 64) <= old(self).options.scan_bytes {
                r matches Ok(v) && entries(v@) == out
            } else {
                r matches Err(f) && f@ == Fail::Budget("scan output exceeds configured budget"@)
            }
        } by {
            assert(view.holds(old(self).arena(view.root.epoch)->0, want));
        }
        r
    }

    /// Forgets everything that is cached of the current arena.
    pub fn clear_cache(&mut self)
        requires
            old(self).wf(),
        ensures
            final(self).wf(),
            final(self).same_store(*old(self)),
            final(self).current.cache@.items == Map::<u64, super::cache::ItemView>::empty(),
            final(self).retired == old(self).retired,
    {
        self.current.cache.clear();
    }

    /// What is to be carried out, handed over.
    pub fn take_steps(&mut self) -> (steps: Vec<Step>)
        requires
            old(self).wf(),
        ensures
            final(self).wf(),
            final(self).steps@.len() == 0,
            steps == old(self).steps,
            *final(self) == (Database { steps: final(self).steps, ..*old(self) }),
    {
        let mut steps: Vec<Step> = Vec::new();
        std::mem::swap(&mut steps, &mut self.steps);
        steps
    }

    /// Notes that something that was asked for could not be carried out: what is
    /// on disk is uncertain from here on.
    pub fn poison(&mut self)
        requires
            old(self).wf(),
        ensures
            final(self).wf(),
            final(self).poisoned,
            *final(self) == (Database { poisoned: true, ..*old(self) }),
    {
        self.poisoned = true;
    }
}

/// An empty arena holds no rows.
proof fn empty_held(view: Snapshot, image: Seq<u8>)
    requires
        view.root == first_root(),
    ensures
        view.holds(image, Seq::empty()),
{
    super::arena::tree_empty(image, 8);
    let rows = (super::arena::tree_at(image, 8, 0u64)->0).rows();
    assert(rows =~= Seq::empty());
    assert(super::fences::flat(image, 8, 0u64, rows) =~= Seq::empty());
}

/// Whether a manifest and an arena can be opened.
pub open spec fn opens(manifest: Seq<u8>, arena: Seq<u8>, options: Options) -> bool {
    &&& options.usable()
    &&& manifest_of(manifest) matches Ok((root, _)) && {
        &&& arena.len() >= root.end
        &&& arena.take(8) == arena_mark()
        &&& root.root != 0 ==> super::arena::node_at(
            arena.take(root.end as int),
            root.end as int,
            root.root as int,
        ) is Ok
    }
}

} // verus!
