//! Serializable optimistic transactions. Reads go to one immutable version;
//! commit checks that nothing that was read has changed since.
use vstd::prelude::*;

use super::arena::unreadable;
use super::bytes::{before, copy, lt};
use super::commit::{begun, held_sorted, version};
use super::contents::{applied, stageable, Change, Version};
use super::database::{keeps_arenas, Database};
use super::effects::{spared, stopped, Stage, Step};
use super::journal::{
    every_write_warns, of_interest, undisturbed_reads_repeat, written_keys, JournalView, Range,
};
use super::keymap::KeyMap;
use super::model::{budget, entries, Entry, Error, Fail, Root, MAX_KEY, MAX_VALUE};
use super::rows::{lookup, lookup_finds, present, put, put_meaning, range, rank_splits, sorted};
use super::scan::{bound_of, charge, kept, values_of};
use super::search::{prefix_bound, prefix_end};
use super::snapshot::{bytes_of, revision_of, Snapshot};
use super::staging::{
    merged, merged_charge, merged_is_seen, merged_sorted, ordered, ordered_sorted, seen,
    staged_charge, staged_charge_grows, total_bounds, total_of, total_put, total_splits,
};
use super::update::{added, appended, laid_out, updating};

verus! {

broadcast use super::cache::group_nodes_only;

/// A call on a transaction that succeeded, or one that changed nothing.
pub enum Call {
    Got { key: Seq<u8> },
    Staged { key: Seq<u8>, change: Change },
    Scanned { start: Seq<u8>, end: Option<Seq<u8>> },
    Refused,
}

impl Call {
    /// Whether the call reads or writes a key by its name.
    pub open spec fn names(self, key: Seq<u8>) -> bool {
        match self {
            Call::Got { key: k } => k == key,
            Call::Staged { key: k, .. } => k == key,
            _ => false,
        }
    }
}

/// A transaction: the version it reads, what it read, and what it staged.
pub struct Transaction {
    pub snapshot: Snapshot,
    pub reads: KeyMap<u64>,
    pub ranges: Vec<Range>,
    pub writes: KeyMap<Option<Vec<u8>>>,
    pub bytes: usize,
}

/// What remembering a read costs.
pub open spec fn read_weight() -> spec_fn((Seq<u8>, u64)) -> int {
    |r: (Seq<u8>, u64)| r.0.len() + 128int
}

/// What a staged write costs.
pub open spec fn write_weight() -> spec_fn((Seq<u8>, Change)) -> int {
    |w: (Seq<u8>, Change)|
        w.0.len() + (match w.1 {
            Some(v) => v.len() as int,
            None => 0int,
        }) + 192
}

/// What remembering a range costs.
pub open spec fn range_weight() -> spec_fn((Seq<u8>, Option<Seq<u8>>)) -> int {
    |r: (Seq<u8>, Option<Seq<u8>>)|
        r.0.len() + (match r.1 {
            Some(e) => e.len() as int,
            None => 0int,
        }) + 128
}

/// Ranges as plain values.
pub open spec fn spans(ranges: Seq<Range>) -> Seq<(Seq<u8>, Option<Seq<u8>>)> {
    ranges.map_values(|r: Range| r@)
}

impl Transaction {
    /// What the whole transaction is charged for.
    pub open spec fn charged(self) -> int {
        total_of(self.reads@, read_weight()) + total_of(self.writes@, write_weight()) + total_of(
            spans(self.ranges@),
            range_weight(),
        )
    }

    pub open spec fn wf(self) -> bool {
        &&& self.reads.wf()
        &&& self.writes.wf()
        &&& stageable(self.writes@)
        &&& forall|i: int| 0 <= i < self.reads@.len() ==> (#[trigger] self.reads@[i]).0.len() <= MAX_KEY
        &&& forall|k: Seq<u8>| present(self.writes@, k) ==> present(self.reads@, k)
        &&& self.bytes == self.charged()
    }

    /// What a call does to a transaction.
    pub open spec fn did(self, from: Transaction, call: Call) -> bool {
        &&& self.snapshot == from.snapshot
        &&& match call {
            Call::Got { key } => {
                &&& forall|k: Seq<u8>|
                    present(self.reads@, k) <==> #[trigger] present(from.reads@, k) || k == key
                &&& self.writes@ == from.writes@
                &&& spans(self.ranges@) == spans(from.ranges@)
            },
            Call::Staged { key, change } => {
                &&& forall|k: Seq<u8>|
                    present(self.reads@, k) <==> #[trigger] present(from.reads@, k) || k == key
                &&& self.writes@ == put(from.writes@, key, change)
                &&& spans(self.ranges@) == spans(from.ranges@)
            },
            Call::Scanned { start, end } => {
                &&& self.reads@ == from.reads@
                &&& self.writes@ == from.writes@
                &&& spans(self.ranges@) == spans(from.ranges@).push((start, end))
            },
            Call::Refused => self == from,
        }
    }

    /// Whether the version that this transaction reads has these contents.
    pub open spec fn reads_from(self, db: Database, want: Seq<(Seq<u8>, Version)>) -> bool {
        &&& db.arena(self.snapshot.root.epoch) is Some
        &&& self.snapshot.holds(db.arena(self.snapshot.root.epoch)->0, want)
    }

    /// Whether a key was remembered between two states of a transaction, with the revision that
    /// its version gives it.
    pub open spec fn remembers_too(self, from: Transaction, db: Database, key: Seq<u8>) -> bool {
        &&& db.arena(from.snapshot.root.epoch) is Some
        &&& from.snapshot.revision_back(
            db.arena(from.snapshot.root.epoch)->0,
            key,
        ) matches Some(g) && self.reads@ == put(from.reads@, key, g)
    }

    /// Whether every remembered revision is that of these contents.
    pub open spec fn remembers(self, want: Seq<(Seq<u8>, Version)>) -> bool {
        forall|i: int|
            0 <= i < self.reads@.len() ==> (#[trigger] self.reads@[i]).1 == revision_of(
                want,
                self.reads@[i].0,
            )
    }

    /// A transaction on the committed version.
    pub fn new(db: &Database) -> (r: Result<Transaction, Error>)
        requires
            db.wf(),
        ensures
            db.poisoned ==> (r matches Err(e) && e@ == Fail::Poisoned),
            !db.poisoned ==> (r matches Ok(t) && {
                &&& t.wf()
                &&& t.snapshot == db.view
                &&& t.reads@.len() == 0
                &&& t.ranges@.len() == 0
                &&& t.writes@.len() == 0
                &&& t.bytes == 0
            }),
    {
        let snapshot = db.snapshot()?;
        let t = Transaction {
            snapshot,
            reads: KeyMap::new(),
            ranges: Vec::new(),
            writes: KeyMap::new(),
            bytes: 0,
        };
        assert(spans(t.ranges@) =~= Seq::empty());
        Ok(t)
    }

    pub fn generation(&self) -> (g: u64)
        ensures
            g == self.snapshot.root.generation,
    {
        self.snapshot.root.generation
    }

    pub fn staged_bytes(&self) -> (n: usize)
        ensures
            n == self.bytes,
            self.wf() ==> n == self.charged(),
    {
        self.bytes
    }

    /// Remembers the revision of a key, unless it is remembered already.
    fn capture(&mut self, db: &mut Database, key: &[u8]) -> (r: Result<(), Error>)
        requires
            old(self).wf(),
            old(db).wf(),
            key@.len() <= MAX_KEY,
        ensures
            final(self).wf(),
            final(db).wf(),
            final(db).same_store(*old(db)),
            final(self).snapshot == old(self).snapshot,
            final(self).ranges == old(self).ranges,
            final(self).writes == old(self).writes,
            r is Err ==> *final(self) == *old(self),
            present(old(self).reads@, key@) ==> r is Ok && *final(self) == *old(self),
            !present(old(self).reads@, key@) ==> {
                &&& old(self).bytes + key@.len() + 128 > old(db).options.transaction_bytes ==> (
                r matches Err(e) && e@ == Fail::Budget(
                    "transaction staging/read metadata exceeds budget"@,
                ))
                &&& r is Ok ==> {
                    &&& final(self).bytes == old(self).bytes + key@.len() + 128
                    &&& final(self).remembers_too(*old(self), *old(db), key@)
                }
            },
            r is Ok ==> present(final(self).reads@, key@),
            forall|want: Seq<(Seq<u8>, Version)>|
                #![trigger old(self).reads_from(*old(db), want)]
                old(self).reads_from(*old(db), want) ==> {
                    &&& old(self).remembers(want) ==> final(self).remembers(want)
                    &&& !present(old(self).reads@, key@) && r is Ok ==> final(self).reads@ == put(
                        old(self).reads@,
                        key@,
                        revision_of(want, key@),
                    )
                    &&& r is Err ==> old(self).bytes + key@.len() + 128
                        > old(db).options.transaction_bytes
                },
    {
        let ghost start = *self;
        if self.reads.contains_key(key) {
            return Ok(());
        }
        let size: u128 = self.bytes as u128 + key.len() as u128 + 128;
        if size > db.options.transaction_bytes as u128 {
            return Err(budget("transaction staging/read metadata exceeds budget"));
        }
        let ghost from = self.snapshot;
        let revision = self.snapshot.revision(db, key)?;
        self.reads.insert(copy(key), revision);
        self.bytes = size as usize;
        proof {
            put_meaning(start.reads@, key@, revision);
            total_put(start.reads@, key@, revision, read_weight());
            lookup_finds(start.reads@, key@);
            remembered(start.reads@, key@, revision);
            assert forall|k: Seq<u8>| present(self.writes@, k) implies present(self.reads@, k) by {
                assert(present(start.reads@, k));
                lookup_finds(start.reads@, k);
                lookup_finds(self.reads@, k);
                assert(lookup(self.reads@, k) == if k == key@ {
                    Some(revision)
                } else {
                    lookup(start.reads@, k)
                });
            }
            lookup_finds(self.reads@, key@);
            assert(lookup(self.reads@, key@) == Some(revision));
            assert forall|want: Seq<(Seq<u8>, Version)>| #[trigger]
                start.reads_from(*old(db), want) implies revision == revision_of(want, key@) by {
                assert(from.holds(old(db).arena(from.root.epoch)->0, want));
            }
        }
        Ok(())
    }
}

/// Whose names are there behind a `put`.
proof fn names_grow<T>(s: Seq<(Seq<u8>, T)>, key: Seq<u8>, value: T)
    requires
        sorted(s),
    ensures
        forall|k: Seq<u8>|
            present(put(s, key, value), k) <==> #[trigger] present(s, k) || k == key,
{
    let p = put(s, key, value);
    put_meaning(s, key, value);
    assert forall|k: Seq<u8>| present(p, k) <==> #[trigger] present(s, k) || k == key by {
        lookup_finds(s, k);
        lookup_finds(p, k);
        assert(lookup(p, k) == if k == key {
            Some(value)
        } else {
            lookup(s, k)
        });
    }
}

/// Every row behind a `put` is an old one or the new one.
proof fn remembered<T>(s: Seq<(Seq<u8>, T)>, key: Seq<u8>, value: T)
    requires
        sorted(s),
    ensures
        forall|i: int|
            0 <= i < put(s, key, value).len() ==> (#[trigger] put(s, key, value)[i]) == (key, value)
                || exists|j: int| 0 <= j < s.len() && s[j] == put(s, key, value)[i],
{
    let p = put(s, key, value);
    let r = super::rows::rank(s, key) as int;
    let a = super::rows::rank_after(s, key);
    rank_splits(s, key);
    assert forall|i: int| 0 <= i < p.len() implies (#[trigger] p[i]) == (key, value) || exists|j: int|
        0 <= j < s.len() && s[j] == p[i] by {
        if i < r {
            assert(p[i] == s[i]);
        } else if i > r {
            assert(p[i] == s[a + i - r - 1]);
        }
    }
}

/// The value of a key that a transaction sees.
pub open spec fn visible(
    want: Seq<(Seq<u8>, Version)>,
    writes: Seq<(Seq<u8>, Change)>,
    key: Seq<u8>,
) -> Option<Seq<u8>> {
    match lookup(writes, key) {
        Some(change) => change,
        None => match lookup(want, key) {
            Some(v) => Some(v.0),
            None => None,
        },
    }
}

/// A copy of an optional value.
fn duplicate(v: &Option<Vec<u8>>) -> (r: Option<Vec<u8>>)
    ensures
        match *v {
            Some(x) => r matches Some(y) && y@ == x@,
            None => r is None,
        },
{
    match v {
        Some(x) => Some(copy(x.as_slice())),
        None => None,
    }
}

/// What a staged change is as a plain value.
proof fn change_view(v: Option<Vec<u8>>)
    ensures
        v.deep_view() == (match v {
            Some(x) => Some(x@),
            None => None::<Seq<u8>>,
        }),
{
    if let Some(x) = v {
        assert(x.deep_view() =~= x@);
    }
}

impl Transaction {
    /// The value of a key, as this transaction sees it.
    pub fn get(&mut self, db: &mut Database, key: &[u8]) -> (r: Result<Option<Vec<u8>>, Error>)
        requires
            old(self).wf(),
            old(db).wf(),
        ensures
            final(self).wf(),
            final(db).wf(),
            final(db).same_store(*old(db)),
            final(self).snapshot == old(self).snapshot,
            final(self).ranges == old(self).ranges,
            final(self).writes == old(self).writes,
            key@.len() > MAX_KEY ==> (r matches Err(e) && e@ == Fail::Budget(
                "key exceeds 4096 bytes"@,
            )) && *final(self) == *old(self),
            r is Ok ==> present(final(self).reads@, key@),
            r is Ok ==> final(self).did(*old(self), Call::Got { key: key@ }),
            r matches Err(e) ==> (e@ is Budget ==> *final(self) == *old(self)),
            final(self).bytes <= old(self).bytes || final(self).bytes
                <= old(db).options.transaction_bytes,
            key@.len() <= MAX_KEY && !present(old(self).reads@, key@) && old(self).bytes
                + key@.len() + 128 > old(db).options.transaction_bytes ==> (r matches Err(e) && e@
                == Fail::Budget("transaction staging/read metadata exceeds budget"@))
                && *final(self) == *old(self),
            present(old(self).reads@, key@) ==> final(self).reads == old(self).reads
                && final(self).bytes == old(self).bytes,
            !present(old(self).reads@, key@) && r is Ok ==> final(self).bytes == old(self).bytes
                + key@.len() + 128,
            !present(old(self).reads@, key@) && r is Ok ==> final(self).remembers_too(
                *old(self),
                *old(db),
                key@,
            ),
            !present(old(self).reads@, key@) && r is Err ==> *final(self) == *old(self)
                || final(self).remembers_too(*old(self), *old(db), key@),
            r matches Ok(v) ==> match lookup(old(self).writes@, key@) {
                Some(change) => bytes_of(v) == change,
                None => old(db).arena(old(self).snapshot.root.epoch) is Some && old(
                    self,
                ).snapshot.value_back(
                    old(db).arena(old(self).snapshot.root.epoch)->0,
                    key@,
                ) == Some(bytes_of(v)),
            },
            forall|want: Seq<(Seq<u8>, Version)>|
                #![trigger old(self).reads_from(*old(db), want)]
                old(self).reads_from(*old(db), want) && key@.len() <= MAX_KEY ==> {
                    &&& old(self).remembers(want) ==> final(self).remembers(want)
                    &&& present(old(self).reads@, key@) || old(self).bytes + key@.len() + 128
                        <= old(db).options.transaction_bytes ==> (r matches Ok(v) && (match v {
                        Some(x) => Some(x@),
                        None => None::<Seq<u8>>,
                    }) == visible(want, old(self).writes@, key@))
                },
    {
        if key.len() > MAX_KEY {
            return Err(budget("key exceeds 4096 bytes"));
        }
        let ghost db0 = *db;
        let ghost start = *self;
        self.capture(db, key)?;
        proof {
            if !present(start.reads@, key@) {
                let g = start.snapshot.revision_back(
                    db0.arena(start.snapshot.root.epoch)->0,
                    key@,
                )->0;
                names_grow(start.reads@, key@, g);
            }
            assert(self.did(start, Call::Got { key: key@ }));
            lookup_finds(self.writes@, key@);
            super::database::reading_keeps_arenas(db0, *db, self.snapshot.root.epoch);
        }
        if let Some(v) = self.writes.get(key) {
            proof {
                change_view(*v);
            }
            return Ok(duplicate(v));
        }
        let ghost image = db.arena(self.snapshot.root.epoch);
        let r = self.snapshot.get(db, key);
        proof {
            assert forall|want: Seq<(Seq<u8>, Version)>| #[trigger]
                start.reads_from(db0, want) implies (r matches Ok(v) && (match v {
                Some(x) => Some(x@),
                None => None::<Seq<u8>>,
            }) == visible(want, start.writes@, key@)) by {
                assert(start.snapshot.holds(image->0, want));
            }
        }
        r
    }

    #[verifier::rlimit(40)]
    /// Stages a change of a key.
    fn stage(&mut self, db: &mut Database, key: Vec<u8>, value: Option<Vec<u8>>) -> (r: Result<
        (),
        Error,
    >)
        requires
            old(self).wf(),
            old(db).wf(),
            value matches Some(v) ==> v@.len() <= MAX_VALUE,
        ensures
            final(self).wf(),
            final(db).wf(),
            final(db).same_store(*old(db)),
            final(self).snapshot == old(self).snapshot,
            final(self).ranges == old(self).ranges,
            key@.len() > MAX_KEY ==> (r matches Err(e) && e@ == Fail::Budget(
                "key exceeds 4096 bytes"@,
            )),
            r is Err ==> *final(self) == *old(self),
            r is Ok ==> {
                &&& final(self).did(
                    *old(self),
                    Call::Staged { key: key@, change: value.deep_view() },
                )
                &&& final(self).bytes <= old(db).options.transaction_bytes
                &&& final(self).writes@ == put(old(self).writes@, key@, value.deep_view())
                &&& final(self).bytes == staged_size(
                    *old(self),
                    key@,
                    value.deep_view(),
                )
                &&& present(final(self).reads@, key@)
                &&& if present(old(self).reads@, key@) {
                    final(self).reads@ == old(self).reads@
                } else {
                    final(self).remembers_too(*old(self), *old(db), key@)
                }
            },
            key@.len() <= MAX_KEY && staged_size(*old(self), key@, value.deep_view())
                > old(db).options.transaction_bytes ==> (r matches Err(e) && e@ == Fail::Budget(
                "transaction staging/read metadata exceeds budget"@,
            )),
            forall|want: Seq<(Seq<u8>, Version)>|
                #![trigger old(self).reads_from(*old(db), want)]
                old(self).reads_from(*old(db), want) ==> {
                    &&& old(self).remembers(want) ==> final(self).remembers(want)
                    &&& r is Err ==> key@.len() > MAX_KEY || staged_size(
                        *old(self),
                        key@,
                        value.deep_view(),
                    ) > old(db).options.transaction_bytes
                },
    {
        if key.len() > MAX_KEY {
            return Err(budget("key exceeds 4096 bytes"));
        }
        let ghost start = *self;
        let ghost change = value.deep_view();
        let ghost name = key@;
        proof {
            change_view(value);
            lookup_finds(self.writes@, name);
            staged_room(start, name);
        }
        let length: u128 = match &value {
            Some(v) => v.len() as u128,
            None => 0,
        };
        let replaced: u128 = match self.writes.get(key.as_slice()) {
            Some(v) => {
                proof {
                    change_view(*v);
                }
                key.len() as u128 + 192 + match v {
                    Some(x) => x.len() as u128,
                    None => 0,
                }
            },
            None => 0,
        };
        let read_charge: u128 = if self.reads.contains_key(key.as_slice()) {
            0
        } else {
            key.len() as u128 + 128
        };
        let size: u128 = self.bytes as u128 - replaced + key.len() as u128 + length + 192
            + read_charge;
        assert(size == staged_size(start, name, change));
        if size > db.options.transaction_bytes as u128 {
            return Err(budget("transaction staging/read metadata exceeds budget"));
        }
        self.capture(db, key.as_slice())?;
        let ghost read = *self;
        proof {
            if !present(start.reads@, name) {
                let g = start.snapshot.revision_back(
                    old(db).arena(start.snapshot.root.epoch)->0,
                    name,
                )->0;
                names_grow(start.reads@, name, g);
            }
        }
        self.writes.insert(key, value);
        self.bytes = size as usize;
        proof {
            put_meaning(start.writes@, name, change);
            total_put(start.writes@, name, change, write_weight());
            remembered(start.writes@, name, change);
            let ws = self.writes@;
            assert forall|i: int| 0 <= i < ws.len() implies (#[trigger] ws[i]).0.len() <= MAX_KEY && (
            ws[i].1 matches Some(v) ==> v.len() <= MAX_VALUE) by {
                if ws[i] != (name, change) {
                    let j = choose|j: int| 0 <= j < start.writes@.len() && start.writes@[j] == ws[i];
                    assert(start.writes@[j].0.len() <= MAX_KEY);
                }
            }
            assert forall|k: Seq<u8>| present(ws, k) implies present(self.reads@, k) by {
                lookup_finds(ws, k);
                lookup_finds(start.writes@, k);
                assert(lookup(ws, k) == if k == name {
                    Some(change)
                } else {
                    lookup(start.writes@, k)
                });
                if k != name {
                    assert(present(start.writes@, k));
                    assert(present(read.writes@, k));
                }
            }
        }
        Ok(())
    }

    /// Stages a value for a key.
    pub fn set(&mut self, db: &mut Database, key: Vec<u8>, value: Vec<u8>) -> (r: Result<(), Error>)
        requires
            old(self).wf(),
            old(db).wf(),
        ensures
            final(self).wf(),
            final(db).wf(),
            final(db).same_store(*old(db)),
            final(self).snapshot == old(self).snapshot,
            final(self).ranges == old(self).ranges,
            r is Err ==> *final(self) == *old(self),
            value@.len() > MAX_VALUE ==> (r matches Err(e) && e@ == Fail::Budget(
                "value exceeds 16 MiB"@,
            )),
            value@.len() <= MAX_VALUE && key@.len() > MAX_KEY ==> (r matches Err(e) && e@
                == Fail::Budget("key exceeds 4096 bytes"@)),
            value@.len() <= MAX_VALUE && key@.len() <= MAX_KEY && staged_size(
                *old(self),
                key@,
                Some(value@),
            ) > old(db).options.transaction_bytes ==> (r matches Err(e) && e@ == Fail::Budget(
                "transaction staging/read metadata exceeds budget"@,
            )),
            r is Ok ==> {
                &&& final(self).did(
                    *old(self),
                    Call::Staged { key: key@, change: Some(value@) },
                )
                &&& final(self).bytes <= old(db).options.transaction_bytes
                &&& final(self).writes@ == put(old(self).writes@, key@, Some(value@))
                &&& final(self).bytes == staged_size(*old(self), key@, Some(value@))
                &&& present(final(self).reads@, key@)
                &&& if present(old(self).reads@, key@) {
                    final(self).reads@ == old(self).reads@
                } else {
                    final(self).remembers_too(*old(self), *old(db), key@)
                }
            },
            forall|want: Seq<(Seq<u8>, Version)>|
                #![trigger old(self).reads_from(*old(db), want)]
                old(self).reads_from(*old(db), want) ==> {
                    &&& old(self).remembers(want) ==> final(self).remembers(want)
                    &&& r is Err ==> value@.len() > MAX_VALUE || key@.len() > MAX_KEY
                        || staged_size(*old(self), key@, Some(value@))
                        > old(db).options.transaction_bytes
                },
    {
        if value.len() > MAX_VALUE {
            return Err(budget("value exceeds 16 MiB"));
        }
        let change = Some(value);
        proof {
            change_view(change);
        }
        self.stage(db, key, change)
    }

    /// Stages the removal of a key.
    pub fn delete(&mut self, db: &mut Database, key: Vec<u8>) -> (r: Result<(), Error>)
        requires
            old(self).wf(),
            old(db).wf(),
        ensures
            final(self).wf(),
            final(db).wf(),
            final(db).same_store(*old(db)),
            final(self).snapshot == old(self).snapshot,
            final(self).ranges == old(self).ranges,
            r is Err ==> *final(self) == *old(self),
            key@.len() > MAX_KEY ==> (r matches Err(e) && e@ == Fail::Budget(
                "key exceeds 4096 bytes"@,
            )),
            key@.len() <= MAX_KEY && staged_size(*old(self), key@, None)
                > old(db).options.transaction_bytes ==> (r matches Err(e) && e@ == Fail::Budget(
                "transaction staging/read metadata exceeds budget"@,
            )),
            r is Ok ==> {
                &&& final(self).did(*old(self), Call::Staged { key: key@, change: None })
                &&& final(self).bytes <= old(db).options.transaction_bytes
                &&& final(self).writes@ == put(old(self).writes@, key@, None)
                &&& final(self).bytes == staged_size(*old(self), key@, None)
                &&& present(final(self).reads@, key@)
                &&& if present(old(self).reads@, key@) {
                    final(self).reads@ == old(self).reads@
                } else {
                    final(self).remembers_too(*old(self), *old(db), key@)
                }
            },
            forall|want: Seq<(Seq<u8>, Version)>|
                #![trigger old(self).reads_from(*old(db), want)]
                old(self).reads_from(*old(db), want) ==> {
                    &&& old(self).remembers(want) ==> final(self).remembers(want)
                    &&& r is Err ==> key@.len() > MAX_KEY || staged_size(*old(self), key@, None)
                        > old(db).options.transaction_bytes
                },
    {
        let change: Option<Vec<u8>> = None;
        proof {
            change_view(change);
        }
        self.stage(db, key, change)
    }
}

/// What a transaction is charged once a change is staged.
pub open spec fn staged_size(t: Transaction, key: Seq<u8>, change: Change) -> int {
    t.bytes + write_weight()((key, change)) - (match lookup(t.writes@, key) {
        Some(old) => write_weight()((key, old)),
        None => 0int,
    }) + if present(t.reads@, key) {
        0int
    } else {
        key.len() + 128int
    }
}

/// What is already staged for a key is part of the charge.
proof fn staged_room(t: Transaction, key: Seq<u8>)
    requires
        t.wf(),
    ensures
        lookup(t.writes@, key) matches Some(old) ==> t.bytes >= write_weight()((key, old)),
{
    let ws = t.writes@;
    let r = super::rows::rank(ws, key) as int;
    rank_splits(ws, key);
    total_bounds(ws, write_weight(), r);
    total_bounds(t.reads@, read_weight(), -1);
    total_bounds(spans(t.ranges@), range_weight(), -1);
}

/// Rows in key order, of two with one key the later.
fn in_order(found: Vec<Entry>) -> (out: Vec<Entry>)
    ensures
        entries(out@) == ordered(entries(found@)),
{
    let ghost rows = entries(found@);
    let mut out: Vec<Entry> = Vec::new();
    assert(rows.take(0) =~= Seq::empty());
    assert(entries(out@) =~= ordered(rows.take(0)));
    for entry in iter: found
        invariant
            iter.seq() == found@,
            rows == entries(found@),
            entries(out@) == ordered(rows.take(iter.index() as int)),
    {
        let ghost i = iter.index() as int;
        proof {
            assert(rows.take(i + 1).drop_last() =~= rows.take(i));
            assert(rows.take(i + 1).last() == entry@);
            ordered_sorted(rows.take(i));
        }
        insert_entry(&mut out, entry);
    }
    assert(rows.take(rows.len() as int) =~= rows);
    out
}

/// Rows with the staged writes of a range put over them, as a list; nothing
/// where what was found and what is staged cost more than the limit.
#[verifier::rlimit(40)]
fn merge_staged(
    found: Vec<Entry>,
    cost: usize,
    writes: &KeyMap<Option<Vec<u8>>>,
    start: &[u8],
    end: Option<&[u8]>,
    limit: usize,
) -> (r: Option<Vec<Entry>>)
    requires
        writes.wf(),
        cost <= limit,
    ensures
        r is Some <==> cost + staged_charge(writes@, writes@.len(), start@, bound_of(end), 128)
            <= limit,
        r matches Some(v) ==> entries(v@) == merged(
            ordered(entries(found@)),
            writes@,
            writes@.len(),
            start@,
            bound_of(end),
        ),
{
    let ghost rows = ordered(entries(found@));
    let ghost lo = start@;
    let ghost hi = bound_of(end);
    proof {
        ordered_sorted(entries(found@));
    }
    let mut out = in_order(found);
    let mut bytes: usize = cost;
    let mut i: usize = 0;
    let total: usize = writes.len();
    while i < total
        invariant
            writes.wf(),
            total == writes@.len(),
            i <= total,
            lo == start@,
            hi == bound_of(end),
            bytes <= limit,
            sorted(rows),
            entries(out@) == merged(rows, writes@, i as nat, lo, hi),
            bytes == cost + staged_charge(writes@, i as nat, lo, hi, 128),
        decreases total - i,
    {
        proof {
            merged_sorted(rows, writes@, i as nat, lo, hi);
            staged_charge_grows(writes@, (i + 1) as nat, total as nat, lo, hi, 128);
        }
        let key = writes.key_at(i);
        let inside = !before(key, start) && match end {
            Some(e) => before(key, e),
            None => true,
        };
        let value = writes.value_at(i);
        proof {
            change_view(*value);
        }
        if inside {
            if let Some(v) = value {
                let room: usize = limit - bytes;
                if key.len() > room || v.len() > room - key.len() || 128 > room - key.len()
                    - v.len() {
                    return None;
                }
                bytes = bytes + key.len() + v.len() + 128;
                let entry = Entry { key: copy(key), value: copy(v.as_slice()) };
                insert_entry(&mut out, entry);
            }
        }
        i = i + 1;
    }
    Some(out)
}

/// Puts an entry into its place, over one with the same key.
fn insert_entry(out: &mut Vec<Entry>, entry: Entry)
    requires
        sorted(entries(old(out)@)),
    ensures
        entries(final(out)@) == put(entries(old(out)@), entry.key@, entry.value@),
{
    broadcast use super::bytes::group_order;

    let ghost rows = entries(out@);
    let ghost key = entry.key@;
    let size: usize = out.len();
    let mut at: usize = size;
    while at > 0 && !before(out[at - 1].key.as_slice(), entry.key.as_slice())
        invariant
            at <= size,
            size == out@.len(),
            rows == entries(out@),
            key == entry.key@,
            at < size ==> !lt(rows[at as int].0, key),
        decreases at,
    {
        assert(rows[at - 1].0 == out@[at - 1].key@);
        at = at - 1;
    }
    proof {
        if at > 0 {
            assert(rows[at - 1].0 == out@[at - 1].key@);
        }
        super::rows::rank_is(rows, key, at as int);
    }
    let ghost one = entry@;
    if at < size && !before(entry.key.as_slice(), out[at].key.as_slice()) {
        assert(rows[at as int].0 == out@[at as int].key@);
        out[at] = entry;
    } else {
        assert(at < size ==> rows[at as int].0 == out@[at as int].key@);
        out.insert(at, entry);
    }
    assert(entries(out@) =~= put(rows, key, one.1));
}

impl Transaction {
    #[verifier::rlimit(60)]
    /// The rows of a half-open range, as this transaction sees them. No upper
    /// bound means that the range goes on to the end.
    pub fn scan(&mut self, db: &mut Database, start: &[u8], end: Option<&[u8]>) -> (r: Result<
        Vec<Entry>,
        Error,
    >)
        requires
            old(self).wf(),
            old(db).wf(),
        ensures
            final(self).wf(),
            final(db).wf(),
            final(db).same_store(*old(db)),
            final(db).admitted_only_nodes(*old(db)),
            final(self).snapshot == old(self).snapshot,
            final(self).reads == old(self).reads,
            final(self).writes == old(self).writes,
            r is Err ==> *final(self) == *old(self),
            long_bounds(start@, bound_of(end)) ==> (r matches Err(e) && e@ == Fail::Budget(
                "key exceeds 4096 bytes"@,
            )),
            !long_bounds(start@, bound_of(end)) && (end matches Some(e) && lt(e@, start@)) ==> (
            r matches Err(e) && e@ == Fail::Budget("range start exceeds end"@)),
            proper(start@, bound_of(end)) && old(self).bytes + range_weight()(
                (start@, bound_of(end)),
            ) > old(db).options.transaction_bytes ==> (r matches Err(e) && e@ == Fail::Budget(
                "transaction staging/read metadata exceeds budget"@,
            )),
            r is Ok ==> {
                &&& final(self).did(
                    *old(self),
                    Call::Scanned { start: start@, end: bound_of(end) },
                )
                &&& final(self).bytes <= old(db).options.transaction_bytes
                &&& spans(final(self).ranges@) == spans(old(self).ranges@).push(
                    (start@, bound_of(end)),
                )
                &&& final(self).bytes == old(self).bytes + range_weight()((start@, bound_of(end)))
                &&& old(db).arena(old(self).snapshot.root.epoch) is Some
            },
            r matches Ok(v) ==> (old(self).snapshot.range_back(
                old(db).arena(old(self).snapshot.root.epoch)->0,
                start@,
                bound_of(end),
                old(self).writes@,
            ) matches Some(rows) && {
                let ws = old(self).writes@;
                &&& entries(v@) == merged(ordered(rows), ws, ws.len(), start@, bound_of(end))
                &&& charge(rows, 128) + staged_charge(ws, ws.len(), start@, bound_of(end), 128) <= old(
                    db,
                ).options.scan_bytes
            }),
            proper(start@, bound_of(end)) ==> (r matches Err(e) ==> unreadable(e@) || e@ == Fail::Budget(
                "transaction staging/read metadata exceeds budget"@,
            ) || e@ == Fail::Budget("scan output exceeds budget"@)),
            forall|want: Seq<(Seq<u8>, Version)>|
                #![trigger old(self).reads_from(*old(db), want)]
                old(self).reads_from(*old(db), want) ==> {
                    let out = values_of(
                        range(seen(want, old(self).writes@), start@, bound_of(end)),
                    );
                    &&& old(self).remembers(want) ==> final(self).remembers(want)
                    &&& proper(start@, bound_of(end)) && old(self).bytes + range_weight()(
                        (start@, bound_of(end)),
                    ) <= old(db).options.transaction_bytes ==> if charge(out, 128) <= old(
                        db,
                    ).options.scan_bytes {
                        r matches Ok(v) && entries(v@) == out
                    } else {
                        r matches Err(e) && e@ == Fail::Budget("scan output exceeds budget"@)
                    }
                },
    {
        if start.len() > MAX_KEY {
            return Err(budget("key exceeds 4096 bytes"));
        }
        let mut end_len: u128 = 0;
        if let Some(e) = end {
            if e.len() > MAX_KEY {
                return Err(budget("key exceeds 4096 bytes"));
            }
            if before(e, start) {
                return Err(budget("range start exceeds end"));
            }
            end_len = e.len() as u128;
        }
        let size: u128 = self.bytes as u128 + start.len() as u128 + end_len + 128;
        if size > db.options.transaction_bytes as u128 {
            return Err(budget("transaction staging/read metadata exceeds budget"));
        }
        let ghost begin = *self;
        let ghost db0 = *db;
        let limit: usize = db.options.scan_bytes;
        let found = self.snapshot.rows(db, start, end, limit, 128, &self.writes)?;
        let ghost lo = start@;
        let ghost hi = bound_of(end);
        proof {
            assert forall|want: Seq<(Seq<u8>, Version)>| #[trigger]
                begin.reads_from(db0, want) implies scan_facts(
                want,
                begin.writes@,
                lo,
                hi,
                found,
                limit as int,
            ) by {
                assert(begin.snapshot.holds(db0.arena(begin.snapshot.root.epoch)->0, want));
                held_sorted(
                    begin.snapshot,
                    db0.arena(begin.snapshot.root.epoch)->0,
                    want,
                );
                merged_is_seen(want, begin.writes@, lo, hi);
                let rows = kept(values_of(range(want, lo, hi)), begin.writes@);
                let ws = begin.writes@;
                merged_charge(rows, ws, ws.len(), lo, hi, 128);
                staged_charge_grows(ws, 0, ws.len(), lo, hi, 128);
                ordered_sorted(rows);
            }
        }
        let (rows, cost) = match found {
            Some(x) => x,
            None => {
                return Err(budget("scan output exceeds budget"));
            },
        };
        let out = match merge_staged(rows, cost, &self.writes, start, end, limit) {
            Some(out) => out,
            None => {
                return Err(budget("scan output exceeds budget"));
            },
        };
        let span = Range {
            start: copy(start),
            end: match end {
                Some(e) => Some(copy(e)),
                None => None,
            },
        };
        let ghost one = span@;
        self.ranges.push(span);
        self.bytes = size as usize;
        proof {
            assert(one == (lo, hi));
            assert(spans(self.ranges@) =~= spans(begin.ranges@).push(one));
            total_splits(spans(begin.ranges@), seq![one], range_weight());
            super::staging::total_one(one, range_weight());
            assert(spans(begin.ranges@) + seq![one] =~= spans(begin.ranges@).push(one));
        }
        Ok(out)
    }

    /// The rows whose keys start with a prefix, as this transaction sees them.
    pub fn scan_prefix(&mut self, db: &mut Database, prefix: &[u8]) -> (r: Result<
        Vec<Entry>,
        Error,
    >)
        requires
            old(self).wf(),
            old(db).wf(),
        ensures
            final(self).wf(),
            final(db).wf(),
            final(db).same_store(*old(db)),
            final(db).admitted_only_nodes(*old(db)),
            final(self).snapshot == old(self).snapshot,
            final(self).reads == old(self).reads,
            final(self).writes == old(self).writes,
            r is Err ==> *final(self) == *old(self),
            long_bounds(prefix@, prefix_bound(prefix@)) ==> (r matches Err(e) && e@ == Fail::Budget(
                "key exceeds 4096 bytes"@,
            )),
            proper(prefix@, prefix_bound(prefix@)) && old(self).bytes + range_weight()(
                (prefix@, prefix_bound(prefix@)),
            ) > old(db).options.transaction_bytes ==> (r matches Err(e) && e@ == Fail::Budget(
                "transaction staging/read metadata exceeds budget"@,
            )),
            r is Ok ==> {
                &&& final(self).did(
                    *old(self),
                    Call::Scanned { start: prefix@, end: prefix_bound(prefix@) },
                )
                &&& final(self).bytes <= old(db).options.transaction_bytes
                &&& spans(final(self).ranges@) == spans(old(self).ranges@).push(
                    (prefix@, prefix_bound(prefix@)),
                )
                &&& final(self).bytes == old(self).bytes + range_weight()(
                    (prefix@, prefix_bound(prefix@)),
                )
                &&& old(db).arena(old(self).snapshot.root.epoch) is Some
            },
            r matches Ok(v) ==> (old(self).snapshot.range_back(
                old(db).arena(old(self).snapshot.root.epoch)->0,
                prefix@,
                prefix_bound(prefix@),
                old(self).writes@,
            ) matches Some(rows) && {
                let ws = old(self).writes@;
                &&& entries(v@) == merged(ordered(rows), ws, ws.len(), prefix@, prefix_bound(prefix@))
                &&& charge(rows, 128) + staged_charge(ws, ws.len(), prefix@, prefix_bound(prefix@), 128) <= old(
                    db,
                ).options.scan_bytes
            }),
            proper(prefix@, prefix_bound(prefix@)) ==> (r matches Err(e) ==> unreadable(e@) || e@ == Fail::Budget(
                "transaction staging/read metadata exceeds budget"@,
            ) || e@ == Fail::Budget("scan output exceeds budget"@)),
            forall|want: Seq<(Seq<u8>, Version)>|
                #![trigger old(self).reads_from(*old(db), want)]
                old(self).reads_from(*old(db), want) ==> {
                    let out = values_of(
                        range(
                            seen(want, old(self).writes@),
                            prefix@,
                            prefix_bound(prefix@),
                        ),
                    );
                    &&& old(self).remembers(want) ==> final(self).remembers(want)
                    &&& proper(prefix@, prefix_bound(prefix@)) && old(self).bytes + range_weight()(
                        (prefix@, prefix_bound(prefix@)),
                    ) <= old(db).options.transaction_bytes ==> if charge(out, 128) <= old(
                        db,
                    ).options.scan_bytes {
                        r matches Ok(v) && entries(v@) == out
                    } else {
                        r matches Err(e) && e@ == Fail::Budget("scan output exceeds budget"@)
                    }
                },
    {
        match prefix_end(prefix) {
            Some(end) => self.scan(db, prefix, Some(end.as_slice())),
            None => self.scan(db, prefix, None),
        }
    }
}

/// Whether a bound is longer than any key.
pub open spec fn long_bounds(start: Seq<u8>, end: Option<Seq<u8>>) -> bool {
    start.len() > MAX_KEY || (end is Some && (end->0).len() > MAX_KEY)
}

/// Bounds that a transaction accepts.
pub open spec fn proper(start: Seq<u8>, end: Option<Seq<u8>>) -> bool {
    !long_bounds(start, end) && (end is Some ==> !lt(end->0, start))
}

/// What the committed rows of a range that were found say of what is seen.
spec fn scan_facts(
    want: Seq<(Seq<u8>, Version)>,
    writes: Seq<(Seq<u8>, Change)>,
    lo: Seq<u8>,
    hi: Option<Seq<u8>>,
    found: Option<(Vec<Entry>, usize)>,
    limit: int,
) -> bool {
    let out = values_of(range(seen(want, writes), lo, hi));
    match found {
        Some((v, n)) => {
            let rows = entries(v@);
            &&& merged(ordered(rows), writes, writes.len(), lo, hi) == out
            &&& n + staged_charge(writes, writes.len(), lo, hi, 128) == charge(out, 128)
        },
        None => charge(out, 128) > limit,
    }
}

/// Whether nothing that a transaction read has changed, given the contents now:
/// every remembered revision is still current, and either no generation came
/// between or the journal reaches back and names nothing of interest.
pub open spec fn validated(t: Transaction, db: Database, now: Seq<(Seq<u8>, Version)>) -> bool {
    &&& t.remembers(now)
    &&& current_or_undisturbed(t, db)
}

/// Whether no generation came between, or none that matters.
pub open spec fn current_or_undisturbed(t: Transaction, db: Database) -> bool {
    let since = t.snapshot.root.generation;
    db.view.root.generation == since || (since >= db.journal@.floor && !db.journal@.disturbed(
        since,
        t.reads@,
        spans(t.ranges@),
    ))
}

impl Transaction {
    /// Whether every remembered revision is still that of the committed version.
    fn check_reads(&self, db: &mut Database) -> (r: Result<bool, Error>)
        requires
            self.wf(),
            old(db).wf(),
        ensures
            final(db).wf(),
            final(db).same_store(*old(db)),
            r matches Err(e) ==> unreadable(e@),
            forall|now: Seq<(Seq<u8>, Version)>|
                #![trigger old(db).holds(now)]
                old(db).holds(now) ==> (r matches Ok(x) && x == self.remembers(now)),
    {
        let view = db.view;
        let ghost db0 = *db;
        let total: usize = self.reads.len();
        let mut i: usize = 0;
        while i < total
            invariant
                self.wf(),
                db.wf(),
                db.same_store(db0),
                db0.wf(),
                db0 == *old(db),
                view == db0.view,
                total == self.reads@.len(),
                i <= total,
                forall|now: Seq<(Seq<u8>, Version)>, k: int|
                    #![trigger db0.holds(now), self.reads@[k]]
                    db0.holds(now) && 0 <= k < i ==> self.reads@[k].1 == revision_of(
                        now,
                        self.reads@[k].0,
                    ),
            decreases total - i,
        {
            let ghost before = *db;
            let key = self.reads.key_at(i);
            proof {
                assert(self.reads@[i as int].0.len() <= MAX_KEY);
            }
            let answer = view.revision(db, key);
            proof {
                assert forall|now: Seq<(Seq<u8>, Version)>| #[trigger] db0.holds(now) implies (
                answer matches Ok(g) && g == revision_of(now, key@)) by {
                    assert(view.holds(before.arena(view.root.epoch)->0, now));
                }
            }
            let revision = answer?;
            let expected: u64 = *self.reads.value_at(i);
            if revision != expected {
                proof {
                    assert forall|now: Seq<(Seq<u8>, Version)>| #[trigger] db0.holds(now) implies
                        !self.remembers(now) by {
                        assert(self.reads@[i as int].1 == expected);
                    }
                }
                return Ok(false);
            }
            i = i + 1;
        }
        Ok(true)
    }

    #[verifier::rlimit(60)]
    /// Commits the staged writes, if nothing that was read has changed.
    pub fn commit(self, db: &mut Database) -> (r: Result<u64, Error>)
        requires
            self.wf(),
            old(db).wf(),
        ensures
            final(db).wf(),
            keeps_arenas(*final(db), *old(db)),
            final(db).options == old(db).options,
            old(db).poisoned ==> (r matches Err(e) && e@ == Fail::Poisoned)
                && final(db).same_store(*old(db)),
            !current_or_undisturbed(self, *old(db)) ==> r is Err && final(db).same_store(
                *old(db),
            ),
            self.writes@.len() == 0 ==> final(db).same_store(*old(db)),
            !final(db).same_store(*old(db)) ==> exists|next: Root| #[trigger]
                updating(*old(db), *final(db), self.writes@, next),
            r matches Ok(g) ==> {
                &&& !final(db).poisoned
                &&& g == final(db).view.root.generation
                &&& self.writes@.len() == 0 ==> g == old(db).view.root.generation
                &&& self.writes@.len() > 0 ==> {
                    &&& exists|next: Root| #[trigger]
                        updating(*old(db), *final(db), self.writes@, next) && final(db).view
                            == version(next, old(db).view.packed, old(db).view.scan_budget)
                    &&& begun(added(*old(db), *final(db)))
                    &&& added(*old(db), *final(db)).len() > 0
                    &&& added(*old(db), *final(db)).last() == Step::Reached(Stage::DirectorySync)
                    &&& spared(added(*old(db), *final(db)), old(db).options.fail_at, 0)
                    &&& appended(*old(db), *final(db))
                    &&& g == old(db).view.root.generation + 1
                    &&& final(db).journal@ == old(db).journal@.recorded(
                        g,
                        written_keys(self.writes@),
                        old(db).options.conflict_bytes as int,
                    )
                }
            },
            forall|now: Seq<(Seq<u8>, Version)>|
                #![trigger old(db).holds(now)]
                old(db).holds(now) && !old(db).poisoned ==> {
                    &&& !validated(self, *old(db), now) ==> (r matches Err(e) && e@
                        == Fail::Conflict) && final(db).same_store(*old(db))
                    &&& validated(self, *old(db), now) && now.len() + self.writes@.len()
                        <= u64::MAX ==> {
                        &&& r matches Ok(g) ==> final(db).holds(
                            if self.writes@.len() == 0 {
                                now
                            } else {
                                applied(now, self.writes@, g)
                            },
                        )
                        &&& r is Ok && self.writes@.len() > 0 ==> laid_out(
                            *old(db),
                            *final(db),
                            self.writes@,
                            now,
                        )
                        &&& r is Err ==> {
                            ||| r->Err_0@ == Fail::Budget("generation overflow"@) && old(
                                db,
                            ).view.root.generation == u64::MAX
                            ||| stopped(
                                added(*old(db), *final(db)),
                                old(db).options.fail_at,
                                final(db).current.image@.len() as int,
                                r->Err_0@,
                            )
                        }
                    }
                },
    {
        let ghost db0 = *db;
        proof {
            kept_by_reading(db0, db0);
        }
        if db.poisoned {
            return Err(Error::Poisoned);
        }
        let checked = self.check_reads(db);
        let ghost db1 = *db;
        proof {
            kept_by_reading(db0, db1);
            assert forall|now: Seq<(Seq<u8>, Version)>| #[trigger] db0.holds(now) implies
                db1.holds(now) by {}
        }
        let same = checked?;
        if !same {
            return Err(Error::Conflict);
        }
        let since = self.snapshot.root.generation;
        if db.view.root.generation != since {
            if since < db.journal.floor {
                return Err(Error::Conflict);
            }
            if db.journal.conflicts(since, &self.reads, &self.ranges) {
                return Err(Error::Conflict);
            }
        }
        let r = db.apply(&self.writes);
        proof {
            assert(added(db0, *db) == added(db1, *db));
            assert forall|id: u64| #[trigger] db0.arena(id) is Some implies db.arena(id) is Some
                && super::arena::extends(db.arena(id)->0, db0.arena(id)->0) by {
                super::database::reading_keeps_arenas(db0, db1, id);
                assert(db1.arena(id) is Some);
            }
            if self.writes@.len() > 0 && db1.view.root.generation < u64::MAX {
                let next = choose|next: Root| #[trigger]
                    updating(db1, *db, self.writes@, next) && (r is Ok ==> db.view
                        == super::commit::version(next, db1.view.packed, db1.view.scan_budget));
                assert forall|want: Seq<(Seq<u8>, Version)>| #[trigger] db0.holds(want) implies
                    db1.holds(want) by {}
                assert(updating(db0, *db, self.writes@, next));
            }
        }
        r
    }
}

/// Reading alone keeps every arena.
proof fn kept_by_reading(a: Database, b: Database)
    requires
        b.same_store(a),
    ensures
        keeps_arenas(b, a),
{
    assert forall|id: u64| #[trigger] a.arena(id) is Some implies b.arena(id) is Some
        && super::arena::extends(b.arena(id)->0, a.arena(id)->0) by {
        super::database::reading_keeps_arenas(a, b, id);
    }
}

/// A transaction that is validated could as well have run now: each key and each
/// range that it read has now what it had in the version that it read from. So
/// committed transactions have the effect of running one after the other.
pub proof fn validated_reads_repeat(
    t: Transaction,
    db: Database,
    then: Seq<(Seq<u8>, Version)>,
    now: Seq<(Seq<u8>, Version)>,
)
    requires
        t.wf(),
        db.wf(),
        db.holds(now),
        sorted(then),
        t.remembers(then),
        db.journal@.tracks(t.snapshot.root.generation, then, now),
        t.snapshot.root.generation <= db.view.root.generation,
        validated(t, db, now),
    ensures
        forall|k: Seq<u8>|
            present(t.reads@, k) ==> #[trigger] lookup(then, k) == lookup(now, k),
        forall|r: int|
            0 <= r < t.ranges@.len() ==> range(
                then,
                (#[trigger] spans(t.ranges@)[r]).0,
                spans(t.ranges@)[r].1,
            ) == range(now, spans(t.ranges@)[r].0, spans(t.ranges@)[r].1),
        forall|lo: Seq<u8>, hi: Option<Seq<u8>>|
            t.snapshot.root.generation == db.view.root.generation ==> range(then, lo, hi)
                == #[trigger] range(now, lo, hi),
{
    held_sorted(db.view, db.current.image@, now);
    let since = t.snapshot.root.generation;
    let j = db.journal@;
    if since == db.view.root.generation {
        assert forall|k: Seq<u8>| #[trigger] lookup(then, k) == lookup(now, k) by {
            if j.touched(since, k) {
                let i = choose|i: int|
                    0 <= i < j.changes.len() && (#[trigger] j.changes[i]).0 > since
                        && j.changes[i].1.contains(k);
                assert(j.changes[i].0 <= db.view.root.generation);
            }
        }
        super::rows::lookup_determines(then, now);
    } else {
        undisturbed_reads_repeat(j, since, then, now, t.reads@, spans(t.ranges@));
    }
}

/// What a run of calls stages for a key last, if anything.
pub open spec fn staged_last(calls: Seq<Call>, key: Seq<u8>) -> Option<Change>
    decreases calls.len(),
{
    if calls.len() == 0 {
        None
    } else {
        match calls.last() {
            Call::Staged { key: k, change } => if k == key {
                Some(change)
            } else {
                staged_last(calls.drop_last(), key)
            },
            _ => staged_last(calls.drop_last(), key),
        }
    }
}

/// The ranges that a run of calls scans, in order.
pub open spec fn scanned(calls: Seq<Call>) -> Seq<(Seq<u8>, Option<Seq<u8>>)>
    decreases calls.len(),
{
    if calls.len() == 0 {
        Seq::empty()
    } else {
        match calls.last() {
            Call::Scanned { start, end } => scanned(calls.drop_last()).push((start, end)),
            _ => scanned(calls.drop_last()),
        }
    }
}

/// Whether some call of a run reads or writes a key by its name.
pub open spec fn named(calls: Seq<Call>, key: Seq<u8>) -> bool {
    exists|i: int| 0 <= i < calls.len() && (#[trigger] calls[i]).names(key)
}

/// After any run of calls a transaction remembers exactly the keys that were got, set or
/// deleted, it stages for each the change that came last, and it remembers the ranges that
/// were scanned. What it is charged is the charge of these.
pub proof fn history_is_remembered(states: Seq<Transaction>, calls: Seq<Call>)
    requires
        states.len() == calls.len() + 1,
        states[0].reads@.len() == 0,
        states[0].writes@.len() == 0,
        states[0].ranges@.len() == 0,
        forall|i: int| 0 <= i < states.len() ==> (#[trigger] states[i]).wf(),
        forall|i: int|
            0 <= i < calls.len() ==> states[i + 1].did(states[i], #[trigger] calls[i]),
    ensures
        states.last().snapshot == states[0].snapshot,
        forall|k: Seq<u8>| present(states.last().reads@, k) <==> #[trigger] named(calls, k),
        forall|k: Seq<u8>|
            lookup(states.last().writes@, k) == #[trigger] staged_last(calls, k),
        spans(states.last().ranges@) == scanned(calls),
        states.last().bytes == total_of(states.last().reads@, read_weight()) + total_of(
            states.last().writes@,
            write_weight(),
        ) + total_of(scanned(calls), range_weight()),
    decreases calls.len(),
{
    let last = states.last();
    assert(last == states[states.len() - 1]);
    if calls.len() == 0 {
        assert(spans(last.ranges@) =~= Seq::empty());
        assert forall|k: Seq<u8>| lookup(last.writes@, k) == #[trigger] staged_last(calls, k) by {
            lookup_finds(last.writes@, k);
        }
    } else {
        let n = calls.len() - 1;
        let (st, cs) = (states.drop_last(), calls.drop_last());
        assert forall|i: int| 0 <= i < st.len() implies (#[trigger] st[i]).wf() by {
            assert(st[i] == states[i]);
        }
        assert forall|i: int| 0 <= i < cs.len() implies st[i + 1].did(st[i], #[trigger] cs[i]) by {
            assert(cs[i] == calls[i] && st[i] == states[i] && st[i + 1] == states[i + 1]);
        }
        history_is_remembered(st, cs);
        let (a, call) = (states[n], calls[n]);
        assert(st.last() == a);
        assert(last.did(a, call));
        assert(calls.last() == call);
        assert forall|k: Seq<u8>| present(last.reads@, k) <==> #[trigger] named(calls, k) by {
            assert(present(a.reads@, k) <==> named(cs, k));
            if named(calls, k) {
                let i = choose|i: int| 0 <= i < calls.len() && (#[trigger] calls[i]).names(k);
                if i < n {
                    assert(cs[i] == calls[i]);
                }
            }
            if named(cs, k) {
                let i = choose|i: int| 0 <= i < cs.len() && (#[trigger] cs[i]).names(k);
                assert(calls[i] == cs[i]);
            }
            if call.names(k) {
                assert(calls[n].names(k));
            }
        }
        assert forall|k: Seq<u8>| lookup(last.writes@, k) == #[trigger] staged_last(calls, k) by {
            assert(lookup(a.writes@, k) == staged_last(cs, k));
            if let Call::Staged { key, change } = call {
                put_meaning(a.writes@, key, change);
                assert(lookup(put(a.writes@, key, change), k) == if k == key {
                    Some(change)
                } else {
                    lookup(a.writes@, k)
                });
            }
        }
    }
}

/// A transaction never commits when another commit has written a key that it got, set or
/// deleted, or a key in a range that it scanned: not even when the key has its old value again.
pub proof fn overwritten_reads_conflict(
    t: Transaction,
    db: Database,
    before: JournalView,
    run: Seq<(u64, Seq<Seq<u8>>)>,
    at: int,
    key: Seq<u8>,
)
    requires
        t.wf(),
        db.wf(),
        before.wf(),
        before.floor <= t.snapshot.root.generation,
        forall|i: int|
            0 <= i < before.changes.len() ==> (#[trigger] before.changes[i]).0
                <= t.snapshot.root.generation,
        forall|i: int|
            0 <= i < run.len() ==> t.snapshot.root.generation < (#[trigger] run[i]).0,
        forall|a: int, b: int|
            0 <= a < b < run.len() ==> (#[trigger] run[a]).0 < (#[trigger] run[b]).0,
        db.journal@ == before.logged(run, db.options.conflict_bytes as int),
        0 <= at < run.len(),
        run[at].1.contains(key),
        of_interest(key, t.reads@, spans(t.ranges@)),
    ensures
        !current_or_undisturbed(t, db),
        forall|now: Seq<(Seq<u8>, Version)>| !validated(t, db, now),
{
    let since = t.snapshot.root.generation;
    let j = db.journal@;
    every_write_warns(before, since, run, db.options.conflict_bytes as int, at, key);
    if since >= j.floor {
        let i = choose|i: int|
            0 <= i < j.changes.len() && (#[trigger] j.changes[i]).0 > since
                && j.changes[i].1.contains(key);
        assert(j.changes[i].0 <= db.view.root.generation);
        let k = choose|k: int| 0 <= k < j.changes[i].1.len() && j.changes[i].1[k] == key;
        assert(of_interest(j.changes[i].1[k], t.reads@, spans(t.ranges@)));
    }
}

impl Database {
    pub fn begin(&self) -> (r: Result<Transaction, Error>)
        requires
            self.wf(),
        ensures
            self.poisoned ==> (r matches Err(e) && e@ == Fail::Poisoned),
            !self.poisoned ==> (r matches Ok(t) && {
                &&& t.wf()
                &&& t.snapshot == self.view
                &&& t.reads@.len() == 0
                &&& t.ranges@.len() == 0
                &&& t.writes@.len() == 0
                &&& t.bytes == 0
            }),
    {
        Transaction::new(self)
    }
}

} // verus!
