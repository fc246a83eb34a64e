//! One committed version of a store, and reading from it.
use vstd::prelude::*;

use super::arena::{extends, tree_at, unreadable, value_at};
use super::bytes::lt;
use super::cache::{nodes_only, CacheView};
use super::contents::{holds_keys, stores, stores_grows, Change, Version};
use super::epoch::{offered_value, Epoch};
use super::fences::{packed_stores, packed_stores_determines, packed_stores_grows};
use super::group::stores_determines;
use super::index::{find_meaning, find_node};
use super::keymap::KeyMap;
use super::model::{budget, entries, Entry, Error, Fail, Root, MAX_KEY};
use super::packed::{self, cell_back, cell_value, cells_back, point_read};
use super::rows::{lookup, range};
use super::scan::{bound_of, charge, kept, kept_all, rows_back, scan_index, values_of};
use super::search::find_in;

verus! {

broadcast use {super::arena::tree_empty, super::cache::group_nodes_only};

/// A committed version: what it is called, where it lies and how it is laid out.
/// It stays readable as long as the store keeps the arena of its epoch.
#[derive(Clone, Copy, Debug)]
pub struct Snapshot {
    pub root: Root,
    pub packed: bool,
    pub scan_budget: usize,
}

impl Snapshot {
    /// Whether the version has these contents in an arena with this image.
    pub open spec fn holds(self, image: Seq<u8>, want: Seq<(Seq<u8>, Version)>) -> bool {
        &&& if self.packed {
            packed_stores(
                image,
                self.root.end as int,
                self.root.generation,
                self.root.root,
                want,
            )
        } else {
            stores(image, self.root.end as int, self.root.root, want)
        }
        &&& want.len() == self.root.count
        &&& self.root.count == 0 ==> self.root.root == 0
        &&& forall|i: int|
            0 <= i < want.len() ==> 0 < (#[trigger] want[i]).1.1 <= self.root.generation
    }

    /// What the records on the way to a key give as its value, in any arena; nothing where one
    /// of them does not read back.
    pub open spec fn value_back(self, image: Seq<u8>, key: Seq<u8>) -> Option<Option<Seq<u8>>> {
        let end = self.root.end as int;
        if self.packed {
            match cell_back(image, end, self.root.generation, self.root.root, key) {
                Some(Some(c)) => match cell_value(image, end, c.1) {
                    Some(v) => Some(Some(v)),
                    None => None,
                },
                Some(None) => Some(None),
                None => None,
            }
        } else {
            match find_node(image, image.len() as int, self.root.root, key) {
                Ok(Some(n)) => match value_at(image, end, n.value as int) {
                    Ok(v) => Some(Some(v)),
                    Err(_) => None,
                },
                Ok(None) => Some(None),
                Err(_) => None,
            }
        }
    }

    /// What reading the value of a key does to a cache. The nodes on the way come in. Then the
    /// value is offered, if values are cached at all and it is not there yet; a packed version
    /// offers the page records that it read instead.
    pub open spec fn reads_value(
        self,
        image: Seq<u8>,
        key: Seq<u8>,
        values: bool,
        before: CacheView,
        after: CacheView,
    ) -> bool {
        let end = self.root.end as int;
        if self.packed {
            point_read(before, after, image, end, self.root.root, key)
        } else {
            exists|mid: CacheView| #[trigger]
                nodes_only(before, mid) && match find_node(
                    image,
                    image.len() as int,
                    self.root.root,
                    key,
                ) {
                    Ok(Some(n)) => if values && !(mid.items.contains_key(n.value)
                        && mid.items[n.value] is Value) {
                        offered_value(
                            mid,
                            after,
                            n.value,
                            value_at(image, end, n.value as int)->Ok_0,
                        )
                    } else {
                        after == mid
                    },
                    _ => after == mid,
                }
        }
    }

    /// What the records on the way to a key give as its revision, zero where there is none;
    /// nothing where one of them does not read back.
    pub open spec fn revision_back(self, image: Seq<u8>, key: Seq<u8>) -> Option<u64> {
        if self.packed {
            match cell_back(
                image,
                self.root.end as int,
                self.root.generation,
                self.root.root,
                key,
            ) {
                Some(Some(c)) => Some(c.0),
                Some(None) => Some(0),
                None => None,
            }
        } else {
            match find_node(image, image.len() as int, self.root.root, key) {
                Ok(Some(n)) => Some(n.revision),
                Ok(None) => Some(0),
                Err(_) => None,
            }
        }
    }

    /// What the records in a range give as its rows, in any arena, but for the keys to be
    /// passed over; nothing where one of them does not read back.
    pub open spec fn range_back(
        self,
        image: Seq<u8>,
        start: Seq<u8>,
        stop: Option<Seq<u8>>,
        skip: Seq<(Seq<u8>, Change)>,
    ) -> Option<Seq<(Seq<u8>, Seq<u8>)>> {
        let end = self.root.end as int;
        if self.packed {
            cells_back(image, end, self.root.generation, self.root.root, start, stop, skip)
        } else {
            rows_back(image, end, self.root.root, start, stop, skip)
        }
    }
}

/// A version has one contents only.
pub proof fn one_contents(
    s: Snapshot,
    image: Seq<u8>,
    one: Seq<(Seq<u8>, Version)>,
    other: Seq<(Seq<u8>, Version)>,
)
    requires
        s.holds(image, one),
        s.holds(image, other),
    ensures
        one == other,
{
    if s.packed {
        packed_stores_determines(
            image,
            s.root.end as int,
            s.root.generation,
            s.root.root,
            one,
            other,
        );
    } else {
        stores_determines(image, s.root.end as int, s.root.root, one, other);
    }
}

/// A version keeps its contents whatever is appended to its arena.
pub proof fn version_stable(
    s: Snapshot,
    image: Seq<u8>,
    later: Seq<u8>,
    want: Seq<(Seq<u8>, Version)>,
)
    requires
        s.holds(image, want),
        extends(later, image),
    ensures
        s.holds(later, want),
{
    if s.packed {
        packed_stores_grows(
            image,
            later,
            s.root.end as int,
            s.root.end as int,
            s.root.generation,
            s.root.generation,
            s.root.root,
            want,
        );
    } else {
        stores_grows(image, later, s.root.end as int, s.root.end as int, s.root.root, want);
    }
}

/// What a search of the index gives for a key of known contents.
spec fn find_facts(
    image: Seq<u8>,
    root: Root,
    key: Seq<u8>,
    want: Seq<(Seq<u8>, Version)>,
) -> bool {
    let found = find_node(image, root.end as int, root.root, key);
    match lookup(want, key) {
        Some(v) => found matches Ok(Some(n)) && n.revision == v.1 && value_at(
            image,
            root.end as int,
            n.value as int,
        ) == Ok::<Seq<u8>, Fail>(v.0),
        None => found matches Ok(None),
    }
}

proof fn found_in(image: Seq<u8>, root: Root, key: Seq<u8>, want: Seq<(Seq<u8>, Version)>)
    requires
        stores(image, root.end as int, root.root, want),
    ensures
        find_facts(image, root, key, want),
{
    let end = root.end as int;
    let rows = (tree_at(image, end, root.root)->0).rows();
    find_meaning(image, end, root.root, key);
    holds_keys(image, end, rows, want, key);
}

impl Snapshot {
    pub fn generation(&self) -> (g: u64)
        ensures
            g == self.root.generation,
    {
        self.root.generation
    }

    pub fn len(&self) -> (n: u64)
        ensures
            n == self.root.count,
    {
        self.root.count
    }

    pub fn is_empty(&self) -> (r: bool)
        ensures
            r == (self.root.count == 0),
    {
        self.root.count == 0
    }

    /// The value of a key.
    pub fn value_in(&self, e: &mut Epoch, key: &[u8]) -> (r: Result<Option<Vec<u8>>, Error>)
        requires
            old(e).wf(),
        ensures
            final(e).wf(),
            final(e).same_arena(*old(e)),
            key@.len() > MAX_KEY ==> (r matches Err(x) && x@ == Fail::Budget(
                "key exceeds 4096 bytes"@,
            )),
            key@.len() <= MAX_KEY ==> (r matches Err(x) ==> unreadable(x@)),
            r matches Ok(x) ==> self.value_back(old(e).image@, key@) == Some(bytes_of(x)),
            r is Ok ==> self.reads_value(
                old(e).image@,
                key@,
                old(e).value_cache_enabled,
                old(e).cache@,
                final(e).cache@,
            ),
            key@.len() <= MAX_KEY ==> forall|want: Seq<(Seq<u8>, Version)>|
                #![trigger self.holds(old(e).image@, want)]
                self.holds(old(e).image@, want) ==> match lookup(want, key@) {
                    Some(v) => r matches Ok(Some(x)) && x@ == v.0,
                    None => r matches Ok(None),
                },
    {
        if key.len() > MAX_KEY {
            return Err(budget("key exceeds 4096 bytes"));
        }
        let ghost image = e.image@;
        if self.packed {
            let found = packed::find(e, self.root.root, self.root.end, self.root.generation, key)?;
            match found {
                None => Ok(None),
                Some(row) => {
                    let v = row.value(e, self.root.end)?;
                    Ok(Some(v))
                },
            }
        } else {
            proof {
                assert forall|want: Seq<(Seq<u8>, Version)>|
                    #![trigger self.holds(image, want)]
                    self.holds(image, want) implies find_facts(
                    image,
                    self.root,
                    key@,
                    want,
                ) by {
                    found_in(image, self.root, key@, want);
                }
            }
            match find_in(e, self.root.root, self.root.end, key)? {
                None => Ok(None),
                Some(n) => {
                    let v = e.point_value(n.value, self.root.end)?;
                    Ok(Some(v))
                },
            }
        }
    }

    /// The revision of a key; zero where there is none.
    pub fn revision_in(&self, e: &mut Epoch, key: &[u8]) -> (r: Result<u64, Error>)
        requires
            old(e).wf(),
        ensures
            final(e).wf(),
            final(e).same_arena(*old(e)),
            key@.len() > MAX_KEY ==> (r matches Err(x) && x@ == Fail::Budget(
                "key exceeds 4096 bytes"@,
            )),
            key@.len() <= MAX_KEY ==> (r matches Err(x) ==> unreadable(x@)),
            r matches Ok(g) ==> self.revision_back(old(e).image@, key@) == Some(g),
            key@.len() <= MAX_KEY ==> forall|want: Seq<(Seq<u8>, Version)>|
                #![trigger self.holds(old(e).image@, want)]
                self.holds(old(e).image@, want) ==> (r matches Ok(g) && g == revision_of(
                    want,
                    key@,
                )),
    {
        if key.len() > MAX_KEY {
            return Err(budget("key exceeds 4096 bytes"));
        }
        let ghost image = e.image@;
        if self.packed {
            let found = packed::find(e, self.root.root, self.root.end, self.root.generation, key)?;
            match found {
                None => Ok(0),
                Some(row) => Ok(row.revision),
            }
        } else {
            proof {
                assert forall|want: Seq<(Seq<u8>, Version)>|
                    #![trigger self.holds(image, want)]
                    self.holds(image, want) implies find_facts(
                    image,
                    self.root,
                    key@,
                    want,
                ) by {
                    found_in(image, self.root, key@, want);
                }
            }
            match find_in(e, self.root.root, self.root.end, key)? {
                None => Ok(0),
                Some(n) => Ok(n.revision),
            }
        }
    }

    /// The rows in a range whose keys are not to be passed over, with what they
    /// cost; nothing where that exceeds the budget.
    pub fn rows_in(
        &self,
        e: &mut Epoch,
        start: &[u8],
        end: Option<&[u8]>,
        limit: usize,
        each: usize,
        skip: &KeyMap<Option<Vec<u8>>>,
    ) -> (r: Result<Option<(Vec<Entry>, usize)>, Error>)
        requires
            old(e).wf(),
            skip.wf(),
            end matches Some(x) ==> !lt(x@, start@),
        ensures
            final(e).wf(),
            final(e).same_arena(*old(e)),
            nodes_only(old(e).cache@, final(e).cache@),
            r matches Ok(Some((v, n))) ==> n <= limit && n == charge(entries(v@), each as int),
            r matches Ok(Some((v, _))) ==> self.range_back(
                old(e).image@,
                start@,
                bound_of(end),
                skip@,
            ) == Some(entries(v@)),
            r matches Err(x) ==> unreadable(x@),
            forall|want: Seq<(Seq<u8>, Version)>|
                #![trigger self.holds(old(e).image@, want)]
                self.holds(old(e).image@, want) ==> {
                    let out = kept(values_of(range(want, start@, bound_of(end))), skip@);
                    if charge(out, each as int) <= limit {
                        r matches Ok(Some((v, n))) && entries(v@) == out && n == charge(
                            out,
                            each as int,
                        )
                    } else {
                        r matches Ok(None)
                    }
                },
    {
        let root = self.root;
        if self.packed {
            packed::scan_rows(
                e,
                root.root,
                root.end,
                root.generation,
                start,
                end,
                true,
                limit,
                each,
                skip,
            )
        } else {
            scan_index(e, root.root, root.end, start, end, limit, each, skip)
        }
    }

    /// The rows in a range, within the output budget.
    pub fn scan_in(&self, e: &mut Epoch, start: &[u8], end: Option<&[u8]>) -> (r: Result<
        Vec<Entry>,
        Error,
    >)
        requires
            old(e).wf(),
        ensures
            final(e).wf(),
            final(e).same_arena(*old(e)),
            nodes_only(old(e).cache@, final(e).cache@),
            bad_bounds(start@, bound_of(end)) ==> (r matches Err(x) && x@ == Fail::Budget(
                "invalid range bounds"@,
            )),
            !bad_bounds(start@, bound_of(end)) ==> (r matches Err(x) ==> unreadable(x@) || x@
                == Fail::Budget("scan output exceeds configured budget"@)),
            r matches Ok(v) ==> self.range_back(
                old(e).image@,
                start@,
                bound_of(end),
                Seq::empty(),
            ) == Some(entries(v@)),
            r matches Ok(v) ==> charge(entries(v@), 64) <= self.scan_budget,
            !bad_bounds(start@, bound_of(end)) ==> forall|want: Seq<(Seq<u8>, Version)>|
                #![trigger self.holds(old(e).image@, want)]
                self.holds(old(e).image@, want) ==> {
                    let out = values_of(range(want, start@, bound_of(end)));
                    if charge(out, 64) <= self.scan_budget {
                        r matches Ok(v) && entries(v@) == out
                    } else {
                        r matches Err(f) && f@ == Fail::Budget(
                            "scan output exceeds configured budget"@,
                        )
                    }
                },
    {
        let wrong = start.len() > MAX_KEY || match end {
            Some(x) => x.len() > MAX_KEY || super::bytes::before(x, start),
            None => false,
        };
        if wrong {
            return Err(budget("invalid range bounds"));
        }
        let nothing: KeyMap<Option<Vec<u8>>> = KeyMap::new();
        assert(nothing@ =~= Seq::empty());
        proof {
            assert forall|rows: Seq<(Seq<u8>, Seq<u8>)>| #[trigger]
                kept(rows, nothing@) == rows by {
                kept_all(rows);
            }
        }
        match self.rows_in(e, start, end, self.scan_budget, 64, &nothing)? {
            Some((rows, _)) => Ok(rows),
            None => Err(budget("scan output exceeds configured budget")),
        }
    }
}

/// The bytes of a value that may be missing.
pub open spec fn bytes_of(v: Option<Vec<u8>>) -> Option<Seq<u8>> {
    match v {
        Some(x) => Some(x@),
        None => None,
    }
}

/// Bounds that no scan accepts: too long, or in the wrong order.
pub open spec fn bad_bounds(start: Seq<u8>, end: Option<Seq<u8>>) -> bool {
    start.len() > MAX_KEY || (end is Some && ((end->0).len() > MAX_KEY || lt(end->0, start)))
}

/// The revision of a key in contents; zero where there is none.
pub open spec fn revision_of(want: Seq<(Seq<u8>, Version)>, key: Seq<u8>) -> u64 {
    match lookup(want, key) {
        Some(v) => v.1,
        None => 0,
    }
}

} // verus!
