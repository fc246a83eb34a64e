//! One arena with its cache and counters: the checked reads of the store.
use vstd::prelude::*;

use super::arena::{
    decode_node, extends, node_at, read_record, read_stable, record_at, record_bound,
    record_extent, unreadable, value_at, Node, NodeView, HEADER, NODE, VALUE,
};
use super::bytes::{allocated, copy, get64, le64};
use super::cache::{insert_meaning, least_charge, nodes_only, Cache, CacheView, ItemView};
use super::model::{corrupt, io, Error, Fail};
use super::page::{parse_record, Record, RecordView, BASE, DELTA};

verus! {

broadcast use super::cache::group_nodes_only;

/// The page record at `at`, of either page kind.
pub open spec fn page_at(b: Seq<u8>, end: int, at: int) -> Result<RecordView, Fail> {
    if at < 8 || at + 32 > end {
        Err(Fail::Corrupt("record offset"@))
    } else if at + 32 > b.len() {
        Err(Fail::Io("short read"@))
    } else {
        let kind = b[at + 8];
        if kind != BASE && kind != DELTA {
            Err(Fail::Corrupt("packed kind"@))
        } else {
            match read_record(b, end, at, kind) {
                Err(e) => Err(e),
                Ok(p) => parse_record(kind, p, at, le64(b, at + 16)),
            }
        }
    }
}

/// What can be read within a bound can be read without one.
pub proof fn read_unbounded(b: Seq<u8>, end: int, at: int, kind: u8)
    requires
        read_record(b, end, at, kind) is Ok,
    ensures
        read_record(b, b.len() as int, at, kind) == read_record(b, end, at, kind),
{
    record_extent(b, end, at, kind);
    record_bound(b, end, b.len() as int, at, kind);
}

/// A page keeps its meaning when the arena grows.
pub proof fn page_stable(a: Seq<u8>, b: Seq<u8>, end: int, later: int, at: int)
    requires
        extends(b, a),
        end <= later,
        page_at(a, end, at) is Ok,
    ensures
        page_at(b, later, at) == page_at(a, end, at),
{
    read_stable(a, b, end, later, at, a[at + 8]);
}

/// How far a page record reaches follows from its payload.
proof fn page_extent(b: Seq<u8>, end: int, at: int)
    requires
        page_at(b, b.len() as int, at) is Ok,
        at + 32 + (page_at(b, b.len() as int, at)->Ok_0).size <= end,
    ensures
        page_at(b, end, at) == page_at(b, b.len() as int, at),
{
    record_bound(b, b.len() as int, end, at, b[at + 8]);
}

/// Whether what is kept for an offset is what the arena holds there.
pub open spec fn mirrors(b: Seq<u8>, at: u64, item: ItemView) -> bool {
    let end = b.len() as int;
    match item {
        ItemView::Node(n) => node_at(b, end, at as int) == Ok::<NodeView, Fail>(n),
        ItemView::Value(v, _) => value_at(b, end, at as int) == Ok::<Seq<u8>, Fail>(v),
        ItemView::Page(p, _) => page_at(b, end, at as int) == Ok::<RecordView, Fail>(p),
    }
}

/// Whether everything kept is what the arena holds.
pub open spec fn coherent(b: Seq<u8>, c: CacheView) -> bool {
    forall|at: u64| #[trigger] c.items.contains_key(at) ==> mirrors(b, at, c.items[at])
}

/// A larger arena still mirrors what was kept of a smaller one.
pub proof fn coherent_grows(a: Seq<u8>, b: Seq<u8>, c: CacheView)
    requires
        extends(b, a),
        coherent(a, c),
    ensures
        coherent(b, c),
{
    assert forall|at: u64| #[trigger] c.items.contains_key(at) implies mirrors(
        b,
        at,
        c.items[at],
    ) by {
        let end = a.len() as int;
        let later = b.len() as int;
        match c.items[at] {
            ItemView::Node(n) => {
                read_stable(a, b, end, later, at as int, NODE);
            },
            ItemView::Value(_, _) => {
                read_stable(a, b, end, later, at as int, VALUE);
            },
            ItemView::Page(_, _) => {
                page_stable(a, b, end, later, at as int);
            },
        }
    }
}

/// What offering a value does to a cache, however much was allocated for it.
pub open spec fn offered_value(before: CacheView, after: CacheView, at: u64, v: Seq<u8>) -> bool {
    exists|room: int| room >= v.len() && after == #[trigger] before.insert_value(at, v, room)
}

/// What offering a page does to a cache, however much was allocated for it.
pub open spec fn offered_page(before: CacheView, after: CacheView, at: u64, p: RecordView) -> bool {
    exists|charge: int|
        charge >= least_charge(p) && after == #[trigger] before.insert(
            at,
            ItemView::Page(p, charge),
        )
}

/// An arena, what is cached of it, and how much was read and written.
#[derive(Debug)]
pub struct Epoch {
    pub id: u64,
    pub image: Vec<u8>,
    pub cache: Cache,
    pub reads: u64,
    pub bytes_read: u64,
    pub bytes_written: u64,
    pub value_cache_enabled: bool,
}

impl Epoch {
    pub open spec fn wf(self) -> bool {
        self.cache.wf() && coherent(self.image@, self.cache@)
    }

    /// Whether the cache holds an item of the wanted sort for this offset.
    pub open spec fn cached_node(self, at: u64) -> bool {
        self.cache@.items.contains_key(at) && self.cache@.items[at] is Node
    }

    pub open spec fn cached_value(self, at: u64) -> bool {
        self.cache@.items.contains_key(at) && self.cache@.items[at] is Value
    }

    pub open spec fn cached_page(self, at: u64) -> bool {
        self.cache@.items.contains_key(at) && self.cache@.items[at] is Page
    }

    /// Everything but the cache and the read counters.
    pub open spec fn same_arena(self, other: Epoch) -> bool {
        &&& self.id == other.id
        &&& self.image@ == other.image@
        &&& self.bytes_written == other.bytes_written
        &&& self.value_cache_enabled == other.value_cache_enabled
        &&& self.cache.limit == other.cache.limit
    }

    pub fn new(id: u64, image: Vec<u8>, cache_bytes: usize, admit_values: bool) -> (e: Epoch)
        ensures
            e.wf(),
            e.id == id,
            e.image@ == image@,
            e.cache@ == (CacheView {
                items: Map::empty(),
                order: Seq::empty(),
                limit: cache_bytes as int,
                admit_values,
            }),
            e.reads == 0,
            e.bytes_read == 0,
            e.bytes_written == 0,
            e.value_cache_enabled == admit_values,
    {
        Epoch {
            id,
            image,
            cache: Cache::new(cache_bytes, admit_values),
            reads: 0,
            bytes_read: 0,
            bytes_written: 0,
            value_cache_enabled: admit_values,
        }
    }

    /// Keeps a node that the arena holds.
    pub fn keep_node(&mut self, at: u64, n: Node)
        requires
            old(self).wf(),
            node_at(old(self).image@, old(self).image@.len() as int, at as int) == Ok::<
                NodeView,
                Fail,
            >(n@),
        ensures
            final(self).wf(),
            final(self).same_arena(*old(self)),
            final(self).reads == old(self).reads,
            final(self).cache@ == old(self).cache@.insert(at, ItemView::Node(n@)),
    {
        proof {
            insert_meaning(self.cache@, at, ItemView::Node(n@));
        }
        self.cache.insert_node(at, n);
    }

    /// Reads one record from the arena and counts it.
    pub fn record(&mut self, at: u64, end: u64, kind: u8) -> (r: Result<Vec<u8>, Error>)
        requires
            old(self).wf(),
        ensures
            final(self).wf(),
            final(self).same_arena(*old(self)),
            final(self).cache@ == old(self).cache@,
            r matches Ok(p) ==> read_record(old(self).image@, end as int, at as int, kind) == Ok::<
                Seq<u8>,
                Fail,
            >(p@),
            r matches Err(e) ==> unreadable(e@) && read_record(
                old(self).image@,
                end as int,
                at as int,
                kind,
            ) == Err::<Seq<u8>, Fail>(e@),
            final(self).reads == if r is Ok {
                old(self).reads.wrapping_add(1)
            } else {
                old(self).reads
            },
            final(self).bytes_read == match r {
                Ok(p) => old(self).bytes_read.wrapping_add((32 + p@.len()) as u64),
                Err(_) => old(self).bytes_read,
            },
    {
        let p = record_at(&self.image, at, end, kind)?;
        proof {
            record_extent(self.image@, end as int, at as int, kind);
        }
        self.reads = self.reads.wrapping_add(1);
        self.bytes_read = self.bytes_read.wrapping_add(HEADER as u64 + p.len() as u64);
        Ok(p)
    }

    pub fn node(&mut self, at: u64, end: u64) -> (r: Result<Node, Error>)
        requires
            old(self).wf(),
        ensures
            final(self).wf(),
            final(self).same_arena(*old(self)),
            nodes_only(old(self).cache@, final(self).cache@),
            old(self).cached_node(at) ==> r is Ok && final(self).reads == old(self).reads
                && final(self).cache@ == old(self).cache@,
            !old(self).cached_node(at) ==> {
                &&& r is Ok <==> node_at(old(self).image@, end as int, at as int) is Ok
                &&& final(self).cache@ == match r {
                    Ok(n) => old(self).cache@.insert(at, ItemView::Node(n@)),
                    Err(_) => old(self).cache@,
                }
                &&& final(self).reads == if read_record(
                    old(self).image@,
                    end as int,
                    at as int,
                    NODE,
                ) is Ok {
                    old(self).reads.wrapping_add(1)
                } else {
                    old(self).reads
                }
            },
            r matches Ok(n) ==> node_at(
                old(self).image@,
                old(self).image@.len() as int,
                at as int,
            ) == Ok::<NodeView, Fail>(n@),
            r matches Err(e) ==> unreadable(e@) && node_at(
                old(self).image@,
                end as int,
                at as int,
            ) == Err::<NodeView, Fail>(e@),
            node_at(old(self).image@, end as int, at as int) matches Ok(n) ==> (r matches Ok(m)
                && m@ == n),
    {
        let ghost b = self.image@;
        if let Some(n) = self.cache.node(at) {
            proof {
                if node_at(b, end as int, at as int) is Ok {
                    read_unbounded(b, end as int, at as int, NODE);
                }
            }
            return Ok(n);
        }
        let p = self.record(at, end, NODE)?;
        let n = decode_node(p.as_slice(), at)?;
        proof {
            read_unbounded(b, end as int, at as int, NODE);
            insert_meaning(self.cache@, at, ItemView::Node(n@));
        }
        proof {
            reveal(nodes_only);
        }
        self.cache.insert_node(at, n.duplicate());
        Ok(n)
    }

    /// Scan and maintenance reads may reuse admitted payload, but cannot pollute
    /// the value cache with one-off values.
    pub fn value(&mut self, at: u64, end: u64) -> (r: Result<Vec<u8>, Error>)
        requires
            old(self).wf(),
        ensures
            final(self).wf(),
            final(self).same_arena(*old(self)),
            final(self).cache@ == old(self).cache@,
            r is Ok <==> value_at(old(self).image@, end as int, at as int) is Ok,
            r matches Ok(v) ==> value_at(old(self).image@, end as int, at as int) == Ok::<
                Seq<u8>,
                Fail,
            >(v@),
            r matches Err(e) ==> unreadable(e@) && (e@ is Corrupt || value_at(
                old(self).image@,
                end as int,
                at as int,
            ) == Err::<Seq<u8>, Fail>(e@)),
            final(self).reads == if r is Ok && !(old(self).value_cache_enabled && old(
                self,
            ).cached_value(at)) {
                old(self).reads.wrapping_add(1)
            } else {
                old(self).reads
            },
    {
        self.read_value(at, end, false)
    }

    pub fn point_value(&mut self, at: u64, end: u64) -> (r: Result<Vec<u8>, Error>)
        requires
            old(self).wf(),
        ensures
            final(self).wf(),
            final(self).same_arena(*old(self)),
            r is Ok <==> value_at(old(self).image@, end as int, at as int) is Ok,
            r matches Ok(v) ==> {
                &&& value_at(old(self).image@, end as int, at as int) == Ok::<Seq<u8>, Fail>(v@)
                &&& if old(self).value_cache_enabled && !old(self).cached_value(at) {
                    offered_value(old(self).cache@, final(self).cache@, at, v@)
                } else {
                    final(self).cache@ == old(self).cache@
                }
            },
            r matches Err(e) ==> unreadable(e@) && final(self).cache@ == old(self).cache@ && (
            e@ is Corrupt
                || value_at(old(self).image@, end as int, at as int) == Err::<Seq<u8>, Fail>(e@)),
    {
        self.read_value(at, end, true)
    }

    pub fn read_value(&mut self, at: u64, end: u64, keep: bool) -> (r: Result<Vec<u8>, Error>)
        requires
            old(self).wf(),
        ensures
            final(self).wf(),
            final(self).same_arena(*old(self)),
            r is Ok <==> value_at(old(self).image@, end as int, at as int) is Ok,
            r matches Ok(v) ==> {
                &&& value_at(old(self).image@, end as int, at as int) == Ok::<Seq<u8>, Fail>(v@)
                &&& if keep && old(self).value_cache_enabled && !old(self).cached_value(at) {
                    offered_value(old(self).cache@, final(self).cache@, at, v@)
                } else {
                    final(self).cache@ == old(self).cache@
                }
            },
            r matches Err(e) ==> {
                &&& unreadable(e@)
                &&& final(self).cache@ == old(self).cache@
                &&& if old(self).value_cache_enabled && old(self).cached_value(at) {
                    e@ == Fail::Corrupt("cached value outside snapshot"@)
                } else {
                    value_at(old(self).image@, end as int, at as int) == Err::<Seq<u8>, Fail>(e@)
                }
            },
            final(self).reads == if r is Ok && !(old(self).value_cache_enabled && old(
                self,
            ).cached_value(at)) {
                old(self).reads.wrapping_add(1)
            } else {
                old(self).reads
            },
    {
        let ghost b = self.image@;
        if !self.value_cache_enabled {
            return self.record(at, end, VALUE);
        }
        if let Some(v) = self.cache.value(at) {
            let size: usize = self.image.len();
            proof {
                record_extent(b, b.len() as int, at as int, VALUE);
                if value_at(b, end as int, at as int) is Ok {
                    read_unbounded(b, end as int, at as int, VALUE);
                    record_extent(b, end as int, at as int, VALUE);
                }
                if at + 32 + v@.len() <= end {
                    record_bound(b, b.len() as int, end as int, at as int, VALUE);
                }
            }
            if at + 32 + v.len() as u64 > end {
                return Err(corrupt("cached value outside snapshot"));
            }
            return Ok(v);
        }
        let v = self.record(at, end, VALUE)?;
        if keep {
            let ghost had = self.cache@;
            let room: usize = allocated(&v);
            // Large values are handed out as they are, without a copy.
            if !self.cache.can_admit_value(room, v.len()) {
                assert(had == had.insert_value(at, v@, room as int));
                return Ok(v);
            }
            self.cache.insert_value(at, copy(v.as_slice()));
            proof {
                read_unbounded(b, end as int, at as int, VALUE);
                let room = choose|room: int|
                    room >= v@.len() && self.cache@ == #[trigger] had.insert_value(at, v@, room);
                insert_meaning(had, at, ItemView::Value(v@, room));
                assert(offered_value(had, self.cache@, at, v@));
            }
        }
        Ok(v)
    }

    /// Reads and parses one page record; point reads may keep it.
    pub fn packed_record(&mut self, at: u64, end: u64, keep: bool) -> (r: Result<Record, Error>)
        requires
            old(self).wf(),
        ensures
            final(self).wf(),
            final(self).same_arena(*old(self)),
            r is Ok <==> page_at(old(self).image@, end as int, at as int) is Ok,
            r matches Ok(p) ==> {
                &&& p.wf()
                &&& page_at(old(self).image@, end as int, at as int) == Ok::<RecordView, Fail>(p@)
                &&& if keep && !old(self).cached_page(at) {
                    offered_page(old(self).cache@, final(self).cache@, at, p@)
                } else {
                    final(self).cache@ == old(self).cache@
                }
            },
            r matches Err(e) ==> {
                &&& unreadable(e@)
                &&& final(self).cache@ == old(self).cache@
                &&& if old(self).cached_page(at) {
                    e@ == Fail::Corrupt("cached page outside snapshot"@)
                } else {
                    page_at(old(self).image@, end as int, at as int) == Err::<RecordView, Fail>(e@)
                }
            },
            final(self).reads == if old(self).cached_page(at) || (r is Err && !page_record_reads(
                old(self).image@,
                end as int,
                at as int,
            )) {
                old(self).reads
            } else {
                old(self).reads.wrapping_add(1)
            },
    {
        let ghost b = self.image@;
        let size: usize = self.image.len();
        if let Some(p) = self.cache.page(at) {
            proof {
                record_extent(b, b.len() as int, at as int, b[at as int + 8]);
                if page_at(b, end as int, at as int) is Ok {
                    read_unbounded(b, end as int, at as int, b[at as int + 8]);
                    record_extent(b, end as int, at as int, b[at as int + 8]);
                }
            }
            if at + 32 + p.data.len() as u64 > end {
                return Err(corrupt("cached page outside snapshot"));
            }
            proof {
                page_extent(b, end as int, at as int);
            }
            return Ok(p);
        }
        if at < 8 || end < 32 || at > end - 32 {
            return Err(corrupt("record offset"));
        }
        if size < 32 || at > size as u64 - 32 {
            return Err(io("short read"));
        }
        let pos: usize = at as usize;
        let kind: u8 = self.image[pos + 8];
        let generation: u64 = get64(self.image.as_slice(), pos + 16);
        if kind != BASE && kind != DELTA {
            return Err(corrupt("packed kind"));
        }
        let payload = self.record(at, end, kind)?;
        let page = Record::parse(kind, payload, at, generation)?;
        proof {
            read_unbounded(b, end as int, at as int, kind);
        }
        if keep {
            let ghost had = self.cache@;
            self.cache.insert_page(at, page.duplicate());
            proof {
                let charge = choose|charge: int|
                    charge >= least_charge(page@) && self.cache@ == #[trigger] had.insert(
                        at,
                        ItemView::Page(page@, charge),
                    );
                insert_meaning(had, at, ItemView::Page(page@, charge));
                assert(offered_page(had, self.cache@, at, page@));
            }
        }
        Ok(page)
    }
}

/// Whether reading a page gets as far as a checked record.
pub open spec fn page_record_reads(b: Seq<u8>, end: int, at: int) -> bool {
    &&& 8 <= at
    &&& at + 32 <= end
    &&& at + 32 <= b.len()
    &&& b[at + 8] == BASE || b[at + 8] == DELTA
    &&& read_record(b, end, at, b[at + 8]) is Ok
}

} // verus!
