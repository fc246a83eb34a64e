//! A charged cache of decoded records, first in first out.
use std::collections::{HashMap, VecDeque};
use vstd::prelude::*;

use super::arena::{Node, NodeView};
use super::bytes::{allocated, copy};
use super::page::{Record, RecordView};

verus! {

broadcast use vstd::std_specs::hash::group_hash_axioms;

/// What is kept for an offset: a node, a value with how much was allocated for it, or a page
/// with its charge.
pub enum ItemView {
    Node(NodeView),
    Value(Seq<u8>, int),
    Page(RecordView, int),
}

/// What keeping a page costs at least.
pub open spec fn least_charge(p: RecordView) -> int {
    p.size + 4 * p.rows.len() + 256
}

/// What keeping an item costs.
pub open spec fn cost(i: ItemView) -> int {
    match i {
        ItemView::Node(n) => n.key.len() + 192int,
        ItemView::Value(_, room) => room + 192,
        ItemView::Page(_, charge) => charge,
    }
}

/// The cache as a value. `order` lists the offsets from oldest to newest.
#[verifier::ext_equal]
pub struct CacheView {
    pub items: Map<u64, ItemView>,
    pub order: Seq<u64>,
    pub limit: int,
    pub admit_values: bool,
}

/// The charge of the items listed in `order`.
pub open spec fn total(items: Map<u64, ItemView>, order: Seq<u64>) -> int
    decreases order.len(),
{
    if order.len() == 0 {
        0
    } else {
        cost(items[order[0]]) + total(items, order.drop_first())
    }
}

/// A listed item makes the total positive.
pub proof fn total_positive(items: Map<u64, ItemView>, order: Seq<u64>)
    requires
        forall|i: int| 0 <= i < order.len() ==> cost(#[trigger] items[order[i]]) > 0,
    ensures
        total(items, order) >= 0,
        order.len() > 0 ==> total(items, order) > 0,
    decreases order.len(),
{
    if order.len() > 0 {
        let rest = order.drop_first();
        assert forall|i: int| 0 <= i < rest.len() implies cost(#[trigger] items[rest[i]]) > 0 by {
            assert(rest[i] == order[i + 1]);
        }
        total_positive(items, rest);
        assert(cost(items[order[0]]) > 0);
    }
}

impl CacheView {
    pub open spec fn bytes(self) -> int {
        total(self.items, self.order)
    }

    /// Every item is listed once, and the charge is within the limit.
    pub open spec fn wf(self) -> bool {
        &&& self.order.no_duplicates()
        &&& forall|at: u64| #[trigger] self.items.contains_key(at) <==> self.order.contains(at)
        &&& self.bytes() <= self.limit
        &&& forall|at: u64| self.items.contains_key(at) ==> cost(#[trigger] self.items[at]) > 0
    }

    /// The cache after its oldest item left.
    pub open spec fn drop_oldest(self) -> CacheView {
        CacheView {
            items: self.items.remove(self.order[0]),
            order: self.order.drop_first(),
            ..self
        }
    }

    /// The cache after the oldest items left until `needed` more fits.
    pub open spec fn evict_until(self, needed: int) -> CacheView
        decreases self.order.len(),
    {
        if self.bytes() + needed <= self.limit || self.order.len() == 0 {
            self
        } else {
            self.drop_oldest().evict_until(needed)
        }
    }

    /// The cache after an item was offered to it.
    pub open spec fn insert(self, at: u64, item: ItemView) -> CacheView {
        if cost(item) > self.limit || self.items.contains_key(at) {
            self
        } else {
            let e = self.evict_until(cost(item));
            CacheView { items: e.items.insert(at, item), order: e.order.push(at), ..e }
        }
    }

    /// Whether a value of this length may be kept: values are admitted at all,
    /// it is small, and what is allocated for it is no more than an eighth of the limit.
    pub open spec fn admits(self, room: int, len: int) -> bool {
        self.admit_values && len <= 4096 && room + 192 <= self.limit / 8
    }

    /// The cache after a value was offered to it.
    pub open spec fn insert_value(self, at: u64, value: Seq<u8>, room: int) -> CacheView {
        if self.admits(room, value.len() as int) {
            self.insert(at, ItemView::Value(value, room))
        } else {
            self
        }
    }
}

/// Whether nothing but nodes came in: whatever else is in `b` was in `a`.
#[verifier::opaque]
pub open spec fn nodes_only(a: CacheView, b: CacheView) -> bool {
    &&& a.limit == b.limit
    &&& a.admit_values == b.admit_values
    &&& forall|at: u64| #[trigger]
        b.items.contains_key(at) && !(b.items[at] is Node) ==> a.items.contains_key(at) && a.items[at]
            == b.items[at]
}

pub broadcast proof fn nodes_only_same(a: CacheView)
    ensures
        #[trigger] nodes_only(a, a),
{
    reveal(nodes_only);
}

pub broadcast proof fn nodes_only_chain(a: CacheView, b: CacheView, c: CacheView)
    requires
        #[trigger] nodes_only(a, b),
        #[trigger] nodes_only(b, c),
    ensures
        nodes_only(a, c),
{
    reveal(nodes_only);
}

pub broadcast group group_nodes_only {
    nodes_only_same,
    nodes_only_chain,
}

/// Whatever is in `b` was in `a`.
pub open spec fn within(b: CacheView, a: CacheView) -> bool {
    forall|at: u64| #[trigger]
        b.items.contains_key(at) ==> a.items.contains_key(at) && b.items[at] == a.items[at]
}

proof fn total_agrees(a: Map<u64, ItemView>, b: Map<u64, ItemView>, order: Seq<u64>)
    requires
        forall|i: int| 0 <= i < order.len() ==> a[#[trigger] order[i]] == b[order[i]],
    ensures
        total(a, order) == total(b, order),
    decreases order.len(),
{
    if order.len() > 0 {
        let rest = order.drop_first();
        assert forall|i: int| 0 <= i < rest.len() implies a[#[trigger] rest[i]] == b[rest[i]] by {
            assert(rest[i] == order[i + 1]);
        }
        assert(a[order[0]] == b[order[0]]);
        total_agrees(a, b, rest);
    }
}

proof fn total_push(items: Map<u64, ItemView>, order: Seq<u64>, at: u64)
    ensures
        total(items, order.push(at)) == total(items, order) + cost(items[at]),
    decreases order.len(),
{
    if order.len() > 0 {
        assert(order.push(at).drop_first() =~= order.drop_first().push(at));
        total_push(items, order.drop_first(), at);
    } else {
        assert(order.push(at).drop_first() =~= Seq::<u64>::empty());
        assert(order =~= Seq::<u64>::empty());
    }
}

proof fn total_nonnegative(items: Map<u64, ItemView>, order: Seq<u64>)
    requires
        forall|i: int| 0 <= i < order.len() ==> cost(items[#[trigger] order[i]]) >= 0,
    ensures
        total(items, order) >= 0,
    decreases order.len(),
{
    if order.len() > 0 {
        let rest = order.drop_first();
        assert forall|i: int| 0 <= i < rest.len() implies cost(items[#[trigger] rest[i]]) >= 0 by {
            assert(rest[i] == order[i + 1]);
        }
        assert(cost(items[order[0]]) >= 0);
        total_nonnegative(items, rest);
    }
}

proof fn drop_oldest_meaning(c: CacheView)
    requires
        c.wf(),
        c.order.len() > 0,
    ensures
        c.drop_oldest().wf(),
        c.drop_oldest().bytes() == c.bytes() - cost(c.items[c.order[0]]),
        c.items.contains_key(c.order[0]),
        c.drop_oldest().bytes() >= 0,
        within(c.drop_oldest(), c),
{
    let d = c.drop_oldest();
    let first = c.order[0];
    assert(c.order.contains(first));
    assert forall|i: int| 0 <= i < d.order.len() implies c.items[#[trigger] d.order[i]]
        == d.items[d.order[i]] by {
        assert(d.order[i] == c.order[i + 1]);
    }
    total_agrees(c.items, d.items, d.order);
    assert forall|at: u64| #[trigger] d.items.contains_key(at) <==> d.order.contains(at) by {
        if d.items.contains_key(at) {
            assert(c.items.contains_key(at));
            let i = choose|i: int| 0 <= i < c.order.len() && c.order[i] == at;
            assert(d.order[i - 1] == at);
        }
        if d.order.contains(at) {
            let i = choose|i: int| 0 <= i < d.order.len() && d.order[i] == at;
            assert(c.order[i + 1] == at);
            assert(c.order.contains(at));
            assert(c.items.contains_key(at));
        }
    }
    assert forall|i: int, j: int| 0 <= i < d.order.len() && 0 <= j < d.order.len() && i
        != j implies d.order[i] != d.order[j] by {
        assert(d.order[i] == c.order[i + 1] && d.order[j] == c.order[j + 1]);
    }
    assert forall|at: u64| d.items.contains_key(at) implies cost(#[trigger] d.items[at]) > 0 by {
        assert(c.items.contains_key(at));
        assert(d.items[at] == c.items[at]);
    }
    assert forall|i: int| 0 <= i < d.order.len() implies cost(d.items[#[trigger] d.order[i]])
        >= 0 by {
        assert(d.order.contains(d.order[i]));
        assert(d.items.contains_key(d.order[i]));
    }
    assert(c.items.contains_key(first));
    assert(cost(c.items[first]) >= 0);
    total_nonnegative(d.items, d.order);
}

/// Eviction keeps the cache well formed, and afterwards either the requested
/// room is there or nothing is left.
pub proof fn evict_meaning(c: CacheView, needed: int)
    requires
        c.wf(),
    ensures
        c.evict_until(needed).wf(),
        c.evict_until(needed).bytes() + needed <= c.limit || c.evict_until(needed).order.len() == 0,
        c.evict_until(needed).limit == c.limit,
        c.evict_until(needed).admit_values == c.admit_values,
        within(c.evict_until(needed), c),
    decreases c.order.len(),
{
    if !(c.bytes() + needed <= c.limit || c.order.len() == 0) {
        drop_oldest_meaning(c);
        evict_meaning(c.drop_oldest(), needed);
    }
}

/// Offering an item keeps the cache within its limit; what is in it afterwards
/// was there before or is the new item.
pub proof fn insert_meaning(c: CacheView, at: u64, item: ItemView)
    requires
        c.wf(),
        cost(item) > 0,
    ensures
        c.insert(at, item).wf(),
        c.insert(at, item).limit == c.limit,
        c.insert(at, item).admit_values == c.admit_values,
        forall|k: u64| #[trigger]
            c.insert(at, item).items.contains_key(k) ==> (k == at && c.insert(at, item).items[k]
                == item) || (c.items.contains_key(k) && c.insert(at, item).items[k] == c.items[k]),
{
    if !(cost(item) > c.limit || c.items.contains_key(at)) {
        let e = c.evict_until(cost(item));
        evict_meaning(c, cost(item));
        let r = c.insert(at, item);
        assert(!e.items.contains_key(at));
        assert(!e.order.contains(at));
        assert forall|i: int| 0 <= i < e.order.len() implies e.items[#[trigger] e.order[i]]
            == r.items[e.order[i]] by {
            assert(e.order.contains(e.order[i]));
        }
        total_agrees(e.items, r.items, e.order);
        total_push(r.items, e.order, at);
        if e.order.len() == 0 {
            assert(e.bytes() == 0);
        }
        assert forall|k: u64| #[trigger] r.items.contains_key(k) <==> r.order.contains(k) by {
            if r.items.contains_key(k) {
                if k == at {
                    assert(r.order[e.order.len() as int] == at);
                } else {
                    assert(e.items.contains_key(k));
                    let i = choose|i: int| 0 <= i < e.order.len() && e.order[i] == k;
                    assert(r.order[i] == k);
                }
            }
            if r.order.contains(k) {
                let i = choose|i: int| 0 <= i < r.order.len() && r.order[i] == k;
                if i < e.order.len() {
                    assert(e.order[i] == k);
                    assert(e.order.contains(k));
                    assert(e.items.contains_key(k));
                }
            }
        }
        assert forall|i: int, j: int| 0 <= i < r.order.len() && 0 <= j < r.order.len() && i
            != j implies r.order[i] != r.order[j] by {
            if i < e.order.len() {
                assert(e.order.contains(e.order[i]));
            }
            if j < e.order.len() {
                assert(e.order.contains(e.order[j]));
            }
        }
    }
}

/// Nodes, values with how much was allocated for each, and pages with their
/// charges, by offset.
#[derive(Debug)]
pub struct Cache {
    pub nodes: HashMap<u64, Node>,
    pub values: HashMap<u64, (Vec<u8>, usize)>,
    pub pages: HashMap<u64, (Record, usize)>,
    pub order: VecDeque<u64>,
    pub bytes: usize,
    pub limit: usize,
    pub admit_values: bool,
}

impl View for Cache {
    type V = CacheView;

    open spec fn view(&self) -> CacheView {
        CacheView {
            items: Map::new(|at: u64| self.has(at), |at: u64| self.item(at)),
            order: self.order@,
            limit: self.limit as int,
            admit_values: self.admit_values,
        }
    }
}

impl Cache {
    /// Whether something is kept for an offset.
    pub open spec fn has(self, at: u64) -> bool {
        self.nodes@.contains_key(at) || self.values@.contains_key(at) || self.pages@.contains_key(
            at,
        )
    }

    /// What is kept for an offset.
    pub open spec fn item(self, at: u64) -> ItemView {
        if self.nodes@.contains_key(at) {
            ItemView::Node(self.nodes@[at]@)
        } else if self.values@.contains_key(at) {
            ItemView::Value(self.values@[at].0@, self.values@[at].1 as int)
        } else {
            ItemView::Page(self.pages@[at].0@, self.pages@[at].1 as int)
        }
    }

    /// One thing is kept for an offset, and kept pages are valid.
    pub open spec fn sound(self) -> bool {
        &&& forall|at: u64| #[trigger]
            self.nodes@.contains_key(at) ==> !self.values@.contains_key(at)
                && !self.pages@.contains_key(at)
        &&& forall|at: u64| #[trigger]
            self.values@.contains_key(at) ==> !self.pages@.contains_key(at)
        &&& forall|at: u64| #[trigger] self.pages@.contains_key(at) ==> self.pages@[at].0.wf()
    }

    /// The charge is counted right.
    pub open spec fn wf(self) -> bool {
        &&& self@.wf()
        &&& self.bytes == self@.bytes()
        &&& self.sound()
    }

    pub fn new(limit: usize, admit_values: bool) -> (c: Cache)
        ensures
            c.wf(),
            c@ == (CacheView {
                items: Map::empty(),
                order: Seq::empty(),
                limit: limit as int,
                admit_values,
            }),
    {
        let c = Cache {
            nodes: HashMap::new(),
            values: HashMap::new(),
            pages: HashMap::new(),
            order: VecDeque::new(),
            bytes: 0,
            limit,
            admit_values,
        };
        assert(c@.items =~= Map::<u64, ItemView>::empty());
        c
    }

    /// Drops every item and takes no more.
    pub fn retire(&mut self)
        ensures
            final(self).wf(),
            final(self)@ == (CacheView {
                items: Map::empty(),
                order: Seq::empty(),
                limit: 0,
                admit_values: false,
            }),
    {
        self.nodes = HashMap::new();
        self.values = HashMap::new();
        self.pages = HashMap::new();
        self.order = VecDeque::new();
        self.bytes = 0;
        self.limit = 0;
        self.admit_values = false;
        assert(self@.items =~= Map::<u64, ItemView>::empty());
    }

    pub fn clear(&mut self)
        requires
            old(self).wf(),
        ensures
            final(self).wf(),
            final(self)@ == (CacheView { items: Map::empty(), order: Seq::empty(), ..old(self)@ }),
    {
        proof {
            nonnegative(self@);
        }
        self.nodes.clear();
        self.values.clear();
        self.pages.clear();
        self.order.clear();
        self.bytes = 0;
        assert(self@.items =~= Map::<u64, ItemView>::empty());
    }

    pub fn evict_until(&mut self, needed: usize)
        requires
            old(self).wf(),
        ensures
            final(self).wf(),
            final(self)@ == old(self)@.evict_until(needed as int),
            final(self).limit == old(self).limit,
    {
        let ghost start = self@;
        let ghost limit = self.limit;
        while self.limit - self.bytes < needed
            invariant_except_break
                self.wf(),
                self.limit == limit,
                self@.evict_until(needed as int) == start.evict_until(needed as int),
            ensures
                self.wf(),
                self.limit == limit,
                self@ == start.evict_until(needed as int),
            decreases self.order@.len(),
        {
            let ghost now = *self;
            let Some(at) = self.order.pop_front() else {
                assert(self@ =~= now@);
                break;
            };
            proof {
                drop_oldest_meaning(now@);
                assert(now@.order.drop_first() =~= self.order@);
                assert(now@.items.contains_key(at));
                assert(now@.items[at] == now.item(at));
            }
            if let Some(n) = self.nodes.remove(&at) {
                self.bytes = self.bytes - (n.key.len() + 192);
            } else if let Some((_, room)) = self.values.remove(&at) {
                self.bytes = self.bytes - (room + 192);
            } else if let Some((_, charge)) = self.pages.remove(&at) {
                self.bytes = self.bytes - charge;
            }
            assert(self@ =~= now@.drop_oldest());
        }
    }

    fn contains(&self, at: u64) -> (r: bool)
        ensures
            r == self@.items.contains_key(at),
    {
        self.nodes.contains_key(&at) || self.values.contains_key(&at) || self.pages.contains_key(
            &at,
        )
    }

    /// Makes room for an item and lists it; `false` where it is not to be kept.
    fn list(&mut self, at: u64, size: usize) -> (r: bool)
        requires
            old(self).wf(),
            size > 0,
        ensures
            r <==> size <= old(self).limit && !old(self)@.items.contains_key(at),
            !r ==> *final(self) == *old(self),
            r ==> {
                let e = old(self)@.evict_until(size as int);
                &&& final(self)@ == (CacheView { order: e.order.push(at), ..e })
                &&& !e.items.contains_key(at)
                &&& final(self).bytes == e.bytes() + size
                &&& final(self).sound()
                &&& final(self).limit == old(self).limit
            },
    {
        if size > self.limit || self.contains(at) {
            return false;
        }
        proof {
            evict_meaning(self@, size as int);
        }
        self.evict_until(size);
        proof {
            if self@.order.len() == 0 {
                assert(self@.bytes() == 0);
            }
        }
        let ghost mid = *self;
        self.bytes = self.bytes + size;
        self.order.push_back(at);
        assert(self@.items =~= mid@.items);
        true
    }

    pub fn insert_node(&mut self, at: u64, n: Node)
        requires
            old(self).wf(),
            n.key@.len() <= u32::MAX - 192,
        ensures
            final(self).wf(),
            final(self)@ == old(self)@.insert(at, ItemView::Node(n@)),
            final(self).limit == old(self).limit,
    {
        let size: usize = n.key.len() + 192;
        proof {
            insert_adds(self@, at, ItemView::Node(n@));
        }
        if self.list(at, size) {
            self.nodes.insert(at, n);
            assert(self@ =~= old(self)@.insert(at, ItemView::Node(n@)));
        }
    }

    pub fn can_admit_value(&self, capacity: usize, len: usize) -> (r: bool)
        ensures
            r == self@.admits(capacity as int, len as int),
    {
        self.admit_values && len <= 4096 && self.limit / 8 >= 192 && capacity <= self.limit / 8
            - 192
    }

    /// Offers a value for which so much is allocated.
    pub fn insert_allocated(&mut self, at: u64, value: Vec<u8>, room: usize)
        requires
            old(self).wf(),
        ensures
            final(self).wf(),
            final(self)@ == old(self)@.insert_value(at, value@, room as int),
            final(self).limit == old(self).limit,
    {
        // Keep one value from consuming a large fraction of the shared cache.
        if !self.can_admit_value(room, value.len()) {
            return;
        }
        let size: usize = room + 192;
        let ghost item = ItemView::Value(value@, room as int);
        proof {
            insert_adds(self@, at, item);
        }
        if self.list(at, size) {
            self.values.insert(at, (value, room));
            assert(self@ =~= old(self)@.insert(at, item));
        }
    }

    /// Offers a value, at the charge of what is allocated for it.
    pub fn insert_value(&mut self, at: u64, value: Vec<u8>)
        requires
            old(self).wf(),
        ensures
            final(self).wf(),
            final(self).limit == old(self).limit,
            exists|room: int|
                room >= value@.len() && final(self)@ == #[trigger] old(self)@.insert_value(
                    at,
                    value@,
                    room,
                ),
    {
        let room: usize = allocated(&value);
        self.insert_allocated(at, value, room)
    }

    /// Offers a page at a charge.
    pub fn insert_charged(&mut self, at: u64, page: Record, charge: usize)
        requires
            old(self).wf(),
            page.wf(),
            charge > 0,
        ensures
            final(self).wf(),
            final(self)@ == old(self)@.insert(at, ItemView::Page(page@, charge as int)),
            final(self).limit == old(self).limit,
    {
        let ghost item = ItemView::Page(page@, charge as int);
        proof {
            insert_adds(self@, at, item);
        }
        if self.list(at, charge) {
            self.pages.insert(at, (page, charge));
            assert(self@ =~= old(self)@.insert(at, item));
        }
    }

    /// Offers a page, at the charge of what is allocated for it.
    pub fn insert_page(&mut self, at: u64, page: Record)
        requires
            old(self).wf(),
            page.wf(),
        ensures
            final(self).wf(),
            final(self).limit == old(self).limit,
            exists|charge: int|
                charge >= least_charge(page@) && final(self)@ == #[trigger] old(self)@.insert(
                    at,
                    ItemView::Page(page@, charge),
                ),
    {
        let charge: usize = page.charge();
        self.insert_charged(at, page, charge)
    }

    pub fn node(&self, at: u64) -> (r: Option<Node>)
        requires
            self.wf(),
        ensures
            r matches Some(n) ==> self@.items.contains_key(at) && self@.items[at]
                == ItemView::Node(n@),
            r is None ==> !(self@.items.contains_key(at) && self@.items[at] is Node),
    {
        match self.nodes.get(&at) {
            Some(n) => Some(n.duplicate()),
            None => None,
        }
    }

    pub fn value(&self, at: u64) -> (r: Option<Vec<u8>>)
        requires
            self.wf(),
        ensures
            r matches Some(v) ==> self@.items.contains_key(at) && (
            self@.items[at] matches ItemView::Value(x, _) && x == v@),
            r is None ==> !(self@.items.contains_key(at) && self@.items[at] is Value),
    {
        match self.values.get(&at) {
            Some((v, _)) => Some(copy(v.as_slice())),
            None => None,
        }
    }

    pub fn page(&self, at: u64) -> (r: Option<Record>)
        requires
            self.wf(),
        ensures
            r matches Some(p) ==> self@.items.contains_key(at) && (
            self@.items[at] matches ItemView::Page(x, _) && x == p@) && p.wf(),
            r is None ==> !(self@.items.contains_key(at) && self@.items[at] is Page),
    {
        match self.pages.get(&at) {
            Some((p, _)) => Some(p.duplicate()),
            None => None,
        }
    }
}

proof fn nonnegative(c: CacheView)
    requires
        c.wf(),
    ensures
        c.bytes() >= 0,
{
    assert forall|i: int| 0 <= i < c.order.len() implies cost(c.items[#[trigger] c.order[i]])
        >= 0 by {
        assert(c.order.contains(c.order[i]));
        assert(c.items.contains_key(c.order[i]));
    }
    total_nonnegative(c.items, c.order);
}

/// What an offered item adds to the charge, where it is kept.
proof fn insert_adds(c: CacheView, at: u64, item: ItemView)
    requires
        c.wf(),
        cost(item) > 0,
    ensures
        c.insert(at, item).wf(),
        cost(item) <= c.limit && !c.items.contains_key(at) ==> c.insert(at, item).bytes()
            == c.evict_until(cost(item)).bytes() + cost(item),
{
    insert_meaning(c, at, item);
    if cost(item) <= c.limit && !c.items.contains_key(at) {
        let e = c.evict_until(cost(item));
        evict_meaning(c, cost(item));
        let r = c.insert(at, item);
        assert(!e.items.contains_key(at));
        assert(!e.order.contains(at));
        assert forall|i: int| 0 <= i < e.order.len() implies e.items[#[trigger] e.order[i]]
            == r.items[e.order[i]] by {
            assert(e.order.contains(e.order[i]));
        }
        total_agrees(e.items, r.items, e.order);
        total_push(r.items, e.order, at);
    }
}

/// How many entries a map has room for, by `HashMap::capacity`: the number that it can
/// hold without reallocating, so at least as many as it has. How many more is up to the
/// allocator, and nothing is claimed of it.
#[verifier::external_body]
pub(crate) fn map_room<V>(m: &HashMap<u64, V>) -> (n: usize)
    ensures
        n >= m@.len(),
{
    m.capacity()
}

/// How many elements a queue has room for, by `VecDeque::capacity`: the number that it can
/// hold without reallocating, so at least as many as it has. How many more is up to the
/// allocator, and nothing is claimed of it.
#[verifier::external_body]
pub(crate) fn queue_room(q: &VecDeque<u64>) -> (n: usize)
    ensures
        n >= q@.len(),
{
    q.capacity()
}

} // verus!
