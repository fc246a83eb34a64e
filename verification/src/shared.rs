//! Range counts: one sorted array shared by every query, against a list of
//! matches that each query keeps for itself.
use vstd::prelude::*;
use vstd::multiset::Multiset;
use vstd::string::StringExecFns;

use crate::numbers::{ascending, lower_bound, sort};

verus! {

/// The keys that a range takes.
pub open spec fn inside(lo: u64, hi: u64) -> spec_fn(u64) -> bool {
    |k: u64| lo <= k < hi
}

/// How many of the keys lie in a range.
pub open spec fn range_count(keys: Seq<u64>, lo: u64, hi: u64) -> nat {
    keys.filter(inside(lo, hi)).len()
}

/// One more key.
pub proof fn filter_step(keys: Seq<u64>, k: u64, p: spec_fn(u64) -> bool)
    ensures
        keys.push(k).filter(p) == if p(k) {
            keys.filter(p).push(k)
        } else {
            keys.filter(p)
        },
{
    reveal(Seq::filter);
    assert(keys.push(k).drop_last() =~= keys);
}

proof fn filter_multiset(keys: Seq<u64>, p: spec_fn(u64) -> bool)
    ensures
        keys.filter(p).len() == keys.to_multiset().filter(p).len(),
    decreases keys.len(),
{
    broadcast use vstd::multiset::group_multiset_axioms;

    reveal(Seq::filter);
    keys.to_multiset_ensures();
    let m = keys.to_multiset();
    if keys.len() == 0 {
        assert(m.filter(p) =~= Multiset::empty());
    } else {
        let init = keys.drop_last();
        let x = keys.last();
        filter_multiset(init, p);
        init.to_multiset_ensures();
        assert(init.push(x) =~= keys);
        assert(m =~= init.to_multiset().insert(x));
        let f = init.to_multiset().filter(p);
        if p(x) {
            assert(m.filter(p) =~= f.insert(x));
        } else {
            assert(m.filter(p) =~= f);
        }
    }
}

/// A count does not depend on the order of the keys.
pub proof fn count_ignores_order(a: Seq<u64>, b: Seq<u64>, lo: u64, hi: u64)
    requires
        a.to_multiset() == b.to_multiset(),
    ensures
        range_count(a, lo, hi) == range_count(b, lo, hi),
{
    filter_multiset(a, inside(lo, hi));
    filter_multiset(b, inside(lo, hi));
}

/// One more key is counted where it belongs to the range.
pub proof fn count_grows(keys: Seq<u64>, k: u64, lo: u64, hi: u64)
    ensures
        range_count(keys.push(k), lo, hi) == range_count(keys, lo, hi) + if lo <= k < hi {
            1nat
        } else {
            0nat
        },
{
    filter_step(keys, k, inside(lo, hi));
}

proof fn filter_none(keys: Seq<u64>, p: spec_fn(u64) -> bool)
    requires
        forall|i: int| 0 <= i < keys.len() ==> !p(#[trigger] keys[i]),
    ensures
        keys.filter(p).len() == 0,
    decreases keys.len(),
{
    reveal(Seq::filter);
    if keys.len() > 0 {
        let init = keys.drop_last();
        assert forall|i: int| 0 <= i < init.len() implies !p(#[trigger] init[i]) by {
            assert(init[i] == keys[i]);
        }
        filter_none(init, p);
        assert(!p(keys[keys.len() - 1]));
    }
}

proof fn filter_all(keys: Seq<u64>, p: spec_fn(u64) -> bool)
    requires
        forall|i: int| 0 <= i < keys.len() ==> p(#[trigger] keys[i]),
    ensures
        keys.filter(p).len() == keys.len(),
    decreases keys.len(),
{
    reveal(Seq::filter);
    if keys.len() > 0 {
        let init = keys.drop_last();
        assert forall|i: int| 0 <= i < init.len() implies p(#[trigger] init[i]) by {
            assert(init[i] == keys[i]);
        }
        filter_all(init, p);
        assert(p(keys[keys.len() - 1]));
    }
}

/// In order, the keys of a range stand between its two bounds.
proof fn sorted_count(keys: Seq<u64>, lo: u64, hi: u64, a: int, b: int)
    requires
        0 <= a <= keys.len(),
        0 <= b <= keys.len(),
        forall|i: int| 0 <= i < a ==> keys[i] < lo,
        forall|i: int| a <= i < keys.len() ==> keys[i] >= lo,
        forall|i: int| 0 <= i < b ==> keys[i] < hi,
        forall|i: int| b <= i < keys.len() ==> keys[i] >= hi,
    ensures
        range_count(keys, lo, hi) == if a <= b {
            b - a
        } else {
            0
        },
{
    let p = inside(lo, hi);
    if a <= b {
        let x = keys.take(a);
        let y = keys.subrange(a, b);
        let z = keys.skip(b);
        filter_none(x, p);
        filter_all(y, p);
        filter_none(z, p);
        assert(keys =~= x + y + z);
        Seq::filter_distributes_over_add(x + y, z, p);
        Seq::filter_distributes_over_add(x, y, p);
    } else {
        assert forall|i: int| 0 <= i < keys.len() implies !p(#[trigger] keys[i]) by {}
        filter_none(keys, p);
    }
}

/// A range query with its own copy of what it matched.
pub struct PrivateQuery {
    pub lo: u64,
    pub hi: u64,
    pub matches: Vec<u64>,
}

impl PrivateQuery {
    /// Whether the query knows exactly the matches among the keys.
    pub open spec fn follows(&self, keys: Seq<u64>) -> bool {
        self.matches@ == keys.filter(inside(self.lo, self.hi))
    }

    pub fn from_keys(keys: &[u64], lo: u64, hi: u64) -> (q: Self)
        ensures
            q.lo == lo,
            q.hi == hi,
            q.follows(keys@),
    {
        let mut matches: Vec<u64> = Vec::new();
        let mut i: usize = 0;
        proof {
            reveal(Seq::filter);
            assert(keys@.take(0) =~= Seq::empty());
        }
        while i < keys.len()
            invariant
                i <= keys@.len(),
                matches@ == keys@.take(i as int).filter(inside(lo, hi)),
            decreases keys@.len() - i,
        {
            proof {
                assert(keys@.take(i + 1) =~= keys@.take(i as int).push(keys@[i as int]));
                filter_step(keys@.take(i as int), keys@[i as int], inside(lo, hi));
            }
            if keys[i] >= lo && keys[i] < hi {
                matches.push(keys[i]);
            }
            i = i + 1;
        }
        assert(keys@.take(i as int) =~= keys@);
        PrivateQuery { lo, hi, matches }
    }

    pub fn count(&self) -> (n: usize)
        ensures
            n == self.matches@.len(),
            forall|keys: Seq<u64>| #[trigger]
                self.follows(keys) ==> n == range_count(keys, self.lo, self.hi),
    {
        self.matches.len()
    }

    pub fn on_insert(&mut self, k: u64)
        ensures
            final(self).lo == old(self).lo,
            final(self).hi == old(self).hi,
            final(self).matches@ == if old(self).lo <= k < old(self).hi {
                old(self).matches@.push(k)
            } else {
                old(self).matches@
            },
            forall|keys: Seq<u64>| #[trigger]
                old(self).follows(keys) ==> final(self).follows(keys.push(k)),
    {
        proof {
            assert forall|keys: Seq<u64>| #[trigger] self.follows(keys) implies keys.push(k).filter(
                inside(self.lo, self.hi),
            ) == if self.lo <= k < self.hi {
                self.matches@.push(k)
            } else {
                self.matches@
            } by {
                filter_step(keys, k, inside(self.lo, self.hi));
            }
        }
        if k >= self.lo && k < self.hi {
            self.matches.push(k);
        }
    }
}

/// One array in order that serves every range.
pub struct SharedIndex {
    pub keys: Vec<u64>,
}

impl SharedIndex {
    pub open spec fn wf(&self) -> bool {
        ascending(self.keys@)
    }

    pub fn new(keys: Vec<u64>) -> (index: Self)
        ensures
            index.wf(),
            index.keys@.to_multiset() == keys@.to_multiset(),
    {
        let mut keys = keys;
        sort(&mut keys);
        SharedIndex { keys }
    }

    pub fn count(&self, lo: u64, hi: u64) -> (n: usize)
        requires
            self.wf(),
        ensures
            n == range_count(self.keys@, lo, hi),
    {
        let a: usize = lower_bound(self.keys.as_slice(), lo);
        let b: usize = lower_bound(self.keys.as_slice(), hi);
        proof {
            sorted_count(self.keys@, lo, hi, a as int, b as int);
        }
        if b >= a {
            b - a
        } else {
            0
        }
    }

    pub fn insert(&mut self, k: u64)
        requires
            old(self).wf(),
        ensures
            final(self).wf(),
            final(self).keys@.to_multiset() == old(self).keys@.to_multiset().insert(k),
            final(self).keys@.len() == old(self).keys@.len() + 1,
    {
        let i: usize = lower_bound(self.keys.as_slice(), k);
        let ghost before = self.keys@;
        self.keys.insert(i, k);
        proof {
            let x = before.take(i as int);
            let y = before.skip(i as int);
            assert(before =~= x + y);
            assert(self.keys@ =~= x.push(k) + y);
            x.to_multiset_ensures();
            vstd::seq_lib::lemma_multiset_commutative(x, y);
            vstd::seq_lib::lemma_multiset_commutative(x.push(k), y);
            assert(self.keys@.to_multiset() =~= before.to_multiset().insert(k));
        }
    }
}

/// However keys are inserted, the shared index and a query's own list count the same.
pub proof fn shared_equals_private(
    index: Seq<u64>,
    keys: Seq<u64>,
    matches: Seq<u64>,
    lo: u64,
    hi: u64,
)
    requires
        index.to_multiset() == keys.to_multiset(),
        matches == keys.filter(inside(lo, hi)),
    ensures
        range_count(index, lo, hi) == matches.len(),
{
    count_ignores_order(index, keys, lo, hi);
}

/// Every query's own list against the shared index.
fn agree(privs: &Vec<PrivateQuery>, index: &SharedIndex, keys: Ghost<Seq<u64>>) -> (r: bool)
    requires
        index.wf(),
        index.keys@.to_multiset() == keys@.to_multiset(),
        forall|q: int| 0 <= q < privs@.len() ==> (#[trigger] privs@[q]).follows(keys@),
    ensures
        r,
{
    let mut q: usize = 0;
    while q < privs.len()
        invariant
            q <= privs@.len(),
            index.wf(),
            index.keys@.to_multiset() == keys@.to_multiset(),
            forall|q: int| 0 <= q < privs@.len() ==> (#[trigger] privs@[q]).follows(keys@),
        decreases privs@.len() - q,
    {
        let lo: u64 = privs[q].lo;
        let hi: u64 = privs[q].hi;
        proof {
            assert(privs@[q as int].follows(keys@));
            count_ignores_order(index.keys@, keys@, lo, hi);
        }
        if privs[q].count() != index.count(lo, hi) {
            return false;
        }
        q = q + 1;
    }
    true
}

/// Lists and index count the same, before and after inserts.
pub fn correctness() -> (r: Result<(), String>)
    ensures
        r is Ok,
{
    let mut keys: Vec<u64> = Vec::new();
    let mut x: u64 = 0;
    while x < 3_000
        invariant
            x <= 3_000,
            x % 3 == 0,
        decreases 3_000 - x,
    {
        keys.push(x);
        x = x + 3;
    }
    let mut privs: Vec<PrivateQuery> = Vec::new();
    let mut q: u64 = 0;
    while q < 20
        invariant
            q <= 20,
            privs@.len() == q,
            forall|i: int| 0 <= i < privs@.len() ==> (#[trigger] privs@[i]).follows(keys@),
        decreases 20 - q,
    {
        let lo: u64 = q * 50;
        privs.push(PrivateQuery::from_keys(keys.as_slice(), lo, lo + 200));
        q = q + 1;
    }
    let ghost mut now = keys@;
    let mut index = SharedIndex::new(keys);
    if !agree(&privs, &index, Ghost(now)) {
        return Err(String::from_str("shared/private count mismatch"));
    }
    let added: Vec<u64> = vec![4, 250, 9000];
    let mut a: usize = 0;
    while a < added.len()
        invariant
            a <= added@.len(),
            index.wf(),
            index.keys@.to_multiset() == now.to_multiset(),
            forall|i: int| 0 <= i < privs@.len() ==> (#[trigger] privs@[i]).follows(now),
        decreases added@.len() - a,
    {
        let k: u64 = added[a];
        let mut i: usize = 0;
        while i < privs.len()
            invariant
                i <= privs@.len(),
                forall|j: int| 0 <= j < i ==> (#[trigger] privs@[j]).follows(now.push(k)),
                forall|j: int| i <= j < privs@.len() ==> (#[trigger] privs@[j]).follows(now),
            decreases privs@.len() - i,
        {
            assert(privs@[i as int].follows(now));
            privs[i].on_insert(k);
            i = i + 1;
        }
        index.insert(k);
        proof {
            now.to_multiset_ensures();
            now = now.push(k);
        }
        a = a + 1;
    }
    if !agree(&privs, &index, Ghost(now)) {
        return Err(String::from_str("after insert mismatch"));
    }
    Ok(())
}

} // verus!
