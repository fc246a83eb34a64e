//! A map from byte-string keys, kept as rows in key order.
use vstd::prelude::*;

use super::bytes::{before, lt, same};
use super::rows::{
    lookup, lookup_finds, present, put, put_meaning, rank, rank_is, rank_splits, sorted,
};

verus! {

#[derive(Debug)]
pub struct KeyMap<V> {
    rows: Vec<(Vec<u8>, V)>,
}

impl<V: DeepView> View for KeyMap<V> {
    type V = Seq<(Seq<u8>, V::V)>;

    closed spec fn view(&self) -> Seq<(Seq<u8>, V::V)> {
        self.rows@.map_values(|r: (Vec<u8>, V)| (r.0@, r.1.deep_view()))
    }
}

impl<V: DeepView> KeyMap<V> {
    pub open spec fn wf(self) -> bool {
        sorted(self@)
    }

    pub fn new() -> (m: KeyMap<V>)
        ensures
            m.wf(),
            m@ == Seq::<(Seq<u8>, V::V)>::empty(),
    {
        let m = KeyMap { rows: Vec::new() };
        assert(m@ =~= Seq::<(Seq<u8>, V::V)>::empty());
        m
    }

    pub fn len(&self) -> (n: usize)
        ensures
            n == self@.len(),
    {
        self.rows.len()
    }

    pub fn is_empty(&self) -> (r: bool)
        ensures
            r == (self@.len() == 0),
    {
        self.rows.len() == 0
    }

    pub fn key_at(&self, i: usize) -> (k: &[u8])
        requires
            i < self@.len(),
        ensures
            k@ == self@[i as int].0,
    {
        self.rows[i].0.as_slice()
    }

    pub fn value_at(&self, i: usize) -> (v: &V)
        requires
            i < self@.len(),
        ensures
            v.deep_view() == self@[i as int].1,
    {
        &self.rows[i].1
    }

    /// The first position whose key does not come before `key`.
    pub fn position(&self, key: &[u8]) -> (i: usize)
        requires
            self.wf(),
        ensures
            i == rank(self@, key@),
            i <= self@.len(),
    {
        let mut lo: usize = 0;
        let mut hi: usize = self.rows.len();
        while lo < hi
            invariant
                self.wf(),
                0 <= lo <= hi <= self@.len(),
                lo > 0 ==> lt(self@[lo - 1].0, key@),
                hi < self@.len() ==> !lt(self@[hi as int].0, key@),
            decreases hi - lo,
        {
            let mid: usize = lo + (hi - lo) / 2;
            if before(self.key_at(mid), key) {
                lo = mid + 1;
            } else {
                hi = mid;
            }
        }
        proof {
            rank_is(self@, key@, lo as int);
        }
        lo
    }

    pub fn contains_key(&self, key: &[u8]) -> (r: bool)
        requires
            self.wf(),
        ensures
            r == present(self@, key@),
    {
        proof {
            lookup_finds(self@, key@);
        }
        let i: usize = self.position(key);
        i < self.rows.len() && same(self.key_at(i), key)
    }

    pub fn get(&self, key: &[u8]) -> (r: Option<&V>)
        requires
            self.wf(),
        ensures
            r is Some <==> present(self@, key@),
            r matches Some(v) ==> lookup(self@, key@) == Some(v.deep_view()),
    {
        proof {
            lookup_finds(self@, key@);
        }
        let i: usize = self.position(key);
        if i < self.rows.len() && same(self.key_at(i), key) {
            Some(self.value_at(i))
        } else {
            None
        }
    }

    pub fn insert(&mut self, key: Vec<u8>, value: V)
        requires
            old(self).wf(),
        ensures
            final(self).wf(),
            final(self)@ == put(old(self)@, key@, value.deep_view()),
    {
        let ghost before = self@;
        let i: usize = self.position(key.as_slice());
        proof {
            put_meaning(self@, key@, value.deep_view());
            rank_splits(self@, key@);
        }
        if i < self.rows.len() && same(self.key_at(i), key.as_slice()) {
            let ghost row = (key, value);
            self.rows.set(i, (key, value));
            assert(self@ =~= put(before, row.0@, row.1.deep_view()));
        } else {
            let ghost row = (key, value);
            self.rows.insert(i, (key, value));
            assert(self@ =~= put(before, row.0@, row.1.deep_view()));
        }
    }
}

} // verus!
