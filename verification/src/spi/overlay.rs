//! Rows laid over rows: what changes make of what was there.
use vstd::prelude::*;

use super::bytes::{group_order, lt};
use super::rows::{
    lookup, lookup_determines, lookup_finds, present, rank, rank_splits, sorted, take_lookup,
};

verus! {

/// Whether `after` is `before` with `changes` laid over it: a changed key holds
/// what its change says, any other key what it held.
pub open spec fn over<T>(
    before: Seq<(Seq<u8>, T)>,
    after: Seq<(Seq<u8>, T)>,
    changes: Seq<(Seq<u8>, Option<T>)>,
) -> bool {
    &&& sorted(after)
    &&& forall|k: Seq<u8>| #[trigger]
        lookup(after, k) == match lookup(changes, k) {
            Some(c) => c,
            None => lookup(before, k),
        }
}

/// Every key of `s` comes before `key`.
pub open spec fn below<T>(s: Seq<(Seq<u8>, T)>, key: Seq<u8>) -> bool {
    forall|i: int| 0 <= i < s.len() ==> lt(#[trigger] s[i].0, key)
}

/// A key behind all rows is not among them.
pub proof fn below_absent<T>(s: Seq<(Seq<u8>, T)>, key: Seq<u8>)
    requires
        sorted(s),
        below(s, key),
    ensures
        lookup(s, key) is None,
        !present(s, key),
        rank(s, key) == s.len(),
{
    broadcast use group_order;

    lookup_finds(s, key);
    rank_splits(s, key);
    if rank(s, key) < s.len() {
        assert(lt(s[rank(s, key) as int].0, key));
    }
}

/// One more row behind all others.
pub proof fn push_lookup<T>(s: Seq<(Seq<u8>, T)>, row: (Seq<u8>, T))
    requires
        sorted(s),
        below(s, row.0),
    ensures
        sorted(s.push(row)),
        forall|k: Seq<u8>|
            #![trigger lookup(s.push(row), k)]
            lookup(s.push(row), k) == if k == row.0 {
                Some(row.1)
            } else {
                lookup(s, k)
            },
{
    let t = s.push(row);
    assert forall|i: int, j: int| 0 <= i < j < t.len() implies lt(
        #[trigger] t[i].0,
        #[trigger] t[j].0,
    ) by {
        if j < s.len() {
            assert(t[i] == s[i] && t[j] == s[j]);
        } else {
            assert(t[i] == s[i]);
        }
    }
    take_lookup(t, s.len() as int);
    assert(t.take(s.len() as int) =~= s);
    assert(t.take(s.len() as int + 1) =~= t);
}

/// Laying nothing over nothing.
pub proof fn over_nothing<T>(before: Seq<(Seq<u8>, T)>)
    ensures
        over(before.take(0), Seq::<(Seq<u8>, T)>::empty(), Seq::empty()),
{
    assert forall|k: Seq<u8>| #[trigger] lookup(Seq::<(Seq<u8>, T)>::empty(), k) == (
    match lookup(Seq::<(Seq<u8>, Option<T>)>::empty(), k) {
        Some(c) => c,
        None => lookup(before.take(0), k),
    }) by {
        assert(before.take(0) =~= Seq::empty());
        assert(rank(Seq::<(Seq<u8>, T)>::empty(), k) == 0);
        assert(rank(Seq::<(Seq<u8>, Option<T>)>::empty(), k) == 0);
    }
}

/// A row that is kept goes behind what was laid out so far.
pub proof fn over_keep<T>(
    before: Seq<(Seq<u8>, T)>,
    p: int,
    after: Seq<(Seq<u8>, T)>,
    changes: Seq<(Seq<u8>, Option<T>)>,
)
    requires
        sorted(before),
        0 <= p < before.len(),
        over(before.take(p), after, changes),
        sorted(changes),
        below(after, before[p].0),
        below(changes, before[p].0),
    ensures
        over(before.take(p + 1), after.push(before[p]), changes),
{
    push_lookup(after, before[p]);
    take_lookup(before, p);
    below_absent(changes, before[p].0);
    let next = after.push(before[p]);
    assert forall|k: Seq<u8>| #[trigger] lookup(next, k) == (match lookup(changes, k) {
        Some(c) => c,
        None => lookup(before.take(p + 1), k),
    }) by {
        assert(lookup(after, k) == match lookup(changes, k) {
            Some(c) => c,
            None => lookup(before.take(p), k),
        });
    }
}

/// A change goes behind what was laid out so far; a row with its key is used up.
pub proof fn over_change<T>(
    before: Seq<(Seq<u8>, T)>,
    p: int,
    after: Seq<(Seq<u8>, T)>,
    changes: Seq<(Seq<u8>, Option<T>)>,
    key: Seq<u8>,
    change: Option<T>,
)
    requires
        sorted(before),
        0 <= p <= before.len(),
        over(before.take(p), after, changes),
        sorted(changes),
        below(after, key),
        below(changes, key),
        below(before.take(p), key),
    ensures
        ({
            let used = if p < before.len() && before[p].0 == key {
                p + 1
            } else {
                p
            };
            let next = match change {
                Some(c) => after.push((key, c)),
                None => after,
            };
            over(before.take(used), next, changes.push((key, change))) && sorted(
                changes.push((key, change)),
            )
        }),
{
    broadcast use group_order;

    push_lookup(changes, (key, change));
    below_absent(after, key);
    if let Some(c) = change {
        push_lookup(after, (key, c));
    }
    let used = if p < before.len() && before[p].0 == key {
        p + 1
    } else {
        p
    };
    if used > p {
        take_lookup(before, p);
    }
    let next = match change {
        Some(c) => after.push((key, c)),
        None => after,
    };
    let more = changes.push((key, change));
    assert forall|k: Seq<u8>| #[trigger] lookup(next, k) == (match lookup(more, k) {
        Some(c) => c,
        None => lookup(before.take(used), k),
    }) by {
        assert(lookup(after, k) == match lookup(changes, k) {
            Some(c) => c,
            None => lookup(before.take(p), k),
        });
    }
}

/// What is laid over rows is determined by the rows and the changes.
pub proof fn over_determines<T>(
    before: Seq<(Seq<u8>, T)>,
    one: Seq<(Seq<u8>, T)>,
    other: Seq<(Seq<u8>, T)>,
    changes: Seq<(Seq<u8>, Option<T>)>,
)
    requires
        over(before, one, changes),
        over(before, other, changes),
    ensures
        one == other,
{
    assert forall|k: Seq<u8>| #[trigger] lookup(one, k) == lookup(other, k) by {}
    lookup_determines(one, other);
}

} // verus!
