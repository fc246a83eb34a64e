//! What an index and its values mean: rows of key, value and revision.
use vstd::prelude::*;

use super::arena::{extends, read_stable, tree_at, tree_stable, value_at, VALUE};
use super::bytes::lt;
use super::model::Fail;
use super::rows::{
    around, lookup, present, put, put_meaning, rank, rank_after, rank_splits, sorted, take_lookup,
    without, without_meaning,
};
use super::tree::Slot;

verus! {

broadcast use super::arena::tree_empty;

/// A value with the revision that wrote it.
pub type Version = (Seq<u8>, u64);

/// A staged write: the new value of a key, or its removal.
pub type Change = Option<Seq<u8>>;

/// Whether index rows lead to these contents: the same keys and revisions, and
/// each offset reads as the value.
pub open spec fn holds(
    b: Seq<u8>,
    end: int,
    rows: Seq<(Seq<u8>, Slot)>,
    want: Seq<(Seq<u8>, Version)>,
) -> bool {
    &&& rows.len() == want.len()
    &&& forall|i: int|
        0 <= i < rows.len() ==> leads(b, end, #[trigger] rows[i], want[i])
}

/// Whether one index row leads to one row of the contents.
pub open spec fn leads(
    b: Seq<u8>,
    end: int,
    row: (Seq<u8>, Slot),
    want: (Seq<u8>, Version),
) -> bool {
    &&& row.0 == want.0
    &&& row.1.1 == want.1.1
    &&& 8 <= row.1.0
    &&& value_at(b, end, row.1.0 as int) == Ok::<Seq<u8>, Fail>(want.1.0)
}

/// Whether the tree at `at` is a valid index of these contents.
pub open spec fn stores(b: Seq<u8>, end: int, at: u64, want: Seq<(Seq<u8>, Version)>) -> bool {
    &&& tree_at(b, end, at) is Some
    &&& (tree_at(b, end, at)->0).valid()
    &&& holds(b, end, (tree_at(b, end, at)->0).rows(), want)
}

/// What a change makes of what a key held.
pub open spec fn changed(change: Option<Change>, old: Option<Version>, revision: u64) -> Option<
    Version,
> {
    match change {
        Some(Some(v)) => Some((v, revision)),
        Some(None) => None,
        None => old,
    }
}

/// Whether `after` is `before` with `writes` applied: every key holds what its
/// write says, with the new revision, or what it held.
pub open spec fn updated(
    before: Seq<(Seq<u8>, Version)>,
    after: Seq<(Seq<u8>, Version)>,
    writes: Seq<(Seq<u8>, Change)>,
    revision: u64,
) -> bool {
    &&& sorted(after)
    &&& forall|k: Seq<u8>| #[trigger]
        lookup(after, k) == changed(lookup(writes, k), lookup(before, k), revision)
}

/// Contents of one arena are contents of every larger one.
pub proof fn holds_grows(
    a: Seq<u8>,
    b: Seq<u8>,
    end: int,
    later: int,
    rows: Seq<(Seq<u8>, Slot)>,
    want: Seq<(Seq<u8>, Version)>,
)
    requires
        extends(b, a),
        end <= later,
        holds(a, end, rows, want),
    ensures
        holds(b, later, rows, want),
{
    assert forall|i: int| 0 <= i < rows.len() implies leads(
        b,
        later,
        #[trigger] rows[i],
        want[i],
    ) by {
        assert(leads(a, end, rows[i], want[i]));
        read_stable(a, b, end, later, rows[i].1.0 as int, VALUE);
    }
}

/// An index of one arena is an index of every larger one: committed versions
/// never change.
pub proof fn stores_grows(
    a: Seq<u8>,
    b: Seq<u8>,
    end: int,
    later: int,
    at: u64,
    want: Seq<(Seq<u8>, Version)>,
)
    requires
        extends(b, a),
        end <= later,
        stores(a, end, at, want),
    ensures
        stores(b, later, at, want),
{
    tree_stable(a, b, end, later, at);
    holds_grows(a, b, end, later, (tree_at(a, end, at)->0).rows(), want);
}

/// Keys in the same order have the same rank on both sides.
pub proof fn same_rank<S, T>(a: Seq<(Seq<u8>, S)>, b: Seq<(Seq<u8>, T)>, key: Seq<u8>)
    requires
        a.len() == b.len(),
        forall|i: int| 0 <= i < a.len() ==> (#[trigger] a[i]).0 == b[i].0,
    ensures
        rank(a, key) == rank(b, key),
        rank_after(a, key) == rank_after(b, key),
        sorted(a) <==> sorted(b),
        present(a, key) <==> present(b, key),
        rank(a, key) <= a.len(),
    decreases a.len(),
{
    if a.len() > 0 {
        let c = a.drop_last();
        let d = b.drop_last();
        assert forall|i: int| 0 <= i < c.len() implies (#[trigger] c[i]).0 == d[i].0 by {
            assert(c[i] == a[i] && d[i] == b[i]);
        }
        assert(a[a.len() - 1].0 == b[b.len() - 1].0);
        same_rank(c, d, key);
    }
    let r = rank(a, key) as int;
    if r < a.len() {
        assert(a[r].0 == b[r].0);
    }
    if sorted(a) {
        assert forall|i: int, j: int| 0 <= i < j < b.len() implies lt(
            #[trigger] b[i].0,
            #[trigger] b[j].0,
        ) by {
            assert(a[i].0 == b[i].0 && a[j].0 == b[j].0);
        }
    }
    if sorted(b) {
        assert forall|i: int, j: int| 0 <= i < j < a.len() implies lt(
            #[trigger] a[i].0,
            #[trigger] a[j].0,
        ) by {
            assert(a[i].0 == b[i].0 && a[j].0 == b[j].0);
        }
    }
    if present(a, key) {
        let i = choose|i: int| 0 <= i < a.len() && (#[trigger] a[i]).0 == key;
        assert(b[i].0 == key);
    }
    if present(b, key) {
        let i = choose|i: int| 0 <= i < b.len() && (#[trigger] b[i]).0 == key;
        assert(a[i].0 == key);
    }
}

/// Index rows and contents have the same keys.
pub proof fn holds_keys(
    b: Seq<u8>,
    end: int,
    rows: Seq<(Seq<u8>, Slot)>,
    want: Seq<(Seq<u8>, Version)>,
    key: Seq<u8>,
)
    requires
        holds(b, end, rows, want),
    ensures
        rank(rows, key) == rank(want, key),
        rank_after(rows, key) == rank_after(want, key),
        sorted(rows) <==> sorted(want),
        present(rows, key) <==> present(want, key),
        rank(rows, key) <= rows.len(),
        lookup(rows, key) is Some <==> lookup(want, key) is Some,
        lookup(rows, key) matches Some(slot) ==> {
            &&& slot.1 == (lookup(want, key)->0).1
            &&& 8 <= slot.0
            &&& value_at(b, end, slot.0 as int) == Ok::<Seq<u8>, Fail>((lookup(want, key)->0).0)
        },
{
    assert forall|i: int| 0 <= i < rows.len() implies (#[trigger] rows[i]).0 == want[i].0 by {
        assert(leads(b, end, rows[i], want[i]));
    }
    same_rank(rows, want, key);
    let r = rank(rows, key) as int;
    if r < rows.len() {
        assert(leads(b, end, rows[r], want[r]));
    }
}

/// Setting an index row sets the row of the contents.
pub proof fn holds_put(
    b: Seq<u8>,
    end: int,
    rows: Seq<(Seq<u8>, Slot)>,
    want: Seq<(Seq<u8>, Version)>,
    key: Seq<u8>,
    slot: Slot,
    version: Version,
)
    requires
        holds(b, end, rows, want),
        leads(b, end, (key, slot), (key, version)),
        sorted(rows),
    ensures
        holds(b, end, put(rows, key, slot), put(want, key, version)),
{
    holds_keys(b, end, rows, want, key);
    rank_splits(rows, key);
    let r = rank(rows, key) as int;
    let a = rank_after(rows, key);
    let p = put(rows, key, slot);
    let q = put(want, key, version);
    assert(p.len() == q.len());
    assert forall|i: int| 0 <= i < p.len() implies leads(b, end, #[trigger] p[i], q[i]) by {
        if i < r {
            assert(p[i] == rows[i] && q[i] == want[i]);
            assert(leads(b, end, rows[i], want[i]));
        } else if i > r {
            let j = i - r - 1 + a;
            assert(p[i] == rows[j] && q[i] == want[j]);
            assert(leads(b, end, rows[j], want[j]));
        }
    }
}

/// Removing an index row removes the row of the contents.
pub proof fn holds_without(
    b: Seq<u8>,
    end: int,
    rows: Seq<(Seq<u8>, Slot)>,
    want: Seq<(Seq<u8>, Version)>,
    key: Seq<u8>,
)
    requires
        holds(b, end, rows, want),
        sorted(rows),
    ensures
        holds(b, end, without(rows, key), without(want, key)),
{
    holds_keys(b, end, rows, want, key);
    rank_splits(rows, key);
    let r = rank(rows, key) as int;
    let a = rank_after(rows, key);
    let p = without(rows, key);
    let q = without(want, key);
    assert(p.len() == q.len());
    assert forall|i: int| 0 <= i < p.len() implies leads(b, end, #[trigger] p[i], q[i]) by {
        if i < r {
            assert(p[i] == rows[i] && q[i] == want[i]);
            assert(leads(b, end, rows[i], want[i]));
        } else {
            let j = i - r + a;
            assert(p[i] == rows[j] && q[i] == want[j]);
            assert(leads(b, end, rows[j], want[j]));
        }
    }
}

/// Contents around a row.
pub proof fn holds_around(
    b: Seq<u8>,
    end: int,
    l: Seq<(Seq<u8>, Slot)>,
    lw: Seq<(Seq<u8>, Version)>,
    row: (Seq<u8>, Slot),
    roww: (Seq<u8>, Version),
    r: Seq<(Seq<u8>, Slot)>,
    rw: Seq<(Seq<u8>, Version)>,
)
    requires
        holds(b, end, l, lw),
        holds(b, end, r, rw),
        leads(b, end, row, roww),
    ensures
        holds(b, end, around(l, row, r), around(lw, roww, rw)),
{
    let p = around(l, row, r);
    let q = around(lw, roww, rw);
    let n = l.len() as int;
    assert forall|i: int| 0 <= i < p.len() implies leads(b, end, #[trigger] p[i], q[i]) by {
        if i < n {
            assert(p[i] == l[i] && q[i] == lw[i]);
            assert(leads(b, end, l[i], lw[i]));
        } else if i > n {
            assert(p[i] == r[i - n - 1] && q[i] == rw[i - n - 1]);
            assert(leads(b, end, r[i - n - 1], rw[i - n - 1]));
        }
    }
}

/// The parts of contents around a row.
pub proof fn holds_parts(
    b: Seq<u8>,
    end: int,
    l: Seq<(Seq<u8>, Slot)>,
    row: (Seq<u8>, Slot),
    r: Seq<(Seq<u8>, Slot)>,
    want: Seq<(Seq<u8>, Version)>,
)
    requires
        holds(b, end, around(l, row, r), want),
    ensures
        holds(b, end, l, want.take(l.len() as int)),
        leads(b, end, row, want[l.len() as int]),
        holds(b, end, r, want.skip(l.len() as int + 1)),
        want == around(
            want.take(l.len() as int),
            want[l.len() as int],
            want.skip(l.len() as int + 1),
        ),
{
    let p = around(l, row, r);
    let n = l.len() as int;
    assert(p[n] == row);
    assert(leads(b, end, p[n], want[n]));
    assert forall|i: int| 0 <= i < l.len() implies leads(
        b,
        end,
        #[trigger] l[i],
        want.take(n)[i],
    ) by {
        assert(p[i] == l[i]);
        assert(leads(b, end, p[i], want[i]));
    }
    assert forall|i: int| 0 <= i < r.len() implies leads(
        b,
        end,
        #[trigger] r[i],
        want.skip(n + 1)[i],
    ) by {
        assert(p[n + 1 + i] == r[i]);
        assert(leads(b, end, p[n + 1 + i], want[n + 1 + i]));
    }
    assert(want =~= around(want.take(n), want[n], want.skip(n + 1)));
}

/// Nothing written changes nothing.
pub proof fn updated_none(before: Seq<(Seq<u8>, Version)>, revision: u64)
    requires
        sorted(before),
    ensures
        updated(before, before, Seq::empty(), revision),
{
    assert forall|k: Seq<u8>| #[trigger] lookup(before, k) == changed(
        lookup(Seq::<(Seq<u8>, Change)>::empty(), k),
        lookup(before, k),
        revision,
    ) by {
        assert(rank(Seq::<(Seq<u8>, Change)>::empty(), k) == 0);
    }
}

/// One more write sets or removes one more row.
pub proof fn updated_step(
    before: Seq<(Seq<u8>, Version)>,
    now: Seq<(Seq<u8>, Version)>,
    writes: Seq<(Seq<u8>, Change)>,
    i: int,
    revision: u64,
)
    requires
        sorted(writes),
        0 <= i < writes.len(),
        updated(before, now, writes.take(i), revision),
    ensures
        match writes[i].1 {
            Some(v) => updated(
                before,
                put(now, writes[i].0, (v, revision)),
                writes.take(i + 1),
                revision,
            ),
            None => updated(before, without(now, writes[i].0), writes.take(i + 1), revision),
        },
{
    take_lookup(writes, i);
    let key = writes[i].0;
    match writes[i].1 {
        Some(v) => {
            let next = put(now, key, (v, revision));
            put_meaning(now, key, (v, revision));
            assert forall|k: Seq<u8>| #[trigger] lookup(next, k) == changed(
                lookup(writes.take(i + 1), k),
                lookup(before, k),
                revision,
            ) by {
                assert(lookup(now, k) == changed(
                    lookup(writes.take(i), k),
                    lookup(before, k),
                    revision,
                ));
            }
        },
        None => {
            let next = without(now, key);
            without_meaning(now, key);
            assert forall|k: Seq<u8>| #[trigger] lookup(next, k) == changed(
                lookup(writes.take(i + 1), k),
                lookup(before, k),
                revision,
            ) by {
                assert(lookup(now, k) == changed(
                    lookup(writes.take(i), k),
                    lookup(before, k),
                    revision,
                ));
            }
        },
    }
}

/// `before` with the first `i` writes applied, one after the other.
pub open spec fn applied_upto(
    before: Seq<(Seq<u8>, Version)>,
    writes: Seq<(Seq<u8>, Change)>,
    i: nat,
    revision: u64,
) -> Seq<(Seq<u8>, Version)>
    decreases i,
{
    if i == 0 {
        before
    } else {
        let now = applied_upto(before, writes, (i - 1) as nat, revision);
        let write = writes[i - 1];
        match write.1 {
            Some(v) => put(now, write.0, (v, revision)),
            None => without(now, write.0),
        }
    }
}

/// `before` with `writes` applied.
pub open spec fn applied(
    before: Seq<(Seq<u8>, Version)>,
    writes: Seq<(Seq<u8>, Change)>,
    revision: u64,
) -> Seq<(Seq<u8>, Version)> {
    applied_upto(before, writes, writes.len(), revision)
}

/// What each key holds while writes are applied, and how many keys there are.
pub proof fn applied_upto_meaning(
    before: Seq<(Seq<u8>, Version)>,
    writes: Seq<(Seq<u8>, Change)>,
    i: nat,
    revision: u64,
)
    requires
        sorted(before),
        sorted(writes),
        i <= writes.len(),
    ensures
        updated(before, applied_upto(before, writes, i, revision), writes.take(i as int), revision),
        applied_upto(before, writes, i, revision).len() <= before.len() + i,
    decreases i,
{
    if i == 0 {
        updated_none(before, revision);
        assert(writes.take(0) =~= Seq::empty());
    } else {
        applied_upto_meaning(before, writes, (i - 1) as nat, revision);
        let now = applied_upto(before, writes, (i - 1) as nat, revision);
        updated_step(before, now, writes, i - 1, revision);
        match writes[i - 1].1 {
            Some(v) => {
                put_meaning(now, writes[i - 1].0, (v, revision));
            },
            None => {
                without_meaning(now, writes[i - 1].0);
            },
        }
    }
}

/// Applying writes gives every key what its write says, or leaves it alone.
pub proof fn applied_meaning(
    before: Seq<(Seq<u8>, Version)>,
    writes: Seq<(Seq<u8>, Change)>,
    revision: u64,
)
    requires
        sorted(before),
        sorted(writes),
    ensures
        updated(before, applied(before, writes, revision), writes, revision),
{
    applied_upto_meaning(before, writes, writes.len(), revision);
    assert(writes.take(writes.len() as int) =~= writes);
}

/// Contents in which every key holds what it should are the applied ones.
pub proof fn updated_is_applied(
    before: Seq<(Seq<u8>, Version)>,
    after: Seq<(Seq<u8>, Version)>,
    writes: Seq<(Seq<u8>, Change)>,
    revision: u64,
)
    requires
        sorted(before),
        sorted(writes),
        updated(before, after, writes, revision),
    ensures
        after == applied(before, writes, revision),
{
    applied_meaning(before, writes, revision);
    let other = applied(before, writes, revision);
    assert forall|k: Seq<u8>| #[trigger] lookup(after, k) == lookup(other, k) by {}
    super::rows::lookup_determines(after, other);
}

/// Whether staged writes respect the size limits.
pub open spec fn stageable(writes: Seq<(Seq<u8>, Change)>) -> bool {
    forall|i: int|
        0 <= i < writes.len() ==> {
            &&& (#[trigger] writes[i]).0.len() <= super::model::MAX_KEY
            &&& writes[i].1 matches Some(v) ==> v.len() <= super::model::MAX_VALUE
        }
}

} // verus!
