//! Key-ordered rows: the model of every index, page and staged write set.
use vstd::prelude::*;

use super::bytes::{group_order, lt};

verus! {

/// Rows in strictly increasing key order.
pub open spec fn sorted<T>(s: Seq<(Seq<u8>, T)>) -> bool {
    forall|i: int, j: int| 0 <= i < j < s.len() ==> lt(#[trigger] s[i].0, #[trigger] s[j].0)
}

/// How many leading rows have a key before `key`.
pub open spec fn rank<T>(s: Seq<(Seq<u8>, T)>, key: Seq<u8>) -> nat
    decreases s.len(),
{
    if s.len() == 0 {
        0
    } else if lt(s.last().0, key) {
        s.len()
    } else {
        rank(s.drop_last(), key)
    }
}

/// Whether some row has this key.
pub open spec fn present<T>(s: Seq<(Seq<u8>, T)>, key: Seq<u8>) -> bool {
    exists|i: int| 0 <= i < s.len() && (#[trigger] s[i]).0 == key
}

/// What the row with this key holds.
pub open spec fn lookup<T>(s: Seq<(Seq<u8>, T)>, key: Seq<u8>) -> Option<T> {
    let i = rank(s, key) as int;
    if i < s.len() && s[i].0 == key {
        Some(s[i].1)
    } else {
        None
    }
}

/// The position just behind the row with this key, or where it would stand.
pub open spec fn rank_after<T>(s: Seq<(Seq<u8>, T)>, key: Seq<u8>) -> int {
    let i = rank(s, key) as int;
    if i < s.len() && s[i].0 == key {
        i + 1
    } else {
        i
    }
}

/// `s` with the row for `key` set to `value`.
pub open spec fn put<T>(s: Seq<(Seq<u8>, T)>, key: Seq<u8>, value: T) -> Seq<(Seq<u8>, T)> {
    s.take(rank(s, key) as int) + seq![(key, value)] + s.skip(rank_after(s, key))
}

/// `s` without the row for `key`.
pub open spec fn without<T>(s: Seq<(Seq<u8>, T)>, key: Seq<u8>) -> Seq<(Seq<u8>, T)> {
    s.take(rank(s, key) as int) + s.skip(rank_after(s, key))
}

/// Whether `key` lies in the half-open range from `start` to `end`; no end
/// means no upper bound.
pub open spec fn in_range(key: Seq<u8>, start: Seq<u8>, end: Option<Seq<u8>>) -> bool {
    !lt(key, start) && (end is None || lt(key, end->0))
}

/// The rows whose keys lie in the half-open range from `start` to `end`.
pub open spec fn range<T>(s: Seq<(Seq<u8>, T)>, start: Seq<u8>, end: Option<Seq<u8>>) -> Seq<
    (Seq<u8>, T),
> {
    let from = rank(s, start) as int;
    match end {
        Some(e) => if rank(s, e) >= from {
            s.subrange(from, rank(s, e) as int)
        } else {
            Seq::empty()
        },
        None => s.skip(from),
    }
}

/// `rank` splits sorted rows into those before `key` and the rest.
pub proof fn rank_splits<T>(s: Seq<(Seq<u8>, T)>, key: Seq<u8>)
    requires
        sorted(s),
    ensures
        rank(s, key) <= s.len(),
        forall|i: int| 0 <= i < rank(s, key) ==> lt(#[trigger] s[i].0, key),
        forall|i: int| rank(s, key) <= i < s.len() ==> !lt(#[trigger] s[i].0, key),
        forall|i: int| rank(s, key) < i < s.len() ==> lt(key, #[trigger] s[i].0),
    decreases s.len(),
{
    broadcast use group_order;

    if s.len() > 0 {
        if lt(s.last().0, key) {
            assert forall|i: int| 0 <= i < s.len() implies lt(#[trigger] s[i].0, key) by {
                if i < s.len() - 1 {
                    assert(lt(s[i].0, s[s.len() - 1].0));
                }
            }
        } else {
            let t = s.drop_last();
            assert forall|i: int, j: int| 0 <= i < j < t.len() implies lt(
                #[trigger] t[i].0,
                #[trigger] t[j].0,
            ) by {
                assert(t[i] == s[i] && t[j] == s[j]);
            }
            rank_splits(t, key);
            assert forall|i: int| 0 <= i < rank(s, key) implies lt(#[trigger] s[i].0, key) by {
                assert(s[i] == t[i]);
            }
            assert forall|i: int| rank(s, key) <= i < s.len() implies !lt(
                #[trigger] s[i].0,
                key,
            ) by {
                if i < t.len() {
                    assert(s[i] == t[i]);
                }
            }
        }
        let r = rank(s, key) as int;
        assert forall|i: int| r < i < s.len() implies lt(key, #[trigger] s[i].0) by {
            assert(!lt(s[r].0, key));
            assert(lt(s[r].0, s[i].0));
        }
    }
}

/// The only position that splits sorted rows at `key` is `rank`.
pub proof fn rank_is<T>(s: Seq<(Seq<u8>, T)>, key: Seq<u8>, r: int)
    requires
        sorted(s),
        0 <= r <= s.len(),
        r > 0 ==> lt(s[r - 1].0, key),
        r < s.len() ==> !lt(s[r].0, key),
    ensures
        rank(s, key) == r,
{
    broadcast use group_order;

    rank_splits(s, key);
    let k = rank(s, key) as int;
    if k < r {
        assert(!lt(s[r - 1].0, key));
    }
    if r < k {
        assert(lt(s[r].0, key));
    }
}

/// A key is present exactly when `lookup` finds it, and then at its rank.
pub proof fn lookup_finds<T>(s: Seq<(Seq<u8>, T)>, key: Seq<u8>)
    requires
        sorted(s),
    ensures
        present(s, key) <==> lookup(s, key) is Some,
        present(s, key) <==> rank_after(s, key) == rank(s, key) + 1,
{
    broadcast use group_order;

    rank_splits(s, key);
    let r = rank(s, key) as int;
    if present(s, key) {
        let i = choose|i: int| 0 <= i < s.len() && (#[trigger] s[i]).0 == key;
        assert(i == r);
    }
    if r < s.len() && s[r].0 == key {
        assert(present(s, key));
    }
}

/// Looking up the key of a row gives what that row holds.
pub proof fn lookup_at<T>(s: Seq<(Seq<u8>, T)>, i: int)
    requires
        sorted(s),
        0 <= i < s.len(),
    ensures
        lookup(s, s[i].0) == Some(s[i].1),
        rank(s, s[i].0) == i,
        present(s, s[i].0),
{
    broadcast use group_order;

    if i > 0 {
        assert(lt(s[i - 1].0, s[i].0));
    }
    rank_is(s, s[i].0, i);
}

/// Setting a row keeps the order, and afterwards that key holds the new value
/// and every other key what it held.
pub proof fn put_meaning<T>(s: Seq<(Seq<u8>, T)>, key: Seq<u8>, value: T)
    requires
        sorted(s),
    ensures
        sorted(put(s, key, value)),
        forall|k: Seq<u8>|
            #![trigger lookup(put(s, key, value), k)]
            lookup(put(s, key, value), k) == if k == key {
                Some(value)
            } else {
                lookup(s, k)
            },
        put(s, key, value).len() == if present(s, key) {
            s.len()
        } else {
            s.len() + 1
        },
{
    broadcast use group_order;

    rank_splits(s, key);
    lookup_finds(s, key);
    let r = rank(s, key) as int;
    let a = rank_after(s, key);
    let t = put(s, key, value);
    assert forall|i: int, j: int| 0 <= i < j < t.len() implies lt(
        #[trigger] t[i].0,
        #[trigger] t[j].0,
    ) by {
        if j < r {
            assert(t[i] == s[i] && t[j] == s[j]);
        } else if i > r {
            assert(t[i] == s[i - r - 1 + a] && t[j] == s[j - r - 1 + a]);
        } else if i == r {
            assert(t[j] == s[j - r - 1 + a]);
            assert(lt(key, s[j - r - 1 + a].0) || s[j - r - 1 + a].0 == key);
        } else if j == r {
            assert(t[i] == s[i]);
        } else {
            assert(t[i] == s[i] && t[j] == s[j - r - 1 + a]);
        }
    }
    assert forall|k: Seq<u8>| #![trigger lookup(t, k)] lookup(t, k) == (if k == key {
        Some(value)
    } else {
        lookup(s, k)
    }) by {
        lookup_finds(t, k);
        lookup_finds(s, k);
        if k == key {
            assert(t[r] == (key, value));
            lookup_at(t, r);
        } else if present(s, k) {
            let i = choose|i: int| 0 <= i < s.len() && (#[trigger] s[i]).0 == k;
            lookup_at(s, i);
            if i < r {
                assert(t[i] == s[i]);
                lookup_at(t, i);
            } else {
                assert(i >= a);
                assert(t[i - a + r + 1] == s[i]);
                lookup_at(t, i - a + r + 1);
            }
        } else if present(t, k) {
            let i = choose|i: int| 0 <= i < t.len() && (#[trigger] t[i]).0 == k;
            if i < r {
                assert(t[i] == s[i]);
            } else if i > r {
                assert(t[i] == s[i - r - 1 + a]);
            }
            assert(false);
        }
    }
}

/// Removing a row keeps the order, and afterwards that key is absent and every
/// other key holds what it held.
pub proof fn without_meaning<T>(s: Seq<(Seq<u8>, T)>, key: Seq<u8>)
    requires
        sorted(s),
    ensures
        sorted(without(s, key)),
        forall|k: Seq<u8>|
            #![trigger lookup(without(s, key), k)]
            lookup(without(s, key), k) == if k == key {
                None
            } else {
                lookup(s, k)
            },
        without(s, key).len() == if present(s, key) {
            s.len() - 1
        } else {
            s.len() as int
        },
{
    broadcast use group_order;

    rank_splits(s, key);
    lookup_finds(s, key);
    let r = rank(s, key) as int;
    let a = rank_after(s, key);
    let t = without(s, key);
    assert forall|i: int, j: int| 0 <= i < j < t.len() implies lt(
        #[trigger] t[i].0,
        #[trigger] t[j].0,
    ) by {
        if j < r {
            assert(t[i] == s[i] && t[j] == s[j]);
        } else if i >= r {
            assert(t[i] == s[i - r + a] && t[j] == s[j - r + a]);
        } else {
            assert(t[i] == s[i] && t[j] == s[j - r + a]);
        }
    }
    assert forall|k: Seq<u8>| #![trigger lookup(t, k)] lookup(t, k) == (if k == key {
        None
    } else {
        lookup(s, k)
    }) by {
        lookup_finds(t, k);
        lookup_finds(s, k);
        if k != key && present(s, k) {
            let i = choose|i: int| 0 <= i < s.len() && (#[trigger] s[i]).0 == k;
            lookup_at(s, i);
            if i < r {
                assert(t[i] == s[i]);
                lookup_at(t, i);
            } else {
                assert(t[i - a + r] == s[i]);
                lookup_at(t, i - a + r);
            }
        } else if present(t, k) {
            let i = choose|i: int| 0 <= i < t.len() && (#[trigger] t[i]).0 == k;
            if i < r {
                assert(t[i] == s[i]);
            } else {
                assert(t[i] == s[i - r + a]);
            }
            assert(false);
        }
    }
}

/// A range holds exactly the rows whose keys lie between its bounds.
pub proof fn range_meaning<T>(s: Seq<(Seq<u8>, T)>, start: Seq<u8>, end: Option<Seq<u8>>)
    requires
        sorted(s),
    ensures
        sorted(range(s, start, end)),
        forall|k: Seq<u8>|
            #![trigger lookup(range(s, start, end), k)]
            lookup(range(s, start, end), k) == if in_range(k, start, end) {
                lookup(s, k)
            } else {
                None
            },
{
    broadcast use group_order;

    rank_splits(s, start);
    if let Some(e) = end {
        rank_splits(s, e);
    }
    let t = range(s, start, end);
    let from = rank(s, start) as int;
    assert forall|i: int, j: int| 0 <= i < j < t.len() implies lt(
        #[trigger] t[i].0,
        #[trigger] t[j].0,
    ) by {
        assert(t[i] == s[from + i] && t[j] == s[from + j]);
    }
    assert forall|k: Seq<u8>| #![trigger lookup(t, k)] lookup(t, k) == (if in_range(k, start, end) {
        lookup(s, k)
    } else {
        None
    }) by {
        lookup_finds(t, k);
        lookup_finds(s, k);
        if in_range(k, start, end) && present(s, k) {
            let i = choose|i: int| 0 <= i < s.len() && (#[trigger] s[i]).0 == k;
            lookup_at(s, i);
            assert(i >= from);
            assert(t[i - from] == s[i]);
            lookup_at(t, i - from);
        } else if present(t, k) {
            let i = choose|i: int| 0 <= i < t.len() && (#[trigger] t[i]).0 == k;
            assert(t[i] == s[from + i]);
            assert(present(s, k));
            assert(false);
        }
    }
}

/// Rows around one row: those to its left, the row, those to its right.
pub open spec fn around<T>(l: Seq<(Seq<u8>, T)>, row: (Seq<u8>, T), r: Seq<(Seq<u8>, T)>) -> Seq<
    (Seq<u8>, T),
> {
    l + seq![row] + r
}

/// Every row of `s` has a key before `key`.
pub open spec fn all_before<T>(s: Seq<(Seq<u8>, T)>, key: Seq<u8>) -> bool {
    forall|i: int| 0 <= i < s.len() ==> lt(#[trigger] s[i].0, key)
}

/// Every row of `s` has a key behind `key`.
pub open spec fn all_after<T>(s: Seq<(Seq<u8>, T)>, key: Seq<u8>) -> bool {
    forall|i: int| 0 <= i < s.len() ==> lt(key, #[trigger] s[i].0)
}

/// Rows around a row are sorted exactly when both parts are, and the row
/// stands between them.
pub proof fn around_sorted<T>(l: Seq<(Seq<u8>, T)>, row: (Seq<u8>, T), r: Seq<(Seq<u8>, T)>)
    ensures
        sorted(around(l, row, r)) <==> sorted(l) && sorted(r) && all_before(l, row.0) && all_after(
            r,
            row.0,
        ),
{
    broadcast use group_order;

    let s = around(l, row, r);
    assert(s[l.len() as int] == row);
    assert forall|i: int| 0 <= i < l.len() implies s[i] == l[i] by {}
    assert forall|i: int| 0 <= i < r.len() implies s[l.len() + 1 + i] == r[i] by {}
    if sorted(s) {
        assert forall|i: int, j: int| 0 <= i < j < l.len() implies lt(
            #[trigger] l[i].0,
            #[trigger] l[j].0,
        ) by {
            assert(lt(s[i].0, s[j].0));
        }
        assert forall|i: int, j: int| 0 <= i < j < r.len() implies lt(
            #[trigger] r[i].0,
            #[trigger] r[j].0,
        ) by {
            assert(lt(s[l.len() + 1 + i].0, s[l.len() + 1 + j].0));
        }
        assert forall|i: int| 0 <= i < l.len() implies lt(#[trigger] l[i].0, row.0) by {
            assert(lt(s[i].0, s[l.len() as int].0));
        }
        assert forall|i: int| 0 <= i < r.len() implies lt(row.0, #[trigger] r[i].0) by {
            assert(lt(s[l.len() as int].0, s[l.len() + 1 + i].0));
        }
    }
    if sorted(l) && sorted(r) && all_before(l, row.0) && all_after(r, row.0) {
        assert forall|i: int, j: int| 0 <= i < j < s.len() implies lt(
            #[trigger] s[i].0,
            #[trigger] s[j].0,
        ) by {
            let n = l.len() as int;
            if j < n {
                assert(s[i] == l[i] && s[j] == l[j]);
            } else if i > n {
                assert(s[i] == r[i - n - 1] && s[j] == r[j - n - 1]);
            } else {
                if i < n {
                    assert(s[i] == l[i]);
                }
                if j > n {
                    assert(s[j] == r[j - n - 1]);
                }
            }
        }
    }
}

/// Where a key stands in rows around a row follows from the part it falls in.
pub proof fn around_rank<T>(
    l: Seq<(Seq<u8>, T)>,
    row: (Seq<u8>, T),
    r: Seq<(Seq<u8>, T)>,
    key: Seq<u8>,
)
    requires
        sorted(around(l, row, r)),
    ensures
        lt(key, row.0) ==> rank(around(l, row, r), key) == rank(l, key),
        key == row.0 ==> rank(around(l, row, r), key) == l.len(),
        lt(row.0, key) ==> rank(around(l, row, r), key) == l.len() + 1 + rank(r, key),
        lt(key, row.0) ==> rank_after(around(l, row, r), key) == rank_after(l, key),
        key == row.0 ==> rank_after(around(l, row, r), key) == l.len() + 1,
        lt(row.0, key) ==> rank_after(around(l, row, r), key) == l.len() + 1 + rank_after(r, key),
        rank(l, key) <= l.len(),
        rank(r, key) <= r.len(),
        rank_after(l, key) <= l.len(),
        rank_after(r, key) <= r.len(),
{
    broadcast use group_order;

    let s = around(l, row, r);
    let n = l.len() as int;
    around_sorted(l, row, r);
    rank_splits(l, key);
    rank_splits(r, key);
    assert(s[n] == row);
    assert forall|i: int| 0 <= i < l.len() implies s[i] == l[i] by {}
    assert forall|i: int| 0 <= i < r.len() implies s[n + 1 + i] == r[i] by {}
    if lt(key, row.0) {
        let k = rank(l, key) as int;
        if k > 0 {
            assert(s[k - 1] == l[k - 1]);
        }
        if k < n {
            assert(s[k] == l[k]);
        }
        rank_is(s, key, k);
    } else if key == row.0 {
        if n > 0 {
            assert(s[n - 1] == l[n - 1]);
        }
        rank_is(s, key, n);
    } else {
        let k = rank(r, key) as int;
        if k > 0 {
            assert(s[n + 1 + k - 1] == r[k - 1]);
        }
        if k < r.len() {
            assert(s[n + 1 + k] == r[k]);
        }
        rank_is(s, key, n + 1 + k);
    }
}

/// Changing rows around a row changes only the part that the key falls in.
pub proof fn around_edit<T>(
    l: Seq<(Seq<u8>, T)>,
    row: (Seq<u8>, T),
    r: Seq<(Seq<u8>, T)>,
    key: Seq<u8>,
    value: T,
)
    requires
        sorted(around(l, row, r)),
    ensures
        lt(key, row.0) ==> put(around(l, row, r), key, value) == around(put(l, key, value), row, r),
        key == row.0 ==> put(around(l, row, r), key, value) == around(l, (key, value), r),
        lt(row.0, key) ==> put(around(l, row, r), key, value) == around(l, row, put(r, key, value)),
        lt(key, row.0) ==> without(around(l, row, r), key) == around(without(l, key), row, r),
        key == row.0 ==> without(around(l, row, r), key) == l + r,
        lt(row.0, key) ==> without(around(l, row, r), key) == around(l, row, without(r, key)),
        lt(key, row.0) ==> lookup(around(l, row, r), key) == lookup(l, key),
        key == row.0 ==> lookup(around(l, row, r), key) == Some(row.1),
        lt(row.0, key) ==> lookup(around(l, row, r), key) == lookup(r, key),
{
    broadcast use group_order;

    around_rank(l, row, r, key);
    let s = around(l, row, r);
    let n = l.len() as int;
    assert(s[n] == row);
    if lt(key, row.0) {
        assert(put(s, key, value) =~= around(put(l, key, value), row, r));
        assert(without(s, key) =~= around(without(l, key), row, r));
        let k = rank(l, key) as int;
        if k < n {
            assert(s[k] == l[k]);
        }
    } else if key == row.0 {
        assert(put(s, key, value) =~= around(l, (key, value), r));
        assert(without(s, key) =~= l + r);
    } else {
        assert(put(s, key, value) =~= around(l, row, put(r, key, value)));
        assert(without(s, key) =~= around(l, row, without(r, key)));
        let k = rank(r, key) as int;
        if k < r.len() {
            assert(s[n + 1 + k] == r[k]);
        }
    }
}

/// Deleting a key from rows that do not have it, or setting a value that is
/// already there, changes nothing.
pub proof fn without_absent<T>(s: Seq<(Seq<u8>, T)>, key: Seq<u8>)
    requires
        sorted(s),
        !present(s, key),
    ensures
        without(s, key) == s,
{
    lookup_finds(s, key);
    rank_splits(s, key);
    assert(without(s, key) =~= s);
}

/// Sorted rows are determined by what they hold for each key.
pub proof fn lookup_determines<T>(a: Seq<(Seq<u8>, T)>, b: Seq<(Seq<u8>, T)>)
    requires
        sorted(a),
        sorted(b),
        forall|k: Seq<u8>| #[trigger] lookup(a, k) == lookup(b, k),
    ensures
        a == b,
    decreases a.len(),
{
    broadcast use group_order;

    if a.len() == 0 {
        if b.len() > 0 {
            lookup_at(b, 0);
            assert(lookup(a, b[0].0) is None);
        }
        assert(a =~= b);
    } else if b.len() == 0 {
        lookup_at(a, 0);
        assert(lookup(b, a[0].0) is None);
    } else {
        let x = a.last().0;
        let y = b.last().0;
        lookup_at(a, a.len() - 1);
        lookup_at(b, b.len() - 1);
        assert(lookup(b, x) == lookup(a, x));
        assert(lookup(a, y) == lookup(b, y));
        lookup_finds(b, x);
        lookup_finds(a, y);
        let i = choose|i: int| 0 <= i < b.len() && (#[trigger] b[i]).0 == x;
        let j = choose|j: int| 0 <= j < a.len() && (#[trigger] a[j]).0 == y;
        if i < b.len() - 1 {
            assert(lt(b[i].0, b[b.len() - 1].0));
            if j < a.len() - 1 {
                assert(lt(a[j].0, a[a.len() - 1].0));
            }
        }
        assert(x == y);
        let c = a.drop_last();
        let d = b.drop_last();
        drop_last_lookup(a);
        drop_last_lookup(b);
        assert forall|k: Seq<u8>| #[trigger] lookup(c, k) == lookup(d, k) by {
            assert(lookup(a, k) == lookup(b, k));
        }
        lookup_determines(c, d);
        assert(a =~= c.push(a.last()));
        assert(b =~= d.push(b.last()));
    }
}

/// Without their last row, sorted rows hold the same for every other key.
pub proof fn drop_last_lookup<T>(s: Seq<(Seq<u8>, T)>)
    requires
        sorted(s),
        s.len() > 0,
    ensures
        sorted(s.drop_last()),
        forall|k: Seq<u8>|
            #![trigger lookup(s.drop_last(), k)]
            lookup(s.drop_last(), k) == if k == s.last().0 {
                None
            } else {
                lookup(s, k)
            },
{
    broadcast use group_order;

    let t = s.drop_last();
    let n = t.len() as int;
    assert forall|i: int, j: int| 0 <= i < j < t.len() implies lt(
        #[trigger] t[i].0,
        #[trigger] t[j].0,
    ) by {
        assert(t[i] == s[i] && t[j] == s[j]);
    }
    assert forall|k: Seq<u8>| #![trigger lookup(t, k)] lookup(t, k) == (if k == s.last().0 {
        None
    } else {
        lookup(s, k)
    }) by {
        lookup_finds(t, k);
        lookup_finds(s, k);
        if present(t, k) {
            let i = choose|i: int| 0 <= i < t.len() && (#[trigger] t[i]).0 == k;
            assert(s[i] == t[i]);
            lookup_at(t, i);
            lookup_at(s, i);
            assert(lt(s[i].0, s[n].0));
        } else if present(s, k) {
            let i = choose|i: int| 0 <= i < s.len() && (#[trigger] s[i]).0 == k;
            if i < n {
                assert(t[i] == s[i]);
                assert(present(t, k));
            }
        }
    }
}

/// What the first `i + 1` rows hold is what the first `i` hold, and row `i`.
pub proof fn take_lookup<T>(s: Seq<(Seq<u8>, T)>, i: int)
    requires
        sorted(s),
        0 <= i < s.len(),
    ensures
        sorted(s.take(i)),
        sorted(s.take(i + 1)),
        forall|k: Seq<u8>|
            #![trigger lookup(s.take(i + 1), k)]
            lookup(s.take(i + 1), k) == if k == s[i].0 {
                Some(s[i].1)
            } else {
                lookup(s.take(i), k)
            },
{
    let a = s.take(i + 1);
    assert forall|x: int, y: int| 0 <= x < y < a.len() implies lt(
        #[trigger] a[x].0,
        #[trigger] a[y].0,
    ) by {
        assert(a[x] == s[x] && a[y] == s[y]);
    }
    drop_last_lookup(a);
    assert(a.drop_last() =~= s.take(i));
    lookup_at(a, i);
    assert(a.last() == s[i]);
}

} // verus!
