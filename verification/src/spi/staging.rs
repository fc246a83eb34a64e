//! What a transaction sees: committed rows under its own staged writes, and
//! what it is charged for.
use vstd::prelude::*;

use super::bytes::lt;
use super::contents::{applied, applied_meaning, changed, Change, Version};
use super::overlay::{below, push_lookup};
use super::rows::{
    in_range, lookup, lookup_determines, lookup_finds, present, put, put_meaning, range,
    range_meaning, rank, rank_after, rank_splits, sorted,
};
use super::scan::{charge, kept, values_of};

verus! {

/// The sum of a weight over all items.
pub open spec fn total_of<T>(s: Seq<T>, f: spec_fn(T) -> int) -> int
    decreases s.len(),
{
    if s.len() == 0 {
        0
    } else {
        total_of(s.drop_last(), f) + f(s.last())
    }
}

pub proof fn total_splits<T>(a: Seq<T>, b: Seq<T>, f: spec_fn(T) -> int)
    ensures
        total_of(a + b, f) == total_of(a, f) + total_of(b, f),
    decreases b.len(),
{
    if b.len() == 0 {
        assert(a + b =~= a);
    } else {
        assert((a + b).drop_last() =~= a + b.drop_last());
        total_splits(a, b.drop_last(), f);
    }
}

pub proof fn total_one<T>(x: T, f: spec_fn(T) -> int)
    ensures
        total_of(seq![x], f) == f(x),
{
    assert(seq![x].drop_last() =~= Seq::empty());
    assert(total_of(seq![x].drop_last(), f) == 0);
}

/// What setting a key does to a sum over the rows.
pub proof fn total_put<T>(
    s: Seq<(Seq<u8>, T)>,
    key: Seq<u8>,
    value: T,
    f: spec_fn((Seq<u8>, T)) -> int,
)
    requires
        sorted(s),
    ensures
        total_of(put(s, key, value), f) == total_of(s, f) + f((key, value)) - match lookup(s, key) {
            Some(old) => f((key, old)),
            None => 0,
        },
{
    let r = rank(s, key) as int;
    rank_splits(s, key);
    let a = s.take(r);
    let b = s.skip(rank_after(s, key));
    total_splits(a, seq![(key, value)], f);
    total_splits(a + seq![(key, value)], b, f);
    total_one((key, value), f);
    if r < s.len() && s[r].0 == key {
        let old = s[r];
        assert(s =~= a + seq![old] + b);
        total_splits(a, seq![old], f);
        total_splits(a + seq![old], b, f);
        total_one(old, f);
        assert(old == (key, old.1));
    } else {
        assert(s =~= a + b);
        total_splits(a, b, f);
    }
}

/// A sum of weights that are not negative is at least each of them.
pub proof fn total_bounds<T>(s: Seq<T>, f: spec_fn(T) -> int, i: int)
    requires
        forall|k: int| 0 <= k < s.len() ==> f(#[trigger] s[k]) >= 0,
    ensures
        total_of(s, f) >= 0,
        0 <= i < s.len() ==> total_of(s, f) >= f(s[i]),
    decreases s.len(),
{
    if s.len() > 0 {
        let init = s.drop_last();
        assert forall|k: int| 0 <= k < init.len() implies f(#[trigger] init[k]) >= 0 by {
            assert(init[k] == s[k]);
        }
        total_bounds(init, f, i);
        assert(f(s[s.len() - 1]) >= 0);
        if 0 <= i < init.len() {
            assert(init[i] == s[i]);
        }
    }
}

/// The weight of an output row.
pub open spec fn output_weight(each: int) -> spec_fn((Seq<u8>, Seq<u8>)) -> int {
    |r: (Seq<u8>, Seq<u8>)| r.0.len() + r.1.len() + each
}

/// The charge for an output is a sum of weights.
pub proof fn charge_is_total(rows: Seq<(Seq<u8>, Seq<u8>)>, each: int)
    ensures
        charge(rows, each) == total_of(rows, output_weight(each)),
    decreases rows.len(),
{
    if rows.len() > 0 {
        charge_is_total(rows.drop_last(), each);
    }
}

/// Rows that are kept stay in order, and only those to be passed over are gone.
pub proof fn kept_meaning(rows: Seq<(Seq<u8>, Seq<u8>)>, skip: Seq<(Seq<u8>, Change)>)
    requires
        sorted(rows),
    ensures
        sorted(kept(rows, skip)),
        forall|k: Seq<u8>|
            #![trigger lookup(kept(rows, skip), k)]
            lookup(kept(rows, skip), k) == if present(skip, k) {
                None
            } else {
                lookup(rows, k)
            },
        forall|bound: Seq<u8>| #[trigger] below(rows, bound) ==> below(kept(rows, skip), bound),
    decreases rows.len(),
{
    if rows.len() > 0 {
        let init = rows.drop_last();
        let last = rows.last();
        let n = rows.len() - 1;
        assert(rows[n] == last);
        assert forall|i: int, j: int| 0 <= i < j < init.len() implies lt(
            #[trigger] init[i].0,
            #[trigger] init[j].0,
        ) by {
            assert(init[i] == rows[i] && init[j] == rows[j]);
        }
        assert forall|i: int| 0 <= i < init.len() implies lt(#[trigger] init[i].0, last.0) by {
            assert(init[i] == rows[i]);
            assert(lt(rows[i].0, rows[n].0));
        }
        kept_meaning(init, skip);
        assert(init.push(last) =~= rows);
        push_lookup(init, last);
        let less = kept(init, skip);
        assert(below(init, last.0));
        if present(skip, last.0) {
            assert forall|k: Seq<u8>| #[trigger] lookup(less, k) == (if present(skip, k) {
                None
            } else {
                lookup(rows, k)
            }) by {
                assert(lookup(init.push(last), k) == lookup(rows, k));
            }
        } else {
            push_lookup(less, last);
            assert forall|k: Seq<u8>| #[trigger] lookup(less.push(last), k) == (if present(
                skip,
                k,
            ) {
                None
            } else {
                lookup(rows, k)
            }) by {
                assert(lookup(init.push(last), k) == lookup(rows, k));
                assert(lookup(less, k) == if present(skip, k) {
                    None
                } else {
                    lookup(init, k)
                });
            }
        }
        assert forall|bound: Seq<u8>| #[trigger] below(rows, bound) implies below(
            kept(rows, skip),
            bound,
        ) by {
            assert(lt(rows[n].0, bound));
            assert(below(init, bound)) by {
                assert forall|i: int| 0 <= i < init.len() implies lt(
                    #[trigger] init[i].0,
                    bound,
                ) by {
                    assert(lt(rows[i].0, bound));
                }
            }
            let all = kept(rows, skip);
            assert forall|i: int| 0 <= i < all.len() implies lt(#[trigger] all[i].0, bound) by {
                if i < less.len() {
                    assert(all[i] == less[i]);
                    assert(lt(less[i].0, bound));
                }
            }
        }
    } else {
        lookup_finds(rows, Seq::empty());
    }
}

/// Rows put one after the other into key order; of two with one key the later
/// stays.
pub open spec fn ordered(rows: Seq<(Seq<u8>, Seq<u8>)>) -> Seq<(Seq<u8>, Seq<u8>)>
    decreases rows.len(),
{
    if rows.len() == 0 {
        rows
    } else {
        put(ordered(rows.drop_last()), rows.last().0, rows.last().1)
    }
}

/// Putting rows into order gives rows in order, and leaves alone what was in
/// order before.
pub proof fn ordered_sorted(rows: Seq<(Seq<u8>, Seq<u8>)>)
    ensures
        sorted(ordered(rows)),
        sorted(rows) ==> ordered(rows) == rows,
    decreases rows.len(),
{
    broadcast use super::bytes::group_order;

    if rows.len() > 0 {
        let init = rows.drop_last();
        ordered_sorted(init);
        put_meaning(ordered(init), rows.last().0, rows.last().1);
        if sorted(rows) {
            assert forall|i: int, j: int| 0 <= i < j < init.len() implies lt(
                #[trigger] init[i].0,
                #[trigger] init[j].0,
            ) by {
                assert(init[i] == rows[i] && init[j] == rows[j]);
            }
            let n = init.len() as int;
            if n > 0 {
                assert(init[n - 1] == rows[n - 1]);
                assert(lt(rows[n - 1].0, rows[n].0));
            }
            super::rows::rank_is(init, rows.last().0, n);
            assert(put(init, rows.last().0, rows.last().1) =~= rows);
        }
    }
}

/// What the first `i` staged writes of a range add to an output.
pub open spec fn staged_charge(
    writes: Seq<(Seq<u8>, Change)>,
    i: nat,
    lo: Seq<u8>,
    hi: Option<Seq<u8>>,
    each: int,
) -> int
    decreases i,
{
    if i == 0 {
        0
    } else {
        staged_charge(writes, (i - 1) as nat, lo, hi, each) + match writes[i - 1].1 {
            Some(v) => if in_range(writes[i - 1].0, lo, hi) {
                writes[i - 1].0.len() + v.len() + each
            } else {
                0
            },
            None => 0,
        }
    }
}

/// More writes add no less.
pub proof fn staged_charge_grows(
    writes: Seq<(Seq<u8>, Change)>,
    i: nat,
    j: nat,
    lo: Seq<u8>,
    hi: Option<Seq<u8>>,
    each: int,
)
    requires
        i <= j,
        each >= 0,
    ensures
        staged_charge(writes, i, lo, hi, each) <= staged_charge(writes, j, lo, hi, each),
    decreases j,
{
    if i < j {
        staged_charge_grows(writes, i, (j - 1) as nat, lo, hi, each);
    }
}

/// Merged rows are in order.
pub proof fn merged_sorted(
    rows: Seq<(Seq<u8>, Seq<u8>)>,
    writes: Seq<(Seq<u8>, Change)>,
    i: nat,
    lo: Seq<u8>,
    hi: Option<Seq<u8>>,
)
    requires
        sorted(rows),
    ensures
        sorted(merged(rows, writes, i, lo, hi)),
    decreases i,
{
    if i > 0 {
        merged_sorted(rows, writes, (i - 1) as nat, lo, hi);
        if let Some(v) = writes[i - 1].1 {
            put_meaning(merged(rows, writes, (i - 1) as nat, lo, hi), writes[i - 1].0, v);
        }
    }
}

/// Where no write replaces a row, the merged rows cost what the rows and the
/// writes cost.
pub proof fn merged_charge(
    rows: Seq<(Seq<u8>, Seq<u8>)>,
    writes: Seq<(Seq<u8>, Change)>,
    i: nat,
    lo: Seq<u8>,
    hi: Option<Seq<u8>>,
    each: int,
)
    requires
        sorted(rows),
        sorted(writes),
        i <= writes.len(),
        each >= 0,
        forall|k: Seq<u8>| present(writes, k) ==> #[trigger] lookup(rows, k) is None,
    ensures
        charge(merged(rows, writes, i, lo, hi), each) == charge(rows, each) + staged_charge(
            writes,
            i,
            lo,
            hi,
            each,
        ),
    decreases i,
{
    if i > 0 {
        merged_meaning(rows, writes, i, lo, hi, each);
        merged_charge(rows, writes, (i - 1) as nat, lo, hi, each);
    }
}

/// The rows of a range with the first `i` staged writes put over them.
pub open spec fn merged(
    rows: Seq<(Seq<u8>, Seq<u8>)>,
    writes: Seq<(Seq<u8>, Change)>,
    i: nat,
    lo: Seq<u8>,
    hi: Option<Seq<u8>>,
) -> Seq<(Seq<u8>, Seq<u8>)>
    decreases i,
{
    if i == 0 {
        rows
    } else {
        let now = merged(rows, writes, (i - 1) as nat, lo, hi);
        let write = writes[i - 1];
        match write.1 {
            Some(v) => if in_range(write.0, lo, hi) {
                put(now, write.0, v)
            } else {
                now
            },
            None => now,
        }
    }
}

/// The value that the first `i` writes give a key in the range.
pub open spec fn staged_value(
    writes: Seq<(Seq<u8>, Change)>,
    i: int,
    lo: Seq<u8>,
    hi: Option<Seq<u8>>,
    k: Seq<u8>,
) -> Option<Seq<u8>> {
    if in_range(k, lo, hi) {
        match lookup(writes.take(i), k) {
            Some(Some(v)) => Some(v),
            _ => None,
        }
    } else {
        None
    }
}

/// What merging writes means for each key, and what it adds to the charge.
pub proof fn merged_meaning(
    rows: Seq<(Seq<u8>, Seq<u8>)>,
    writes: Seq<(Seq<u8>, Change)>,
    i: nat,
    lo: Seq<u8>,
    hi: Option<Seq<u8>>,
    each: int,
)
    requires
        sorted(rows),
        sorted(writes),
        i <= writes.len(),
        each >= 0,
        forall|k: Seq<u8>| present(writes, k) ==> #[trigger] lookup(rows, k) is None,
    ensures
        sorted(merged(rows, writes, i, lo, hi)),
        forall|k: Seq<u8>|
            #![trigger lookup(merged(rows, writes, i, lo, hi), k)]
            lookup(merged(rows, writes, i, lo, hi), k) == match staged_value(
                writes,
                i as int,
                lo,
                hi,
                k,
            ) {
                Some(v) => Some(v),
                None => lookup(rows, k),
            },
        charge(merged(rows, writes, i, lo, hi), each) >= charge(rows, each),
        i > 0 ==> charge(merged(rows, writes, i, lo, hi), each) == charge(
            merged(rows, writes, (i - 1) as nat, lo, hi),
            each,
        ) + match writes[i - 1].1 {
            Some(v) => if in_range(writes[i - 1].0, lo, hi) {
                writes[i - 1].0.len() + v.len() + each
            } else {
                0
            },
            None => 0,
        },
    decreases i,
{
    if i == 0 {
        assert(writes.take(0) =~= Seq::empty());
        assert forall|k: Seq<u8>| lookup(Seq::<(Seq<u8>, Change)>::empty(), k) is None by {}
    } else {
        merged_meaning(rows, writes, (i - 1) as nat, lo, hi, each);
        let before = merged(rows, writes, (i - 1) as nat, lo, hi);
        let now = merged(rows, writes, i, lo, hi);
        let w = writes[i - 1];
        let init = writes.take(i - 1);
        assert(writes.take(i as int) =~= init.push(w));
        assert forall|a: int, b: int| 0 <= a < b < init.len() implies lt(
            #[trigger] init[a].0,
            #[trigger] init[b].0,
        ) by {
            assert(init[a] == writes[a] && init[b] == writes[b]);
        }
        assert forall|a: int| 0 <= a < init.len() implies lt(#[trigger] init[a].0, w.0) by {
            assert(init[a] == writes[a]);
            assert(lt(writes[a].0, writes[i - 1].0));
        }
        push_lookup(init, w);
        super::overlay::below_absent(init, w.0);
        assert(lookup(init, w.0) is None);
        assert(staged_value(writes, i - 1, lo, hi, w.0) is None);
        assert(present(writes, w.0)) by {
            assert(writes[i - 1].0 == w.0);
        }
        assert(lookup(rows, w.0) is None);
        assert(lookup(before, w.0) is None);
        if let Some(v) = w.1 {
            if in_range(w.0, lo, hi) {
                put_meaning(before, w.0, v);
                total_put(before, w.0, v, output_weight(each));
                charge_is_total(before, each);
                charge_is_total(now, each);
            }
        }
        assert forall|k: Seq<u8>| #[trigger] lookup(now, k) == (match staged_value(
            writes,
            i as int,
            lo,
            hi,
            k,
        ) {
            Some(v) => Some(v),
            None => lookup(rows, k),
        }) by {
            assert(lookup(init.push(w), k) == if k == w.0 {
                Some(w.1)
            } else {
                lookup(init, k)
            });
            assert(lookup(before, k) == match staged_value(writes, i - 1, lo, hi, k) {
                Some(v) => Some(v),
                None => lookup(rows, k),
            });
        }
    }
}

/// The contents that a transaction sees.
pub open spec fn seen(want: Seq<(Seq<u8>, Version)>, writes: Seq<(Seq<u8>, Change)>) -> Seq<
    (Seq<u8>, Version),
> {
    applied(want, writes, 0)
}

/// Keys and values of rows, looked up.
pub proof fn values_lookup(want: Seq<(Seq<u8>, Version)>)
    requires
        sorted(want),
    ensures
        sorted(values_of(want)),
        forall|k: Seq<u8>|
            #![trigger lookup(values_of(want), k)]
            lookup(values_of(want), k) == match lookup(want, k) {
                Some(v) => Some(v.0),
                None => None,
            },
{
    let v = values_of(want);
    assert forall|i: int, j: int| 0 <= i < j < v.len() implies lt(
        #[trigger] v[i].0,
        #[trigger] v[j].0,
    ) by {
        assert(want[i].0 == v[i].0 && want[j].0 == v[j].0);
    }
    assert forall|k: Seq<u8>| #[trigger] lookup(v, k) == (match lookup(want, k) {
        Some(x) => Some(x.0),
        None => None,
    }) by {
        assert forall|i: int| 0 <= i < v.len() implies (#[trigger] v[i]).0 == want[i].0 by {}
        super::contents::same_rank(v, want, k);
        rank_splits(want, k);
    }
}

/// The rows that a transaction sees in a range are the committed ones that it
/// has not written, with its own put over them.
pub proof fn merged_is_seen(
    want: Seq<(Seq<u8>, Version)>,
    writes: Seq<(Seq<u8>, Change)>,
    lo: Seq<u8>,
    hi: Option<Seq<u8>>,
)
    requires
        sorted(want),
        sorted(writes),
    ensures
        ({
            let rows = kept(values_of(range(want, lo, hi)), writes);
            &&& merged(rows, writes, writes.len(), lo, hi) == values_of(
                range(seen(want, writes), lo, hi),
            )
            &&& sorted(rows)
            &&& forall|k: Seq<u8>| present(writes, k) ==> #[trigger] lookup(rows, k) is None
        }),
{
    let all = range(want, lo, hi);
    range_meaning(want, lo, hi);
    values_lookup(all);
    let rows = kept(values_of(all), writes);
    kept_meaning(values_of(all), writes);
    let x = merged(rows, writes, writes.len(), lo, hi);
    merged_meaning(rows, writes, writes.len(), lo, hi, 0);
    applied_meaning(want, writes, 0);
    let now = seen(want, writes);
    range_meaning(now, lo, hi);
    values_lookup(range(now, lo, hi));
    let y = values_of(range(now, lo, hi));
    assert(writes.take(writes.len() as int) =~= writes);
    assert forall|k: Seq<u8>| #[trigger] lookup(x, k) == lookup(y, k) by {
        lookup_finds(writes, k);
        assert(lookup(now, k) == changed(lookup(writes, k), lookup(want, k), 0));
        assert(lookup(range(now, lo, hi), k) == if in_range(k, lo, hi) {
            lookup(now, k)
        } else {
            None
        });
        assert(lookup(all, k) == if in_range(k, lo, hi) {
            lookup(want, k)
        } else {
            None
        });
        assert(lookup(values_of(all), k) == match lookup(all, k) {
            Some(v) => Some(v.0),
            None => None,
        });
        assert(lookup(rows, k) == if present(writes, k) {
            None
        } else {
            lookup(values_of(all), k)
        });
    }
    lookup_determines(x, y);
}

} // verus!
