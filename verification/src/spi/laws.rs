//! What the store promises, in terms of what was asked of it and what it gives.
use vstd::prelude::*;

use super::arena::{encode_node, node_at, record_bytes, tree_at, unreadable, value_at};
use super::bytes::{
    common_facts, crc32, differ_at, enc32, enc64, group_encoding, group_order, joined, le32,
    le32_of_enc32, le64, le64_of_enc64, lt, splice,
};
use super::cache::{cost, nodes_only, CacheView, ItemView};
use super::commit::{covered_data, version};
use super::contents::{applied, applied_meaning, changed, stageable, Change, Version};
use super::damage::{inside, rests_on};
use super::database::{
    first_root, founding, keeps_arenas, opens, place_found, place_of, Database,
};
use super::effects::{
    covers, data_step, injected, reached, spared, stage_name, stopped, struck, Stage, Step,
};
use super::epoch::{offered_page, offered_value, page_at, Epoch};
use super::fences::flat;
use super::group::{
    copy_weight, eligible, pass_size, replaced_size, same_shape, shaped, write_size,
};
use super::index::find_node;
use super::journal::{key_charge, of_interest, total_charge, written_keys, JournalView};
use super::layout::{delta_size, effects, is_base, laid, page_laid, Pages};
use super::lineage::{
    basic, change_of, deltas_on, demand_of, lineage_bounded, loaded, overlay, overlay_meaning, point,
    sum_of, Demand,
};
use super::maintenance::{compacting, free_epoch, prepares};
use super::manifest::{manifest_bytes, manifest_of, plausible};
use super::model::{entries, shown, Entry, Fail, Options, Root};
use super::names::{arena_bytes, decimal, epoch_of, is_digit};
use super::packedcopy::{all_base, page_for_page};
use super::packedstore::relaid;
use super::page::{rows_size, storable, Stored};
use super::publication::{no_writes_behind, nothing_new_behind, orderly, publishes};
use super::reclaim::{all_in_use, in_use};
use super::rows::{
    in_range, lookup, lookup_at, lookup_finds, present, put, range, range_meaning, rank,
    rank_is, sorted,
};
use super::scan::{bound_of, charge, values_of};
use super::search::{prefix_bound, prefix_range};
use super::snapshot::{bad_bounds, bytes_of, revision_of, Snapshot};
use super::staging::{seen, total_of};
use super::transaction::{
    current_or_undisturbed, long_bounds, proper, range_weight, read_weight, spans, staged_size,
    validated, visible, write_weight, Call, Transaction,
};
use super::tree::{built_height, Tree};
use super::update::{added, appended, laid_out, updating};
use super::upkeep::{garbage, ids_of, kinds};
use super::writer::{flush_step, offered, ArenaWriter};

verus! {

/// Keys are in the order of their bytes: of two keys the one with the smaller byte where they
/// first differ comes first, and a key comes before any that it begins.
pub proof fn keys_are_ordered_bytewise(a: Seq<u8>, b: Seq<u8>)
    ensures
        lt(a, b) <==> exists|i: int|
            0 <= i <= a.len() && i < b.len() && (forall|j: int| 0 <= j < i ==> a[j] == b[j]) && (i
                == a.len() || #[trigger] a[i] < b[i]),
{
    common_facts(a, b);
    let c = super::bytes::common(a, b, 0) as int;
    if lt(a, b) {
        assert(c == a.len() || a[c] < b[c]);
    }
    if exists|i: int|
        0 <= i <= a.len() && i < b.len() && (forall|j: int| 0 <= j < i ==> a[j] == b[j]) && (i
            == a.len() || #[trigger] a[i] < b[i]) {
        let i = choose|i: int|
            0 <= i <= a.len() && i < b.len() && (forall|j: int| 0 <= j < i ==> a[j] == b[j]) && (i
                == a.len() || #[trigger] a[i] < b[i]);
        differ_at(a, b, i);
    }
}

/// A filtered list has exactly what passes.
proof fn filtered(s: Seq<u64>, f: spec_fn(u64) -> bool, id: u64)
    ensures
        s.filter(f).contains(id) <==> s.contains(id) && f(id),
        s.no_duplicates() ==> s.filter(f).no_duplicates(),
    decreases s.len(),
{
    reveal(Seq::filter);
    if s.len() > 0 {
        let init = s.drop_last();
        let last = s.last();
        let sub = init.filter(f);
        filtered(init, f, id);
        filtered(init, f, last);
        assert(s[s.len() - 1] == last);
        if s.contains(id) && id != last {
            let k = choose|k: int| 0 <= k < s.len() && s[k] == id;
            assert(init[k] == id);
        }
        if init.contains(id) {
            let k = choose|k: int| 0 <= k < init.len() && init[k] == id;
            assert(s[k] == id);
        }
        if f(last) {
            let all = sub.push(last);
            assert(s.filter(f) =~= all);
            assert(all[sub.len() as int] == last);
            if sub.contains(id) {
                let k = choose|k: int| 0 <= k < sub.len() && sub[k] == id;
                assert(all[k] == id);
            }
            if all.contains(id) && id != last {
                let k = choose|k: int| 0 <= k < all.len() && all[k] == id;
                assert(sub[k] == id);
            }
        }
        if s.no_duplicates() {
            assert forall|i: int, j: int|
                0 <= i < init.len() && 0 <= j < init.len() && i != j implies init[i] != init[j] by {
                assert(s[i] == init[i] && s[j] == init[j]);
            }
            assert(!init.contains(last)) by {
                if init.contains(last) {
                    let k = choose|k: int| 0 <= k < init.len() && init[k] == last;
                    assert(s[k] == s[s.len() - 1]);
                }
            }
            if f(last) {
                let all = sub.push(last);
                assert forall|i: int, j: int|
                    0 <= i < all.len() && 0 <= j < all.len() && i != j implies all[i] != all[j] by {
                    if i < sub.len() && j < sub.len() {
                        assert(sub[i] != sub[j]);
                    } else if i < sub.len() {
                        assert(sub.contains(sub[i]));
                    } else {
                        assert(sub.contains(sub[j]));
                    }
                }
            }
        }
    }
}

/// A collection removes every retired arena that nothing pins and every file of an arena that
/// the store does not know, and nothing else; each once.
pub proof fn collection_is_complete(db: Database, pinned: Seq<u64>, found: Seq<u64>, id: u64)
    requires
        db.wf(),
    ensures
        garbage(db, pinned, found).contains(id) <==> ((exists|i: int|
            0 <= i < db.retired@.len() && (#[trigger] db.retired@[i]).id == id) && (forall|k: int|
            0 <= k < pinned.len() ==> #[trigger] pinned[k] != id)) || ((exists|k: int|
            0 <= k < found.len() && #[trigger] found[k] == id) && id != db.current.id && (forall|
            i: int,
        |
            0 <= i < db.retired@.len() ==> (#[trigger] db.retired@[i]).id != id)),
        (forall|a: int, b: int| 0 <= a < b < found.len() ==> found[a] != found[b]) ==> garbage(
            db,
            pinned,
            found,
        ).no_duplicates(),
{
    let retired = ids_of(db.retired@);
    let free = |x: u64| !pinned.contains(x);
    let lost = |x: u64| x != db.current.id && !retired.contains(x);
    let x = retired.filter(free);
    let y = found.filter(lost);
    filtered(retired, free, id);
    filtered(found, lost, id);
    assert(garbage(db, pinned, found) =~= x + y);
    if (x + y).contains(id) {
        let k = choose|k: int| 0 <= k < (x + y).len() && (x + y)[k] == id;
        if k < x.len() {
            assert(x[k] == id);
        } else {
            assert(y[k - x.len()] == id);
        }
    }
    if x.contains(id) {
        let k = choose|k: int| 0 <= k < x.len() && x[k] == id;
        assert((x + y)[k] == id);
    }
    if y.contains(id) {
        let k = choose|k: int| 0 <= k < y.len() && y[k] == id;
        assert((x + y)[x.len() + k] == id);
    }
    if retired.contains(id) {
        let k = choose|k: int| 0 <= k < retired.len() && retired[k] == id;
        assert(db.retired@[k].id == id);
    }
    if exists|i: int| 0 <= i < db.retired@.len() && (#[trigger] db.retired@[i]).id == id {
        let i = choose|i: int| 0 <= i < db.retired@.len() && (#[trigger] db.retired@[i]).id == id;
        assert(retired[i] == id);
    }
    if exists|k: int| 0 <= k < found.len() && #[trigger] found[k] == id {
        let k = choose|k: int| 0 <= k < found.len() && #[trigger] found[k] == id;
        assert(found[k] == id);
    }
    if forall|a: int, b: int| 0 <= a < b < found.len() ==> found[a] != found[b] {
        assert(found.no_duplicates());
        assert(retired.no_duplicates()) by {
            assert forall|i: int, j: int|
                0 <= i < retired.len() && 0 <= j < retired.len() && i != j implies retired[i]
                != retired[j] by {
                assert(retired[i] == db.retired@[i].id && retired[j] == db.retired@[j].id);
                if i < j {
                    assert(db.retired@[i].id < db.retired@[j].id);
                } else {
                    assert(db.retired@[j].id < db.retired@[i].id);
                }
            }
        }
        let all = x + y;
        assert forall|i: int, j: int| 0 <= i < all.len() && 0 <= j < all.len() && i != j implies all[i]
            != all[j] by {
            if i < x.len() && j < x.len() {
                assert(x[i] != x[j]);
            } else if i >= x.len() && j >= x.len() {
                assert(y[i - x.len()] != y[j - x.len()]);
            } else if i < x.len() {
                assert(x.contains(x[i]));
                assert(y.contains(y[j - x.len()]));
                filtered(retired, free, x[i]);
                filtered(found, lost, y[j - x.len()]);
            } else {
                assert(x.contains(x[j]));
                assert(y.contains(y[i - x.len()]));
                filtered(retired, free, x[j]);
                filtered(found, lost, y[i - x.len()]);
            }
        }
    }
}

/// A key matters to a transaction exactly if it read it by its name or scanned a range from
/// whose start it does not come before and before whose end, if it has one, it comes.
pub proof fn interest_is_in_keys_and_ranges(
    key: Seq<u8>,
    reads: Seq<(Seq<u8>, u64)>,
    ranges: Seq<(Seq<u8>, Option<Seq<u8>>)>,
)
    ensures
        of_interest(key, reads, ranges) <==> (exists|i: int|
            0 <= i < reads.len() && (#[trigger] reads[i]).0 == key) || (exists|r: int|
            0 <= r < ranges.len() && !lt(key, (#[trigger] ranges[r]).0) && (ranges[r].1 is None
                || lt(key, ranges[r].1->0))),
{
    if present(reads, key) {
        let i = choose|i: int| 0 <= i < reads.len() && (#[trigger] reads[i]).0 == key;
        assert(reads[i].0 == key);
    }
    if exists|i: int| 0 <= i < reads.len() && (#[trigger] reads[i]).0 == key {
        assert(present(reads, key));
    }
    if exists|r: int|
        0 <= r < ranges.len() && in_range(key, (#[trigger] ranges[r]).0, ranges[r].1) {
        let r = choose|r: int|
            0 <= r < ranges.len() && in_range(key, (#[trigger] ranges[r]).0, ranges[r].1);
        assert(!lt(key, ranges[r].0));
    }
    if exists|r: int|
        0 <= r < ranges.len() && !lt(key, (#[trigger] ranges[r]).0) && (ranges[r].1 is None || lt(
            key,
            ranges[r].1->0,
        )) {
        let r = choose|r: int|
            0 <= r < ranges.len() && !lt(key, (#[trigger] ranges[r]).0) && (ranges[r].1 is None
                || lt(key, ranges[r].1->0));
        assert(in_range(key, ranges[r].0, ranges[r].1));
    }
}

/// No conflict without a cause: where the journal reaches back to the version that a transaction
/// read, and no later generation in it wrote a key that the transaction read by its name or one
/// in a range that it scanned, the transaction is not disturbed. If besides every revision that
/// it remembers is still that of the contents now, it is validated.
pub proof fn no_spurious_conflict(
    t: Transaction,
    db: Database,
    now: Seq<(Seq<u8>, Version)>,
)
    requires
        t.snapshot.root.generation >= db.journal@.floor,
        forall|i: int, k: int, r: int|
            0 <= i < db.journal@.changes.len() && 0 <= k < db.journal@.changes[i].1.len()
                && db.journal@.changes[i].0 > t.snapshot.root.generation && 0 <= r < t.reads@.len()
                ==> (#[trigger] t.reads@[r]).0 != #[trigger] db.journal@.changes[i].1[k],
        forall|i: int, k: int, r: int|
            0 <= i < db.journal@.changes.len() && 0 <= k < db.journal@.changes[i].1.len()
                && db.journal@.changes[i].0 > t.snapshot.root.generation && 0 <= r
                < t.ranges@.len() ==> lt(
                #[trigger] db.journal@.changes[i].1[k],
                (#[trigger] t.ranges@[r]).start@,
            ) || (t.ranges@[r].end is Some && !lt(
                db.journal@.changes[i].1[k],
                (t.ranges@[r].end->0)@,
            )),
    ensures
        !db.journal@.disturbed(t.snapshot.root.generation, t.reads@, spans(t.ranges@)),
        current_or_undisturbed(t, db),
        (forall|r: int|
            0 <= r < t.reads@.len() ==> (#[trigger] t.reads@[r]).1 == revision_of(
                now,
                t.reads@[r].0,
            )) ==> validated(t, db, now),
{
    let j = db.journal@;
    let since = t.snapshot.root.generation;
    if j.disturbed(since, t.reads@, spans(t.ranges@)) {
        let (i, k) = choose|i: int, k: int|
            0 <= i < j.changes.len() && 0 <= k < j.changes[i].1.len() && j.changes[i].0 > since
                && of_interest(#[trigger] j.changes[i].1[k], t.reads@, spans(t.ranges@));
        let key = j.changes[i].1[k];
        interest_is_in_keys_and_ranges(key, t.reads@, spans(t.ranges@));
        if exists|r: int| 0 <= r < t.reads@.len() && (#[trigger] t.reads@[r]).0 == key {
            let r = choose|r: int| 0 <= r < t.reads@.len() && (#[trigger] t.reads@[r]).0 == key;
            assert(t.reads@[r].0 != j.changes[i].1[k]);
        } else {
            let ss = spans(t.ranges@);
            let r = choose|r: int|
                0 <= r < ss.len() && !lt(key, (#[trigger] ss[r]).0) && (ss[r].1 is None || lt(
                    key,
                    ss[r].1->0,
                ));
            assert(ss[r] == t.ranges@[r]@);
            assert(t.ranges@[r].start@ == ss[r].0);
        }
    }
}

/// A transaction whose version is the committed one has nothing to conflict with.
pub proof fn current_version_never_conflicts(
    t: Transaction,
    db: Database,
    now: Seq<(Seq<u8>, Version)>,
)
    requires
        t.snapshot.root.generation == db.view.root.generation,
        forall|r: int|
            0 <= r < t.reads@.len() ==> (#[trigger] t.reads@[r]).1 == revision_of(
                now,
                t.reads@[r].0,
            ),
    ensures
        validated(t, db, now),
{
}

/// A transaction is refused where a key that it read has another revision now, where the journal
/// no longer reaches back to its version, and where a later generation wrote a key that it read
/// or one in a range that it scanned.
pub proof fn missed_writes_conflict(
    t: Transaction,
    db: Database,
    now: Seq<(Seq<u8>, Version)>,
    i: int,
    k: int,
    r: int,
)
    requires
        t.snapshot.root.generation != db.view.root.generation,
    ensures
        t.snapshot.root.generation < db.journal@.floor ==> !current_or_undisturbed(t, db)
            && !validated(t, db, now),
        0 <= r < t.reads@.len() && t.reads@[r].1 != revision_of(now, t.reads@[r].0) ==> !validated(
            t,
            db,
            now,
        ),
        0 <= i < db.journal@.changes.len() && 0 <= k < db.journal@.changes[i].1.len()
            && db.journal@.changes[i].0 > t.snapshot.root.generation && 0 <= r < t.reads@.len()
            && t.reads@[r].0 == db.journal@.changes[i].1[k] ==> !current_or_undisturbed(t, db)
            && !validated(t, db, now),
        0 <= i < db.journal@.changes.len() && 0 <= k < db.journal@.changes[i].1.len()
            && db.journal@.changes[i].0 > t.snapshot.root.generation && 0 <= r < t.ranges@.len()
            && !lt(db.journal@.changes[i].1[k], t.ranges@[r].start@) && (t.ranges@[r].end is None
            || lt(db.journal@.changes[i].1[k], (t.ranges@[r].end->0)@)) ==> !current_or_undisturbed(
            t,
            db,
        ) && !validated(t, db, now),
{
    let j = db.journal@;
    if 0 <= i < j.changes.len() && 0 <= k < j.changes[i].1.len() {
        let key = j.changes[i].1[k];
        interest_is_in_keys_and_ranges(key, t.reads@, spans(t.ranges@));
        if 0 <= r < t.ranges@.len() {
            assert(spans(t.ranges@)[r] == t.ranges@[r]@);
        }
        if of_interest(key, t.reads@, spans(t.ranges@)) && j.changes[i].0
            > t.snapshot.root.generation {
            assert(j.disturbed(t.snapshot.root.generation, t.reads@, spans(t.ranges@)));
        }
    }
}

/// The revision of a key is that of its row, and zero where there is none.
pub proof fn revisions_are_those_of_rows(want: Seq<(Seq<u8>, Version)>, key: Seq<u8>, i: int)
    requires
        forall|a: int, b: int| 0 <= a < b < want.len() ==> lt(#[trigger] want[a].0, #[trigger] want[b].0),
    ensures
        0 <= i < want.len() ==> revision_of(want, want[i].0) == want[i].1.1,
        (forall|k: int| 0 <= k < want.len() ==> (#[trigger] want[k]).0 != key) ==> revision_of(
            want,
            key,
        ) == 0,
{
    assert(sorted(want));
    if 0 <= i < want.len() {
        lookup_at(want, i);
    }
    lookup_finds(want, key);
}

/// A commit makes of the rows that there were: a row with the value and the new generation for
/// each key that is set, none for each key that is deleted, and every other row as it was.
pub proof fn commit_writes_exactly_what_was_staged(
    before: Seq<(Seq<u8>, Version)>,
    writes: Seq<(Seq<u8>, Change)>,
    generation: u64,
    row: (Seq<u8>, Version),
)
    requires
        forall|a: int, b: int|
            0 <= a < b < before.len() ==> lt(#[trigger] before[a].0, #[trigger] before[b].0),
        forall|a: int, b: int|
            0 <= a < b < writes.len() ==> lt(#[trigger] writes[a].0, #[trigger] writes[b].0),
    ensures
        forall|a: int, b: int|
            0 <= a < b < applied(before, writes, generation).len() ==> lt(
                #[trigger] applied(before, writes, generation)[a].0,
                #[trigger] applied(before, writes, generation)[b].0,
            ),
        applied(before, writes, generation).contains(row) <==> (row.1.1 == generation
            && writes.contains((row.0, Some(row.1.0)))) || (before.contains(row) && forall|i: int|
            0 <= i < writes.len() ==> (#[trigger] writes[i]).0 != row.0),
{
    assert(sorted(before) && sorted(writes));
    applied_meaning(before, writes, generation);
    let after = applied(before, writes, generation);
    let k = row.0;
    assert(lookup(after, k) == changed(lookup(writes, k), lookup(before, k), generation));
    has_row(after, row);
    has_row(before, row);
    lookup_finds(writes, k);
    has_row(writes, (k, Some(row.1.0)));
    if present(writes, k) {
        let i = choose|i: int| 0 <= i < writes.len() && (#[trigger] writes[i]).0 == k;
        lookup_at(writes, i);
    }
}

/// Rows in order have a row exactly if looking its key up gives its value.
proof fn has_row<T>(s: Seq<(Seq<u8>, T)>, row: (Seq<u8>, T))
    requires
        sorted(s),
    ensures
        s.contains(row) <==> lookup(s, row.0) == Some(row.1),
{
    lookup_finds(s, row.0);
    if s.contains(row) {
        let i = choose|i: int| 0 <= i < s.len() && s[i] == row;
        lookup_at(s, i);
    }
    if lookup(s, row.0) == Some(row.1) {
        assert(s[rank(s, row.0) as int] == row);
    }
}

/// Looking a key up gives the value of its row, or nothing where there is none.
pub proof fn lookup_gives_the_row<T>(s: Seq<(Seq<u8>, T)>, i: int, key: Seq<u8>)
    requires
        forall|a: int, b: int| 0 <= a < b < s.len() ==> lt(#[trigger] s[a].0, #[trigger] s[b].0),
    ensures
        0 <= i < s.len() ==> lookup(s, s[i].0) == Some(s[i].1),
        (forall|k: int| 0 <= k < s.len() ==> (#[trigger] s[k]).0 != key) ==> lookup(s, key) is None,
{
    assert(sorted(s));
    if 0 <= i < s.len() {
        lookup_at(s, i);
    }
    lookup_finds(s, key);
}

/// Staging a change leaves one entry for its key, with that change, and all others as they were.
pub proof fn staging_keeps_the_others<T>(
    s: Seq<(Seq<u8>, T)>,
    key: Seq<u8>,
    value: T,
    row: (Seq<u8>, T),
)
    requires
        forall|a: int, b: int| 0 <= a < b < s.len() ==> lt(#[trigger] s[a].0, #[trigger] s[b].0),
    ensures
        put(s, key, value).contains(row) <==> row == (key, value) || (row.0 != key && s.contains(
            row,
        )),
        forall|a: int, b: int|
            0 <= a < b < put(s, key, value).len() ==> lt(
                #[trigger] put(s, key, value)[a].0,
                #[trigger] put(s, key, value)[b].0,
            ),
{
    assert(sorted(s));
    super::rows::put_meaning(s, key, value);
    has_row(s, row);
    has_row(put(s, key, value), row);
    assert(lookup(put(s, key, value), row.0) == if row.0 == key {
        Some(value)
    } else {
        lookup(s, row.0)
    });
}

/// A transaction sees what it staged for a key last, and else the committed value.
pub proof fn own_writes_are_seen(
    want: Seq<(Seq<u8>, Version)>,
    writes: Seq<(Seq<u8>, Change)>,
    i: int,
    j: int,
    key: Seq<u8>,
)
    requires
        forall|a: int, b: int| 0 <= a < b < want.len() ==> lt(#[trigger] want[a].0, #[trigger] want[b].0),
        forall|a: int, b: int|
            0 <= a < b < writes.len() ==> lt(#[trigger] writes[a].0, #[trigger] writes[b].0),
    ensures
        0 <= i < writes.len() ==> visible(want, writes, writes[i].0) == writes[i].1,
        0 <= j < want.len() && (forall|k: int|
            0 <= k < writes.len() ==> (#[trigger] writes[k]).0 != want[j].0) ==> visible(
            want,
            writes,
            want[j].0,
        ) == Some(want[j].1.0),
        (forall|k: int| 0 <= k < writes.len() ==> (#[trigger] writes[k]).0 != key) && (forall|k: int|
            0 <= k < want.len() ==> (#[trigger] want[k]).0 != key) ==> visible(want, writes, key)
            is None,
{
    assert(sorted(want) && sorted(writes));
    lookup_finds(writes, key);
    lookup_finds(want, key);
    if 0 <= i < writes.len() {
        lookup_at(writes, i);
    }
    if 0 <= j < want.len() {
        lookup_at(want, j);
        lookup_finds(writes, want[j].0);
    }
}

/// A scan gives the keys and values of the rows whose key does not come before the start and
/// comes before the end, if there is one, and no others, in the order of their keys.
pub proof fn scan_gives_the_rows_in_range(
    want: Seq<(Seq<u8>, Version)>,
    start: Seq<u8>,
    end: Option<Seq<u8>>,
    row: (Seq<u8>, Seq<u8>),
)
    requires
        forall|a: int, b: int| 0 <= a < b < want.len() ==> lt(#[trigger] want[a].0, #[trigger] want[b].0),
    ensures
        values_of(range(want, start, end)).contains(row) <==> !lt(row.0, start) && (end is None || lt(
            row.0,
            end->0,
        )) && exists|i: int|
            0 <= i < want.len() && (#[trigger] want[i]).0 == row.0 && want[i].1.0 == row.1,
        forall|a: int, b: int|
            0 <= a < b < values_of(range(want, start, end)).len() ==> lt(
                #[trigger] values_of(range(want, start, end))[a].0,
                #[trigger] values_of(range(want, start, end))[b].0,
            ),
{
    assert(sorted(want));
    range_meaning(want, start, end);
    let part = range(want, start, end);
    let out = values_of(part);
    assert forall|a: int, b: int| 0 <= a < b < out.len() implies lt(
        #[trigger] out[a].0,
        #[trigger] out[b].0,
    ) by {
        assert(lt(part[a].0, part[b].0));
    }
    let k = row.0;
    assert(lookup(part, k) == if in_range(k, start, end) {
        lookup(want, k)
    } else {
        None
    });
    lookup_finds(part, k);
    lookup_finds(want, k);
    if out.contains(row) {
        let i = choose|i: int| 0 <= i < out.len() && out[i] == row;
        lookup_at(part, i);
        assert(part[i].0 == k && part[i].1.0 == row.1);
        let n = rank(want, k) as int;
        assert(want[n].0 == k && want[n].1 == part[i].1);
    }
    if exists|i: int| 0 <= i < want.len() && (#[trigger] want[i]).0 == k && want[i].1.0 == row.1 {
        let i = choose|i: int|
            0 <= i < want.len() && (#[trigger] want[i]).0 == k && want[i].1.0 == row.1;
        lookup_at(want, i);
        if in_range(k, start, end) {
            let n = rank(part, k) as int;
            assert(part[n].0 == k && part[n].1 == want[i].1);
            assert(out[n] == row);
        }
    }
}

/// A transaction's scan gives, of the keys in the range, what it staged to be set and what is
/// committed and not staged; nothing that it staged to be deleted.
pub proof fn scans_see_own_writes(
    want: Seq<(Seq<u8>, Version)>,
    writes: Seq<(Seq<u8>, Change)>,
    start: Seq<u8>,
    end: Option<Seq<u8>>,
    row: (Seq<u8>, Seq<u8>),
)
    requires
        forall|a: int, b: int| 0 <= a < b < want.len() ==> lt(#[trigger] want[a].0, #[trigger] want[b].0),
        forall|a: int, b: int|
            0 <= a < b < writes.len() ==> lt(#[trigger] writes[a].0, #[trigger] writes[b].0),
    ensures
        values_of(range(seen(want, writes), start, end)).contains(row) <==> !lt(row.0, start) && (end
            is None || lt(row.0, end->0)) && (writes.contains((row.0, Some(row.1))) || ((exists|
            i: int,
        |
            0 <= i < want.len() && (#[trigger] want[i]).0 == row.0 && want[i].1.0 == row.1) && forall|
            i: int,
        |
            0 <= i < writes.len() ==> (#[trigger] writes[i]).0 != row.0)),
{
    let all = seen(want, writes);
    commit_writes_exactly_what_was_staged(want, writes, 0, (row.0, (row.1, 0)));
    scan_gives_the_rows_in_range(all, start, end, row);
    if exists|i: int| 0 <= i < all.len() && (#[trigger] all[i]).0 == row.0 && all[i].1.0 == row.1 {
        let i = choose|i: int|
            0 <= i < all.len() && (#[trigger] all[i]).0 == row.0 && all[i].1.0 == row.1;
        commit_writes_exactly_what_was_staged(want, writes, 0, all[i]);
        assert(all.contains(all[i]));
        if want.contains(all[i]) {
            let n = choose|n: int| 0 <= n < want.len() && want[n] == all[i];
            assert(want[n].0 == row.0 && want[n].1.0 == row.1);
        }
    }
    if writes.contains((row.0, Some(row.1))) {
        assert(all.contains((row.0, (row.1, 0u64))));
        let i = choose|i: int| 0 <= i < all.len() && all[i] == (row.0, (row.1, 0u64));
        assert(all[i].0 == row.0 && all[i].1.0 == row.1);
    }
    if (exists|i: int| 0 <= i < want.len() && (#[trigger] want[i]).0 == row.0 && want[i].1.0
        == row.1) && forall|i: int| 0 <= i < writes.len() ==> (#[trigger] writes[i]).0 != row.0 {
        let n = choose|n: int|
            0 <= n < want.len() && (#[trigger] want[n]).0 == row.0 && want[n].1.0 == row.1;
        commit_writes_exactly_what_was_staged(want, writes, 0, want[n]);
        assert(want.contains(want[n]));
        assert(all.contains(want[n]));
        let i = choose|i: int| 0 <= i < all.len() && all[i] == want[n];
        assert(all[i].0 == row.0 && all[i].1.0 == row.1);
    }
}

/// What a scan gives is charged by the row: its key, its value and a fixed amount.
pub proof fn scans_are_charged_by_the_row(
    rows: Seq<(Seq<u8>, Seq<u8>)>,
    row: (Seq<u8>, Seq<u8>),
    each: int,
)
    ensures
        charge(Seq::empty(), each) == 0,
        charge(rows.push(row), each) == charge(rows, each) + row.0.len() + row.1.len() + each,
{
    assert(rows.push(row).drop_last() =~= rows);
}

/// What a transaction is charged for: each key that it read and each range that it scanned with
/// one hundred and twenty-eight bytes, each write with one hundred and ninety-two.
pub proof fn transactions_are_charged_by_what_they_keep(
    key: Seq<u8>,
    revision: u64,
    value: Seq<u8>,
    end: Seq<u8>,
    t: Transaction,
)
    ensures
        read_weight()((key, revision)) == key.len() + 128,
        write_weight()((key, Some(value))) == key.len() + value.len() + 192,
        write_weight()((key, None)) == key.len() + 192,
        range_weight()((key, Some(end))) == key.len() + end.len() + 128,
        range_weight()((key, None)) == key.len() + 128,
        (forall|i: int| 0 <= i < t.reads@.len() ==> (#[trigger] t.reads@[i]).0 != key) && (forall|
            i: int,
        |
            0 <= i < t.writes@.len() ==> (#[trigger] t.writes@[i]).0 != key) && t.wf()
            ==> staged_size(t, key, Some(value)) == t.bytes + (key.len() + 128) + (key.len()
            + value.len() + 192) && staged_size(t, key, None) == t.bytes + (key.len() + 128) + (
        key.len() + 192),
{
    if t.wf() {
        lookup_finds(t.writes@, key);
        lookup_finds(t.reads@, key);
    }
}

/// Staging over an earlier change of a key is charged for the new one in place of the old.
pub proof fn staging_again_is_charged_for_the_last(t: Transaction, i: int, value: Seq<u8>)
    requires
        t.wf(),
        0 <= i < t.writes@.len(),
    ensures
        t.writes@[i].1 matches Some(old) ==> staged_size(t, t.writes@[i].0, Some(value)) == t.bytes
            + value.len() - old.len(),
        t.writes@[i].1 is None ==> staged_size(t, t.writes@[i].0, Some(value)) == t.bytes
            + value.len(),
        t.writes@[i].1 matches Some(old) ==> staged_size(t, t.writes@[i].0, None) == t.bytes
            - old.len(),
{
    lookup_at(t.writes@, i);
    assert(present(t.reads@, t.writes@[i].0));
}

/// A total is over all there is, each once.
pub proof fn totals_are_of_all<T>(s: Seq<T>, x: T, f: spec_fn(T) -> int)
    ensures
        total_of(Seq::empty(), f) == 0,
        total_of(s.push(x), f) == total_of(s, f) + f(x),
{
    assert(s.push(x).drop_last() =~= s);
}

/// Keys and values have limits: four thousand and ninety-six bytes, and sixteen mebibytes.
pub proof fn limits_of_keys_and_values(writes: Seq<(Seq<u8>, Change)>, i: int)
    requires
        stageable(writes),
        0 <= i < writes.len(),
    ensures
        writes[i].0.len() <= 4096,
        writes[i].1 matches Some(v) ==> v.len() <= 16_777_216,
{
}

/// Which bounds of a range are refused.
pub proof fn bounds_that_are_refused(start: Seq<u8>, end: Seq<u8>)
    ensures
        bad_bounds(start, Some(end)) <==> start.len() > 4096 || end.len() > 4096 || lt(end, start),
        bad_bounds(start, None) <==> start.len() > 4096,
        long_bounds(start, Some(end)) <==> start.len() > 4096 || end.len() > 4096,
        long_bounds(start, None) <==> start.len() > 4096,
        proper(start, Some(end)) <==> start.len() <= 4096 && end.len() <= 4096 && !lt(end, start),
        proper(start, None) <==> start.len() <= 4096,
{
}

/// A generation costs sixty-four bytes in the journal, and each of its keys its length and
/// sixty-four; the journal costs what its generations do.
pub proof fn journals_are_charged_by_the_key(
    keys: Seq<Seq<u8>>,
    key: Seq<u8>,
    changes: Seq<(u64, Seq<Seq<u8>>)>,
    one: (u64, Seq<Seq<u8>>),
)
    ensures
        key_charge(Seq::empty()) == 64,
        key_charge(keys.push(key)) == key_charge(keys) + key.len() + 64,
        total_charge(Seq::empty()) == 0,
        total_charge(seq![one] + changes) == key_charge(one.1) + total_charge(changes),
{
    assert(keys.push(key).drop_last() =~= keys);
    let all = seq![one] + changes;
    assert(all.skip(1) =~= changes);
    assert(all[0] == one);
}

/// The journal forgets only what it must: while all generations and the new one fit, it keeps
/// them all and reaches back as far as before.
pub proof fn journal_keeps_what_fits(
    j: JournalView,
    generation: u64,
    keys: Seq<Seq<u8>>,
    budget: int,
)
    requires
        total_charge(j.changes) + key_charge(keys) <= budget,
    ensures
        j.recorded(generation, keys, budget).changes == j.changes.push((generation, keys)),
        j.recorded(generation, keys, budget).floor == j.floor,
{
    charges_positive(j.changes);
}

proof fn keys_positive(keys: Seq<Seq<u8>>)
    ensures
        key_charge(keys) >= 64,
    decreases keys.len(),
{
    if keys.len() > 0 {
        keys_positive(keys.drop_last());
    }
}

proof fn charges_positive(changes: Seq<(u64, Seq<Seq<u8>>)>)
    ensures
        total_charge(changes) >= 0,
    decreases changes.len(),
{
    if changes.len() > 0 {
        keys_positive(changes[0].1);
        charges_positive(changes.skip(1));
    }
}

/// What the journal keeps is always the newest part of what it had, behind its floor; and it
/// forgets a generation only where it and all newer ones would not fit.
pub proof fn journal_forgets_the_oldest(
    j: JournalView,
    generation: u64,
    keys: Seq<Seq<u8>>,
    budget: int,
) -> (n: int)
    ensures
        key_charge(keys) > budget ==> j.recorded(generation, keys, budget).changes.len() == 0
            && j.recorded(generation, keys, budget).floor == generation,
        key_charge(keys) <= budget ==> {
            &&& 0 <= n <= j.changes.len()
            &&& j.recorded(generation, keys, budget).changes == j.changes.skip(n).push(
                (generation, keys),
            )
            &&& n == 0 ==> j.recorded(generation, keys, budget).floor == j.floor
            &&& n > 0 ==> j.recorded(generation, keys, budget).floor == j.changes[n - 1].0
            &&& n > 0 ==> total_charge(j.changes.skip(n - 1)) + key_charge(keys) > budget
            &&& n < j.changes.len() ==> total_charge(j.changes.skip(n)) + key_charge(keys) <= budget
        },
{
    if key_charge(keys) <= budget {
        trimmed_by(j, budget - key_charge(keys))
    } else {
        0
    }
}

proof fn trimmed_by(j: JournalView, room: int) -> (n: int)
    ensures
        0 <= n <= j.changes.len(),
        j.trimmed(room).changes == j.changes.skip(n),
        n == 0 ==> j.trimmed(room).floor == j.floor,
        n > 0 ==> j.trimmed(room).floor == j.changes[n - 1].0,
        n > 0 ==> total_charge(j.changes.skip(n - 1)) > room,
        n < j.changes.len() ==> total_charge(j.changes.skip(n)) <= room,
    decreases j.changes.len(),
{
    if j.changes.len() == 0 || total_charge(j.changes) <= room {
        assert(j.changes.skip(0) =~= j.changes);
        0
    } else {
        let next = JournalView { changes: j.changes.skip(1), floor: j.changes[0].0 };
        let m = trimmed_by(next, room);
        assert(j.changes.skip(1).skip(m) =~= j.changes.skip(m + 1));
        if m > 0 {
            assert(j.changes.skip(1).skip(m - 1) =~= j.changes.skip(m));
        } else {
            assert(j.changes.skip(0) =~= j.changes);
        }
        m + 1
    }
}

/// The journal names the keys of every staged write, set or deleted.
pub proof fn every_staged_key_is_written(writes: Seq<(Seq<u8>, Change)>, i: int)
    requires
        0 <= i < writes.len(),
    ensures
        written_keys(writes).len() == writes.len(),
        written_keys(writes)[i] == writes[i].0,
{
}

/// What is kept in the cache costs: a node one hundred and ninety-two bytes and its key, a value
/// as much and what is allocated for it, a page what it is charged.
pub proof fn cached_items_cost(
    n: super::arena::NodeView,
    v: Seq<u8>,
    room: int,
    p: super::page::RecordView,
)
    ensures
        cost(ItemView::Node(n)) == n.key.len() + 192,
        cost(ItemView::Value(v, room)) == room + 192,
        cost(ItemView::Page(p, room)) == room,
{
}

/// A value is admitted only where values are, where it has no more than four thousand and
/// ninety-six bytes, and where it takes no more than an eighth of the budget.
pub proof fn small_values_are_admitted(c: CacheView, room: int, len: int)
    requires
        c.limit >= 0,
    ensures
        c.admits(room, len) <==> c.admit_values && len <= 4096 && 8 * (room + 192) <= c.limit,
{
}

/// To make room the cache drops its oldest items, one after the other, and no more than it must.
pub proof fn oldest_items_are_dropped(c: CacheView, needed: int) -> (n: int)
    requires
        c.wf(),
    ensures
        0 <= n <= c.order.len(),
        c.evict_until(needed).order == c.order.skip(n),
        forall|i: int|
            n <= i < c.order.len() ==> c.evict_until(needed).items.contains_key(
                #[trigger] c.order[i],
            ) && c.evict_until(needed).items[c.order[i]] == c.items[c.order[i]],
        n < c.order.len() ==> c.evict_until(needed).bytes() + needed <= c.limit,
        c.bytes() + needed <= c.limit ==> n == 0,
        n > 0 ==> c.bytes() + needed > c.limit,
    decreases c.order.len(),
{
    if c.bytes() + needed <= c.limit || c.order.len() == 0 {
        assert(c.order.skip(0) =~= c.order);
        assert forall|i: int| 0 <= i < c.order.len() implies c.items.contains_key(
            #[trigger] c.order[i],
        ) by {
            assert(c.order.contains(c.order[i]));
        }
        0
    } else {
        let d = c.drop_oldest();
        super::cache::evict_meaning(c, needed);
        dropping_one(c);
        let m = oldest_items_are_dropped(d, needed);
        assert(c.order.drop_first().skip(m) =~= c.order.skip(m + 1));
        assert forall|i: int| m + 1 <= i < c.order.len() implies c.evict_until(
            needed,
        ).items.contains_key(#[trigger] c.order[i]) && c.evict_until(needed).items[c.order[i]]
            == c.items[c.order[i]] by {
            assert(d.order[i - 1] == c.order[i]);
            assert(c.order[i] != c.order[0]);
        }
        m + 1
    }
}

proof fn dropping_one(c: CacheView)
    requires
        c.wf(),
        c.order.len() > 0,
    ensures
        c.drop_oldest().wf(),
{
    let d = c.drop_oldest();
    let rest = c.order.drop_first();
    assert forall|i: int, j: int| 0 <= i < rest.len() && 0 <= j < rest.len() && i != j implies rest[i]
        != rest[j] by {
        assert(rest[i] == c.order[i + 1] && rest[j] == c.order[j + 1]);
    }
    assert forall|at: u64| #[trigger] d.items.contains_key(at) <==> rest.contains(at) by {
        if d.items.contains_key(at) {
            assert(c.order.contains(at));
            let i = choose|i: int| 0 <= i < c.order.len() && c.order[i] == at;
            assert(rest[i - 1] == at);
        }
        if rest.contains(at) {
            let i = choose|i: int| 0 <= i < rest.len() && rest[i] == at;
            assert(c.order[i + 1] == at);
            assert(c.order.contains(at));
            assert(c.items.contains_key(at));
        }
    }
    total_without(c.items, rest, c.order[0]);
    assert(c.order.contains(c.order[0]));
    assert(c.items.contains_key(c.order[0]));
}

proof fn total_without(items: Map<u64, ItemView>, order: Seq<u64>, gone: u64)
    requires
        !order.contains(gone),
    ensures
        super::cache::total(items.remove(gone), order) == super::cache::total(items, order),
    decreases order.len(),
{
    if order.len() > 0 {
        let rest = order.drop_first();
        assert(order.contains(order[0]));
        assert(!rest.contains(gone)) by {
            if rest.contains(gone) {
                let i = choose|i: int| 0 <= i < rest.len() && rest[i] == gone;
                assert(order[i + 1] == gone);
            }
        }
        total_without(items, rest, gone);
    }
}

/// An item that fits in the budget and is not there yet becomes the newest; one that does not
/// fit, or is there, changes nothing.
pub proof fn new_items_come_last(c: CacheView, at: u64, item: ItemView)
    requires
        c.wf(),
    ensures
        c.items.contains_key(at) || cost(item) > c.limit ==> c.insert(at, item) == c,
        !c.items.contains_key(at) && cost(item) <= c.limit ==> {
            &&& c.insert(at, item).order.len() > 0
            &&& c.insert(at, item).order.last() == at
            &&& c.insert(at, item).items.contains_key(at)
            &&& c.insert(at, item).items[at] == item
            &&& c.insert(at, item).order.drop_last() == c.evict_until(cost(item)).order
        },
{
    if !c.items.contains_key(at) && cost(item) <= c.limit {
        let e = c.evict_until(cost(item));
        assert(e.order.push(at).drop_last() =~= e.order);
    }
}

/// Numbers are stored with their lowest byte first.
pub proof fn numbers_are_little_endian(a: u8, b: u8, c: u8, d: u8, v: int)
    requires
        0 <= v < 0x1_0000_0000_0000_0000,
    ensures
        le32(seq![a, b, c, d], 0) == a + 256 * b + 65_536 * c + 16_777_216 * d,
        v < 0x1_0000_0000 ==> enc32(v)[0] == v % 256 && enc32(v)[1] == v / 256 % 256 && enc32(v)[2]
            == v / 65_536 % 256 && enc32(v)[3] == v / 16_777_216 % 256 && enc32(v).len() == 4,
        enc64(v).len() == 8,
        enc64(v).take(4) == enc32(v % 0x1_0000_0000),
        enc64(v).skip(4) == enc32(v / 0x1_0000_0000),
{
    reveal(enc32);
    reveal(enc64);
    assert(enc64(v).take(4) =~= enc32(v % 0x1_0000_0000));
    assert(enc64(v).skip(4) =~= enc32(v / 0x1_0000_0000));
}

/// The file of an arena is named by its number in decimal digits, without any that is not
/// needed.
pub proof fn arena_names_are_decimal(n: nat, d: nat)
    requires
        d < 10,
    ensures
        decimal(d) == seq![(48 + d) as u8],
        n > 0 ==> decimal(10 * n + d) == decimal(n).push((48 + d) as u8),
        arena_bytes(7) == seq![97u8, 114, 101, 110, 97, 45, 55, 46, 115, 112, 105],
{
    if n > 0 {
        assert((10 * n + d) / 10 == n && (10 * n + d) % 10 == d);
    }
    assert(arena_bytes(7) =~= seq![97u8, 114, 101, 110, 97, 45, 55, 46, 115, 112, 105]);
}

/// A copied row takes a record of its value and one of its node: one hundred and four bytes, its
/// value and its key. So does a row that a batch builds an index of.
pub proof fn rows_take_two_records(row: (Seq<u8>, Version), key: Seq<u8>, value: Seq<u8>)
    ensures
        copy_weight()(row) == row.0.len() + row.1.0.len() + 104,
        write_size()((key, Some(value))) == key.len() + value.len() + 104,
        pass_size(Tree::Leaf, seq![(key, Some(value))]) == key.len() + value.len() + 104,
{
    let s = seq![(key, Some(value))];
    assert(s.drop_last() =~= Seq::empty());
    totals_are_of_all(Seq::empty(), (key, Some(value)), write_size());
    assert(Seq::empty().push((key, Some(value))) =~= s);
}

/// A batch goes in one pass only if it has at least two writes, all of which set a key, and
/// fits in the scratch space: an eighth of the transaction budget, and no more than sixty-four
/// kibibytes, four machine words for each write.
pub proof fn batches_of_one_pass(writes: Seq<(Seq<u8>, Change)>, budget: int)
    requires
        budget >= 0,
    ensures
        eligible(writes, budget) <==> writes.len() >= 2 && (forall|i: int|
            0 <= i < writes.len() ==> (#[trigger] writes[i]).1 is Some) && writes.len() * (4 * (
        usize::BITS as int / 8)) <= budget / 8 && writes.len() * (4 * (usize::BITS as int / 8))
            <= 65_536,
{
    let e = super::group::entry_bytes();
    let scratch = if budget / 8 < 64 * 1024 {
        budget / 8
    } else {
        64 * 1024int
    };
    let n = writes.len() as int;
    assert(e == 16 || e == 32);
    vstd::arithmetic::div_mod::lemma_fundamental_div_mod(scratch, e);
    vstd::arithmetic::div_mod::lemma_mod_bound(scratch, e);
    assert(n <= scratch / e <==> n * e <= scratch) by (nonlinear_arith)
        requires
            scratch == e * (scratch / e) + scratch % e,
            0 <= scratch % e < e,
            e > 0,
            n >= 0,
    ;
}

/// In an arena that is all in use every byte behind the first eight lies in a record that the
/// version rests on: in its header of thirty-two bytes or the payload that it tells of.
pub proof fn nothing_lies_unused(view: Snapshot, b: Seq<u8>, p: int)
    requires
        all_in_use(view, b),
        8 <= p < b.len(),
    ensures
        exists|at: u64| #[trigger]
            rests_on(view, b, at) && at <= p < at + 32 + le32(b, at + 24),
{
    assert(in_use(view, b, p));
    let at = choose|at: u64| #[trigger] rests_on(view, b, at) && inside(b, at as int, p);
    assert(rests_on(view, b, at) && at <= p < at + 32 + le32(b, at + 24));
}

/// A new arena gets the least number above the current one that no file has.
pub proof fn new_arenas_get_the_next_free_number(after: u64, taken: Seq<u64>, id: u64, other: u64)
    requires
        free_epoch(after, taken, id),
    ensures
        id > after,
        forall|i: int| 0 <= i < taken.len() ==> #[trigger] taken[i] != id,
        after < other && (forall|i: int| 0 <= i < taken.len() ==> #[trigger] taken[i] != other)
            ==> id <= other,
{
    if after < other < id {
        assert(taken.contains(other));
    }
    assert forall|i: int| 0 <= i < taken.len() implies #[trigger] taken[i] != id by {
        assert(taken.contains(taken[i]));
    }
}

/// Reading leaves a store what it was: its version, its options, its journal, what is to be
/// carried out, and the bytes of every arena.
pub proof fn reading_changes_no_store(a: Database, b: Database, i: int)
    requires
        b.same_store(a),
    ensures
        b.view == a.view,
        b.options == a.options,
        b.journal == a.journal,
        b.poisoned == a.poisoned,
        b.steps == a.steps,
        b.current.id == a.current.id,
        b.current.image@ == a.current.image@,
        b.current.bytes_written == a.current.bytes_written,
        b.retired@.len() == a.retired@.len(),
        0 <= i < a.retired@.len() ==> b.retired@[i].id == a.retired@[i].id
            && b.retired@[i].image@ == a.retired@[i].image@,
        forall|want: Seq<(Seq<u8>, Version)>| #[trigger] a.holds(want) <==> b.holds(want),
{
    if 0 <= i < a.retired@.len() {
        assert(b.retired@[i].same_arena(a.retired@[i]));
    }
}

/// A scan brings no value and no page into the cache.
pub proof fn scans_admit_no_values(a: CacheView, b: CacheView, at: u64)
    requires
        nodes_only(a, b),
        b.items.contains_key(at),
    ensures
        b.items[at] is Value || b.items[at] is Page ==> a.items.contains_key(at) && a.items[at]
            == b.items[at],
        b.limit == a.limit,
{
    reveal(nodes_only);
}

/// A value that is offered to a cache is there afterwards, unless values are not admitted or it
/// is too large for them; then nothing changes.
pub proof fn offered_values_come_in(a: CacheView, b: CacheView, at: u64, v: Seq<u8>)
    requires
        a.wf(),
        offered_value(a, b, at, v),
    ensures
        b == a || (b.items.contains_key(at) && (b.items[at] matches ItemView::Value(x, _) && x
            == v)),
        !a.admit_values || v.len() > 4096 || 8 * (v.len() + 192) > a.limit ==> b == a,
        b != a ==> a.admit_values && v.len() <= 4096 && 8 * (v.len() + 192) <= a.limit,
{
    let room = choose|room: int| room >= v.len() && b == #[trigger] a.insert_value(at, v, room);
    super::cache::total_positive(a.items, a.order);
    small_values_are_admitted(a, room, v.len() as int);
    if a.admits(room, v.len() as int) {
        new_items_come_last(a, at, ItemView::Value(v, room));
    }
}

/// A page that is offered to a cache is there afterwards, unless it is too large.
pub proof fn offered_pages_come_in(a: CacheView, b: CacheView, at: u64, p: super::page::RecordView)
    requires
        a.wf(),
        offered_page(a, b, at, p),
    ensures
        b == a || (b.items.contains_key(at) && (b.items[at] matches ItemView::Page(x, _) && x
            == p)),
        p.size + 4 * p.rows.len() + 256 > a.limit ==> b == a,
{
    let charge = choose|charge: int|
        charge >= super::cache::least_charge(p) && b == #[trigger] a.insert(
            at,
            ItemView::Page(p, charge),
        );
    new_items_come_last(a, at, ItemView::Page(p, charge));
}

/// An operation on a sound store fails only where a fault was asked for, at the stage that was
/// asked for, or where the arena cannot grow by one more record.
pub proof fn sound_stores_do_not_fail(steps: Seq<Step>, target: Option<usize>, size: int, e: Fail)
    requires
        stopped(steps, target, size, e),
    ensures
        target is None ==> size + 32 + 16_777_216 > u64::MAX && e is Budget,
        e is Conflict || e is Poisoned || e is Corrupt || e is Locked ==> false,
        e is Io ==> target is Some && target->0 == reached(steps) && steps.len() > 0 && steps.last()
            is Reached,
{
    reveal(struck);
    reveal(injected);
}

/// A fault that was asked for strikes at the stage with that number, counted from one, and a run
/// is spared if it never reached as many or was past it before.
pub proof fn faults_strike_by_number(steps: Seq<Step>, s: Step, n: usize, from: int)
    ensures
        reached(Seq::empty()) == 0,
        s is Reached ==> reached(steps.push(s)) == reached(steps) + 1,
        !(s is Reached) ==> reached(steps.push(s)) == reached(steps),
        struck(steps.push(s), Some(n), from) <==> s is Reached && n == from + reached(steps) + 1,
        struck(steps, None, from) ==> false,
        spared(steps, Some(n), from) <==> n <= from || n > from + reached(steps),
        spared(steps, None, from),
{
    reveal(struck);
    reveal(spared);
    assert(steps.push(s).drop_last() =~= steps);
}

/// What is read is damaged or missing, or it is given: reading fails in no other way.
pub proof fn reading_fails_for_damage_only(e: Fail)
    ensures
        unreadable(e) <==> e is Corrupt || e is Io,
{
}

/// A store needs a budget for transactions and one for scans, and no writes of no bytes.
pub proof fn budgets_must_not_be_zero(o: Options)
    ensures
        o.usable() <==> o.transaction_bytes > 0 && o.scan_bytes > 0 && (o.write_chunk matches Some(
            n,
        ) ==> n > 0),
{
}

/// What a store does unless it is told otherwise.
pub proof fn standard_options(o: Options)
    requires
        o.standard(),
    ensures
        o.cache_bytes == 8_388_608,
        o.transaction_bytes == 33_554_432,
        o.scan_bytes == 33_554_432,
        o.conflict_bytes == 2_097_152,
        o.append_buffer,
        !o.value_cache && !o.grouped_updates && !o.packed_pages,
        o.fail_at is None && o.write_chunk is None,
        o.usable(),
{
}

/// A manifest has sixty-four bytes: its mark, then generation, arena, root, end and count, and
/// its checksum last.
pub proof fn manifests_are_laid_out(packed: bool, r: Root)
    ensures
        manifest_bytes(packed, r).len() == 64,
        manifest_bytes(packed, r).take(8) == seq![
            83u8,
            80,
            73,
            77,
            69,
            84,
            65,
            if packed {
                50
            } else {
                49
            },
        ],
        le64(manifest_bytes(packed, r), 8) == r.generation,
        le64(manifest_bytes(packed, r), 16) == r.epoch,
        le64(manifest_bytes(packed, r), 24) == r.root,
        le64(manifest_bytes(packed, r), 32) == r.end,
        le64(manifest_bytes(packed, r), 40) == r.count,
        le32(manifest_bytes(packed, r), 60) == crc32(
            manifest_bytes(packed, r).take(60) + seq![0u8, 0, 0, 0],
        ),
{
    broadcast use group_encoding;

    let b = manifest_bytes(packed, r);
    let body = super::manifest::manifest_body(packed, r);
    assert(b.take(8) =~= super::manifest::meta_mark(packed));
    assert(b.subrange(8, 16) =~= enc64(r.generation as int));
    assert(b.subrange(16, 24) =~= enc64(r.epoch as int));
    assert(b.subrange(24, 32) =~= enc64(r.root as int));
    assert(b.subrange(32, 40) =~= enc64(r.end as int));
    assert(b.subrange(40, 48) =~= enc64(r.count as int));
    let crc = crc32(body + enc32(0)) as int;
    assert(b.subrange(60, 64) =~= enc32(crc));
    le64_of_enc64(b, 8, r.generation as int);
    le64_of_enc64(b, 16, r.epoch as int);
    le64_of_enc64(b, 24, r.root as int);
    le64_of_enc64(b, 32, r.end as int);
    le64_of_enc64(b, 40, r.count as int);
    le32_of_enc32(b, 60, crc);
    assert(b.take(60) =~= body);
    assert(enc32(0) =~= seq![0u8, 0, 0, 0]) by {
        reveal(enc32);
    }
}

/// A root that names a version has an end behind the mark of its arena, and a root node before
/// that end exactly if there are rows.
pub proof fn plausible_roots(r: Root)
    ensures
        plausible(r) <==> r.end >= 8 && r.root < r.end && (r.count == 0 ==> r.root == 0) && (r.root
            == 0 ==> r.count == 0),
{
}

/// A record has a header of thirty-two bytes, mark, kind, generation, length and checksum, and
/// then its payload.
pub proof fn records_are_laid_out(kind: u8, generation: u64, payload: Seq<u8>)
    requires
        payload.len() <= u32::MAX,
    ensures
        record_bytes(kind, generation as int, payload).len() == 32 + payload.len(),
        record_bytes(kind, generation as int, payload).take(8) == seq![
            83u8,
            80,
            73,
            82,
            69,
            67,
            48,
            49,
        ],
        record_bytes(kind, generation as int, payload)[8] == kind,
        le64(record_bytes(kind, generation as int, payload), 16) == generation,
        le32(record_bytes(kind, generation as int, payload), 24) == payload.len(),
        record_bytes(kind, generation as int, payload).skip(32) == payload,
        le32(record_bytes(kind, generation as int, payload), 28) == crc32(
            record_bytes(kind, generation as int, payload).take(28) + seq![0u8, 0, 0, 0] + payload,
        ),
{
    broadcast use group_encoding;

    let b = record_bytes(kind, generation as int, payload);
    let h = super::arena::header(kind, generation as int, payload.len() as int, 0);
    let crc = crc32(h + payload) as int;
    assert(b.take(8) =~= super::arena::record_mark());
    assert(b.subrange(16, 24) =~= enc64(generation as int));
    assert(b.subrange(24, 28) =~= enc32(payload.len() as int));
    assert(b.subrange(28, 32) =~= enc32(crc));
    le64_of_enc64(b, 16, generation as int);
    le32_of_enc32(b, 24, payload.len() as int);
    le32_of_enc32(b, 28, crc);
    assert(b.skip(32) =~= payload);
    assert(enc32(0) =~= seq![0u8, 0, 0, 0]) by {
        reveal(enc32);
    }
    assert(b.take(28) + seq![0u8, 0, 0, 0] =~= h);
}

/// The counts of a cache are of its values and of its pages.
pub proof fn cached_kinds_are_counted(items: Map<u64, ItemView>, order: Seq<u64>, at: u64)
    ensures
        kinds(items, Seq::empty()) == (0int, 0int),
        items[at] is Node ==> kinds(items, order.push(at)) == kinds(items, order),
        items[at] is Value ==> kinds(items, order.push(at)) == (
            kinds(items, order).0 + 1,
            kinds(items, order).1,
        ),
        items[at] is Page ==> kinds(items, order.push(at)) == (
            kinds(items, order).0,
            kinds(items, order).1 + 1,
        ),
{
    assert(order.push(at).drop_last() =~= order);
}

/// What a cache holds is charged item by item.
pub proof fn caches_are_charged_by_the_item(
    items: Map<u64, ItemView>,
    order: Seq<u64>,
    at: u64,
)
    ensures
        super::cache::total(items, Seq::empty()) == 0,
        super::cache::total(items, seq![at] + order) == cost(items[at]) + super::cache::total(
            items,
            order,
        ),
{
    let all = seq![at] + order;
    assert(all.drop_first() =~= order);
}

/// An index that is built at once is as low as can be: twice as many rows make it one higher.
pub proof fn built_trees_are_low(n: nat)
    ensures
        built_height(0) == 0,
        built_height(1) == 1,
        n > 0 ==> built_height(2 * n) == built_height(n) + 1,
        n > 0 ==> built_height(2 * n + 1) == built_height(n) + 1,
{
    assert(built_height(1) == 1 + built_height(0));
    assert((2 * n) / 2 == n);
    assert((2 * n + 1) / 2 == n);
}

/// Replacing values copies each node on the way to one of them once, and nothing else: writes on
/// both sides of a node and to its own key append what each side does, the node, and its value.
pub proof fn replacing_copies_the_paths(
    key: Seq<u8>,
    slot: super::tree::Slot,
    height: u32,
    left: Tree,
    right: Tree,
    l: Seq<(Seq<u8>, Change)>,
    r: Seq<(Seq<u8>, Change)>,
    value: Seq<u8>,
)
    requires
        forall|a: int, b: int| 0 <= a < b < l.len() ==> lt(#[trigger] l[a].0, #[trigger] l[b].0),
        forall|a: int, b: int| 0 <= a < b < r.len() ==> lt(#[trigger] r[a].0, #[trigger] r[b].0),
        forall|a: int| 0 <= a < l.len() ==> lt(#[trigger] l[a].0, key),
        forall|a: int| 0 <= a < r.len() ==> lt(key, #[trigger] r[a].0),
    ensures
        replaced_size(left, Seq::empty()) == 0,
        replaced_size(
            Tree::Node { key, slot, height, left: Box::new(left), right: Box::new(right) },
            l + seq![(key, Some(value))] + r,
        ) == replaced_size(left, l) + replaced_size(right, r) + 72 + key.len() + 32 + value.len(),
        l.len() + r.len() > 0 ==> replaced_size(
            Tree::Node { key, slot, height, left: Box::new(left), right: Box::new(right) },
            l + r,
        ) == replaced_size(left, l) + replaced_size(right, r) + 72 + key.len(),
{
    let w = l + seq![(key, Some(value))] + r;
    let v = l + r;
    let n = l.len() as int;
    sides_in_order(l, (key, Some(value)), r);
    assert(w[n] == (key, Some(value)));
    lookup_at(w, n);
    assert(w.take(n) =~= l);
    assert(w.skip(n + 1) =~= r);
    assert(v.take(n) =~= l);
    assert(v.skip(n) =~= r);
}

/// Where a key stands among writes on both sides of it.
proof fn sides_in_order(
    l: Seq<(Seq<u8>, Change)>,
    one: (Seq<u8>, Change),
    r: Seq<(Seq<u8>, Change)>,
)
    requires
        sorted(l),
        sorted(r),
        forall|a: int| 0 <= a < l.len() ==> lt(#[trigger] l[a].0, one.0),
        forall|a: int| 0 <= a < r.len() ==> lt(one.0, #[trigger] r[a].0),
    ensures
        sorted(l + seq![one] + r),
        sorted(l + r),
        rank(l + seq![one] + r, one.0) == l.len(),
        rank(l + r, one.0) == l.len(),
        l.len() < (l + r).len() ==> (l + r)[l.len() as int].0 != one.0,
{
    broadcast use group_order;

    let w = l + seq![one] + r;
    let v = l + r;
    let n = l.len() as int;
    assert forall|a: int, b: int| 0 <= a < b < w.len() implies lt(
        #[trigger] w[a].0,
        #[trigger] w[b].0,
    ) by {
        if a < n && b < n {
            assert(lt(l[a].0, l[b].0));
        } else if a > n && b > n {
            assert(lt(r[a - n - 1].0, r[b - n - 1].0));
        } else if a < n && b > n {
            assert(lt(l[a].0, one.0) && lt(one.0, r[b - n - 1].0));
        }
    }
    assert forall|a: int, b: int| 0 <= a < b < v.len() implies lt(
        #[trigger] v[a].0,
        #[trigger] v[b].0,
    ) by {
        if a < n && b < n {
            assert(lt(l[a].0, l[b].0));
        } else if a >= n && b >= n {
            assert(lt(r[a - n].0, r[b - n].0));
        } else {
            assert(lt(l[a].0, one.0) && lt(one.0, r[b - n].0));
        }
    }
    assert(w[n] == one);
    if n > 0 {
        assert(w[n - 1] == l[n - 1] && v[n - 1] == l[n - 1]);
    }
    if n < v.len() {
        assert(v[n] == r[0]);
        assert(lt(one.0, r[0].0));
    }
    rank_is(w, one.0, n);
    rank_is(v, one.0, n);
}

/// A delta has a row of twenty-four bytes for every write that changes the page, with the key
/// and, up to one thousand and twenty-four bytes, the value. Deleting a key that is not in the
/// page changes nothing.
pub proof fn deltas_hold_what_changes(
    rows: Seq<(Seq<u8>, super::page::Cell)>,
    writes: Seq<(Seq<u8>, Change)>,
    key: Seq<u8>,
    value: Seq<u8>,
)
    ensures
        delta_size(rows, Seq::empty()) == 0,
        effects(rows, Seq::empty()) == 0,
        effects(rows, writes.push((key, Some(value)))) == effects(rows, writes) + 1,
        value.len() <= 1024 ==> delta_size(rows, writes.push((key, Some(value)))) == delta_size(
            rows,
            writes,
        ) + 24 + key.len() + value.len(),
        value.len() > 1024 ==> delta_size(rows, writes.push((key, Some(value)))) == delta_size(
            rows,
            writes,
        ) + 24 + key.len(),
        (exists|i: int| 0 <= i < rows.len() && (#[trigger] rows[i]).0 == key) ==> effects(
            rows,
            writes.push((key, None)),
        ) == effects(rows, writes) + 1 && delta_size(rows, writes.push((key, None))) == delta_size(
            rows,
            writes,
        ) + 24 + key.len(),
        (forall|i: int| 0 <= i < rows.len() ==> (#[trigger] rows[i]).0 != key) ==> effects(
            rows,
            writes.push((key, None)),
        ) == effects(rows, writes) && delta_size(rows, writes.push((key, None))) == delta_size(
            rows,
            writes,
        ),
{
    assert(writes.push((key, Some(value))).drop_last() =~= writes);
    assert(writes.push((key, None)).drop_last() =~= writes);
    if exists|i: int| 0 <= i < rows.len() && (#[trigger] rows[i]).0 == key {
        assert(present(rows, key));
    }
}

/// A page that nothing changes stays where it is. One that changes is split exactly if its rows
/// do not fit in sixteen kibibytes. If it is not, and it has a lineage of fewer than eight deltas
/// that have room in four kibibytes for what changes, it gets a delta over its newest record;
/// in every other case base pages.
pub proof fn pages_get_deltas_or_are_written_anew(
    b: Seq<u8>,
    end: int,
    generation: u64,
    fences: Seq<(Seq<u8>, super::tree::Slot)>,
    head: super::layout::Head,
    middle: Seq<(Seq<u8>, super::tree::Slot)>,
    rows: Seq<(Seq<u8>, super::page::Cell)>,
    writes: Seq<(Seq<u8>, Change)>,
    i: int,
)
    requires
        laid(b, end, generation, fences, Some(head), middle, rows, writes),
    ensures
        effects(rows, writes) == 0 ==> fences == middle,
        effects(rows, writes) > 0 ==> (fences.len() == 1 <==> 16 + rows_size(
            flat(b, end, generation, fences),
        ) <= 16_384),
        effects(rows, writes) > 0 && fences.len() == 1 && head.1 < 8 && 32 + delta_size(
            rows,
            writes,
        ) + head.2 <= 4096 ==> (page_at(b, end, fences[0].1.0 as int) matches Ok(r) && r.kind == 4
            && r.prev == head.0 && r.depth == head.1 + 1 && r.delta_bytes == head.2 + 32
            + delta_size(rows, writes)),
        effects(rows, writes) > 0 && (fences.len() > 1 || head.1 >= 8 || 32 + delta_size(
            rows,
            writes,
        ) + head.2 > 4096) && 0 <= i < fences.len() ==> (page_at(
            b,
            end,
            fences[i].1.0 as int,
        ) matches Ok(r) && r.kind == 3),
{
    reveal(laid);
    if effects(rows, writes) > 0 && 0 <= i < fences.len() && !(super::layout::delta_due(
        Some(head),
        rows,
        writes,
    ) && fences.len() == 1) {
        assert(is_base(b, end, fences[i].1.0));
    }
}

/// The rows of a page take twenty-four bytes each, their key, and their value where it is kept
/// in the page.
pub proof fn rows_take_their_bytes(
    rows: Seq<(Seq<u8>, super::page::Cell)>,
    key: Seq<u8>,
    revision: u64,
    value: Seq<u8>,
    at: u64,
    len: usize,
)
    ensures
        rows_size(Seq::empty()) == 0,
        rows_size(rows.push((key, (revision, Stored::Inline(value))))) == rows_size(rows) + 24
            + key.len() + value.len(),
        rows_size(rows.push((key, (revision, Stored::Overflow { at, len })))) == rows_size(rows)
            + 24 + key.len(),
        rows_size(rows.push((key, (revision, Stored::Deleted)))) == rows_size(rows) + 24
            + key.len(),
{
    assert(rows.push((key, (revision, Stored::Inline(value)))).drop_last() =~= rows);
    assert(rows.push((key, (revision, Stored::Overflow { at, len }))).drop_last() =~= rows);
    assert(rows.push((key, (revision, Stored::Deleted))).drop_last() =~= rows);
}

/// Forgetting an arena takes the retired one with that number out, and only that.
pub proof fn forgetting_takes_one_out(epochs: Seq<Epoch>, id: u64, i: int)
    requires
        0 <= i < epochs.len(),
        epochs[i].id == id,
        forall|a: int, b: int|
            0 <= a < b < epochs.len() ==> (#[trigger] epochs[a]).id < (#[trigger] epochs[b]).id,
    ensures
        place_of(epochs, id) == i,
{
    place_found(epochs, id);
    let p = place_of(epochs, id);
    if p < i {
        assert(epochs[p].id < epochs[i].id);
    } else if i < p {
        assert(epochs[i].id < epochs[p].id);
    }
}

/// The bytes of an arena are found by its number, as long as it is current or retired and not
/// forgotten.
pub proof fn arenas_are_found_by_number(db: Database, i: int, id: u64)
    requires
        db.wf(),
    ensures
        db.arena(db.current.id) == Some(db.current.image@),
        0 <= i < db.retired@.len() ==> db.arena(db.retired@[i].id) == Some(db.retired@[i].image@),
        id != db.current.id && (forall|k: int|
            0 <= k < db.retired@.len() ==> (#[trigger] db.retired@[k]).id != id) ==> db.arena(id)
            is None,
{
    if 0 <= i < db.retired@.len() {
        forgetting_takes_one_out(db.retired@, db.retired@[i].id, i);
    }
    place_found(db.retired@, id);
}

/// A store opens exactly if its manifest can be read and its arena has the bytes that it names,
/// begins with its mark, and has its root node.
pub proof fn what_opens(manifest: Seq<u8>, arena: Seq<u8>, options: Options)
    requires
        opens(manifest, arena, options),
    ensures
        manifest.len() == 64,
        manifest_of(manifest) is Ok,
        arena.len() >= (manifest_of(manifest)->Ok_0).0.end,
        arena.take(8) == seq![83u8, 80, 73, 65, 82, 69, 48, 49],
        options.usable(),
{
}

/// What is handed out is what it looks like: rows with their keys and values, in their order.
pub proof fn results_are_read_as_they_stand(v: Seq<Entry>, i: int, found: Option<Vec<u8>>)
    ensures
        entries(v).len() == v.len(),
        0 <= i < v.len() ==> entries(v)[i] == (v[i].key@, v[i].value@),
        found matches Some(x) ==> bytes_of(found) == Some(x@),
        found is None ==> bytes_of(found) is None,
{
}

/// Bounds are taken as they are given.
pub proof fn bounds_are_read_as_they_stand(k: &[u8])
    ensures
        bound_of(Some(k)) == Some(k@),
        bound_of(None) is None,
{
}

/// An error says what kind it is before what happened.
pub proof fn errors_are_shown_by_kind(m: Seq<char>)
    ensures
        shown(Fail::Io(m)) == "I/O: "@ + m,
        shown(Fail::Corrupt(m)) == "corrupt store: "@ + m,
        shown(Fail::Budget(m)) == "resource budget: "@ + m,
        shown(Fail::Conflict) == "transaction conflict"@,
        shown(Fail::Locked) == "database is already open"@,
        shown(Fail::Poisoned) == "I/O outcome uncertain: drop handles and reopen"@,
{
}

/// A scan brings no value and no page into the cache of any arena.
pub proof fn scans_admit_no_values_anywhere(a: Database, b: Database, i: int, at: u64)
    requires
        b.admitted_only_nodes(a),
    ensures
        b.current.cache@.items.contains_key(at) && !(b.current.cache@.items[at] is Node)
            ==> a.current.cache@.items.contains_key(at) && a.current.cache@.items[at]
            == b.current.cache@.items[at],
        0 <= i < b.retired@.len() && b.retired@[i].cache@.items.contains_key(at) && !(
        b.retired@[i].cache@.items[at] is Node) ==> a.retired@[i].cache@.items.contains_key(at)
            && a.retired@[i].cache@.items[at] == b.retired@[i].cache@.items[at],
{
    reveal(nodes_only);
    if 0 <= i < b.retired@.len() {
        assert(nodes_only(a.retired@[i].cache@, b.retired@[i].cache@));
    }
}

/// A compacted packed version has a page for each that there was, under the same fence, and all
/// are base pages.
pub proof fn compaction_keeps_pages_apart(before: Pages, after: Pages, i: int)
    requires
        page_for_page(before, after),
    ensures
        after.fences.len() == before.fences.len(),
        0 <= i < before.fences.len() ==> after.fences[i].0 == before.fences[i].0 && (page_at(
            after.image,
            after.end,
            after.fences[i].1.0 as int,
        ) matches Ok(r) && r.kind == 3),
{
    reveal(all_base);
    if 0 <= i < before.fences.len() {
        assert(before.fences[i].0 == after.fences[i].0);
        assert(is_base(after.image, after.end, after.fences[i].1.0));
    }
}

/// An update of a packed version lays out every page anew from the writes in its range, up to
/// the next fence; a version that had no page gets base pages.
pub proof fn updates_lay_out_every_page(
    before: Pages,
    writes: Seq<(Seq<u8>, Change)>,
    image: Seq<u8>,
    end: int,
    generation: u64,
    fences: Seq<(Seq<u8>, super::tree::Slot)>,
    k: int,
    i: int,
)
    requires
        relaid(before, writes, image, end, generation, fences),
    ensures
        0 <= k < before.fences.len() ==> ({
            let fence = before.fences[k];
            let upper = if k + 1 < before.fences.len() {
                Some(before.fences[k + 1].0)
            } else {
                None
            };
            let head = page_at(before.image, before.end, fence.1.0 as int)->Ok_0;
            laid(
                image,
                end,
                generation,
                range(fences, fence.0, upper),
                Some((fence.1.0, head.depth, head.delta_bytes as usize)),
                seq![fence],
                loaded(before.image, before.end, before.generation, fence.1.0)->Ok_0,
                range(writes, fence.0, upper),
            )
        }),
        before.fences.len() == 0 && 0 <= i < fences.len() ==> (page_at(
            image,
            end,
            fences[i].1.0 as int,
        ) matches Ok(r) && r.kind == 3),
        before.fences.len() == 0 ==> (fences.len() <= 1 <==> 16 + rows_size(
            flat(image, end, generation, fences),
        ) <= 16_384),
{
    reveal(relaid);
    if 0 <= k < before.fences.len() {
        assert(page_laid(before, k, writes, image, end, generation, fences));
    }
    if before.fences.len() == 0 && 0 <= i < fences.len() {
        assert(is_base(image, end, fences[i].1.0));
    }
}

/// A range of rows has those whose key does not come before its start and comes before its end.
pub proof fn ranges_hold_what_lies_in_them<T>(
    s: Seq<(Seq<u8>, T)>,
    start: Seq<u8>,
    end: Option<Seq<u8>>,
    row: (Seq<u8>, T),
)
    requires
        forall|a: int, b: int| 0 <= a < b < s.len() ==> lt(#[trigger] s[a].0, #[trigger] s[b].0),
    ensures
        range(s, start, end).contains(row) <==> s.contains(row) && !lt(row.0, start) && (end is None
            || lt(row.0, end->0)),
{
    assert(sorted(s));
    range_meaning(s, start, end);
    has_row(s, row);
    has_row(range(s, start, end), row);
    assert(lookup(range(s, start, end), row.0) == if in_range(row.0, start, end) {
        lookup(s, row.0)
    } else {
        None
    });
}

/// A commit lays its version out as its options say, and counts every byte that it appended.
pub proof fn commits_lay_out_by_their_options(
    before: Database,
    after: Database,
    writes: Seq<(Seq<u8>, Change)>,
    want: Seq<(Seq<u8>, Version)>,
)
    requires
        laid_out(before, after, writes, want),
        appended(before, after),
        before.view.root.end <= after.view.root.end,
    ensures
        before.current.bytes_written + (after.view.root.end - before.view.root.end) <= u64::MAX
            ==> after.current.bytes_written == before.current.bytes_written + (after.view.root.end
            - before.view.root.end),
        !before.view.packed && before.options.grouped_updates && eligible(
            writes,
            before.options.transaction_bytes as int,
        ) && want.len() == 0 ==> shaped(before.index(), after.index(), writes.len())
            && after.view.root.end == before.view.root.end + pass_size(before.index(), writes),
        !before.view.packed && before.options.grouped_updates && eligible(
            writes,
            before.options.transaction_bytes as int,
        ) && (forall|i: int|
            0 <= i < writes.len() ==> exists|j: int|
                0 <= j < want.len() && (#[trigger] want[j]).0 == (#[trigger] writes[i]).0)
            ==> shaped(before.index(), after.index(), writes.len()) && after.view.root.end
            == before.view.root.end + pass_size(before.index(), writes),
        before.view.packed && after.view.root.count > 0 ==> relaid(
            (Pages {
                image: before.current.image@,
                end: before.view.root.end as int,
                generation: before.view.root.generation,
                fences: (tree_at(
                    before.current.image@,
                    before.view.root.end as int,
                    before.view.root.root,
                )->0).rows(),
            }),
            writes,
            after.current.image@,
            after.view.root.end as int,
            after.view.root.generation,
            (tree_at(
                after.current.image@,
                after.view.root.end as int,
                after.view.root.root,
            )->0).rows(),
        ),
{
    if forall|i: int|
        0 <= i < writes.len() ==> exists|j: int|
            0 <= j < want.len() && (#[trigger] want[j]).0 == (#[trigger] writes[i]).0 {
        assert forall|i: int| 0 <= i < writes.len() implies present(want, (#[trigger] writes[i]).0) by {
            let j = choose|j: int| 0 <= j < want.len() && (#[trigger] want[j]).0 == writes[i].0;
            assert(want[j].0 == writes[i].0);
        }
    }
}

/// A batch that builds an index makes it as low as can be; one that replaces values keeps every
/// key and every height where they were.
pub proof fn batches_keep_the_shape(before: Tree, after: Tree, count: nat)
    requires
        shaped(before, after, count),
    ensures
        before is Leaf ==> after.height() == built_height(count),
        before is Node ==> after is Node && after->key == before->key && after->height
            == before->height && same_shape(after.left(), before.left()) && same_shape(
            after.right(),
            before.right(),
        ),
{
}

/// Trees of one shape have the same keys in the same order.
pub proof fn one_shape_has_one_order(a: Tree, b: Tree, i: int)
    requires
        same_shape(a, b),
    ensures
        a.rows().len() == b.rows().len(),
        0 <= i < a.rows().len() ==> a.rows()[i].0 == b.rows()[i].0,
        a.height() == b.height(),
    decreases a,
{
    if a is Node {
        let n = a.left().rows().len() as int;
        one_shape_has_one_order(a.left(), b.left(), i);
        one_shape_has_one_order(a.right(), b.right(), i - n - 1);
    }
}

/// A store begins with nothing: no row, generation zero, and an arena of its mark alone.
pub proof fn stores_begin_empty(steps: Seq<Step>)
    ensures
        first_root().generation == 0,
        first_root().count == 0,
        first_root().root == 0,
        first_root().end == 8,
        first_root().epoch == 0,
        founding(steps) ==> {
            &&& steps.len() == 4
            &&& steps[0] == (Step::Create { epoch: 0 })
            &&& steps[1] matches Step::Write { epoch, at, bytes } && epoch == 0 && at == 0
                && bytes@ == seq![83u8, 80, 73, 65, 82, 69, 48, 49]
            &&& steps[2] == (Step::Sync { epoch: 0 })
            &&& steps[3] == Step::SyncDirectory
        },
{
}

/// A manifest is written and made durable before it takes the place of the one before, and that
/// is made durable at last.
pub proof fn manifests_are_published_in_order(steps: Seq<Step>, meta: Seq<u8>)
    requires
        steps.len() == 8,
        forall|k: int| 0 <= k < 8 ==> publishes(#[trigger] steps[k], k, meta),
    ensures
        steps[0] matches Step::Manifest { bytes } && bytes@ == meta,
        steps[2] == Step::SyncManifest,
        steps[4] == Step::ReplaceManifest,
        steps[6] == Step::SyncDirectory,
        steps[1] == Step::Reached(Stage::ManifestWrite),
        steps[3] == Step::Reached(Stage::ManifestSync),
        steps[5] == Step::Reached(Stage::ManifestReplace),
        steps[7] == Step::Reached(Stage::DirectorySync),
{
    assert(publishes(steps[0], 0, meta) && publishes(steps[1], 1, meta));
    assert(publishes(steps[2], 2, meta) && publishes(steps[3], 3, meta));
    assert(publishes(steps[4], 4, meta) && publishes(steps[5], 5, meta));
    assert(publishes(steps[6], 6, meta) && publishes(steps[7], 7, meta));
}

/// The bytes of a committed version stay where they are while the store goes on.
pub proof fn arenas_only_grow(later: Database, earlier: Database, id: u64, p: int)
    requires
        keeps_arenas(later, earlier),
        earlier.arena(id) is Some,
        0 <= p < (earlier.arena(id)->0).len(),
    ensures
        later.arena(id) is Some,
        p < (later.arena(id)->0).len(),
        (later.arena(id)->0)[p] == (earlier.arena(id)->0)[p],
{
    let (a, b) = (earlier.arena(id)->0, later.arena(id)->0);
    assert(b.take(a.len() as int)[p] == b[p]);
}

/// A writer that does not hold back writes a record at once, first its header and then the rest.
pub proof fn records_are_written_at_once(w: ArenaWriter, s: Step, bytes: Seq<u8>)
    requires
        !w.buffering || bytes.len() > 65_536,
        w.flushed == w.end,
    ensures
        w.record_count(bytes.len() as int) == 4,
        w.record_step(s, 0, bytes) ==> (s matches Step::Write { epoch, at, bytes: x } && epoch
            == w.epoch.id && at == w.end && x@ == bytes.take(32)),
        w.record_step(s, 1, bytes) ==> s == Step::Reached(Stage::RecordHeader),
        w.record_step(s, 2, bytes) ==> (s matches Step::Write { epoch, at, bytes: x } && epoch
            == w.epoch.id && at == w.end + 32 && x@ == bytes.skip(32)),
        w.record_step(s, 3, bytes) ==> s == Step::Reached(Stage::RecordPayload),
{
}

/// A writer that holds back asks for no write while a record has room in its buffer.
pub proof fn records_are_held_back(w: ArenaWriter, s: Step, bytes: Seq<u8>)
    requires
        w.buffering,
        bytes.len() <= w.append.capacity() - w.append.held().len(),
        bytes.len() <= 65_536,
    ensures
        w.record_count(bytes.len() as int) == 2,
        w.record_step(s, 0, bytes) ==> s == Step::Reached(Stage::RecordHeader),
        w.record_step(s, 1, bytes) ==> s == Step::Reached(Stage::RecordPayload),
{
}

/// What is held back is written in two halves, the first the shorter if they differ.
pub proof fn held_bytes_are_written_in_halves(
    a: Step,
    b: Step,
    c: Step,
    d: Step,
    id: u64,
    from: int,
    image: Seq<u8>,
)
    requires
        0 <= from <= image.len(),
        flush_step(a, 0, id, from, image),
        flush_step(b, 2, id, from, image),
        flush_step(c, 1, id, from, image),
        flush_step(d, 3, id, from, image),
    ensures
        c == Step::Reached(Stage::AppendFlushHalf),
        d == Step::Reached(Stage::AppendFlush),
        a matches Step::Write { epoch, at, bytes } && epoch == id && at == from && bytes@.len() == (
        image.len() - from) / 2,
        b matches Step::Write { epoch, at, bytes } && epoch == id && at == from + (image.len()
            - from) / 2,
        (a->Write_bytes)@ + (b->Write_bytes)@ == image.skip(from),
{
    assert((a->Write_bytes)@ + (b->Write_bytes)@ =~= image.skip(from));
}

/// Writing a number into bytes changes its own bytes alone.
pub proof fn numbers_are_put_in_place(s: Seq<u8>, p: int, part: Seq<u8>, i: int)
    requires
        0 <= p,
        p + part.len() <= s.len(),
        0 <= i < s.len(),
    ensures
        splice(s, p, part).len() == s.len(),
        i < p || i >= p + part.len() ==> splice(s, p, part)[i] == s[i],
        p <= i < p + part.len() ==> splice(s, p, part)[i] == part[i - p],
{
}

/// A checksum is over its parts, one behind the other.
pub proof fn checksums_are_over_all_parts(parts: Seq<&[u8]>, part: &[u8])
    ensures
        joined(Seq::empty()) == Seq::<u8>::empty(),
        joined(parts.push(part)) == joined(parts) + part@,
{
    assert(parts.push(part).drop_last() =~= parts);
}

/// A file is taken for that of an arena only if its name begins and ends like one and has
/// nothing but digits between, or a plus sign and digits.
pub proof fn only_arena_names_are_read(name: Seq<u8>, i: int)
    requires
        epoch_of(name) is Some,
    ensures
        name.len() > 10,
        name.take(6) == seq![97u8, 114, 101, 110, 97, 45],
        name.skip(name.len() - 4) == seq![46u8, 115, 112, 105],
        6 < i < name.len() - 4 ==> 48 <= name[i] <= 57,
        48 <= name[6] <= 57 || (name[6] == 43 && name.len() > 11),
{
    let text = name.subrange(6, name.len() - 4);
    let digits = if text.len() > 0 && text[0] == 43 {
        text.skip(1)
    } else {
        text
    };
    assert(digits.len() > 0);
    assert(name[6] == text[0]);
    if 6 < i < name.len() - 4 {
        assert(name[i] == text[i - 6]);
        if text[0] == 43 {
            assert(digits[i - 7] == text[i - 6]);
            assert(is_digit(digits[i - 7]));
        } else {
            assert(digits[i - 6] == text[i - 6]);
            assert(is_digit(digits[i - 6]));
        }
    }
    if text[0] != 43 {
        assert(is_digit(digits[0]));
    }
}

/// What a transaction is charged in all: its reads, its writes and its ranges.
pub proof fn charges_are_of_reads_writes_and_ranges(t: Transaction)
    requires
        t.wf(),
    ensures
        t.bytes == total_of(t.reads@, read_weight()) + total_of(t.writes@, write_weight())
            + total_of(spans(t.ranges@), range_weight()),
        spans(t.ranges@).len() == t.ranges@.len(),
        forall|i: int|
            0 <= i < t.ranges@.len() ==> (#[trigger] spans(t.ranges@)[i]).0 == t.ranges@[i].start@,
{
}

/// A call on a transaction remembers what it names, a key that is read or staged or a range, and
/// forgets nothing.
pub proof fn calls_are_remembered(
    t: Transaction,
    from: Transaction,
    key: Seq<u8>,
    change: Change,
    end: Option<Seq<u8>>,
    other: Seq<u8>,
    i: int,
)
    requires
        t.wf(),
        from.wf(),
    ensures
        t.did(from, Call::Got { key }) || t.did(from, Call::Staged { key, change }) ==> {
            &&& t.snapshot == from.snapshot
            &&& spans(t.ranges@) == spans(from.ranges@)
            &&& (exists|r: int| 0 <= r < t.reads@.len() && (#[trigger] t.reads@[r]).0 == other)
                <==> other == key || exists|r: int|
                0 <= r < from.reads@.len() && (#[trigger] from.reads@[r]).0 == other
        },
        t.did(from, Call::Got { key }) ==> t.writes@ == from.writes@,
        t.did(from, Call::Staged { key, change }) ==> t.writes@.contains((key, change)) && (0 <= i
            < from.writes@.len() && from.writes@[i].0 != key ==> t.writes@.contains(
            from.writes@[i],
        )) && (0 <= i < t.writes@.len() && t.writes@[i].0 != key ==> from.writes@.contains(
            t.writes@[i],
        )),
        t.did(from, Call::Scanned { start: key, end }) ==> {
            &&& t.ranges@.len() == from.ranges@.len() + 1
            &&& t.ranges@.last()@ == (key, end)
            &&& 0 <= i < from.ranges@.len() ==> t.ranges@[i]@ == from.ranges@[i]@
            &&& t.writes@ == from.writes@ && t.reads@ == from.reads@
        },
        t.did(from, Call::Refused) ==> t == from,
{
    let had = present(from.reads@, other);
    if t.did(from, Call::Got { key }) || t.did(from, Call::Staged { key, change }) {
        assert(present(t.reads@, other) <==> had || other == key);
        named_rows(t.reads@, other);
        named_rows(from.reads@, other);
    }
    if t.did(from, Call::Staged { key, change }) {
        staging_keeps_the_others(from.writes@, key, change, (key, change));
        if 0 <= i < from.writes@.len() {
            assert(from.writes@.contains(from.writes@[i]));
            staging_keeps_the_others(from.writes@, key, change, from.writes@[i]);
        }
        if 0 <= i < t.writes@.len() {
            assert(t.writes@.contains(t.writes@[i]));
            staging_keeps_the_others(from.writes@, key, change, t.writes@[i]);
        }
    }
    if t.did(from, Call::Scanned { start: key, end }) {
        let (a, b) = (spans(from.ranges@), spans(t.ranges@));
        assert(b.len() == t.ranges@.len() && a.len() == from.ranges@.len());
        assert(b.last() == (key, end));
        if 0 <= i < from.ranges@.len() {
            assert(b[i] == a[i]);
        }
    }
}

proof fn named_rows<T>(s: Seq<(Seq<u8>, T)>, key: Seq<u8>)
    ensures
        present(s, key) <==> exists|r: int| 0 <= r < s.len() && (#[trigger] s[r]).0 == key,
{
}

/// A record is in the cache if it is there as what it is.
pub proof fn cached_records(e: Epoch, at: u64)
    ensures
        e.cached_node(at) <==> e.cache@.items.contains_key(at) && e.cache@.items[at] is Node,
        e.cached_value(at) <==> e.cache@.items.contains_key(at) && e.cache@.items[at] is Value,
        e.cached_page(at) <==> e.cache@.items.contains_key(at) && e.cache@.items[at] is Page,
{
}

/// The version that a root names has what the root says.
pub proof fn versions_are_named_by_roots(r: Root, packed: bool, budget: usize)
    ensures
        version(r, packed, budget).root == r,
        version(r, packed, budget).packed == packed,
        version(r, packed, budget).scan_budget == budget,
{
}

/// A page row is kept in place up to one thousand and twenty-four bytes of value, and with a
/// record of its own beyond.
pub proof fn small_values_are_kept_in_pages(
    key: Seq<u8>,
    cell: super::page::Cell,
    kind: u8,
    at: int,
    generation: int,
)
    requires
        storable((key, cell), kind, at, generation),
    ensures
        key.len() <= 4096,
        0 < cell.0 <= generation,
        cell.1 matches Stored::Inline(v) ==> v.len() <= 1024,
        cell.1 matches Stored::Overflow { at: x, len } ==> 1024 < len <= 16_777_216 && 8 <= x < at,
        cell.1 is Deleted ==> kind == 4,
{
}

/// A store opens where its manifest can be read, its arena has at least the bytes that the
/// manifest names and begins with its mark, and the root node, if there is one, can be read.
pub proof fn whole_stores_open(manifest: Seq<u8>, arena: Seq<u8>, options: Options)
    requires
        options.transaction_bytes > 0,
        options.scan_bytes > 0,
        options.write_chunk is None,
        manifest_of(manifest) is Ok,
        arena.len() >= (manifest_of(manifest)->Ok_0).0.end,
        arena.take(8) == seq![83u8, 80, 73, 65, 82, 69, 48, 49],
        (manifest_of(manifest)->Ok_0).0.root == 0 || node_at(
            arena.take((manifest_of(manifest)->Ok_0).0.end as int),
            (manifest_of(manifest)->Ok_0).0.end as int,
            (manifest_of(manifest)->Ok_0).0.root as int,
        ) is Ok,
    ensures
        opens(manifest, arena, options),
{
}

/// What a cache is charged for is what its items cost together, and never more than its budget.
pub proof fn caches_keep_their_budget(c: CacheView)
    requires
        c.wf(),
    ensures
        c.bytes() == super::cache::total(c.items, c.order),
        c.bytes() <= c.limit,
        forall|i: int| 0 <= i < c.order.len() ==> c.items.contains_key(#[trigger] c.order[i]),
        forall|at: u64| #[trigger] c.items.contains_key(at) ==> c.order.contains(at),
{
    assert forall|i: int| 0 <= i < c.order.len() implies c.items.contains_key(
        #[trigger] c.order[i],
    ) by {
        assert(c.order.contains(c.order[i]));
    }
}

/// A node is stored as its links, its value, its revision, its height and its key.
pub proof fn nodes_are_laid_out(n: super::arena::NodeView)
    requires
        n.key.len() <= u32::MAX,
    ensures
        encode_node(n).len() == 40 + n.key.len(),
        le64(encode_node(n), 0) == n.left,
        le64(encode_node(n), 8) == n.right,
        le64(encode_node(n), 16) == n.value,
        le64(encode_node(n), 24) == n.revision,
        le32(encode_node(n), 32) == n.height,
        le32(encode_node(n), 36) == n.key.len(),
        encode_node(n).skip(40) == n.key,
{
    broadcast use group_encoding;

    let b = encode_node(n);
    assert(b.subrange(0, 8) =~= enc64(n.left as int));
    assert(b.subrange(8, 16) =~= enc64(n.right as int));
    assert(b.subrange(16, 24) =~= enc64(n.value as int));
    assert(b.subrange(24, 32) =~= enc64(n.revision as int));
    assert(b.subrange(32, 36) =~= enc32(n.height as int));
    assert(b.subrange(36, 40) =~= enc32(n.key.len() as int));
    le64_of_enc64(b, 0, n.left as int);
    le64_of_enc64(b, 8, n.right as int);
    le64_of_enc64(b, 16, n.value as int);
    le64_of_enc64(b, 24, n.revision as int);
    le32_of_enc32(b, 32, n.height as int);
    le32_of_enc32(b, 36, n.key.len() as int);
    assert(b.skip(40) =~= n.key);
}

/// The stages of an operation go by fixed names.
pub proof fn stages_have_names()
    ensures
        stage_name(Stage::RecordHeader) == "record_header"@,
        stage_name(Stage::RecordPayload) == "record_payload"@,
        stage_name(Stage::AppendFlushHalf) == "append_flush_half"@,
        stage_name(Stage::AppendFlush) == "append_flush"@,
        stage_name(Stage::DataSync) == "data_sync"@,
        stage_name(Stage::CompactDataSync) == "compact_data_sync"@,
        stage_name(Stage::ManifestWrite) == "manifest_write"@,
        stage_name(Stage::ManifestSync) == "manifest_sync"@,
        stage_name(Stage::ManifestReplace) == "manifest_replace"@,
        stage_name(Stage::DirectorySync) == "directory_sync"@,
{
}

/// A fault that strikes is told of with the name of its stage.
pub proof fn faults_name_their_stage(steps: Seq<Step>, stage: Stage)
    ensures
        injected(steps.push(Step::Reached(stage))) == Fail::Io(
            "injected failure "@ + stage_name(stage),
        ),
{
    reveal(injected);
    assert(steps.push(Step::Reached(stage)).last() == Step::Reached(stage));
}

/// A commit asks for its manifest only when its arena was made durable and nothing was written to
/// it since.
pub proof fn data_is_durable_before_the_manifest(
    before: Database,
    after: Database,
    writes: Seq<(Seq<u8>, Change)>,
    next: Root,
    k: int,
)
    requires
        updating(before, after, writes, next),
        0 <= k < added(before, after).len(),
        added(before, after)[k] is Manifest,
    ensures
        exists|s: int|
            0 <= s < k && #[trigger] added(before, after)[s] == (Step::Sync {
                epoch: before.current.id,
            }) && forall|m: int|
                s < m < added(before, after).len() ==> !((#[trigger] added(before, after)[m])
                    is Write),
        forall|m: int|
            0 <= m < added(before, after).len() ==> ((#[trigger] added(before, after)[m])
                matches Step::Write { epoch, at, .. } ==> epoch == before.current.id && at
                >= before.view.root.end),
{
    let run = added(before, after);
    let id = before.current.id;
    let base = before.view.root.end as int;
    let image = after.current.image@;
    let meta = manifest_bytes(before.view.packed, next);
    let (n, upto) = choose|n: int, upto: int| #[trigger]
        orderly(run, n, id, base, upto, image, meta);
    let data = run.take(n);
    covered_data(data, id, base, upto, image);
    covered_writes(data, id, base, upto, image);
    if k < n {
        assert(data[k] == run[k]);
        assert(data_step(data[k]));
    }
    let s = choose|s: int|
        0 <= s < data.len() && #[trigger] data[s] == (Step::Sync { epoch: id }) && no_writes_behind(
            data,
            s,
        );
    assert(run[s] == data[s]);
    assert forall|m: int| s < m < run.len() implies !((#[trigger] run[m]) is Write) by {
        if m < n {
            assert(data[m] == run[m]);
        } else {
            assert(publishes(run[m], m - n, meta));
        }
    }
    assert forall|m: int| 0 <= m < run.len() implies ((#[trigger] run[m]) matches Step::Write {
        epoch,
        at,
        ..
    } ==> epoch == id && at >= base) by {
        if m < n {
            assert(data[m] == run[m]);
        } else {
            assert(publishes(run[m], m - n, meta));
        }
    }
}

/// Data steps write behind the base, and to one arena.
proof fn covered_writes(steps: Seq<Step>, id: u64, base: int, upto: int, image: Seq<u8>)
    requires
        covers(steps, id, base, upto, image),
    ensures
        forall|m: int|
            0 <= m < steps.len() ==> ((#[trigger] steps[m]) matches Step::Write { epoch, at, .. }
                ==> epoch == id && at >= base),
    decreases steps.len(),
{
    if steps.len() > 0 {
        let init = steps.drop_last();
        let last = steps.len() - 1;
        let before = match steps.last() {
            Step::Write { at, .. } => at as int,
            _ => upto,
        };
        covered_writes(init, id, base, before, image);
        assert forall|m: int| 0 <= m < steps.len() implies ((#[trigger] steps[m])
            matches Step::Write { epoch, at, .. } ==> epoch == id && at >= base) by {
            if m < last {
                assert(init[m] == steps[m]);
            }
        }
    }
}

/// A compaction asks for its manifest only when the new arena is durable, and its name in the
/// directory too, and nothing was written since.
pub proof fn copies_are_durable_before_the_manifest(
    run: Seq<Step>,
    n: int,
    id: u64,
    upto: int,
    image: Seq<u8>,
    meta: Seq<u8>,
    k: int,
)
    requires
        compacting(run, n, id, upto, image, meta),
        0 <= k < run.len(),
        run[k] is Manifest,
    ensures
        run[0] == (Step::Create { epoch: id }),
        exists|s: int|
            0 <= s < k && #[trigger] run[s] == (Step::Sync { epoch: id }) && forall|m: int|
                s < m < run.len() ==> !((#[trigger] run[m]) is Write),
        exists|s: int|
            0 <= s < k && #[trigger] run[s] == Step::SyncDirectory && forall|m: int|
                s < m < run.len() ==> !((#[trigger] run[m]) is Write) && !(run[m] is Create),
        forall|m: int|
            0 <= m < run.len() ==> ((#[trigger] run[m]) matches Step::Write { epoch, .. } ==> epoch
                == id),
{
    let data = run.take(n);
    let rest = data.skip(2);
    if data.len() > 0 {
        assert(data[0] == run[0] && data[1] == run[1]);
        covered_data(rest, id, 8, upto, image);
        covered_writes(rest, id, 8, upto, image);
    }
    if k < n {
        assert(data[k] == run[k]);
        if k >= 2 {
            assert(rest[k - 2] == run[k]);
            assert(data_step(rest[k - 2]));
        }
    }
    assert(prepares(data, id, upto, image));
    let s = choose|s: int|
        0 <= s < rest.len() && #[trigger] rest[s] == (Step::Sync { epoch: id }) && no_writes_behind(
            rest,
            s,
        );
    assert(run[s + 2] == rest[s]);
    assert forall|m: int| s + 2 < m < run.len() implies !((#[trigger] run[m]) is Write) by {
        if m < n {
            assert(rest[m - 2] == run[m]);
        } else {
            assert(publishes(run[m], m - n, meta));
        }
    }
    let e = choose|e: int|
        0 <= e < data.len() && #[trigger] data[e] == Step::SyncDirectory && nothing_new_behind(
            data,
            e,
        );
    assert(run[e] == data[e]);
    assert forall|m: int| e < m < run.len() implies !((#[trigger] run[m]) is Write) && !(run[m]
        is Create) by {
        if m < n {
            assert(data[m] == run[m]);
        } else {
            assert(publishes(run[m], m - n, meta));
        }
    }
    assert forall|m: int| 0 <= m < run.len() implies ((#[trigger] run[m]) matches Step::Write {
        epoch,
        ..
    } ==> epoch == id) by {
        if m < n {
            assert(data[m] == run[m]);
            if m >= 2 {
                assert(rest[m - 2] == run[m]);
            }
        } else {
            assert(publishes(run[m], m - n, meta));
        }
    }
}

/// The steps that an operation added are those behind what there was.
pub proof fn steps_are_added_behind(before: Database, after: Database)
    requires
        after.steps@.len() >= before.steps@.len(),
        after.steps@.take(before.steps@.len() as int) == before.steps@,
    ensures
        before.steps@ + added(before, after) == after.steps@,
{
    assert(before.steps@ + added(before, after) =~= after.steps@);
}

/// A node that is read has its links and its value before it, a height, and a key that is no
/// longer than keys may be.
pub proof fn nodes_that_are_read_are_sound(b: Seq<u8>, end: int, at: int)
    requires
        node_at(b, end, at) is Ok,
    ensures
        ({
            let n = node_at(b, end, at)->Ok_0;
            &&& n.left < at
            &&& n.right < at
            &&& 8 <= n.value < at
            &&& 0 < n.height <= 128
            &&& n.key.len() <= 4096
        }),
{
}

/// A search goes by its node: it ends at one with the key, goes left to smaller keys and right to
/// larger ones, and a node that cannot be read is an error.
pub proof fn searches_follow_the_order(b: Seq<u8>, end: int, at: u64, key: Seq<u8>)
    requires
        at != 0,
    ensures
        node_at(b, end, at as int) is Err ==> find_node(b, end, at, key) is Err,
        node_at(b, end, at as int) matches Ok(n) ==> {
            &&& n.key == key ==> find_node(b, end, at, key) == Ok::<
                Option<super::arena::NodeView>,
                Fail,
            >(Some(n))
            &&& lt(key, n.key) ==> find_node(b, end, at, key) == find_node(b, end, n.left, key)
            &&& lt(n.key, key) ==> find_node(b, end, at, key) == find_node(b, end, n.right, key)
        },
        find_node(b, end, 0, key) == Ok::<Option<super::arena::NodeView>, Fail>(None),
{
    broadcast use group_order;

    if node_at(b, end, at as int) is Ok {
        nodes_that_are_read_are_sound(b, end, at as int);
    }
}

/// Nothing is made up for what cannot be read: a version whose root cannot be read gives no
/// answer, and a value is given only as its record has it.
pub proof fn damage_gives_no_answer(view: Snapshot, image: Seq<u8>, key: Seq<u8>)
    requires
        view.root.root != 0,
    ensures
        node_at(image, image.len() as int, view.root.root as int) is Err ==> view.value_back(
            image,
            key,
        ) is None && view.revision_back(image, key) is None,
        !view.packed ==> (find_node(
            image,
            image.len() as int,
            view.root.root,
            key,
        ) matches Ok(Some(n)) ==> {
            &&& view.revision_back(image, key) == Some(n.revision)
            &&& value_at(image, view.root.end as int, n.value as int) matches Ok(v)
                ==> view.value_back(image, key) == Some(Some(v))
            &&& value_at(image, view.root.end as int, n.value as int) is Err ==> view.value_back(
                image,
                key,
            ) is None
        }),
        !view.packed ==> (find_node(
            image,
            image.len() as int,
            view.root.root,
            key,
        ) matches Ok(None) ==> view.value_back(image, key) == Some(None::<Seq<u8>>)
            && view.revision_back(image, key) == Some(0u64)),
{
    searches_follow_the_order(image, image.len() as int, view.root.root, key);
}

/// The keys with a prefix are those that begin with its bytes: they are the ones from the prefix
/// itself up to the bound that scanning it takes.
pub proof fn prefixes_are_beginnings(prefix: Seq<u8>, key: Seq<u8>)
    ensures
        !lt(key, prefix) && (prefix_bound(prefix) is None || lt(key, prefix_bound(prefix)->0))
            <==> prefix.len() <= key.len() && forall|i: int|
            0 <= i < prefix.len() ==> #[trigger] key[i] == prefix[i],
{
    prefix_range(prefix, key);
    if prefix.len() <= key.len() {
        let t = key.take(prefix.len() as int);
        if t == prefix {
            assert forall|i: int| 0 <= i < prefix.len() implies #[trigger] key[i] == prefix[i] by {
                assert(t[i] == prefix[i]);
            }
        }
        if forall|i: int| 0 <= i < prefix.len() ==> #[trigger] key[i] == prefix[i] {
            assert(t =~= prefix);
        }
    }
}

/// A page that can be read has no more than eight deltas, of four kibibytes together.
pub proof fn lineages_are_short(b: Seq<u8>, end: int, generation: u64, at: u64)
    requires
        loaded(b, end, generation, at) is Ok,
    ensures
        deltas_on(b, end, at).len() <= 8,
        sum_of(deltas_on(b, end, at)) <= 4096,
        16 + rows_size(loaded(b, end, generation, at)->Ok_0) <= 16_384,
{
    lineage_bounded(b, end, generation, at);
}

/// The newest record of a page that has a key decides what the key has: its cell, or nothing
/// where it says that the key is deleted. A base page that has no row for a key ends the search.
pub proof fn newest_records_decide(
    b: Seq<u8>,
    end: int,
    generation: u64,
    at: u64,
    demand: Demand,
    key: Seq<u8>,
    i: int,
)
    requires
        point(b, end, generation, at, demand, key) is Ok,
    ensures
        page_at(b, end, at as int) is Ok,
        ({
            let r = page_at(b, end, at as int)->Ok_0;
            let found = point(b, end, generation, at, demand, key)->Ok_0;
            &&& sorted(r.rows) && 0 <= i < r.rows.len() && r.rows[i].0 == key ==> found == if
                r.rows[i].1.1 is Deleted {
                None
            } else {
                Some(r.rows[i].1)
            }
            &&& sorted(r.rows) && (forall|k: int|
                0 <= k < r.rows.len() ==> (#[trigger] r.rows[k]).0 != key) ==> if r.kind == 3 {
                found is None
            } else {
                point(b, end, generation, r.prev, demand_of(r), key) == Ok::<
                    Option<super::page::Cell>,
                    Fail,
                >(found)
            }
        }),
{
    let r = page_at(b, end, at as int)->Ok_0;
    if sorted(r.rows) {
        lookup_finds(r.rows, key);
        if 0 <= i < r.rows.len() {
            lookup_at(r.rows, i);
        }
    }
}

/// A delta laid over rows takes the place of those with its keys, and leaves out what it deletes.
pub proof fn deltas_take_the_place_of_rows(
    rows: Seq<(Seq<u8>, super::page::Cell)>,
    delta: Seq<(Seq<u8>, super::page::Cell)>,
    at: int,
    generation: int,
    row: (Seq<u8>, super::page::Cell),
)
    requires
        sorted(rows),
        sorted(delta),
        basic(rows, at, generation),
        forall|j: int| 0 <= j < delta.len() ==> storable(#[trigger] delta[j], 4, at, generation),
    ensures
        overlay(rows, delta).contains(row) <==> (delta.contains(row) && !(row.1.1 is Deleted)) || (
        rows.contains(row) && forall|j: int|
            0 <= j < delta.len() ==> (#[trigger] delta[j]).0 != row.0),
{
    overlay_meaning(rows, delta, at, generation);
    let all = overlay(rows, delta);
    has_row(rows, row);
    has_row(delta, row);
    has_row(all, row);
    lookup_finds(delta, row.0);
    assert(lookup(all, row.0) == match lookup(delta, row.0) {
        Some(c) => change_of(c),
        None => lookup(rows, row.0),
    });
    if present(delta, row.0) {
        let j = choose|j: int| 0 <= j < delta.len() && (#[trigger] delta[j]).0 == row.0;
        lookup_at(delta, j);
    }
}

/// A writer that has written its records offers the nodes among them to its cache, in the order
/// in which they stand, and nothing else.
pub proof fn written_nodes_come_into_the_cache(c: CacheView, b: Seq<u8>, pos: int)
    requires
        0 <= pos <= b.len(),
    ensures
        pos == b.len() ==> offered(c, b, pos) == c,
        pos + 32 + le32(b, pos + 24) <= b.len() && pos + 32 <= b.len() && 0 <= le32(b, pos + 24)
            ==> {
            let next = pos + 32 + le32(b, pos + 24);
            &&& node_at(b, b.len() as int, pos) matches Ok(n) ==> offered(c, b, pos) == offered(
                c.insert(pos as u64, ItemView::Node(n)),
                b,
                next,
            )
            &&& node_at(b, b.len() as int, pos) is Err ==> offered(c, b, pos) == offered(c, b, next)
        },
{
}

} // verus!
