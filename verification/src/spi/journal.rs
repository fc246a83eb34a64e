//! The bounded journal of committed mutations, by which transactions learn
//! whether what they read has changed.
use vstd::prelude::*;

use super::bytes::{before, copy};
use super::contents::{applied, applied_meaning, changed, Change, Version};
use super::keymap::KeyMap;
use super::model::MAX_KEY;
use super::rows::{in_range, lookup, lookup_determines, lookup_finds, present, range, sorted};

verus! {

/// The keys that one generation wrote.
#[derive(Debug)]
pub struct Logged {
    pub generation: u64,
    pub keys: Vec<Vec<u8>>,
}

/// Keys as plain values.
pub open spec fn key_views(keys: Seq<Vec<u8>>) -> Seq<Seq<u8>> {
    keys.map_values(|k: Vec<u8>| k@)
}

impl View for Logged {
    type V = (u64, Seq<Seq<u8>>);

    open spec fn view(&self) -> (u64, Seq<Seq<u8>>) {
        (self.generation, key_views(self.keys@))
    }
}

/// A half-open range of keys.
#[derive(Debug)]
pub struct Range {
    pub start: Vec<u8>,
    pub end: Option<Vec<u8>>,
}

impl View for Range {
    type V = (Seq<u8>, Option<Seq<u8>>);

    open spec fn view(&self) -> (Seq<u8>, Option<Seq<u8>>) {
        (
            self.start@,
            match self.end {
                Some(e) => Some(e@),
                None => None,
            },
        )
    }
}

/// What keeping keys in the journal costs.
pub open spec fn key_charge(keys: Seq<Seq<u8>>) -> int
    decreases keys.len(),
{
    if keys.len() == 0 {
        64
    } else {
        key_charge(keys.drop_last()) + keys.last().len() + 64
    }
}

/// What the whole journal costs.
pub open spec fn total_charge(changes: Seq<(u64, Seq<Seq<u8>>)>) -> int
    decreases changes.len(),
{
    if changes.len() == 0 {
        0
    } else {
        key_charge(changes[0].1) + total_charge(changes.skip(1))
    }
}

/// The journal as plain values: the retained generations, oldest first, and the
/// generation up to which nothing is known.
pub struct JournalView {
    pub changes: Seq<(u64, Seq<Seq<u8>>)>,
    pub floor: u64,
}

impl JournalView {
    pub open spec fn wf(self) -> bool {
        &&& forall|i: int|
            0 <= i < self.changes.len() ==> (#[trigger] self.changes[i]).0 > self.floor
        &&& forall|i: int, j: int|
            0 <= i < j < self.changes.len() ==> (#[trigger] self.changes[i]).0 < (
            #[trigger] self.changes[j]).0
    }

    /// Drops the oldest generations until `room` is enough for the rest.
    pub open spec fn trimmed(self, room: int) -> JournalView
        decreases self.changes.len(),
    {
        if self.changes.len() == 0 || total_charge(self.changes) <= room {
            self
        } else {
            (JournalView { changes: self.changes.skip(1), floor: self.changes[0].0 }).trimmed(room)
        }
    }

    /// The journal behind one more generation.
    pub open spec fn recorded(self, generation: u64, keys: Seq<Seq<u8>>, budget: int) -> JournalView {
        if key_charge(keys) > budget {
            JournalView { changes: Seq::empty(), floor: generation }
        } else {
            let kept = self.trimmed(budget - key_charge(keys));
            JournalView { changes: kept.changes.push((generation, keys)), floor: kept.floor }
        }
    }

    /// Whether a generation behind `since` wrote the key.
    pub open spec fn touched(self, since: u64, key: Seq<u8>) -> bool {
        exists|i: int|
            0 <= i < self.changes.len() && (#[trigger] self.changes[i]).0 > since
                && self.changes[i].1.contains(key)
    }

    /// Whether a reader of generation `since` is told of a write to a key: it is named, or the
    /// journal no longer reaches back.
    pub open spec fn warns(self, since: u64, key: Seq<u8>) -> bool {
        since < self.floor || self.touched(since, key)
    }

    /// The journal behind a run of generations, each with the keys that it wrote.
    pub open spec fn logged(self, run: Seq<(u64, Seq<Seq<u8>>)>, budget: int) -> JournalView
        decreases run.len(),
    {
        if run.len() == 0 {
            self
        } else {
            self.logged(run.drop_last(), budget).recorded(run.last().0, run.last().1, budget)
        }
    }

    /// Whether a generation behind `since` wrote a key that was read or that lies
    /// in a range that was read.
    pub open spec fn disturbed(
        self,
        since: u64,
        reads: Seq<(Seq<u8>, u64)>,
        ranges: Seq<(Seq<u8>, Option<Seq<u8>>)>,
    ) -> bool {
        exists|i: int, k: int|
            0 <= i < self.changes.len() && 0 <= k < self.changes[i].1.len()
                && self.changes[i].0 > since && of_interest(
                #[trigger] self.changes[i].1[k],
                reads,
                ranges,
            )
    }

    /// Whether the journal knows of every difference between the contents of
    /// generation `since` and the contents now.
    pub open spec fn tracks(
        self,
        since: u64,
        then: Seq<(Seq<u8>, Version)>,
        now: Seq<(Seq<u8>, Version)>,
    ) -> bool {
        since >= self.floor ==> forall|k: Seq<u8>| #[trigger]
            lookup(then, k) == lookup(now, k) || self.touched(since, k)
    }
}

/// Whether a key was read, or lies in a range that was read.
pub open spec fn of_interest(
    key: Seq<u8>,
    reads: Seq<(Seq<u8>, u64)>,
    ranges: Seq<(Seq<u8>, Option<Seq<u8>>)>,
) -> bool {
    present(reads, key) || exists|r: int|
        0 <= r < ranges.len() && in_range(key, (#[trigger] ranges[r]).0, ranges[r].1)
}

/// The keys of staged writes.
pub open spec fn written_keys(writes: Seq<(Seq<u8>, Change)>) -> Seq<Seq<u8>> {
    writes.map_values(|w: (Seq<u8>, Change)| w.0)
}

/// What dropping old generations keeps.
proof fn trimmed_meaning(j: JournalView, room: int)
    requires
        j.wf(),
    ensures
        j.trimmed(room).wf(),
        j.trimmed(room).floor >= j.floor,
        j.trimmed(room).changes.len() > 0 ==> total_charge(j.trimmed(room).changes) <= room,
        forall|since: u64, key: Seq<u8>|
            since >= j.trimmed(room).floor ==> #[trigger] j.trimmed(room).touched(since, key)
                == j.touched(since, key),
        forall|i: int|
            0 <= i < j.trimmed(room).changes.len() ==> exists|k: int|
                0 <= k < j.changes.len() && (#[trigger] j.trimmed(room).changes[i])
                    == j.changes[k],
    decreases j.changes.len(),
{
    if j.changes.len() == 0 || total_charge(j.changes) <= room {
    } else {
        let next = JournalView { changes: j.changes.skip(1), floor: j.changes[0].0 };
        assert forall|i: int| 0 <= i < next.changes.len() implies (#[trigger] next.changes[i]).0
            > next.floor by {
            assert(next.changes[i] == j.changes[i + 1]);
        }
        assert forall|i: int, k: int| 0 <= i < k < next.changes.len() implies (
        #[trigger] next.changes[i]).0 < (#[trigger] next.changes[k]).0 by {
            assert(next.changes[i] == j.changes[i + 1] && next.changes[k] == j.changes[k + 1]);
        }
        trimmed_meaning(next, room);
        let end = next.trimmed(room);
        assert(end.floor >= next.floor);
        assert forall|since: u64, key: Seq<u8>| since >= end.floor implies #[trigger] end.touched(
            since,
            key,
        ) == j.touched(since, key) by {
            assert(end.touched(since, key) == next.touched(since, key));
            if j.touched(since, key) {
                let i = choose|i: int|
                    0 <= i < j.changes.len() && (#[trigger] j.changes[i]).0 > since
                        && j.changes[i].1.contains(key);
                assert(i > 0);
                assert(next.changes[i - 1] == j.changes[i]);
            }
            if next.touched(since, key) {
                let i = choose|i: int|
                    0 <= i < next.changes.len() && (#[trigger] next.changes[i]).0 > since
                        && next.changes[i].1.contains(key);
                assert(next.changes[i] == j.changes[i + 1]);
            }
        }
        assert forall|i: int| 0 <= i < end.changes.len() implies exists|k: int|
            0 <= k < j.changes.len() && (#[trigger] end.changes[i]) == j.changes[k] by {
            let k = choose|k: int|
                0 <= k < next.changes.len() && end.changes[i] == next.changes[k];
            assert(next.changes[k] == j.changes[k + 1]);
        }
    }
}

/// Recording a generation keeps the journal in order.
pub proof fn recorded_wf(j: JournalView, generation: u64, keys: Seq<Seq<u8>>, budget: int)
    requires
        j.wf(),
        j.floor < generation,
        forall|i: int| 0 <= i < j.changes.len() ==> (#[trigger] j.changes[i]).0 < generation,
    ensures
        j.recorded(generation, keys, budget).wf(),
        j.recorded(generation, keys, budget).floor <= generation,
        forall|i: int|
            0 <= i < j.recorded(generation, keys, budget).changes.len() ==> (
            #[trigger] j.recorded(generation, keys, budget).changes[i]).0 <= generation,
{
    let n = j.recorded(generation, keys, budget);
    if key_charge(keys) <= budget {
        let t = j.trimmed(budget - key_charge(keys));
        trimmed_meaning(j, budget - key_charge(keys));
        trimmed_floor(j, budget - key_charge(keys), generation);
        assert forall|i: int| 0 <= i < t.changes.len() implies (#[trigger] t.changes[i]).0
            < generation by {
            let k = choose|k: int| 0 <= k < j.changes.len() && t.changes[i] == j.changes[k];
            assert(j.changes[k].0 < generation);
        }
        assert forall|i: int| 0 <= i < n.changes.len() implies (#[trigger] n.changes[i]).0
            > n.floor by {
            if i < t.changes.len() {
                assert(n.changes[i] == t.changes[i]);
            }
        }
        assert forall|i: int, k: int| 0 <= i < k < n.changes.len() implies (
        #[trigger] n.changes[i]).0 < (#[trigger] n.changes[k]).0 by {
            assert(n.changes[i] == t.changes[i]);
            if k < t.changes.len() {
                assert(n.changes[k] == t.changes[k]);
            }
        }
        assert forall|i: int| 0 <= i < n.changes.len() implies (#[trigger] n.changes[i]).0
            <= generation by {
            if i < t.changes.len() {
                assert(n.changes[i] == t.changes[i]);
            }
        }
    }
}

proof fn trimmed_floor(j: JournalView, room: int, generation: u64)
    requires
        j.floor < generation,
        forall|i: int| 0 <= i < j.changes.len() ==> (#[trigger] j.changes[i]).0 < generation,
    ensures
        j.trimmed(room).floor < generation,
    decreases j.changes.len(),
{
    if j.changes.len() > 0 && total_charge(j.changes) > room {
        let next = JournalView { changes: j.changes.skip(1), floor: j.changes[0].0 };
        assert forall|i: int| 0 <= i < next.changes.len() implies (#[trigger] next.changes[i]).0
            < generation by {
            assert(next.changes[i] == j.changes[i + 1]);
        }
        trimmed_floor(next, room, generation);
    }
}

/// A recorded write is told of, and what was told of before still is.
proof fn recorded_warns(
    j: JournalView,
    since: u64,
    generation: u64,
    keys: Seq<Seq<u8>>,
    budget: int,
    key: Seq<u8>,
)
    requires
        j.wf(),
        j.floor < generation,
        since < generation,
        keys.contains(key) || j.warns(since, key),
    ensures
        j.recorded(generation, keys, budget).warns(since, key),
{
    let n = j.recorded(generation, keys, budget);
    if key_charge(keys) <= budget && since >= n.floor {
        let room = budget - key_charge(keys);
        let t = j.trimmed(room);
        trimmed_meaning(j, room);
        if keys.contains(key) {
            assert(n.changes[t.changes.len() as int] == (generation, keys));
        } else {
            assert(t.touched(since, key));
            let i = choose|i: int|
                0 <= i < t.changes.len() && (#[trigger] t.changes[i]).0 > since
                    && t.changes[i].1.contains(key);
            assert(n.changes[i] == t.changes[i]);
        }
    }
}

/// Every write of a run of commits is told of behind the run, to whoever read an earlier
/// generation, whatever was written after it and however small the journal is.
pub proof fn every_write_warns(
    j: JournalView,
    since: u64,
    run: Seq<(u64, Seq<Seq<u8>>)>,
    budget: int,
    at: int,
    key: Seq<u8>,
)
    requires
        j.wf(),
        j.floor <= since,
        forall|i: int| 0 <= i < j.changes.len() ==> (#[trigger] j.changes[i]).0 <= since,
        forall|i: int| 0 <= i < run.len() ==> since < (#[trigger] run[i]).0,
        forall|a: int, b: int|
            0 <= a < b < run.len() ==> (#[trigger] run[a]).0 < (#[trigger] run[b]).0,
        0 <= at < run.len(),
        run[at].1.contains(key),
    ensures
        j.logged(run, budget).wf(),
        j.logged(run, budget).warns(since, key),
    decreases run.len(),
{
    let init = run.drop_last();
    let last = run.last();
    assert forall|i: int| 0 <= i < init.len() implies since < (#[trigger] init[i]).0 by {
        assert(init[i] == run[i]);
    }
    assert forall|a: int, b: int| 0 <= a < b < init.len() implies (#[trigger] init[a]).0 < (
    #[trigger] init[b]).0 by {
        assert(init[a] == run[a] && init[b] == run[b]);
    }
    logged_order(j, since, init, budget);
    assert(last == run[run.len() - 1]);
    let k = j.logged(init, budget);
    assert(k.floor < last.0) by {
        if init.len() > 0 {
            assert(init.last() == run[init.len() - 1]);
        }
    }
    assert forall|i: int| 0 <= i < k.changes.len() implies (#[trigger] k.changes[i]).0 < last.0 by {
        if init.len() > 0 {
            assert(init.last() == run[init.len() - 1]);
        }
    }
    recorded_wf(k, last.0, last.1, budget);
    if at < init.len() {
        assert(init[at] == run[at]);
        every_write_warns(j, since, init, budget, at, key);
    }
    recorded_warns(k, since, last.0, last.1, budget, key);
}

/// A journal behind a run is in order, and reaches to the run's last generation.
proof fn logged_order(j: JournalView, since: u64, run: Seq<(u64, Seq<Seq<u8>>)>, budget: int)
    requires
        j.wf(),
        j.floor <= since,
        forall|i: int| 0 <= i < j.changes.len() ==> (#[trigger] j.changes[i]).0 <= since,
        forall|i: int| 0 <= i < run.len() ==> since < (#[trigger] run[i]).0,
        forall|a: int, b: int|
            0 <= a < b < run.len() ==> (#[trigger] run[a]).0 < (#[trigger] run[b]).0,
    ensures
        j.logged(run, budget).wf(),
        ({
            let newest = if run.len() == 0 {
                since
            } else {
                run.last().0
            };
            let n = j.logged(run, budget);
            &&& n.floor <= newest
            &&& forall|i: int| 0 <= i < n.changes.len() ==> (#[trigger] n.changes[i]).0 <= newest
        }),
    decreases run.len(),
{
    if run.len() > 0 {
        let init = run.drop_last();
        let last = run.last();
        assert(last == run[run.len() - 1]);
        assert forall|i: int| 0 <= i < init.len() implies since < (#[trigger] init[i]).0 by {
            assert(init[i] == run[i]);
        }
        assert forall|a: int, b: int| 0 <= a < b < init.len() implies (#[trigger] init[a]).0 < (
        #[trigger] init[b]).0 by {
            assert(init[a] == run[a] && init[b] == run[b]);
        }
        logged_order(j, since, init, budget);
        if init.len() > 0 {
            assert(init.last() == run[init.len() - 1]);
        }
        recorded_wf(j.logged(init, budget), last.0, last.1, budget);
    }
}

/// The journal knows of every difference from the present to itself.
pub proof fn tracks_nothing(j: JournalView, now: u64, contents: Seq<(Seq<u8>, Version)>)
    ensures
        j.tracks(now, contents, contents),
{
}

/// A journal that knows of every difference since a generation goes on knowing
/// of all when a commit is recorded, or says that it no longer reaches back.
pub proof fn recorded_tracks(
    j: JournalView,
    since: u64,
    then: Seq<(Seq<u8>, Version)>,
    now: Seq<(Seq<u8>, Version)>,
    generation: u64,
    writes: Seq<(Seq<u8>, Change)>,
    budget: int,
)
    requires
        j.wf(),
        j.tracks(since, then, now),
        since < generation,
        sorted(now),
        sorted(writes),
    ensures
        j.recorded(generation, written_keys(writes), budget).tracks(
            since,
            then,
            applied(now, writes, generation),
        ),
{
    let keys = written_keys(writes);
    let n = j.recorded(generation, keys, budget);
    let later = applied(now, writes, generation);
    if since >= n.floor {
        let t = j.trimmed(budget - key_charge(keys));
        trimmed_meaning(j, budget - key_charge(keys));
        applied_meaning(now, writes, generation);
        assert forall|k: Seq<u8>| #[trigger] lookup(then, k) == lookup(later, k) || n.touched(
            since,
            k,
        ) by {
            assert(lookup(then, k) == lookup(now, k) || j.touched(since, k));
            assert(lookup(later, k) == changed(lookup(writes, k), lookup(now, k), generation));
            lookup_finds(writes, k);
            let last = n.changes.len() - 1;
            if present(writes, k) {
                let i = choose|i: int| 0 <= i < writes.len() && (#[trigger] writes[i]).0 == k;
                assert(keys[i] == k);
                assert(n.changes[last] == (generation, keys));
            } else if j.touched(since, k) {
                assert(t.touched(since, k));
                let i = choose|i: int|
                    0 <= i < t.changes.len() && (#[trigger] t.changes[i]).0 > since
                        && t.changes[i].1.contains(k);
                assert(n.changes[i] == t.changes[i]);
            }
        }
    }
}

/// Where a journal reaches back and nothing read was written since, every read
/// and every range gives now what it gave then.
pub proof fn undisturbed_reads_repeat(
    j: JournalView,
    since: u64,
    then: Seq<(Seq<u8>, Version)>,
    now: Seq<(Seq<u8>, Version)>,
    reads: Seq<(Seq<u8>, u64)>,
    ranges: Seq<(Seq<u8>, Option<Seq<u8>>)>,
)
    requires
        j.tracks(since, then, now),
        since >= j.floor,
        !j.disturbed(since, reads, ranges),
        sorted(then),
        sorted(now),
    ensures
        forall|k: Seq<u8>| present(reads, k) ==> #[trigger] lookup(then, k) == lookup(now, k),
        forall|r: int|
            0 <= r < ranges.len() ==> range(then, (#[trigger] ranges[r]).0, ranges[r].1) == range(
                now,
                ranges[r].0,
                ranges[r].1,
            ),
{
    assert forall|k: Seq<u8>| of_interest(k, reads, ranges) implies #[trigger] lookup(then, k)
        == lookup(now, k) by {
        if j.touched(since, k) {
            let i = choose|i: int|
                0 <= i < j.changes.len() && (#[trigger] j.changes[i]).0 > since
                    && j.changes[i].1.contains(k);
            let p = choose|p: int| 0 <= p < j.changes[i].1.len() && j.changes[i].1[p] == k;
            assert(of_interest(j.changes[i].1[p], reads, ranges));
        }
    }
    assert forall|r: int| 0 <= r < ranges.len() implies range(
        then,
        (#[trigger] ranges[r]).0,
        ranges[r].1,
    ) == range(now, ranges[r].0, ranges[r].1) by {
        let lo = ranges[r].0;
        let hi = ranges[r].1;
        super::rows::range_meaning(then, lo, hi);
        super::rows::range_meaning(now, lo, hi);
        let x = range(then, lo, hi);
        let y = range(now, lo, hi);
        assert forall|k: Seq<u8>| #[trigger] lookup(x, k) == lookup(y, k) by {
            if in_range(k, lo, hi) {
                assert(of_interest(k, reads, ranges));
                assert(lookup(then, k) == lookup(now, k));
            }
        }
        lookup_determines(x, y);
    }
}

#[derive(Debug)]
pub struct Journal {
    pub changes: Vec<Logged>,
    pub floor: u64,
    pub bytes: usize,
}

impl View for Journal {
    type V = JournalView;

    open spec fn view(&self) -> JournalView {
        JournalView {
            changes: self.changes@.map_values(|l: Logged| l@),
            floor: self.floor,
        }
    }
}

proof fn charge_step(keys: Seq<Seq<u8>>, i: int)
    requires
        0 <= i < keys.len(),
    ensures
        key_charge(keys.take(i + 1)) == key_charge(keys.take(i)) + keys[i].len() + 64,
{
    assert(keys.take(i + 1).drop_last() =~= keys.take(i));
}

proof fn charge_least(keys: Seq<Seq<u8>>)
    ensures
        key_charge(keys) >= 64,
    decreases keys.len(),
{
    if keys.len() > 0 {
        charge_least(keys.drop_last());
    }
}

proof fn total_push(changes: Seq<(u64, Seq<Seq<u8>>)>, one: (u64, Seq<Seq<u8>>))
    ensures
        total_charge(changes.push(one)) == total_charge(changes) + key_charge(one.1),
    decreases changes.len(),
{
    if changes.len() == 0 {
        assert(changes.push(one)[0] == one);
        assert(changes.push(one).skip(1) =~= Seq::empty());
        assert(total_charge(changes.push(one).skip(1)) == 0);
    } else {
        total_push(changes.skip(1), one);
        assert(changes.push(one)[0] == changes[0]);
        assert(changes.push(one).skip(1) =~= changes.skip(1).push(one));
    }
}

proof fn total_least(changes: Seq<(u64, Seq<Seq<u8>>)>)
    ensures
        total_charge(changes) >= 0,
        changes.len() > 0 ==> total_charge(changes) >= key_charge(changes[0].1),
    decreases changes.len(),
{
    if changes.len() > 0 {
        total_least(changes.skip(1));
        charge_least(changes[0].1);
    }
}

/// What keeping these keys costs.
fn charge_keys(keys: &Vec<Vec<u8>>) -> (c: u128)
    requires
        forall|i: int| 0 <= i < keys@.len() ==> (#[trigger] keys@[i])@.len() <= MAX_KEY,
    ensures
        c == key_charge(key_views(keys@)),
{
    let ghost all = key_views(keys@);
    let mut c: u128 = 64;
    let mut i: usize = 0;
    let total: usize = keys.len();
    assert(all.take(0) =~= Seq::empty());
    while i < total
        invariant
            total == keys@.len(),
            i <= total,
            all == key_views(keys@),
            forall|k: int| 0 <= k < keys@.len() ==> (#[trigger] keys@[k])@.len() <= MAX_KEY,
            c == key_charge(all.take(i as int)),
            c <= 64 + i * (MAX_KEY + 64),
        decreases total - i,
    {
        proof {
            charge_step(all, i as int);
            assert(all[i as int] == keys@[i as int]@);
            assert((i + 1) * (MAX_KEY + 64) == i * (MAX_KEY + 64) + MAX_KEY + 64)
                by (nonlinear_arith);
            assert(i * (MAX_KEY + 64) <= 0xffff_ffff_ffff_ffff * (MAX_KEY + 64))
                by (nonlinear_arith)
                requires
                    i <= 0xffff_ffff_ffff_ffff,
            ;
        }
        c = c + keys[i].len() as u128 + 64;
        i = i + 1;
    }
    assert(all.take(total as int) =~= all);
    c
}

impl Journal {
    pub open spec fn wf(self) -> bool {
        &&& self@.wf()
        &&& self.bytes == total_charge(self@.changes)
        &&& forall|i: int, k: int|
            0 <= i < self.changes@.len() && 0 <= k < self.changes@[i].keys@.len() ==> (
            #[trigger] self.changes@[i].keys@[k])@.len() <= MAX_KEY
    }

    /// An empty journal that knows of nothing up to `floor`.
    pub fn new(floor: u64) -> (j: Journal)
        ensures
            j.wf(),
            j@ == (JournalView { changes: Seq::empty(), floor }),
    {
        let j = Journal { changes: Vec::new(), floor, bytes: 0 };
        assert(j@.changes =~= Seq::empty());
        j
    }

    /// Drops the oldest generations until the rest fits.
    fn trim(&mut self, room: usize)
        requires
            old(self).wf(),
        ensures
            final(self).wf(),
            final(self)@ == old(self)@.trimmed(room as int),
            final(self).bytes <= room,
            forall|i: int|
                0 <= i < final(self).changes@.len() ==> exists|k: int|
                    0 <= k < old(self).changes@.len() && (#[trigger] final(self).changes@[i])
                        == old(self).changes@[k],
    {
        let ghost start = *self;
        while self.bytes > room
            invariant
                self.wf(),
                self@.trimmed(room as int) == start@.trimmed(room as int),
                start == *old(self),
                forall|i: int|
                    0 <= i < self.changes@.len() ==> exists|k: int|
                        0 <= k < start.changes@.len() && (#[trigger] self.changes@[i])
                            == start.changes@[k],
            decreases self.changes@.len(),
        {
            let ghost now = *self;
            proof {
                total_least(self@.changes);
                if self.changes@.len() == 0 {
                    assert(self@.changes.len() == 0);
                }
            }
            let oldest = self.changes.remove(0);
            proof {
                assert(now.changes@[0] == oldest);
                assert(now@.changes[0] == oldest@);
                assert(self@.changes =~= now@.changes.skip(1));
                assert forall|k: int| 0 <= k < oldest.keys@.len() implies (
                #[trigger] oldest.keys@[k])@.len() <= MAX_KEY by {
                    assert(now.changes@[0].keys@[k] == oldest.keys@[k]);
                }
                assert forall|i: int, k: int|
                    0 <= i < self.changes@.len() && 0 <= k < self.changes@[i].keys@.len() implies (
                #[trigger] self.changes@[i].keys@[k])@.len() <= MAX_KEY by {
                    assert(self.changes@[i] == now.changes@[i + 1]);
                    assert(now.changes@[i + 1].keys@[k]@.len() <= MAX_KEY);
                }
                assert forall|i: int| 0 <= i < self.changes@.len() implies exists|k: int|
                    0 <= k < start.changes@.len() && (#[trigger] self.changes@[i])
                        == start.changes@[k] by {
                    assert(self.changes@[i] == now.changes@[i + 1]);
                }
                total_least(now@.changes.skip(1));
            }
            let charge: u128 = charge_keys(&oldest.keys);
            self.bytes = self.bytes - charge as usize;
            self.floor = oldest.generation;
            proof {
                let next = self@;
                assert forall|i: int| 0 <= i < next.changes.len() implies (
                #[trigger] next.changes[i]).0 > next.floor by {
                    assert(next.changes[i] == now@.changes[i + 1]);
                }
                assert forall|i: int, k: int| 0 <= i < k < next.changes.len() implies (
                #[trigger] next.changes[i]).0 < (#[trigger] next.changes[k]).0 by {
                    assert(next.changes[i] == now@.changes[i + 1]);
                    assert(next.changes[k] == now@.changes[k + 1]);
                }
            }
        }
    }

    /// Records the keys that a commit wrote.
    pub fn record_changes(
        &mut self,
        generation: u64,
        writes: &KeyMap<Option<Vec<u8>>>,
        budget: usize,
    )
        requires
            old(self).wf(),
            writes.wf(),
            old(self).floor < generation,
            forall|i: int|
                0 <= i < old(self)@.changes.len() ==> (#[trigger] old(self)@.changes[i]).0
                    < generation,
            forall|i: int| 0 <= i < writes@.len() ==> (#[trigger] writes@[i]).0.len() <= MAX_KEY,
        ensures
            final(self).wf(),
            final(self)@ == old(self)@.recorded(
                generation,
                written_keys(writes@),
                budget as int,
            ),
    {
        let ghost names = written_keys(writes@);
        let mut keys: Vec<Vec<u8>> = Vec::new();
        let mut i: usize = 0;
        let total: usize = writes.len();
        while i < total
            invariant
                total == writes@.len(),
                i <= total,
                names == written_keys(writes@),
                key_views(keys@) == names.take(i as int),
                forall|k: int| 0 <= k < writes@.len() ==> (#[trigger] writes@[k]).0.len() <= MAX_KEY,
                forall|k: int| 0 <= k < keys@.len() ==> (#[trigger] keys@[k])@.len() <= MAX_KEY,
            decreases total - i,
        {
            let ghost had = keys@;
            keys.push(copy(writes.key_at(i)));
            proof {
                assert(key_views(keys@) =~= key_views(had).push(writes@[i as int].0));
                assert(names.take(i + 1) =~= names.take(i as int).push(names[i as int]));
            }
            i = i + 1;
        }
        assert(names.take(total as int) =~= names);
        let charge: u128 = charge_keys(&keys);
        proof {
            recorded_wf(self@, generation, names, budget as int);
        }
        if charge > budget as u128 {
            self.changes = Vec::new();
            self.bytes = 0;
            self.floor = generation;
            assert(self@.changes =~= Seq::empty());
            return ;
        }
        let ghost j0 = *self;
        self.trim(budget - charge as usize);
        let ghost kept = *self;
        let logged = Logged { generation, keys };
        let ghost one = logged@;
        self.changes.push(logged);
        self.bytes = self.bytes + charge as usize;
        proof {
            assert(self@.changes =~= kept@.changes.push(one));
            total_push(kept@.changes, one);
            assert forall|i: int, k: int|
                0 <= i < self.changes@.len() && 0 <= k < self.changes@[i].keys@.len() implies (
            #[trigger] self.changes@[i].keys@[k])@.len() <= MAX_KEY by {
                if i < kept.changes@.len() {
                    assert(self.changes@[i] == kept.changes@[i]);
                    assert(kept.changes@[i].keys@[k]@.len() <= MAX_KEY);
                }
            }
        }
    }

    /// Whether a generation behind `since` wrote anything of interest.
    pub fn conflicts(&self, since: u64, reads: &KeyMap<u64>, ranges: &Vec<Range>) -> (r: bool)
        requires
            reads.wf(),
        ensures
            r == self@.disturbed(since, reads@, ranges@.map_values(|x: Range| x@)),
    {
        let ghost spans = ranges@.map_values(|x: Range| x@);
        let mut i: usize = 0;
        while i < self.changes.len()
            invariant
                i <= self.changes@.len(),
                reads.wf(),
                spans == ranges@.map_values(|x: Range| x@),
                forall|a: int, k: int|
                    0 <= a < i && 0 <= k < self@.changes[a].1.len() && self@.changes[a].0 > since
                        ==> !of_interest(#[trigger] self@.changes[a].1[k], reads@, spans),
            decreases self.changes@.len() - i,
        {
            assert(self@.changes[i as int] == self.changes@[i as int]@);
            if self.changes[i].generation > since {
                let keys = &self.changes[i].keys;
                let mut k: usize = 0;
                while k < keys.len()
                    invariant
                        i < self.changes@.len(),
                        *keys == self.changes@[i as int].keys,
                        self@.changes[i as int] == self.changes@[i as int]@,
                        self@.changes[i as int].0 > since,
                        k <= keys@.len(),
                        reads.wf(),
                        spans == ranges@.map_values(|x: Range| x@),
                        forall|b: int|
                            0 <= b < k ==> !of_interest(
                                #[trigger] self@.changes[i as int].1[b],
                                reads@,
                                spans,
                            ),
                    decreases keys@.len() - k,
                {
                    assert(self@.changes[i as int].1[k as int] == keys@[k as int]@);
                    if interesting(keys[k].as_slice(), reads, ranges) {
                        return true;
                    }
                    k = k + 1;
                }
            }
            i = i + 1;
        }
        false
    }
}

/// Whether a key was read, or lies in a range that was read.
fn interesting(key: &[u8], reads: &KeyMap<u64>, ranges: &Vec<Range>) -> (r: bool)
    requires
        reads.wf(),
    ensures
        r == of_interest(key@, reads@, ranges@.map_values(|x: Range| x@)),
{
    let ghost spans = ranges@.map_values(|x: Range| x@);
    if reads.contains_key(key) {
        return true;
    }
    let mut i: usize = 0;
    while i < ranges.len()
        invariant
            i <= ranges@.len(),
            !present(reads@, key@),
            spans == ranges@.map_values(|x: Range| x@),
            forall|r: int| 0 <= r < i ==> !in_range(key@, (#[trigger] spans[r]).0, spans[r].1),
        decreases ranges@.len() - i,
    {
        let r = &ranges[i];
        assert(spans[i as int] == r@);
        let inside = !before(key, r.start.as_slice()) && match &r.end {
            Some(e) => before(key, e.as_slice()),
            None => true,
        };
        if inside {
            return true;
        }
        i = i + 1;
    }
    false
}

} // verus!
