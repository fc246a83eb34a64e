//! The operation streams by which stores are compared, and the outputs that
//! every store has to give.
use vstd::prelude::*;

use crate::spi::bytes::{copy, differ_at, lt, same};
use crate::spi::keymap::KeyMap;
use crate::spi::model::{entries, Entry};
use crate::spi::rows::{lookup, lookup_finds, put, put_meaning, range};
use crate::spi::scan::bound_of;

verus! {

/// One step of the generator.
pub open spec fn stepped(state: u64) -> u64 {
    state.wrapping_mul(6364136223846793005u64).wrapping_add(1442695040888963407u64)
}

pub fn next(state: &mut u64) -> (r: u64)
    ensures
        *final(state) == stepped(*old(state)),
        r == *final(state),
{
    *state = state.wrapping_mul(6364136223846793005u64).wrapping_add(1442695040888963407u64);
    *state
}

/// The last `n` bytes of a number, the highest first.
pub open spec fn big_endian(i: nat, n: nat) -> Seq<u8>
    decreases n,
{
    if n == 0 {
        Seq::empty()
    } else {
        big_endian(i / 256, (n - 1) as nat).push((i % 256) as u8)
    }
}

/// The key of row `i`: eight bytes, so that keys are ordered as numbers are.
pub open spec fn key_bytes(i: u64) -> Seq<u8> {
    big_endian(i as nat, 8)
}

fn big_endian_bytes(i: u64, n: usize) -> (v: Vec<u8>)
    ensures
        v@ == big_endian(i as nat, n as nat),
    decreases n,
{
    if n == 0 {
        Vec::new()
    } else {
        let mut v = big_endian_bytes(i / 256, n - 1);
        v.push((i % 256) as u8);
        v
    }
}

pub fn key(i: u64) -> (k: Vec<u8>)
    ensures
        k@ == key_bytes(i),
{
    big_endian_bytes(i, 8)
}

/// The generator's state after `n` steps.
pub open spec fn stepped_times(state: u64, n: nat) -> u64
    decreases n,
{
    if n == 0 {
        state
    } else {
        stepped(stepped_times(state, (n - 1) as nat))
    }
}

/// The value of row `i`: one byte of each of the following states.
pub open spec fn value_bytes(i: u64, seed: u64, size: nat) -> Seq<u8> {
    Seq::new(
        size,
        |k: int| (stepped_times(i ^ seed, (k + 1) as nat) / 0x1_0000_0000 % 0x100) as u8,
    )
}

pub fn value(i: u64, seed: u64, size: usize) -> (v: Vec<u8>)
    ensures
        v@ == value_bytes(i, seed, size as nat),
{
    let mut s: u64 = i ^ seed;
    let mut v: Vec<u8> = Vec::new();
    let mut k: usize = 0;
    while k < size
        invariant
            k <= size,
            s == stepped_times(i ^ seed, k as nat),
            v@.len() == k,
            forall|j: int|
                0 <= j < k ==> v@[j] == #[trigger] value_bytes(i, seed, size as nat)[j],
        decreases size - k,
    {
        let n: u64 = next(&mut s);
        let ghost had = v@;
        v.push((n / 0x1_0000_0000 % 0x100) as u8);
        proof {
            assert forall|j: int| 0 <= j < k + 1 implies v@[j] == #[trigger] value_bytes(
                i,
                seed,
                size as nat,
            )[j] by {
                if j < k {
                    assert(v@[j] == had[j]);
                }
            }
        }
        k = k + 1;
    }
    assert(v@ =~= value_bytes(i, seed, size as nat));
    v
}

/// A value with the lowest bit of its first byte flipped.
pub open spec fn flipped(v: Seq<u8>) -> Seq<u8> {
    v.update(0, v[0] ^ 1)
}

/// Flipping a bit always changes the value.
pub proof fn flipping_changes(v: Seq<u8>)
    requires
        v.len() > 0,
    ensures
        flipped(v) != v,
        flipped(v).len() == v.len(),
{
    let b = v[0];
    assert(b ^ 1 != b) by (bit_vector);
    assert(flipped(v)[0] != v[0]);
}

/// A mutation that changes the value that is stored now.
pub fn forced_mutation(key: &[u8], expected: &KeyMap<Vec<u8>>) -> (e: Entry)
    requires
        expected.wf(),
        lookup(expected@, key@) matches Some(v) && v.len() > 0,
    ensures
        e@ == (key@, flipped(lookup(expected@, key@)->0)),
        lookup(expected@, key@) != Some(e@.1),
{
    proof {
        lookup_finds(expected@, key@);
        flipping_changes(lookup(expected@, key@)->0);
    }
    match expected.get(key) {
        Some(v) => {
            assert(v.deep_view() =~= v@);
            let mut value = copy(v.as_slice());
            let first: u8 = value[0];
            value.set(0, first ^ 1);
            Entry { key: copy(key), value }
        },
        None => Entry { key: copy(key), value: Vec::new() },
    }
}

/// The rows that a comparison starts from, in the order of their keys.
pub open spec fn initial_rows(rows: nat, seed: u64, size: nat) -> Seq<(Seq<u8>, Seq<u8>)> {
    Seq::new(rows, |i: int| (key_bytes(i as u64), value_bytes(i as u64, seed, size)))
}

/// How many numbers `n` bytes can hold.
spec fn numbers(n: nat) -> nat
    decreases n,
{
    if n == 0 {
        1
    } else {
        256 * numbers((n - 1) as nat)
    }
}

/// Numbers and their bytes are ordered alike.
proof fn big_endian_ordered(a: nat, b: nat, n: nat)
    requires
        a < b < numbers(n),
    ensures
        lt(big_endian(a, n), big_endian(b, n)),
        big_endian(a, n).len() == n,
        big_endian(b, n).len() == n,
    decreases n,
{
    let m = (n - 1) as nat;
    let x = big_endian(a / 256, m);
    let y = big_endian(b / 256, m);
    if a / 256 == b / 256 {
        big_endian_len(a / 256, m);
        differ_at(big_endian(a, n), big_endian(b, n), m as int);
    } else {
        big_endian_ordered(a / 256, b / 256, m);
        let k = crate::spi::bytes::common(x, y, 0) as int;
        crate::spi::bytes::common_facts(x, y);
        differ_at(big_endian(a, n), big_endian(b, n), k);
    }
}

proof fn big_endian_len(a: nat, n: nat)
    ensures
        big_endian(a, n).len() == n,
    decreases n,
{
    if n > 0 {
        big_endian_len(a / 256, (n - 1) as nat);
    }
}

/// Keys are ordered as the numbers that they stand for.
pub proof fn keys_ordered(a: u64, b: u64)
    requires
        a < b,
    ensures
        lt(key_bytes(a), key_bytes(b)),
{
    reveal_with_fuel(numbers, 9);
    big_endian_ordered(a as nat, b as nat, 8);
}

/// A comparison under way: the state of the generator and what a store has to
/// hold now.
pub struct Workload {
    pub rows: u64,
    pub state: u64,
    pub expected: KeyMap<Vec<u8>>,
}

impl Workload {
    pub open spec fn wf(self) -> bool {
        &&& self.expected.wf()
        &&& self.rows > 0
        &&& forall|i: u64|
            i < self.rows ==> (lookup(self.expected@, #[trigger] key_bytes(i)) matches Some(v)
                && v.len() > 0)
    }

    /// The rows to start with.
    pub fn new(rows: u64, seed: u64, size: usize) -> (w: Workload)
        requires
            rows > 0,
            size > 0,
        ensures
            w.wf(),
            w.rows == rows,
            w.state == seed,
            w.expected@ == initial_rows(rows as nat, seed, size as nat),
    {
        let mut expected: KeyMap<Vec<u8>> = KeyMap::new();
        let ghost all = initial_rows(rows as nat, seed, size as nat);
        let mut i: u64 = 0;
        assert(expected@ =~= all.take(0));
        while i < rows
            invariant
                i <= rows,
                expected.wf(),
                all == initial_rows(rows as nat, seed, size as nat),
                expected@ == all.take(i as int),
            decreases rows - i,
        {
            let k = key(i);
            let v = value(i, seed, size);
            proof {
                assert(v.deep_view() =~= v@);
                let now = expected@;
                assert forall|j: int| 0 <= j < now.len() implies lt(
                    #[trigger] now[j].0,
                    k@,
                ) by {
                    assert(now[j] == all[j]);
                    keys_ordered(j as u64, i);
                }
                crate::spi::overlay::below_absent(now, k@);
                assert(put(now, k@, v@) =~= all.take(i + 1));
            }
            expected.insert(k, v);
            i = i + 1;
        }
        assert(all.take(rows as int) =~= all);
        proof {
            assert forall|n: u64| n < rows implies (lookup(
                all,
                #[trigger] key_bytes(n),
            ) matches Some(v) && v.len() > 0) by {
                assert(all[n as int].0 == key_bytes(n));
                crate::spi::rows::lookup_at(all, n as int);
            }
        }
        Workload { rows, state: seed, expected }
    }

    /// Whether a point read gave what it has to.
    pub fn check_point(&self, key: &[u8], found: &Option<Vec<u8>>) -> (ok: bool)
        requires
            self.wf(),
        ensures
            ok == (lookup(self.expected@, key@) == (match *found {
                Some(v) => Some(v@),
                None => None::<Seq<u8>>,
            })),
    {
        proof {
            lookup_finds(self.expected@, key@);
        }
        match (self.expected.get(key), found) {
            (Some(v), Some(f)) => {
                assert(v.deep_view() =~= v@);
                same(v.as_slice(), f.as_slice())
            },
            (None, None) => true,
            _ => false,
        }
    }

    /// A key that is there, chosen by the generator.
    pub fn next_request(&mut self) -> (k: Vec<u8>)
        requires
            old(self).wf(),
        ensures
            final(self).wf(),
            final(self).expected == old(self).expected,
            final(self).rows == old(self).rows,
            final(self).state == stepped(old(self).state),
            k@ == key_bytes(stepped(old(self).state) % old(self).rows),
            lookup(final(self).expected@, k@) is Some,
    {
        let n: u64 = next(&mut self.state);
        key(n % self.rows)
    }

    /// The bounds of a range of up to a hundred keys.
    pub fn next_range(&mut self) -> (r: (Vec<u8>, Vec<u8>))
        requires
            old(self).wf(),
            old(self).rows <= u64::MAX - 100,
        ensures
            final(self).wf(),
            final(self).expected == old(self).expected,
            final(self).rows == old(self).rows,
            final(self).state == stepped(old(self).state),
            ({
                let i = stepped(old(self).state) % old(self).rows;
                &&& r.0@ == key_bytes(i)
                &&& r.1@ == key_bytes(
                    if i + 100 < old(self).rows {
                        (i + 100) as u64
                    } else {
                        old(self).rows
                    },
                )
            }),
    {
        let n: u64 = next(&mut self.state);
        let i: u64 = n % self.rows;
        let end: u64 = if i + 100 < self.rows {
            i + 100
        } else {
            self.rows
        };
        (key(i), key(end))
    }

    /// Whether a range read gave what it has to.
    pub fn check_range(&self, start: &[u8], end: Option<&[u8]>, found: &Vec<Entry>) -> (ok: bool)
        requires
            self.wf(),
        ensures
            ok == (entries(found@) == range(self.expected@, start@, bound_of(end))),
    {
        let ghost want = range(self.expected@, start@, bound_of(end));
        let ghost got = entries(found@);
        let size: usize = self.expected.len();
        let from: usize = self.expected.position(start);
        let upto: usize = match end {
            Some(e) => self.expected.position(e),
            None => size,
        };
        let total: usize = if upto > from {
            upto - from
        } else {
            0
        };
        assert(total == 0 ==> want =~= self.expected@.subrange(from as int, from as int));
        assert(want =~= self.expected@.subrange(from as int, from + total));
        if found.len() != total {
            return false;
        }
        let mut i: usize = 0;
        while i < total
            invariant
                self.wf(),
                i <= total,
                total == found@.len(),
                total == want.len(),
                want == range(self.expected@, start@, bound_of(end)),
                got == entries(found@),
                from + total <= size,
                size == self.expected@.len(),
                want == self.expected@.subrange(from as int, from + total),
                forall|k: int| 0 <= k < i ==> #[trigger] got[k] == want[k],
            decreases total - i,
        {
            let k = self.expected.key_at(from + i);
            let v = self.expected.value_at(from + i);
            proof {
                assert(v.deep_view() =~= v@);
                assert(got[i as int] == found@[i as int]@);
            }
            if !same(k, found[i].key.as_slice()) || !same(v.as_slice(), found[i].value.as_slice()) {
                return false;
            }
            i = i + 1;
        }
        assert(got =~= want);
        true
    }

    /// Notes that a row was written.
    pub fn note(&mut self, row: &Entry)
        requires
            old(self).wf(),
            row.value@.len() > 0,
        ensures
            final(self).wf(),
            final(self).rows == old(self).rows,
            final(self).state == old(self).state,
            final(self).expected@ == put(old(self).expected@, row.key@, row.value@),
    {
        let ghost was = self.expected@;
        let value = copy(row.value.as_slice());
        proof {
            assert(value.deep_view() =~= row.value@);
            put_meaning(was, row.key@, row.value@);
        }
        self.expected.insert(copy(row.key.as_slice()), value);
    }

    /// An update of a row that the generator chose: the bit of its value is
    /// flipped, and noted, so that a second update of the row flips it back.
    pub fn next_update(&mut self) -> (row: Entry)
        requires
            old(self).wf(),
        ensures
            final(self).wf(),
            final(self).rows == old(self).rows,
            final(self).state == stepped(old(self).state),
            ({
                let k = key_bytes(stepped(old(self).state) % old(self).rows);
                let v = flipped(lookup(old(self).expected@, k)->0);
                &&& row@ == (k, v)
                &&& final(self).expected@ == put(old(self).expected@, k, v)
            }),
    {
        let k = self.next_request();
        proof {
            flipping_changes(lookup(self.expected@, k@)->0);
        }
        let row = forced_mutation(k.as_slice(), &self.expected);
        self.note(&row);
        row
    }
}

} // verus!
