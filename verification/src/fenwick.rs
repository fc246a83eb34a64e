//! Prefix sums under point updates, in an array indexed by lowest bits.
use vstd::prelude::*;

use crate::numbers::{sum, sum_joined, sum_push, sum_update};

verus! {

/// The lowest bit that is set.
pub open spec fn low(x: u64) -> u64 {
    x & !((x - 1) as u64)
}

/// Facts of lowest bits.
proof fn low_facts(x: u64)
    requires
        0 < x < 0x8000_0000_0000_0000,
    ensures
        0 < low(x) <= x,
        x + low(x) <= u64::MAX,
        low((x + low(x)) as u64) >= 2 * low(x),
        low((x + low(x)) as u64) <= x + low(x),
{
    assert(0 < x & !((x - 1) as u64) <= x) by (bit_vector)
        requires
            0 < x < 0x8000_0000_0000_0000,
    ;
    let l = low(x);
    let y = (x + l) as u64;
    assert(y & !((y - 1) as u64) >= 2 * l && y & !((y - 1) as u64) <= y) by (bit_vector)
        requires
            0 < x < 0x8000_0000_0000_0000,
            l == x & !((x - 1) as u64),
            y == x + l,
    ;
}

/// Between an index and the next one in its chain no index reaches back past it.
proof fn between_reaches_short(x: u64, k: u64)
    requires
        0 < x < 0x4000_0000_0000_0000,
        x < k < x + low(x),
    ensures
        k - low(k) >= x,
{
    low_facts(x);
    let l = low(x);
    assert(k - (k & !((k - 1) as u64)) >= x) by (bit_vector)
        requires
            0 < x < 0x4000_0000_0000_0000,
            l == x & !((x - 1) as u64),
            x < k,
            k < x + l,
    ;
}

/// Within the span of an index all chains lead to it at last.
proof fn inside_leads_here(x: u64, k: u64)
    requires
        0 < k < x < 0x4000_0000_0000_0000,
        x - low(x) < k,
    ensures
        k + low(k) <= x,
{
    low_facts(x);
    let l = low(x);
    assert(k + (k & !((k - 1) as u64)) <= x) by (bit_vector)
        requires
            0 < k < x < 0x4000_0000_0000_0000,
            l == x & !((x - 1) as u64),
            x - l < k,
    ;
}

/// Where the span of an index begins, the span of its successor begins too, or another
/// index ends whose successor is the same.
proof fn neighbours(x: u64)
    requires
        0 < x < 0x4000_0000_0000_0000,
    ensures
        ({
            let p = (x + low(x)) as u64;
            let a = (x - low(x)) as u64;
            a == p - low(p) || (0 < a && a + low(a) == p)
        }),
{
    low_facts(x);
    let l = low(x);
    let p = (x + l) as u64;
    let a = (x - l) as u64;
    assert(a == p - (p & !((p - 1) as u64)) || (0 < a && a + (a & !((a - 1) as u64)) == p))
        by (bit_vector)
        requires
            0 < x < 0x4000_0000_0000_0000,
            l == x & !((x - 1) as u64),
            p == x + l,
            a == x - l,
    ;
}

/// The index just before leads to this one, unless the span is a single place.
proof fn just_before(x: u64)
    requires
        1 < x < 0x4000_0000_0000_0000,
        low(x) > 1,
    ensures
        (x - 1) + low((x - 1) as u64) == x,
{
    let l = low(x);
    let y = (x - 1) as u64;
    assert(y + (y & !((y - 1) as u64)) == x) by (bit_vector)
        requires
            1 < x < 0x4000_0000_0000_0000,
            l == x & !((x - 1) as u64),
            l > 1,
            y == x - 1,
    ;
}

fn low_bit(x: usize) -> (l: usize)
    requires
        0 < x < 0x4000_0000_0000_0000,
    ensures
        l == low(x as u64),
{
    let y: u64 = x as u64;
    let l: u64 = y & !(y - 1);
    proof {
        low_facts(y);
    }
    l as usize
}

/// The sum of the places after `a` up to `b`, counted from one.
pub open spec fn between(w: Seq<i64>, a: int, b: int) -> int {
    sum(w.subrange(a, b))
}

proof fn between_joins(w: Seq<i64>, a: int, b: int, c: int)
    requires
        0 <= a <= b <= c <= w.len(),
    ensures
        between(w, a, c) == between(w, a, b) + between(w, b, c),
{
    assert(w.subrange(a, c) =~= w.subrange(a, b) + w.subrange(b, c));
    sum_joined(w.subrange(a, b), w.subrange(b, c));
}

proof fn between_one(w: Seq<i64>, a: int)
    requires
        0 <= a < w.len(),
    ensures
        between(w, a, a + 1) == w[a],
{
    assert(w.subrange(a, a + 1) =~= Seq::<i64>::empty().push(w[a]));
    sum_push(Seq::empty(), w[a]);
}

/// Whether a sum can be held.
pub open spec fn held(x: int) -> bool {
    i64::MIN <= x <= i64::MAX
}

/// The sum of the span of an index.
pub open spec fn span(w: Seq<i64>, i: int) -> int {
    between(w, i - low(i as u64), i)
}

/// What the successor of an index holds while a tree is built, once the index was added to it:
/// its own value, and the sum of its span up to that index.
pub open spec fn halfway(w: Seq<i64>, i: int) -> int {
    let p = i + low(i as u64);
    w[p - 1] + between(w, p - low(p as u64), i)
}

/// Whether every sum can be held on the way to the tree of these values.
pub open spec fn building_fits(w: Seq<i64>) -> bool {
    forall|i: int| 1 <= i && i + low(i as u64) <= w.len() ==> held(#[trigger] halfway(w, i))
}

/// Whether the spans that a place lies in can be held.
pub open spec fn spans_fit(w: Seq<i64>, x: int) -> bool {
    forall|i: int|
        1 <= i <= w.len() && i - low(i as u64) <= x < i ==> held(#[trigger] span(w, i))
}

/// Whether every sum can be held on the way down from an index, of the places up to `hi`.
pub open spec fn running_fits(w: Seq<i64>, i: int, hi: int) -> bool
    decreases i,
{
    0 < i < 0x4000_0000_0000_0000 && 0 < low(i as u64) <= i ==> held(
        between(w, i - low(i as u64), hi),
    ) && running_fits(w, i - low(i as u64), hi)
}

/// Whether there are so few values, and they are so small, that any of them can be summed.
pub open spec fn narrow(w: Seq<i64>) -> bool {
    &&& w.len() <= 0x1_0000_0000
    &&& forall|i: int| 0 <= i < w.len() ==> i32::MIN <= #[trigger] w[i] <= i32::MAX
}

/// A stretch of small values has a small sum.
proof fn narrow_between(w: Seq<i64>, a: int, b: int)
    requires
        narrow(w),
        0 <= a <= b <= w.len(),
    ensures
        i32::MIN * (b - a) <= between(w, a, b) <= i32::MAX * (b - a),
    decreases b - a,
{
    if a < b {
        narrow_between(w, a, b - 1);
        between_joins(w, a, b - 1, b);
        between_one(w, b - 1);
        assert(i32::MIN <= w[b - 1] <= i32::MAX);
    } else {
        assert(w.subrange(a, b) =~= Seq::empty());
    }
}

/// Whatever is summed of few small values can be held.
pub proof fn narrow_fits(w: Seq<i64>, x: int)
    requires
        narrow(w),
        0 <= x <= w.len(),
    ensures
        building_fits(w),
        spans_fit(w, x),
        running_fits(w, x, x),
{
    assert forall|i: int| 1 <= i && i + low(i as u64) <= w.len() implies held(
        #[trigger] halfway(w, i),
    ) by {
        low_facts(i as u64);
        let p = i + low(i as u64);
        low_facts(p as u64);
        inside_span(i as u64);
        narrow_between(w, p - low(p as u64), i);
        assert(i32::MIN <= w[p - 1] <= i32::MAX);
    }
    assert forall|i: int| 1 <= i <= w.len() && i - low(i as u64) <= x < i implies held(
        #[trigger] span(w, i),
    ) by {
        low_facts(i as u64);
        narrow_between(w, i - low(i as u64), i);
    }
    narrow_running(w, x, x);
}

proof fn narrow_running(w: Seq<i64>, i: int, hi: int)
    requires
        narrow(w),
        0 <= i <= hi <= w.len(),
    ensures
        running_fits(w, i, hi),
    decreases i,
{
    if 0 < i {
        low_facts(i as u64);
        narrow_between(w, i - low(i as u64), hi);
        narrow_running(w, i - low(i as u64), hi);
    }
}

proof fn between_update(w: Seq<i64>, i: int, v: i64, a: int, b: int)
    requires
        0 <= a <= b <= w.len(),
        0 <= i < w.len(),
    ensures
        between(w.update(i, v), a, b) == between(w, a, b) + if a <= i < b {
            v - w[i]
        } else {
            0
        },
{
    if a <= i < b {
        assert(w.update(i, v).subrange(a, b) =~= w.subrange(a, b).update(i - a, v));
        sum_update(w.subrange(a, b), i - a, v);
    } else {
        assert(w.update(i, v).subrange(a, b) =~= w.subrange(a, b));
    }
}

/// Whether an index has the sum of its span.
pub open spec fn spans(t: Seq<i64>, w: Seq<i64>, i: int) -> bool {
    t[i] == between(w, i - low(i as u64), i)
}

pub struct Fenwick {
    pub t: Vec<i64>,
    pub held: Ghost<Seq<i64>>,
}

impl Fenwick {
    /// The values by their places.
    pub open spec fn view(&self) -> Seq<i64> {
        self.held@
    }

    pub open spec fn wf(&self) -> bool {
        &&& self.t@.len() == self@.len() + 1
        &&& self@.len() < 0x2000_0000_0000_0000
        &&& forall|i: int| 1 <= i <= self@.len() ==> #[trigger] spans(self.t@, self@, i)
    }

    /// Whether a place alone has so much more than before.
    pub open spec fn grew(&self, before: Fenwick, x: int, d: int) -> bool {
        &&& 0 <= x < before@.len() == self@.len()
        &&& self@[x] == before@[x] + d
        &&& self@ == before@.update(x, self@[x])
    }

    /// From all values, in their order.
    pub fn new(values: &Vec<i64>) -> (f: Self)
        requires
            values@.len() < 0x2000_0000_0000_0000,
            values@.len() < usize::MAX,
            building_fits(values@),
        ensures
            f.wf(),
            f@ == values@,
    {
        let ghost w = values@;
        let n: usize = values.len();
        let mut t: Vec<i64> = Vec::new();
        t.push(0);
        let mut i: usize = 0;
        while i < n
            invariant
                n == values@.len(),
                i <= n,
                t@.len() == i + 1,
                t@[0] == 0,
                forall|k: int| 1 <= k <= i ==> #[trigger] t@[k] == values@[k - 1],
            decreases n - i,
        {
            t.push(values[i]);
            i = i + 1;
        }
        let ghost mut done: Seq<int> = Seq::new(t@.len(), |j: int| j - low(j as u64));
        proof {
            assert forall|j: int| 1 <= j <= n implies built(#[trigger] t@[j], w, j, done[j]) by {
                low_facts(j as u64);
                assert(w.subrange(done[j], done[j]) =~= Seq::empty());
            }
            assert forall|j: int| 1 <= j <= n implies #[trigger] ready(done[j], j, 1) by {
                low_facts(j as u64);
            }
        }
        let mut i: usize = 1;
        while i < t.len()
            invariant
                1 <= i <= t@.len(),
                t@.len() == n + 1,
                n == w.len(),
                n < 0x2000_0000_0000_0000,
                building_fits(w),
                done.len() == t@.len(),
                forall|j: int| 1 <= j < i ==> #[trigger] spans(t@, w, j),
                forall|j: int| i <= j <= n ==> built(#[trigger] t@[j], w, j, done[j]),
                forall|j: int| i <= j <= n ==> #[trigger] ready(done[j], j, i as int),
            decreases t@.len() - i,
        {
            let ghost (t0, done0) = (t@, done);
            proof {
                let x = i as u64;
                low_facts(x);
                assert(built(t@[i as int], w, i as int, done[i as int]));
                assert(ready(done[i as int], i as int, i as int));
                assert(done[i as int] == i - 1) by {
                    if low(x) > 1 {
                        just_before(x);
                        assert(leads(i - 1, i as int));
                    }
                }
                between_joins(w, i - low(x), i - 1, i as int);
                between_one(w, i - 1);
                assert(spans(t@, w, i as int));
            }
            let step: usize = low_bit(i);
            let ghost p = i + step;
            if step < t.len() - i {
                let p: usize = i + step;
                proof {
                    let x = i as u64;
                    neighbours(x);
                    low_facts(p as u64);
                    assert(built(t@[p as int], w, p as int, done[p as int]));
                    assert(ready(done[p as int], p as int, i as int));
                    follows(x, done[p as int]);
                    assert(done[p as int] == i - low(x));
                    between_joins(w, p - low(p as u64), i - low(x), i as int);
                    between_joins(w, p - low(p as u64), i as int, p - 1);
                    between_one(w, p - 1);
                    assert(halfway(w, i as int) == t@[p as int] + t@[i as int]);
                }
                let s: i64 = t[p] + t[i];
                t.set(p, s);
                proof {
                    done = done.update(p as int, i as int);
                }
            }
            proof {
                let x = i as u64;
                assert forall|j: int| 1 <= j < i + 1 implies #[trigger] spans(t@, w, j) by {
                    assert(spans(t0, w, j));
                    assert(t@[j] == t0[j]);
                }
                assert forall|j: int| i + 1 <= j <= n implies built(
                    #[trigger] t@[j],
                    w,
                    j,
                    done[j],
                ) by {
                    assert(built(t0[j], w, j, done0[j]));
                }
                assert forall|j: int| i + 1 <= j <= n implies #[trigger] ready(
                    done[j],
                    j,
                    i + 1,
                ) by {
                    assert(ready(done0[j], j, i as int));
                    low_facts(j as u64);
                    if j == p {
                        assert(leads(i as int, j));
                        inside_span(x);
                    }
                }
            }
            i = i + 1;
        }
        Fenwick { t, held: Ghost(w) }
    }

    /// Adds to the value at a place.
    pub fn add(&mut self, x: usize, d: i32)
        requires
            old(self).wf(),
            x < old(self)@.len(),
            i64::MIN <= old(self)@[x as int] + d <= i64::MAX,
            spans_fit(
                old(self)@.update(x as int, (old(self)@[x as int] + d) as i64),
                x as int,
            ),
        ensures
            final(self).wf(),
            final(self)@ == old(self)@.update(x as int, (old(self)@[x as int] + d) as i64),
            final(self).grew(*old(self), x as int, d as int),
    {
        let ghost w = self@;
        let ghost now = w.update(x as int, (w[x as int] + d) as i64);
        let n: usize = self.t.len() - 1;
        let mut i: usize = x + 1;
        proof {
            low_facts((x + 1) as u64);
            assert forall|j: int| 1 <= j < i implies #[trigger] spans(self.t@, now, j) by {
                assert(spans(self.t@, w, j));
                low_facts(j as u64);
                between_update(w, x as int, now[x as int], j - low(j as u64), j);
            }
        }
        while i < self.t.len()
            invariant
                self.t@.len() == n + 1,
                n == w.len(),
                n < 0x2000_0000_0000_0000,
                x < n,
                now == w.update(x as int, (w[x as int] + d) as i64),
                now[x as int] == w[x as int] + d,
                spans_fit(now, x as int),
                n < usize::MAX,
                x < i <= n + 1,
                i <= n ==> i - low(i as u64) <= x,
                forall|j: int| 1 <= j < i && j <= n ==> #[trigger] spans(self.t@, now, j),
                forall|j: int| i <= j <= n ==> #[trigger] spans(self.t@, w, j),
            decreases self.t@.len() - i,
        {
            let ghost t0 = self.t@;
            let ghost from = i as int;
            proof {
                let c = i as u64;
                low_facts(c);
                assert(spans(self.t@, w, i as int));
                between_update(w, x as int, now[x as int], i - low(c), i as int);
                assert(held(span(now, i as int)));
            }
            let s: i64 = self.t[i] + d as i64;
            self.t.set(i, s);
            let step: usize = low_bit(i);
            i = if step <= n - i {
                i + step
            } else {
                n + 1
            };
            proof {
                assert(spans(self.t@, now, from));
                assert forall|j: int| 1 <= j < i && j <= n implies #[trigger] spans(
                    self.t@,
                    now,
                    j,
                ) by {
                    if j < from {
                        assert(spans(t0, now, j));
                    } else if j > from {
                        assert(spans(t0, w, j));
                        between_reaches_short(from as u64, j as u64);
                        low_facts(j as u64);
                        between_update(w, x as int, now[x as int], j - low(j as u64), j);
                    }
                }
                assert forall|j: int| i <= j <= n implies #[trigger] spans(self.t@, w, j) by {
                    assert(spans(t0, w, j));
                }
            }
        }
        self.held = Ghost(now);
    }

    /// The sum of the values up to a place.
    pub fn get(&self, x: usize) -> (r: i64)
        requires
            self.wf(),
            x < self@.len(),
            running_fits(self@, x + 1, x + 1),
        ensures
            r == sum(self@.take(x + 1)),
    {
        let ghost w = self@;
        let _n: usize = self.t.len();
        let mut r: i64 = 0;
        let mut i: usize = x + 1;
        assert(w.subrange(x + 1, x + 1) =~= Seq::empty());
        while i > 0
            invariant
                self.wf(),
                w == self@,
                x < w.len(),
                i <= x + 1,
                running_fits(w, i as int, x + 1),
                r == between(w, i as int, x + 1),
            decreases i,
        {
            proof {
                low_facts(i as u64);
                assert(spans(self.t@, w, i as int));
                between_joins(w, i - low(i as u64), i as int, x + 1);
            }
            r = r + self.t[i];
            i = i - low_bit(i);
        }
        assert(w.subrange(0, x + 1) =~= w.take(x + 1));
        r
    }
}

/// Whether trees follow one another by a run of additions.
pub open spec fn grows(states: Seq<Fenwick>, run: Seq<(usize, i32)>) -> bool {
    &&& states.len() == run.len() + 1
    &&& forall|i: int|
        0 <= i < run.len() ==> states[i + 1].grew(
            states[i],
            (#[trigger] run[i]).0 as int,
            run[i].1 as int,
        )
}

/// What a run of additions adds at or before a place.
pub open spec fn added_upto(run: Seq<(usize, i32)>, x: int) -> int
    decreases run.len(),
{
    if run.len() == 0 {
        0
    } else {
        added_upto(run.drop_last(), x) + if run.last().0 <= x {
            run.last().1 as int
        } else {
            0int
        }
    }
}

/// After any run of additions a prefix sums to what it did at first and all that was added at
/// or before its end.
pub proof fn additions_add_up(states: Seq<Fenwick>, run: Seq<(usize, i32)>, x: int)
    requires
        grows(states, run),
        0 <= x < states[0]@.len(),
    ensures
        states.last()@.len() == states[0]@.len(),
        sum(states.last()@.take(x + 1)) == sum(states[0]@.take(x + 1)) + added_upto(run, x),
    decreases run.len(),
{
    if run.len() > 0 {
        let n = run.len() - 1;
        let (st, rn) = (states.drop_last(), run.drop_last());
        assert forall|i: int| 0 <= i < rn.len() implies st[i + 1].grew(
            st[i],
            (#[trigger] rn[i]).0 as int,
            rn[i].1 as int,
        ) by {
            assert(rn[i] == run[i] && st[i] == states[i] && st[i + 1] == states[i + 1]);
        }
        additions_add_up(st, rn, x);
        let (a, b) = (states[n], states[n + 1]);
        assert(st.last() == a);
        let at = run[n].0 as int;
        assert(b.grew(a, at, run[n].1 as int));
        if at <= x {
            assert(b@.take(x + 1) =~= a@.take(x + 1).update(at, b@[at]));
            sum_update(a@.take(x + 1), at, b@[at]);
        } else {
            assert(b@.take(x + 1) =~= a@.take(x + 1));
        }
    }
}

/// Whether the successor of one index is another.
spec fn leads(c: int, j: int) -> bool {
    0 < c && c + low(c as u64) == j
}

/// Whether a partly built index has its own value and the sum of its span up to a place.
spec fn built(v: i64, w: Seq<i64>, j: int, done: int) -> bool {
    &&& j - low(j as u64) <= done < j
    &&& v == w[j - 1] + between(w, j - low(j as u64), done)
}

/// Whether all indices below `i` that lead to `j` have been added to it.
spec fn ready(done: int, j: int, i: int) -> bool {
    &&& done < i || done == j - low(j as u64)
    &&& done == j - low(j as u64) || leads(done, j)
    &&& forall|c: int| done < c < i ==> !#[trigger] leads(c, j)
}

/// What was added last to the successor of an index ends where the span of the index
/// begins.
proof fn follows(x: u64, done: int)
    requires
        0 < x < 0x2000_0000_0000_0000,
        ({
            let p = x + low(x);
            &&& p - low(p as u64) <= done < p
            &&& ready(done, p, x as int)
        }),
    ensures
        done == x - low(x),
{
    low_facts(x);
    neighbours(x);
    let p = x + low(x);
    let a = x - low(x);
    if done < a {
        assert(leads(a, p));
    } else if done > a {
        if done == p - low(p as u64) {
            assert(low(p as u64) >= 2 * low(x));
        } else {
            assert(leads(done, p));
            assert(done < x);
            inside_leads_here(x, done as u64);
        }
    }
}

/// The span of an index lies in that of its successor.
proof fn inside_span(x: u64)
    requires
        0 < x < 0x2000_0000_0000_0000,
    ensures
        x > (x + low(x)) - low((x + low(x)) as u64),
{
    low_facts(x);
}

} // verus!
