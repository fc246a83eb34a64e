//! Reservations against a limited stock: one global count, or quotas that shards spend
//! on their own and restock from a coordinator.
use vstd::prelude::*;
use vstd::string::StringExecFns;

verus! {

#[derive(Clone, Copy, Debug, PartialEq, Eq, Structural)]
pub enum Reserve {
    Reserved,
    SoldOut,
}

/// One step on a count: what is left after one unit was taken, if there was one.
pub fn claim(left: i64) -> (r: Option<i64>)
    ensures
        r == if left <= 0 {
            None
        } else {
            Some((left - 1) as i64)
        },
{
    if left <= 0 {
        None
    } else {
        Some(left - 1)
    }
}

/// How much of what is wanted a count can give.
pub open spec fn granted(left: int, want: int) -> int {
    if left <= 0 {
        0
    } else if want < left {
        want
    } else {
        left
    }
}

pub fn grant(left: i64, want: i64) -> (give: i64)
    ensures
        give == granted(left as int, want as int),
{
    if left <= 0 {
        0
    } else if want < left {
        want
    } else {
        left
    }
}

/// One count for everybody.
pub struct GlobalStock {
    pub left: i64,
}

impl GlobalStock {
    pub fn new(n: i64) -> (s: Self)
        ensures
            s.left == n,
    {
        GlobalStock { left: n }
    }

    pub fn reserve(&mut self) -> (r: Reserve)
        ensures
            r is SoldOut <==> old(self).left <= 0,
            r is Reserved ==> final(self).left == old(self).left - 1,
            r is SoldOut ==> final(self).left == old(self).left,
    {
        match claim(self.left) {
            None => Reserve::SoldOut,
            Some(left) => {
                self.left = left;
                Reserve::Reserved
            },
        }
    }

    pub fn remaining(&self) -> (n: i64)
        ensures
            n == self.left,
    {
        self.left
    }
}

/// The stock that no shard has yet.
pub struct Coordinator {
    pub remaining: i64,
}

impl Coordinator {
    pub fn new(n: i64) -> (c: Self)
        ensures
            c.remaining == n,
    {
        Coordinator { remaining: n }
    }

    /// Gives as much of what is wanted as there is.
    pub fn take(&mut self, want: i64) -> (give: i64)
        requires
            want >= 0,
        ensures
            give == granted(old(self).remaining as int, want as int),
            final(self).remaining == old(self).remaining - give,
            give >= 0,
    {
        let give: i64 = grant(self.remaining, want);
        self.remaining = self.remaining - give;
        give
    }
}

/// Rights that one shard may spend without asking.
pub struct Shard {
    pub local: i64,
    pub restock: i64,
}

impl Shard {
    pub open spec fn wf(&self) -> bool {
        self.local >= 0
    }

    /// How much the shard gets from a coordinator with so much left, before it spends.
    pub open spec fn topped_up(&self, left: int) -> int {
        if self.local > 0 {
            0
        } else {
            granted(
                left,
                if self.restock > 1 {
                    self.restock as int
                } else {
                    1
                },
            )
        }
    }

    /// Spends a local right, after asking for more if there is none. That all is sold is
    /// only said when the coordinator has nothing either.
    pub fn reserve(&mut self, coord: &mut Coordinator) -> (r: Reserve)
        requires
            old(self).wf(),
            old(coord).remaining >= 0,
        ensures
            final(self).wf(),
            final(self).restock == old(self).restock,
            final(coord).remaining == old(coord).remaining - old(self).topped_up(
                old(coord).remaining as int,
            ),
            final(coord).remaining >= 0,
            r is SoldOut <==> old(self).local == 0 && old(coord).remaining == 0,
            final(self).local == old(self).local + old(self).topped_up(
                old(coord).remaining as int,
            ) - if r is Reserved {
                1int
            } else {
                0int
            },
    {
        if self.local <= 0 && self.restock > 0 {
            self.local = coord.take(self.restock);
        }
        if self.local <= 0 {
            if coord.remaining <= 0 {
                return Reserve::SoldOut;
            }
            let want: i64 = if self.restock > 1 {
                self.restock
            } else {
                1
            };
            self.local = coord.take(want);
            if self.local <= 0 {
                return Reserve::SoldOut;
            }
        }
        self.local = self.local - 1;
        Reserve::Reserved
    }
}

/// What all shards hold together.
pub open spec fn held(shards: Seq<Shard>) -> int
    decreases shards.len(),
{
    if shards.len() == 0 {
        0
    } else {
        held(shards.drop_last()) + shards.last().local
    }
}

proof fn held_push(shards: Seq<Shard>, s: Shard)
    ensures
        held(shards.push(s)) == held(shards) + s.local,
{
    assert(shards.push(s).drop_last() =~= shards);
}

proof fn held_update(shards: Seq<Shard>, i: int, s: Shard)
    requires
        0 <= i < shards.len(),
    ensures
        held(shards.update(i, s)) == held(shards) - shards[i].local + s.local,
    decreases shards.len(),
{
    let n = shards.len() - 1;
    if i == n {
        assert(shards.update(i, s).drop_last() =~= shards.drop_last());
    } else {
        held_update(shards.drop_last(), i, s);
        assert(shards.update(i, s).drop_last() =~= shards.drop_last().update(i, s));
    }
}

proof fn held_bound(shards: Seq<Shard>, i: int)
    requires
        forall|j: int| 0 <= j < shards.len() ==> (#[trigger] shards[j]).wf(),
        0 <= i <= shards.len(),
    ensures
        0 <= held(shards.take(i)) <= held(shards),
    decreases shards.len(),
{
    if shards.len() > 0 {
        let init = shards.drop_last();
        assert(shards[shards.len() - 1].wf());
        assert forall|j: int| 0 <= j < init.len() implies (#[trigger] init[j]).wf() by {
            assert(init[j] == shards[j]);
        }
        if i < shards.len() {
            held_bound(init, i);
            assert(init.take(i) =~= shards.take(i));
        } else {
            held_bound(init, init.len() as int);
            assert(init.take(init.len() as int) =~= init);
            assert(shards.take(i) =~= shards);
        }
    }
}

/// What a shard has at the start: an even share, the last one what is left over; one unit each
/// as far as the stock reaches, where there are more shards than units.
pub open spec fn first_share(stock: int, n_shards: int, i: int) -> int {
    if stock < n_shards {
        if i < stock {
            1
        } else {
            0
        }
    } else if i < n_shards - 1 {
        stock / n_shards
    } else {
        stock - stock / n_shards * (n_shards - 1)
    }
}

pub struct QuotaSystem {
    pub coord: Coordinator,
    pub shards: Vec<Shard>,
}

impl QuotaSystem {
    pub open spec fn wf(&self) -> bool {
        &&& self.coord.remaining >= 0
        &&& forall|i: int| 0 <= i < self.shards@.len() ==> (#[trigger] self.shards@[i]).wf()
        &&& self.total() <= i64::MAX
    }

    /// All units that are not sold.
    pub open spec fn total(&self) -> int {
        self.coord.remaining + held(self.shards@)
    }

    /// Splits the stock over the shards; the last one takes what is left.
    pub fn new(stock: i64, n_shards: usize, restock: i64) -> (q: Self)
        requires
            stock >= 0,
            0 < n_shards <= i64::MAX,
        ensures
            q.wf(),
            q.shards@.len() == n_shards,
            q.coord.remaining == 0,
            q.total() == stock,
            forall|i: int| 0 <= i < n_shards ==> (#[trigger] q.shards@[i]).restock == restock,
            forall|i: int|
                0 <= i < n_shards ==> (#[trigger] q.shards@[i]).local == first_share(
                    stock as int,
                    n_shards as int,
                    i,
                ),
    {
        let share: i64 = stock / n_shards as i64;
        let per: i64 = if share < 1 {
            1
        } else {
            share
        };
        let mut left: i64 = stock;
        let mut shards: Vec<Shard> = Vec::new();
        let mut i: usize = 0;
        proof {
            let (s, n) = (stock as int, n_shards as int);
            assert(s < n ==> s / n == 0) by (nonlinear_arith)
                requires
                    s >= 0,
                    n > 0,
            ;
            assert(s / n * n <= s) by (nonlinear_arith)
                requires
                    s >= 0,
                    n > 0,
            ;
            assert(s >= n ==> s / n >= 1) by (nonlinear_arith)
                requires
                    n > 0,
            ;
        }
        while i < n_shards
            invariant
                stock >= 0,
                0 < n_shards <= i64::MAX,
                per >= 1,
                stock < n_shards ==> per == 1,
                stock >= n_shards ==> per == stock as int / n_shards as int && per * n_shards <= stock,
                i <= n_shards,
                shards@.len() == i,
                left >= 0,
                left + held(shards@) == stock,
                i == n_shards ==> left == 0,
                stock >= n_shards && i < n_shards ==> left == stock - per * i,
                stock < n_shards ==> left == if i < stock {
                    stock - i
                } else {
                    0
                },
                forall|j: int| 0 <= j < i ==> (#[trigger] shards@[j]).wf(),
                forall|j: int| 0 <= j < i ==> (#[trigger] shards@[j]).restock == restock,
                forall|j: int|
                    0 <= j < i ==> (#[trigger] shards@[j]).local == first_share(
                        stock as int,
                        n_shards as int,
                        j,
                    ),
            decreases n_shards - i,
        {
            proof {
                let (p, k, n) = (per as int, i as int, n_shards as int);
                assert(p * (k + 1) == p * k + p) by (nonlinear_arith);
                assert(k + 1 <= n ==> p * (k + 1) <= p * n) by (nonlinear_arith)
                    requires
                        p >= 1,
                ;
            }
            let give: i64 = if i == n_shards - 1 {
                left
            } else if per < left {
                per
            } else {
                left
            };
            left = left - give;
            let shard = Shard { local: give, restock };
            proof {
                held_push(shards@, shard);
            }
            shards.push(shard);
            i = i + 1;
        }
        QuotaSystem { coord: Coordinator::new(left), shards }
    }

    /// What one reservation at a shard does: the shard is topped up by the coordinator if it
    /// has nothing, and spends a unit unless there is none at either.
    pub open spec fn served(&self, before: QuotaSystem, shard: int, r: Reserve) -> bool {
        let was = before.shards@[shard];
        let moved = was.topped_up(before.coord.remaining as int);
        &&& self.shards@.len() == before.shards@.len()
        &&& r is SoldOut <==> before.coord.remaining == 0 && was.local == 0
        &&& self.coord.remaining == before.coord.remaining - moved
        &&& self.shards@[shard].restock == was.restock
        &&& self.shards@[shard].local == was.local + moved - if r is Reserved {
            1int
        } else {
            0int
        }
        &&& forall|i: int|
            0 <= i < before.shards@.len() && i != shard ==> #[trigger] self.shards@[i]
                == before.shards@[i]
    }

    /// One reservation at a shard.
    pub fn reserve(&mut self, shard: usize) -> (r: Reserve)
        requires
            old(self).wf(),
            shard < old(self).shards@.len(),
        ensures
            final(self).wf(),
            final(self).served(*old(self), shard as int, r),
            final(self).total() == old(self).total() - if r is Reserved {
                1int
            } else {
                0int
            },
    {
        let ghost before = self.shards@;
        let ghost had = self.coord.remaining;
        let mut s = Shard { local: self.shards[shard].local, restock: self.shards[shard].restock };
        assert(before[shard as int].wf());
        assert(s == before[shard as int]);
        let r = s.reserve(&mut self.coord);
        proof {
            held_update(before, shard as int, s);
        }
        self.shards.set(shard, s);
        assert(self.shards@ == before.update(shard as int, s));
        r
    }

    pub fn remaining_total(&self) -> (t: i64)
        requires
            self.wf(),
        ensures
            t == self.total(),
    {
        let mut t: i64 = self.coord.remaining;
        let mut i: usize = 0;
        assert(self.shards@.take(0) =~= Seq::empty());
        while i < self.shards.len()
            invariant
                self.wf(),
                i <= self.shards@.len(),
                t == self.coord.remaining + held(self.shards@.take(i as int)),
            decreases self.shards@.len() - i,
        {
            proof {
                assert(self.shards@.take(i + 1) =~= self.shards@.take(i as int).push(
                    self.shards@[i as int],
                ));
                held_push(self.shards@.take(i as int), self.shards@[i as int]);
                held_bound(self.shards@, i + 1);
            }
            t = t + self.shards[i].local;
            i = i + 1;
        }
        assert(self.shards@.take(i as int) =~= self.shards@);
        t
    }
}

/// How many of a run of answers were reservations.
pub open spec fn sold(answers: Seq<Reserve>) -> int
    decreases answers.len(),
{
    if answers.len() == 0 {
        0
    } else {
        sold(answers.drop_last()) + if answers.last() is Reserved {
            1int
        } else {
            0int
        }
    }
}

/// Whether states follow one another by reservations at shards, with these answers.
pub open spec fn serves(
    states: Seq<QuotaSystem>,
    shards: Seq<int>,
    answers: Seq<Reserve>,
) -> bool {
    &&& states.len() == answers.len() + 1
    &&& shards.len() == answers.len()
    &&& forall|i: int|
        0 <= i < answers.len() ==> {
            &&& 0 <= #[trigger] shards[i] < states[i].shards@.len()
            &&& states[i + 1].served(states[i], shards[i], answers[i])
        }
}

/// Whatever the shards are asked in whatever order, no unit is sold twice and none is lost:
/// what was sold and what is left make up the stock. And each answer that all is sold was
/// given when neither that shard nor the coordinator had anything.
pub proof fn never_oversold(
    states: Seq<QuotaSystem>,
    shards: Seq<int>,
    answers: Seq<Reserve>,
)
    requires
        states[0].wf(),
        serves(states, shards, answers),
    ensures
        states.last().wf(),
        sold(answers) + states.last().total() == states[0].total(),
        sold(answers) <= states[0].total(),
        forall|i: int|
            0 <= i < answers.len() ==> (#[trigger] answers[i] is SoldOut <==> states[
                i
            ].coord.remaining == 0 && states[i].shards@[shards[i]].local == 0),
    decreases answers.len(),
{
    if answers.len() > 0 {
        let n = answers.len() - 1;
        let (st, sh, an) = (states.drop_last(), shards.drop_last(), answers.drop_last());
        assert forall|i: int| 0 <= i < an.len() implies {
            &&& 0 <= #[trigger] sh[i] < st[i].shards@.len()
            &&& st[i + 1].served(st[i], sh[i], an[i])
        } by {
            assert(sh[i] == shards[i] && st[i] == states[i] && st[i + 1] == states[i + 1]);
        }
        never_oversold(st, sh, an);
        let (a, b, k) = (states[n], states[n + 1], shards[n]);
        assert(st.last() == a);
        assert(b.served(a, k, answers[n]));
        let one = b.shards@[k];
        assert(b.shards@ =~= a.shards@.update(k, one));
        held_update(a.shards@, k, one);
        assert(a.shards@[k].wf());
        assert forall|i: int| 0 <= i < b.shards@.len() implies (#[trigger] b.shards@[i]).wf() by {
            assert(a.shards@[i].wf());
        }
        assert forall|i: int| 0 <= i < answers.len() implies (#[trigger] answers[i] is SoldOut <==>
            states[i].coord.remaining == 0 && states[i].shards@[shards[i]].local == 0) by {
            assert(states[i + 1].served(states[i], shards[i], answers[i]));
        }
    }
    held_bound(states.last().shards@, 0);
    assert(states.last().shards@.take(0) =~= Seq::empty());
}

/// Nothing is sold twice and no unit is lost: what was sold and what is left make up the
/// stock, for the global count and for the quotas.
pub fn correctness() -> (r: Result<(), String>)
    ensures
        r is Ok,
{
    let stock: i64 = 5_000;
    let mut global = GlobalStock::new(stock);
    let mut ok: i64 = 0;
    let mut i: i64 = 0;
    while i < stock + 200
        invariant
            stock == 5_000,
            0 <= i <= stock + 200,
            global.left + ok == stock,
            global.left >= 0,
            0 <= ok <= i,
            ok == if i <= stock {
                i
            } else {
                stock
            },
        decreases stock + 200 - i,
    {
        if global.reserve() == Reserve::Reserved {
            ok = ok + 1;
        }
        i = i + 1;
    }
    if ok != stock || global.remaining() != 0 {
        return Err(String::from_str("global oversell"));
    }
    let mut q = QuotaSystem::new(stock, 8, 16);
    let mut ok: i64 = 0;
    let mut turn: usize = 0;
    let mut open: bool = true;
    while open
        invariant
            stock == 5_000,
            q.wf(),
            q.shards@.len() == 8,
            turn < 8,
            0 <= ok,
            q.total() + ok == stock,
        decreases q.total() + if open { 1int } else { 0int },
    {
        proof {
            held_bound(q.shards@, 0);
        }
        if q.reserve(turn) == Reserve::Reserved {
            ok = ok + 1;
            turn = if turn == 7 {
                0
            } else {
                turn + 1
            };
        } else {
            open = false;
        }
        proof {
            held_bound(q.shards@, 0);
        }
    }
    if ok + q.remaining_total() != stock {
        return Err(String::from_str("quota lost units"));
    }
    Ok(())
}

} // verus!
