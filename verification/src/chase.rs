//! Dependent reads followed several at a time.
use vstd::prelude::*;
use vstd::string::StringExecFns;

use crate::random::{below, seeded, shuffle};

verus! {

/// Where `depth` links lead from a start.
pub open spec fn followed(links: Seq<u32>, start: u32, depth: nat) -> u32
    decreases depth,
{
    if depth == 0 {
        start
    } else {
        links[followed(links, start, (depth - 1) as nat) as int]
    }
}

/// Whether every link leads to another link.
pub open spec fn closed_links(links: Seq<u32>) -> bool {
    forall|i: int| 0 <= i < links.len() ==> #[trigger] links[i] < links.len()
}

proof fn followed_inside(links: Seq<u32>, start: u32, depth: nat)
    requires
        closed_links(links),
        start < links.len(),
    ensures
        followed(links, start, depth) < links.len(),
    decreases depth,
{
    if depth > 0 {
        followed_inside(links, start, (depth - 1) as nat);
    }
}

/// Follows up to `width` chains in step, so that their reads overlap. The ends do
/// not depend on the width.
pub fn follow(links: &[u32], starts: &[u32], depth: usize, width: usize, out: &mut Vec<u32>)
    requires
        width > 0,
        closed_links(links@),
        forall|i: int| 0 <= i < starts@.len() ==> #[trigger] starts@[i] < links@.len(),
        old(out)@.len() >= starts@.len(),
    ensures
        final(out)@.len() == old(out)@.len(),
        forall|i: int|
            0 <= i < starts@.len() ==> #[trigger] final(out)@[i] == followed(
                links@,
                starts@[i],
                depth as nat,
            ),
        forall|i: int|
            starts@.len() <= i < old(out)@.len() ==> #[trigger] final(out)@[i] == old(out)@[i],
{
    let ghost before = out@;
    let total: usize = starts.len();
    let mut i: usize = 0;
    while i < total
        invariant
            width > 0,
            closed_links(links@),
            forall|k: int| 0 <= k < starts@.len() ==> #[trigger] starts@[k] < links@.len(),
            total == starts@.len(),
            i <= total,
            out@.len() == before.len(),
            before.len() >= total,
            forall|k: int|
                0 <= k < i ==> #[trigger] out@[k] == followed(links@, starts@[k], depth as nat),
            forall|k: int| total <= k < before.len() ==> #[trigger] out@[k] == before[k],
        decreases total - i,
    {
        let w: usize = if width < total - i {
            width
        } else {
            total - i
        };
        let pos = follow_some(links, starts, depth, i, w);
        let mut k: usize = 0;
        while k < w
            invariant
                k <= w,
                i + w <= total,
                total == starts@.len(),
                out@.len() == before.len(),
                before.len() >= total,
                pos@.len() == w,
                forall|x: int|
                    0 <= x < w ==> #[trigger] pos@[x] == followed(
                        links@,
                        starts@[i + x],
                        depth as nat,
                    ),
                forall|x: int|
                    0 <= x < i + k ==> #[trigger] out@[x] == followed(
                        links@,
                        starts@[x],
                        depth as nat,
                    ),
                forall|x: int| total <= x < before.len() ==> #[trigger] out@[x] == before[x],
            decreases w - k,
        {
            assert(pos@[k as int] == followed(links@, starts@[i + k], depth as nat));
            out.set(i + k, pos[k]);
            k = k + 1;
        }
        i = i + w;
    }
}

/// One group of chains.
fn follow_some(links: &[u32], starts: &[u32], depth: usize, from: usize, w: usize) -> (pos: Vec<
    u32,
>)
    requires
        closed_links(links@),
        from + w <= starts@.len(),
        forall|k: int| 0 <= k < starts@.len() ==> #[trigger] starts@[k] < links@.len(),
    ensures
        pos@.len() == w,
        forall|x: int|
            0 <= x < w ==> #[trigger] pos@[x] == followed(links@, starts@[from + x], depth as nat),
{
    let size: usize = starts.len();
    let mut pos: Vec<u32> = Vec::new();
    let mut k: usize = 0;
    while k < w
        invariant
            k <= w,
            from + w <= size,
            size == starts@.len(),
            pos@.len() == k,
            forall|x: int| 0 <= x < k ==> #[trigger] pos@[x] == starts@[from + x],
        decreases w - k,
    {
        pos.push(starts[from + k]);
        k = k + 1;
    }
    let mut d: usize = 0;
    proof {
        assert forall|x: int| 0 <= x < w implies #[trigger] pos@[x] == followed(
            links@,
            starts@[from + x],
            0,
        ) by {}
    }
    while d < depth
        invariant
            d <= depth,
            from + w <= starts@.len(),
            closed_links(links@),
            forall|k: int| 0 <= k < starts@.len() ==> #[trigger] starts@[k] < links@.len(),
            pos@.len() == w,
            forall|x: int|
                0 <= x < w ==> #[trigger] pos@[x] == followed(links@, starts@[from + x], d as nat),
        decreases depth - d,
    {
        let mut k: usize = 0;
        while k < w
            invariant
                k <= w,
                from + w <= starts@.len(),
                closed_links(links@),
                forall|j: int| 0 <= j < starts@.len() ==> #[trigger] starts@[j] < links@.len(),
                pos@.len() == w,
                forall|x: int|
                    0 <= x < w ==> #[trigger] pos@[x] == followed(
                        links@,
                        starts@[from + x],
                        if x < k {
                            (d + 1) as nat
                        } else {
                            d as nat
                        },
                    ),
            decreases w - k,
        {
            proof {
                assert(pos@[k as int] == followed(links@, starts@[from + k], d as nat));
                followed_inside(links@, starts@[from + k], d as nat);
            }
            let p: u32 = links[pos[k] as usize];
            pos.set(k, p);
            k = k + 1;
        }
        d = d + 1;
    }
    pos
}

/// The wrapping sum of all ends.
pub open spec fn end_sum(out: Seq<u32>) -> u64
    decreases out.len(),
{
    if out.len() == 0 {
        0
    } else {
        end_sum(out.drop_last()).wrapping_add(out.last() as u64)
    }
}

pub fn xor_out(out: &[u32]) -> (r: u64)
    ensures
        r == end_sum(out@),
{
    let mut r: u64 = 0;
    let mut i: usize = 0;
    assert(out@.take(0) =~= Seq::empty());
    while i < out.len()
        invariant
            i <= out@.len(),
            r == end_sum(out@.take(i as int)),
        decreases out@.len() - i,
    {
        assert(out@.take(i + 1).drop_last() =~= out@.take(i as int));
        r = r.wrapping_add(out[i] as u64);
        i = i + 1;
    }
    assert(out@.take(i as int) =~= out@);
    r
}

/// Shuffled links stay links.
proof fn shuffled_closed(a: Seq<u32>, b: Seq<u32>)
    requires
        closed_links(a),
        a.to_multiset() == b.to_multiset(),
    ensures
        closed_links(b),
        b.len() == a.len(),
{
    a.to_multiset_ensures();
    b.to_multiset_ensures();
    assert forall|i: int| 0 <= i < b.len() implies #[trigger] b[i] < b.len() by {
        assert(b.contains(b[i]));
        assert(b.to_multiset().count(b[i]) > 0);
        assert(a.contains(b[i]));
    }
}

/// A random permutation of the first `n` numbers.
pub fn gen_links(n: u32, seed: u64) -> (links: Vec<u32>)
    ensures
        links@.len() == n,
        closed_links(links@),
        links@.no_duplicates(),
{
    let mut rng = seeded(seed);
    let mut links: Vec<u32> = Vec::new();
    let mut i: u32 = 0;
    while i < n
        invariant
            i <= n,
            links@.len() == i,
            forall|k: int| 0 <= k < i ==> #[trigger] links@[k] == k,
        decreases n - i,
    {
        links.push(i);
        i = i + 1;
    }
    let ghost before = links@;
    shuffle(&mut rng, &mut links);
    proof {
        shuffled_closed(before, links@);
        before.lemma_multiset_has_no_duplicates();
        links@.lemma_multiset_has_no_duplicates_conv();
    }
    links
}

/// Random starts below `n`.
pub fn gen_starts(n: u32, count: usize, seed: u64) -> (starts: Vec<u32>)
    requires
        n > 0,
    ensures
        starts@.len() == count,
        forall|i: int| 0 <= i < count ==> #[trigger] starts@[i] < n,
{
    let mut rng = seeded(seed);
    let mut starts: Vec<u32> = Vec::new();
    let mut i: usize = 0;
    while i < count
        invariant
            n > 0,
            i <= count,
            starts@.len() == i,
            forall|k: int| 0 <= k < i ==> #[trigger] starts@[k] < n,
        decreases count - i,
    {
        starts.push(below(&mut rng, n as u64) as u32);
        i = i + 1;
    }
    starts
}

fn zeros(n: usize) -> (v: Vec<u32>)
    ensures
        v@.len() == n,
{
    let mut v: Vec<u32> = Vec::new();
    let mut i: usize = 0;
    while i < n
        invariant
            i <= n,
            v@.len() == i,
        decreases n - i,
    {
        v.push(0);
        i = i + 1;
    }
    v
}

fn equal(a: &Vec<u32>, b: &Vec<u32>) -> (r: bool)
    ensures
        r == (a@ == b@),
{
    if a.len() != b.len() {
        return false;
    }
    let mut i: usize = 0;
    while i < a.len()
        invariant
            i <= a@.len(),
            a@.len() == b@.len(),
            forall|k: int| 0 <= k < i ==> a@[k] == b@[k],
        decreases a@.len() - i,
    {
        if a[i] != b[i] {
            return false;
        }
        i = i + 1;
    }
    assert(a@ =~= b@);
    true
}

/// Chains followed several at a time end where they end one by one.
pub fn correctness() -> (r: Result<(), String>)
    ensures
        r is Ok,
{
    let n: u32 = 65_536;
    let links = gen_links(n, 3);
    let starts = gen_starts(n, 256, 4);
    let mut serial = zeros(256);
    follow(links.as_slice(), starts.as_slice(), 16, 1, &mut serial);
    let widths: Vec<usize> = vec![1, 4, 16, 32];
    let mut i: usize = 0;
    while i < widths.len()
        invariant
            widths@.len() == 4,
            forall|k: int| 0 <= k < 4 ==> #[trigger] widths@[k] > 0,
            i <= 4,
            closed_links(links@),
            links@.len() == n,
            starts@.len() == 256,
            forall|k: int| 0 <= k < 256 ==> #[trigger] starts@[k] < n,
            serial@.len() == 256,
            forall|k: int|
                0 <= k < 256 ==> #[trigger] serial@[k] == followed(links@, starts@[k], 16),
        decreases 4 - i,
    {
        let mut got = zeros(256);
        follow(links.as_slice(), starts.as_slice(), 16, widths[i], &mut got);
        assert(got@ =~= serial@);
        if !equal(&got, &serial) {
            return Err(String::from_str("chase width mismatch"));
        }
        i = i + 1;
    }
    Ok(())
}

} // verus!
