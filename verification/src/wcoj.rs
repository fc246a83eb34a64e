//! Triangles of a graph: by intersecting neighbour lists, and by closing two-hop paths
//! against a table of edges.
use std::collections::HashSet;
use vstd::prelude::*;
use vstd::slice::slice_subrange;
use vstd::string::StringExecFns;

use crate::certificate::{merge_intersect, shared, shared_is_intersection};
use crate::cliques::two_cliques_triangles;
use crate::numbers::{ascending, distinct, increasing, lower_bound, sort};
use crate::random::{below, seeded};

verus! {

/// The neighbours of every vertex, in order.
pub type Adj = Vec<Vec<u64>>;

/// Whether the lists are those of a graph without loops, each edge in both lists.
pub open spec fn graph(adj: Seq<Vec<u64>>) -> bool {
    &&& adj.len() <= 0x1_0000_0000
    &&& forall|u: int| 0 <= u < adj.len() ==> increasing((#[trigger] adj[u])@)
    &&& forall|u: int, i: int|
        0 <= u < adj.len() && 0 <= i < adj[u]@.len() ==> (#[trigger] adj[u]@[i]) < adj.len()
    &&& forall|u: int, v: int|
        0 <= u < adj.len() && 0 <= v < adj.len() ==> (joined(adj, u, v) <==> #[trigger] joined(
            adj,
            v,
            u,
        ))
}

/// Whether two vertices are neighbours.
pub open spec fn joined(adj: Seq<Vec<u64>>, u: int, v: int) -> bool {
    adj[u]@.contains(v as u64)
}

/// The larger vertices that two vertices have as neighbours in common.
pub open spec fn corners(adj: Seq<Vec<u64>>, u: int, v: int) -> Set<u64> {
    adj[u]@.to_set().intersect(adj[v]@.to_set()).filter(|w: u64| w > v)
}

/// The triangles with a smallest vertex `u` and a second one among the first `n`
/// neighbours of it.
pub open spec fn fan(adj: Seq<Vec<u64>>, u: int, n: int) -> nat
    decreases n,
{
    if n <= 0 {
        0
    } else {
        let v = adj[u]@[n - 1];
        fan(adj, u, n - 1) + if v > u {
            corners(adj, u, v as int).len()
        } else {
            0
        }
    }
}

/// The triangles whose smallest vertex is among the first `n`.
pub open spec fn triangles(adj: Seq<Vec<u64>>, n: int) -> nat
    decreases n,
{
    if n <= 0 {
        0
    } else {
        triangles(adj, n - 1) + fan(adj, n - 1, adj[n - 1]@.len() as int)
    }
}

/// The numbers of an ordered list behind a place are those above a bound.
proof fn upper_part(a: Seq<u64>, v: u64, p: int)
    requires
        increasing(a),
        0 <= p <= a.len(),
        forall|i: int| 0 <= i < p ==> a[i] <= v,
        forall|i: int| p <= i < a.len() ==> a[i] > v,
    ensures
        increasing(a.skip(p)),
        a.skip(p).to_set() == a.to_set().filter(|w: u64| w > v),
{
    let s = a.skip(p);
    assert forall|w: u64| s.to_set().contains(w) <==> a.to_set().filter(
        |w: u64| w > v,
    ).contains(w) by {
        if s.contains(w) {
            let i = choose|i: int| 0 <= i < s.len() && s[i] == w;
            assert(a[p + i] == w);
        }
        if a.contains(w) && w > v {
            let i = choose|i: int| 0 <= i < a.len() && a[i] == w;
            assert(i >= p);
            assert(s[i - p] == w);
        }
    }
    assert(s.to_set() =~= a.to_set().filter(|w: u64| w > v));
}

/// Corners counted by an intersection of the upper part of one list with the other.
proof fn corners_shared(adj: Seq<Vec<u64>>, u: int, v: int, p: int, x: int, y: int)
    requires
        graph(adj),
        0 <= u < adj.len(),
        0 <= v < adj.len(),
        (x == u && y == v) || (x == v && y == u),
        0 <= p <= adj[x]@.len(),
        forall|i: int| 0 <= i < p ==> adj[x]@[i] <= v,
        forall|i: int| p <= i < adj[x]@.len() ==> adj[x]@[i] > v,
    ensures
        shared(adj[x]@.skip(p), adj[y]@) == corners(adj, u, v).len(),
        shared(adj[x]@.skip(p), adj[y]@) <= adj[x]@.len(),
        increasing(adj[x]@.skip(p)),
{
    assert(increasing(adj[x]@) && increasing(adj[y]@));
    upper_part(adj[x]@, v as u64, p);
    shared_is_intersection(adj[x]@.skip(p), adj[y]@);
    assert(adj[x]@.skip(p).to_set().intersect(adj[y]@.to_set()) =~= corners(adj, u, v));
}

proof fn size_bound(a: Seq<u64>, n: int)
    requires
        increasing(a),
        n >= 0,
        forall|i: int| 0 <= i < a.len() ==> #[trigger] a[i] < n,
    ensures
        a.len() <= n,
{
    if a.len() > 0 {
        assert forall|i: int| 0 <= i < a.len() implies a[i] >= i by {
            rises(a, i);
        }
        assert(a[a.len() - 1] >= a.len() - 1);
    }
}

proof fn rises(a: Seq<u64>, i: int)
    requires
        increasing(a),
        0 <= i < a.len(),
    ensures
        a[i] >= i,
    decreases i,
{
    if i > 0 {
        rises(a, i - 1);
        assert(a[i - 1] < a[i]);
    }
}

proof fn fan_bound(adj: Seq<Vec<u64>>, u: int, n: int)
    requires
        graph(adj),
        0 <= u < adj.len(),
        0 <= n <= adj[u]@.len(),
    ensures
        fan(adj, u, n) <= n * adj.len(),
    decreases n,
{
    if n > 0 {
        fan_bound(adj, u, n - 1);
        let v = adj[u]@[n - 1] as int;
        assert(v < adj.len());
        let p = upper_place(adj[u]@, v as u64);
        corners_shared(adj, u, v, p, u, v);
        size_bound(adj[u]@, adj.len() as int);
        let (k, m) = (n - 1, adj.len() as int);
        assert((k + 1) * m == k * m + m) by (nonlinear_arith);
    }
}

/// Where the numbers above a bound begin.
proof fn upper_place(a: Seq<u64>, v: u64) -> (p: int)
    requires
        increasing(a),
    ensures
        0 <= p <= a.len(),
        forall|i: int| 0 <= i < p ==> a[i] <= v,
        forall|i: int| p <= i < a.len() ==> a[i] > v,
    decreases a.len(),
{
    if a.len() == 0 {
        0
    } else {
        let init = a.drop_last();
        let p = upper_place(init, v);
        assert forall|i: int| 0 <= i < init.len() implies init[i] == a[i] by {}
        if a.last() > v {
            assert forall|i: int| 0 <= i < p implies a[i] <= v by {
                assert(init[i] <= v);
            }
            assert forall|i: int| p <= i < a.len() implies a[i] > v by {
                if i < init.len() {
                    assert(init[i] > v);
                }
            }
            p
        } else {
            assert forall|i: int| 0 <= i < a.len() implies a[i] <= v by {
                if i < a.len() - 1 {
                    assert(a[i] < a[a.len() - 1]);
                }
            }
            a.len() as int
        }
    }
}

/// The triangles of fewer than a million vertices can be counted.
pub proof fn triangles_bound(adj: Seq<Vec<u64>>, n: int)
    requires
        graph(adj),
        adj.len() < 0x10_0000,
        0 <= n <= adj.len(),
    ensures
        triangles(adj, n) <= n * 0x100_0000_0000,
    decreases n,
{
    if n > 0 {
        triangles_bound(adj, n - 1);
        fan_bound(adj, n - 1, adj[n - 1]@.len() as int);
        size_bound(adj[n - 1]@, adj.len() as int);
        let (k, m) = (adj[n - 1]@.len() as int, adj.len() as int);
        assert(k * m <= 0x100_0000_0000) by (nonlinear_arith)
            requires
                0 <= k <= m,
                0 <= m <= 0x10_0000,
        ;
    }
}

/// Each triangle once, from its smallest vertex.
pub fn triangle_node_iter(adj: &Adj) -> (t: u64)
    requires
        graph(adj@),
        triangles(adj@, adj@.len() as int) <= u64::MAX,
    ensures
        t == triangles(adj@, adj@.len() as int),
{
    let mut t: u64 = 0;
    let mut u: usize = 0;
    while u < adj.len()
        invariant
            graph(adj@),
            triangles(adj@, adj@.len() as int) <= u64::MAX,
            u <= adj@.len(),
            t == triangles(adj@, u as int),
        decreases adj@.len() - u,
    {
        let mut n: usize = 0;
        let ghost start = t as int;
        proof {
            triangles_grow(adj@, u + 1, adj@.len() as int);
        }
        while n < adj[u].len()
            invariant
                graph(adj@),
                u < adj@.len(),
                n <= adj@[u as int]@.len(),
                start == triangles(adj@, u as int),
                start + fan(adj@, u as int, adj@[u as int]@.len() as int) <= u64::MAX,
                t == start + fan(adj@, u as int, n as int),
            decreases adj@[u as int]@.len() - n,
        {
            let v: u64 = adj[u][n];
            assert(adj@[u as int]@[n as int] < adj@.len());
            if v > u as u64 {
                assert(increasing(adj@[u as int]@) && increasing(adj@[v as int]@));
                assert(ascending(adj@[u as int]@));
                let p: usize = lower_bound(adj[u].as_slice(), v + 1);
                proof {
                    corners_shared(adj@, u as int, v as int, p as int, u as int, v as int);
                    fan_grows(adj@, u as int, n + 1, adj@[u as int]@.len() as int);
                    assert(adj@[u as int]@.subrange(p as int, adj@[u as int]@.len() as int)
                        =~= adj@[u as int]@.skip(p as int));
                }
                let nu = slice_subrange(adj[u].as_slice(), p, adj[u].len());
                let c: usize = merge_intersect(nu, adj[v as usize].as_slice());
                t = t + c as u64;
            }
            n = n + 1;
        }
        u = u + 1;
    }
    t
}

proof fn triangles_grow(adj: Seq<Vec<u64>>, a: int, b: int)
    requires
        0 <= a <= b,
    ensures
        triangles(adj, a) <= triangles(adj, b),
    decreases b,
{
    if a < b {
        triangles_grow(adj, a, b - 1);
    }
}

proof fn fan_grows(adj: Seq<Vec<u64>>, u: int, a: int, b: int)
    requires
        0 <= a <= b,
    ensures
        fan(adj, u, a) <= fan(adj, u, b),
    decreases b,
{
    if a < b {
        fan_grows(adj, u, a, b - 1);
    }
}

/// An edge as one number.
pub open spec fn packed(u: int, v: int) -> int {
    u * 0x1_0000_0000 + v
}

/// The two-hop paths upwards over the first `n` neighbours of a vertex.
pub open spec fn hops(adj: Seq<Vec<u64>>, u: int, n: int) -> nat
    decreases n,
{
    if n <= 0 {
        0
    } else {
        let v = adj[u]@[n - 1];
        hops(adj, u, n - 1) + if v > u {
            above(adj[v as int]@, v as int)
        } else {
            0
        }
    }
}

/// How many numbers of a list are above a bound.
pub open spec fn above(a: Seq<u64>, v: int) -> nat
    decreases a.len(),
{
    if a.len() == 0 {
        0
    } else {
        above(a.drop_last(), v) + if a.last() > v {
            1nat
        } else {
            0nat
        }
    }
}

pub open spec fn paths(adj: Seq<Vec<u64>>, n: int) -> nat
    decreases n,
{
    if n <= 0 {
        0
    } else {
        paths(adj, n - 1) + hops(adj, n - 1, adj[n - 1]@.len() as int)
    }
}

proof fn above_bound(a: Seq<u64>, v: int)
    ensures
        above(a, v) <= a.len(),
    decreases a.len(),
{
    if a.len() > 0 {
        above_bound(a.drop_last(), v);
    }
}

/// The paths of fewer than a million vertices can be counted.
pub proof fn paths_bound(adj: Seq<Vec<u64>>, n: int)
    requires
        graph(adj),
        adj.len() < 0x10_0000,
        0 <= n <= adj.len(),
    ensures
        paths(adj, n) <= n * 0x100_0000_0000,
    decreases n,
{
    if n > 0 {
        paths_bound(adj, n - 1);
        hops_bound(adj, n - 1, adj[n - 1]@.len() as int);
        size_bound(adj[n - 1]@, adj.len() as int);
        let (k, m) = (adj[n - 1]@.len() as int, adj.len() as int);
        assert(k * m <= 0x100_0000_0000) by (nonlinear_arith)
            requires
                0 <= k <= m,
                0 <= m <= 0x10_0000,
        ;
    }
}

proof fn hops_bound(adj: Seq<Vec<u64>>, u: int, n: int)
    requires
        graph(adj),
        0 <= u < adj.len(),
        0 <= n <= adj[u]@.len(),
    ensures
        hops(adj, u, n) <= n * adj.len(),
    decreases n,
{
    if n > 0 {
        hops_bound(adj, u, n - 1);
        let v = adj[u]@[n - 1] as int;
        assert(v < adj.len());
        above_bound(adj[v]@, v);
        assert(increasing(adj[v]@));
        size_bound(adj[v]@, adj.len() as int);
        let (k, m) = (n - 1, adj.len() as int);
        assert((k + 1) * m == k * m + m) by (nonlinear_arith);
    }
}

/// Whether a table holds the edges upwards of the first `u` vertices and of the first `n`
/// neighbours of the next one.
spec fn tabled(table: Set<u64>, adj: Seq<Vec<u64>>, u: int, n: int) -> bool {
    forall|x: int, i: int|
        0 <= x < adj.len() && 0 <= i < adj[x]@.len() && adj[x]@[i] > x && (x < u || (x == u && i
            < n)) ==> table.contains(packed(x, (#[trigger] adj[x]@[i]) as int) as u64)
}

/// Whether a table holds nothing else.
spec fn only_edges(table: Set<u64>, adj: Seq<Vec<u64>>) -> bool {
    forall|e: u64| #[trigger]
        table.contains(e) ==> exists|x: int, i: int|
            0 <= x < adj.len() && 0 <= i < adj[x]@.len() && e == packed(
                x,
                (#[trigger] adj[x]@[i]) as int,
            )
}

/// The edges upwards.
fn edge_table(adj: &Adj) -> (table: HashSet<u64>)
    requires
        graph(adj@),
    ensures
        tabled(table@, adj@, adj@.len() as int, 0),
        only_edges(table@, adj@),
{
    broadcast use vstd::std_specs::hash::group_hash_axioms;

    let mut table: HashSet<u64> = HashSet::new();
    let mut u: usize = 0;
    while u < adj.len()
        invariant
            graph(adj@),
            u <= adj@.len(),
            tabled(table@, adj@, u as int, 0),
            only_edges(table@, adj@),
        decreases adj@.len() - u,
    {
        let mut n: usize = 0;
        while n < adj[u].len()
            invariant
                graph(adj@),
                u < adj@.len(),
                n <= adj@[u as int]@.len(),
                tabled(table@, adj@, u as int, n as int),
                only_edges(table@, adj@),
            decreases adj@[u as int]@.len() - n,
        {
            let v: u64 = adj[u][n];
            assert(adj@[u as int]@[n as int] < adj@.len());
            if v > u as u64 {
                let ghost had = table@;
                let e: u64 = u as u64 * 0x1_0000_0000 + v;
                table.insert(e);
                proof {
                    assert(table@ == had.insert(e));
                    assert(e == packed(u as int, adj@[u as int]@[n as int] as int));
                    assert forall|x: int, i: int|
                        0 <= x < adj@.len() && 0 <= i < adj@[x]@.len() && adj@[x]@[i] > x && (x < u
                            || (x == u && i < n + 1)) implies table@.contains(
                        packed(x, (#[trigger] adj@[x]@[i]) as int) as u64,
                    ) by {
                        if x < u || i < n {
                            assert(had.contains(packed(x, adj@[x]@[i] as int) as u64));
                        }
                    }
                    assert forall|f: u64| #[trigger] table@.contains(f) implies exists|
                        x: int,
                        i: int,
                    |
                        0 <= x < adj@.len() && 0 <= i < adj@[x]@.len() && f == packed(
                            x,
                            (#[trigger] adj@[x]@[i]) as int,
                        ) by {
                        if f != e {
                            assert(had.contains(f));
                        }
                    }
                }
            }
            n = n + 1;
        }
        u = u + 1;
    }
    table
}

/// The table tells whether two vertices are neighbours.
proof fn table_decides(table: Set<u64>, adj: Seq<Vec<u64>>, u: int, w: int)
    requires
        graph(adj),
        tabled(table, adj, adj.len() as int, 0),
        only_edges(table, adj),
        0 <= u < w < adj.len(),
    ensures
        table.contains(packed(u, w) as u64) <==> joined(adj, u, w),
{
    if joined(adj, u, w) {
        let i = choose|i: int| 0 <= i < adj[u]@.len() && adj[u]@[i] == w as u64;
        assert(table.contains(packed(u, adj[u]@[i] as int) as u64));
    }
    if table.contains(packed(u, w) as u64) {
        let (x, i) = choose|x: int, i: int|
            0 <= x < adj.len() && 0 <= i < adj[x]@.len() && packed(u, w) as u64 == packed(
                x,
                (#[trigger] adj[x]@[i]) as int,
            );
        let y = adj[x]@[i] as int;
        assert(y < adj.len());
        assert(packed(u, w) == packed(x, y));
        assert(u == x && w == y);
        assert(adj[u]@.contains(w as u64));
    }
}

/// How many of the first `n` neighbours of `v` close a triangle with `u` upwards.
spec fn closed(adj: Seq<Vec<u64>>, u: int, v: int, n: int) -> nat
    decreases n,
{
    if n <= 0 {
        0
    } else {
        closed(adj, u, v, n - 1) + if adj[v]@[n - 1] > v && joined(adj, u, adj[v]@[n - 1] as int) {
            1nat
        } else {
            0nat
        }
    }
}

/// Those are the corners.
proof fn closed_corners(adj: Seq<Vec<u64>>, u: int, v: int)
    requires
        graph(adj),
        0 <= u < adj.len(),
        0 <= v < adj.len(),
    ensures
        closed(adj, u, v, adj[v]@.len() as int) == corners(adj, u, v).len(),
{
    assert(increasing(adj[v]@));
    let p = upper_place(adj[v]@, v as u64);
    corners_shared(adj, u, v, p, v, u);
    closed_none(adj, u, v, p);
    closed_shared(adj, u, v, p, adj[v]@.len() as int);
    assert(adj[v]@.subrange(p, adj[v]@.len() as int) =~= adj[v]@.skip(p));
}

proof fn closed_none(adj: Seq<Vec<u64>>, u: int, v: int, n: int)
    requires
        forall|i: int| 0 <= i < n ==> adj[v]@[i] <= v,
    ensures
        closed(adj, u, v, n) == 0,
    decreases n,
{
    if n > 0 {
        closed_none(adj, u, v, n - 1);
    }
}

proof fn closed_shared(adj: Seq<Vec<u64>>, u: int, v: int, p: int, n: int)
    requires
        0 <= p <= n <= adj[v]@.len(),
        forall|i: int| p <= i < n ==> adj[v]@[i] > v,
    ensures
        closed(adj, u, v, n) == closed(adj, u, v, p) + shared(adj[v]@.subrange(p, n), adj[u]@),
    decreases n - p,
{
    if p < n {
        closed_shared(adj, u, v, p, n - 1);
        assert(adj[v]@.subrange(p, n).drop_last() =~= adj[v]@.subrange(p, n - 1));
    } else {
        assert(adj[v]@.subrange(p, n) =~= Seq::empty());
    }
}

/// How many of the first `n` neighbours are larger.
proof fn above_step(a: Seq<u64>, v: int, i: int)
    requires
        0 <= i < a.len(),
    ensures
        above(a.take(i + 1), v) == above(a.take(i), v) + if a[i] > v {
            1nat
        } else {
            0nat
        },
{
    assert(a.take(i + 1).drop_last() =~= a.take(i));
}

/// The paths over one edge and those that close, for the neighbours of `v`.
fn close_paths(adj: &Adj, table: &HashSet<u64>, u: usize, v: usize) -> (r: (u64, u64))
    requires
        graph(adj@),
        tabled(table@, adj@, adj@.len() as int, 0),
        only_edges(table@, adj@),
        u < v < adj@.len(),
    ensures
        r.0 == corners(adj@, u as int, v as int).len(),
        r.1 == above(adj@[v as int]@, v as int),
{
    broadcast use vstd::std_specs::hash::group_hash_axioms;

    let mut t: u64 = 0;
    let mut inter: u64 = 0;
    let mut i: usize = 0;
    assert(adj@[v as int]@.take(0) =~= Seq::empty());
    proof {
        assert(increasing(adj@[v as int]@));
        size_bound(adj@[v as int]@, adj@.len() as int);
    }
    while i < adj[v].len()
        invariant
            graph(adj@),
            tabled(table@, adj@, adj@.len() as int, 0),
            only_edges(table@, adj@),
            u < v < adj@.len(),
            adj@[v as int]@.len() <= adj@.len(),
            i <= adj@[v as int]@.len(),
            t == closed(adj@, u as int, v as int, i as int),
            t <= i,
            inter == above(adj@[v as int]@.take(i as int), v as int),
            inter <= i,
        decreases adj@[v as int]@.len() - i,
    {
        let w: u64 = adj[v][i];
        proof {
            assert(adj@[v as int]@[i as int] < adj@.len());
            above_step(adj@[v as int]@, v as int, i as int);
        }
        if w > v as u64 {
            inter = inter + 1;
            proof {
                table_decides(table@, adj@, u as int, w as int);
            }
            let e: u64 = u as u64 * 0x1_0000_0000 + w;
            if table.contains(&e) {
                t = t + 1;
            }
        }
        i = i + 1;
    }
    proof {
        assert(adj@[v as int]@.take(i as int) =~= adj@[v as int]@);
        closed_corners(adj@, u as int, v as int);
    }
    (t, inter)
}

/// Closes every two-hop path upwards; also counts the paths.
pub fn triangle_hash_pairs(adj: &Adj) -> (r: (u64, u64))
    requires
        graph(adj@),
        paths(adj@, adj@.len() as int) <= u64::MAX,
    ensures
        r.0 == triangles(adj@, adj@.len() as int),
        r.1 == paths(adj@, adj@.len() as int),
{
    let table = edge_table(adj);
    let mut t: u64 = 0;
    let mut inter: u64 = 0;
    let mut u: usize = 0;
    while u < adj.len()
        invariant
            graph(adj@),
            paths(adj@, adj@.len() as int) <= u64::MAX,
            tabled(table@, adj@, adj@.len() as int, 0),
            only_edges(table@, adj@),
            u <= adj@.len(),
            t == triangles(adj@, u as int),
            inter == paths(adj@, u as int),
        decreases adj@.len() - u,
    {
        let mut n: usize = 0;
        let ghost (start, from) = (t as int, inter as int);
        proof {
            paths_grow(adj@, u + 1, adj@.len() as int);
            no_more_triangles_than_paths(adj@, u + 1);
        }
        while n < adj[u].len()
            invariant
                graph(adj@),
                tabled(table@, adj@, adj@.len() as int, 0),
                only_edges(table@, adj@),
                u < adj@.len(),
                n <= adj@[u as int]@.len(),
                start == triangles(adj@, u as int),
                from == paths(adj@, u as int),
                start + fan(adj@, u as int, adj@[u as int]@.len() as int) <= u64::MAX,
                from + hops(adj@, u as int, adj@[u as int]@.len() as int) <= u64::MAX,
                t == start + fan(adj@, u as int, n as int),
                inter == from + hops(adj@, u as int, n as int),
            decreases adj@[u as int]@.len() - n,
        {
            let v: u64 = adj[u][n];
            assert(adj@[u as int]@[n as int] < adj@.len());
            if v > u as u64 {
                let (c, p): (u64, u64) = close_paths(adj, &table, u, v as usize);
                proof {
                    fan_grows(adj@, u as int, n + 1, adj@[u as int]@.len() as int);
                    hops_grow(adj@, u as int, n + 1, adj@[u as int]@.len() as int);
                }
                t = t + c;
                inter = inter + p;
            }
            n = n + 1;
        }
        u = u + 1;
    }
    (t, inter)
}

proof fn paths_grow(adj: Seq<Vec<u64>>, a: int, b: int)
    requires
        0 <= a <= b,
    ensures
        paths(adj, a) <= paths(adj, b),
    decreases b,
{
    if a < b {
        paths_grow(adj, a, b - 1);
    }
}

/// No more triangles close than there are paths upwards.
pub proof fn no_more_triangles_than_paths(adj: Seq<Vec<u64>>, n: int)
    requires
        graph(adj),
        0 <= n <= adj.len(),
    ensures
        triangles(adj, n) <= paths(adj, n),
    decreases n,
{
    if n > 0 {
        no_more_triangles_than_paths(adj, n - 1);
        fan_below_hops(adj, n - 1, adj[n - 1]@.len() as int);
    }
}

proof fn fan_below_hops(adj: Seq<Vec<u64>>, u: int, n: int)
    requires
        graph(adj),
        0 <= u < adj.len(),
        0 <= n <= adj[u]@.len(),
    ensures
        fan(adj, u, n) <= hops(adj, u, n),
    decreases n,
{
    if n > 0 {
        fan_below_hops(adj, u, n - 1);
        assert(adj[u]@[n - 1] < adj.len());
        no_more_corners_than_paths(adj, u, adj[u]@[n - 1] as int);
    }
}

proof fn hops_grow(adj: Seq<Vec<u64>>, u: int, a: int, b: int)
    requires
        0 <= a <= b,
    ensures
        hops(adj, u, a) <= hops(adj, u, b),
    decreases b,
{
    if a < b {
        hops_grow(adj, u, a, b - 1);
    }
}

/// No more paths close over an edge than there are.
pub proof fn no_more_corners_than_paths(adj: Seq<Vec<u64>>, u: int, v: int)
    requires
        graph(adj),
        0 <= u < adj.len(),
        0 <= v < adj.len(),
    ensures
        corners(adj, u, v).len() <= above(adj[v]@, v),
{
    closed_corners(adj, u, v);
    closed_above(adj, u, v, adj[v]@.len() as int);
    assert(adj[v]@.take(adj[v]@.len() as int) =~= adj[v]@);
}

proof fn closed_above(adj: Seq<Vec<u64>>, u: int, v: int, n: int)
    requires
        0 <= n <= adj[v]@.len(),
    ensures
        closed(adj, u, v, n) <= above(adj[v]@.take(n), v),
    decreases n,
{
    if n > 0 {
        closed_above(adj, u, v, n - 1);
        above_step(adj[v]@, v, n - 1);
    }
}

/// Whether two vertices are the ends of one of the edges.
pub open spec fn linked(edges: Seq<(u32, u32)>, u: int, v: int) -> bool {
    u != v && (edges.contains((u as u32, v as u32)) || edges.contains((v as u32, u as u32)))
}

/// Whether lists are those of the graph with these edges.
pub open spec fn graph_of(adj: Seq<Vec<u64>>, n: int, edges: Seq<(u32, u32)>) -> bool {
    &&& adj.len() == n
    &&& graph(adj)
    &&& forall|u: int, v: int|
        0 <= u < n && 0 <= v < n ==> (#[trigger] joined(adj, u, v) <==> linked(edges, u, v))
}

/// Whether a list has the neighbours of a vertex over the first `i` edges, in any order.
spec fn gathered(list: Seq<u64>, edges: Seq<(u32, u32)>, i: int, n: int, u: int) -> bool {
    &&& forall|v: int|
        0 <= v < n ==> (#[trigger] list.contains(v as u64) <==> linked(edges.take(i), u, v))
    &&& forall|k: int| 0 <= k < list.len() ==> #[trigger] list[k] < n
}

proof fn linked_step(edges: Seq<(u32, u32)>, i: int, u: int, v: int)
    requires
        0 <= i < edges.len(),
    ensures
        linked(edges.take(i + 1), u, v) <==> linked(edges.take(i), u, v) || (u != v && (edges[i] == (
            u as u32,
            v as u32,
        ) || edges[i] == (v as u32, u as u32))),
{
    let (a, b) = (edges.take(i), edges.take(i + 1));
    assert(b =~= a.push(edges[i]));
    assert forall|e: (u32, u32)| b.contains(e) <==> a.contains(e) || e == edges[i] by {
        if a.contains(e) {
            let k = choose|k: int| 0 <= k < a.len() && a[k] == e;
            assert(b[k] == e);
        }
        if b.contains(e) {
            let k = choose|k: int| 0 <= k < b.len() && b[k] == e;
            if k < i {
                assert(a[k] == e);
            }
        }
        assert(b[i] == edges[i]);
    }
}

proof fn list_push(list: Seq<u64>, x: u64, v: u64)
    ensures
        list.push(x).contains(v) <==> list.contains(v) || v == x,
{
    if list.contains(v) {
        let k = choose|k: int| 0 <= k < list.len() && list[k] == v;
        assert(list.push(x)[k] == v);
    }
    if list.push(x).contains(v) {
        let k = choose|k: int| 0 <= k < list.push(x).len() && list.push(x)[k] == v;
        if k < list.len() {
            assert(list[k] == v);
        }
    }
    assert(list.push(x)[list.len() as int] == x);
}

/// Neighbour lists from edges; loops are left out, and an edge given twice counts once.
pub fn undirected_adj(n: usize, edges: &[(u32, u32)]) -> (adj: Adj)
    requires
        n <= 0x1_0000_0000,
        forall|i: int| 0 <= i < edges@.len() ==> (#[trigger] edges@[i]).0 < n && edges@[i].1 < n,
    ensures
        graph_of(adj@, n as int, edges@),
{
    let mut lists: Adj = Vec::new();
    let mut u: usize = 0;
    while u < n
        invariant
            u <= n,
            lists@.len() == u,
            forall|k: int| 0 <= k < u ==> (#[trigger] lists@[k])@.len() == 0,
        decreases n - u,
    {
        lists.push(Vec::new());
        u = u + 1;
    }
    let mut i: usize = 0;
    proof {
        assert forall|k: int| 0 <= k < n implies gathered(
            (#[trigger] lists@[k])@,
            edges@,
            0,
            n as int,
            k,
        ) by {
            assert(edges@.take(0) =~= Seq::empty());
        }
    }
    while i < edges.len()
        invariant
            n <= 0x1_0000_0000,
            forall|i: int|
                0 <= i < edges@.len() ==> (#[trigger] edges@[i]).0 < n && edges@[i].1 < n,
            i <= edges@.len(),
            lists@.len() == n,
            forall|k: int|
                0 <= k < n ==> gathered((#[trigger] lists@[k])@, edges@, i as int, n as int, k),
        decreases edges@.len() - i,
    {
        let (a, b): (u32, u32) = edges[i];
        assert(edges@[i as int].0 < n && edges@[i as int].1 < n);
        let ghost had = lists@;
        if a != b {
            lists[a as usize].push(b as u64);
            lists[b as usize].push(a as u64);
        }
        proof {
            assert forall|k: int| 0 <= k < n implies gathered(
                (#[trigger] lists@[k])@,
                edges@,
                i + 1,
                n as int,
                k,
            ) by {
                assert(gathered(had[k]@, edges@, i as int, n as int, k));
                assert forall|v: int| 0 <= v < n implies (#[trigger] lists@[k]@.contains(v as u64)
                    <==> linked(edges@.take(i + 1), k, v)) by {
                    linked_step(edges@, i as int, k, v);
                    assert(had[k]@.contains(v as u64) <==> linked(edges@.take(i as int), k, v));
                    list_push(had[k]@, b as u64, v as u64);
                    list_push(had[k]@, a as u64, v as u64);
                }
            }
        }
        i = i + 1;
    }
    assert(edges@.take(i as int) =~= edges@);
    let mut adj: Adj = Vec::new();
    let mut u: usize = 0;
    while u < n
        invariant
            n <= 0x1_0000_0000,
            u <= n,
            lists@.len() == n,
            forall|k: int|
                u <= k < n ==> gathered(
                    (#[trigger] lists@[k])@,
                    edges@,
                    edges@.len() as int,
                    n as int,
                    k,
                ),
            adj@.len() == u,
            forall|k: int|
                0 <= k < u ==> increasing((#[trigger] adj@[k])@) && gathered(
                    adj@[k]@,
                    edges@,
                    edges@.len() as int,
                    n as int,
                    k,
                ),
        decreases n - u,
    {
        let ghost had = lists@[u as int]@;
        assert(gathered(had, edges@, edges@.len() as int, n as int, u as int));
        let mut list: Vec<u64> = Vec::new();
        std::mem::swap(&mut list, &mut lists[u]);
        sort(&mut list);
        let neat = distinct(&list);
        proof {
            had.to_multiset_ensures();
            list@.to_multiset_ensures();
            assert forall|x: u64| had.contains(x) <==> list@.contains(x) by {
                assert(had.to_multiset().count(x) > 0 <==> list@.to_multiset().count(x) > 0);
            }
            assert forall|k: int| 0 <= k < neat@.len() implies #[trigger] neat@[k] < n by {
                assert(neat@.contains(neat@[k]));
                assert(list@.contains(neat@[k]));
                assert(had.contains(neat@[k]));
            }
            assert forall|v: int| 0 <= v < n implies (#[trigger] neat@.contains(v as u64)
                <==> linked(edges@.take(edges@.len() as int), u as int, v)) by {
                assert(had.contains(v as u64) <==> linked(
                    edges@.take(edges@.len() as int),
                    u as int,
                    v,
                ));
                assert(list@.contains(v as u64) <==> neat@.contains(v as u64));
            }
            assert(gathered(neat@, edges@, edges@.len() as int, n as int, u as int));
        }
        adj.push(neat);
        u = u + 1;
    }
    proof {
        assert forall|u: int, v: int| 0 <= u < n && 0 <= v < n implies (#[trigger] joined(
            adj@,
            u,
            v,
        ) <==> linked(edges@, u, v)) by {
            assert(edges@.take(edges@.len() as int) =~= edges@);
            assert(gathered(adj@[u]@, edges@, edges@.len() as int, n as int, u));
        }
        assert forall|u: int, i: int| 0 <= u < n && 0 <= i < adj@[u]@.len() implies (
        #[trigger] adj@[u]@[i]) < n by {
            assert(gathered(adj@[u]@, edges@, edges@.len() as int, n as int, u));
        }
        assert forall|u: int, v: int| 0 <= u < n && 0 <= v < n implies (joined(adj@, u, v)
            <==> #[trigger] joined(adj@, v, u)) by {
            assert(joined(adj@, u, v) <==> linked(edges@, u, v));
            assert(joined(adj@, v, u) <==> linked(edges@, v, u));
        }
    }
    adj
}

/// The edges of two cliques of `s` vertices, one behind the other.
pub fn two_cliques(s: usize) -> (edges: Vec<(u32, u32)>)
    requires
        s < 0x4000_0000,
    ensures
        forall|a: u32, b: u32|
            edges@.contains((a, b)) <==> (a < b && (b < s || (s <= a && b < 2 * s))),
        forall|i: int| 0 <= i < edges@.len() ==> (#[trigger] edges@[i]).0 < 2 * s && edges@[i].1 < 2 * s,
{
    let mut edges: Vec<(u32, u32)> = Vec::new();
    add_clique(&mut edges, 0, s as u32);
    let ghost first = edges@;
    add_clique(&mut edges, s as u32, s as u32);
    proof {
        assert forall|a: u32, b: u32|
            edges@.contains((a, b)) <==> (a < b && (b < s || (s <= a && b < 2 * s))) by {
            assert(first.contains((a, b)) <==> (0 <= a < b < s));
        }
        assert forall|i: int| 0 <= i < edges@.len() implies (#[trigger] edges@[i]).0 < 2 * s
            && edges@[i].1 < 2 * s by {
            assert(edges@.contains((edges@[i].0, edges@[i].1)));
        }
    }
    edges
}

/// Whether an edge is one of a clique, among those of the first `i` vertices and of the
/// next one up to `j`.
spec fn in_clique(base: int, s: int, i: int, j: int, a: int, b: int) -> bool {
    base <= a < b < base + s && (a < base + i || (a == base + i && b < base + j))
}

spec fn grown(
    edges: Seq<(u32, u32)>,
    before: Seq<(u32, u32)>,
    base: int,
    s: int,
    i: int,
    j: int,
) -> bool {
    forall|a: u32, b: u32| #[trigger]
        edges.contains((a, b)) <==> (before.contains((a, b)) || in_clique(
            base,
            s,
            i,
            j,
            a as int,
            b as int,
        ))
}

/// All edges among `s` vertices from `base` on.
fn add_clique(edges: &mut Vec<(u32, u32)>, base: u32, s: u32)
    requires
        base + s <= 0x8000_0000,
    ensures
        forall|a: u32, b: u32| #[trigger]
            final(edges)@.contains((a, b)) <==> (old(edges)@.contains((a, b)) || base <= a < b < base
                + s),
{
    let ghost before = edges@;
    let mut i: u32 = 0;
    while i < s
        invariant
            base + s <= 0x8000_0000,
            i <= s,
            grown(edges@, before, base as int, s as int, i as int, 0),
        decreases s - i,
    {
        let mut j: u32 = i + 1;
        while j < s
            invariant
                base + s <= 0x8000_0000,
                i < j <= s,
                grown(edges@, before, base as int, s as int, i as int, j as int),
            decreases s - j,
        {
            let ghost had = edges@;
            let x: (u32, u32) = (base + i, base + j);
            edges.push(x);
            proof {
                assert forall|a: u32, b: u32| #[trigger]
                    edges@.contains((a, b)) <==> (before.contains((a, b)) || in_clique(
                        base as int,
                        s as int,
                        i as int,
                        j + 1,
                        a as int,
                        b as int,
                    )) by {
                    pushed_pair(had, x, (a, b));
                    assert(had.contains((a, b)) <==> (before.contains((a, b)) || in_clique(
                        base as int,
                        s as int,
                        i as int,
                        j as int,
                        a as int,
                        b as int,
                    )));
                }
            }
            j = j + 1;
        }
        proof {
            assert forall|a: u32, b: u32| #[trigger]
                edges@.contains((a, b)) <==> (before.contains((a, b)) || in_clique(
                    base as int,
                    s as int,
                    i + 1,
                    0,
                    a as int,
                    b as int,
                )) by {
                assert(in_clique(base as int, s as int, i as int, j as int, a as int, b as int)
                    == in_clique(base as int, s as int, i + 1, 0, a as int, b as int));
            }
        }
        i = i + 1;
    }
}

proof fn pushed_pair(had: Seq<(u32, u32)>, x: (u32, u32), e: (u32, u32))
    ensures
        had.push(x).contains(e) <==> had.contains(e) || e == x,
{
    let now = had.push(x);
    if had.contains(e) {
        let k = choose|k: int| 0 <= k < had.len() && had[k] == e;
        assert(now[k] == e);
    }
    if now.contains(e) {
        let k = choose|k: int| 0 <= k < now.len() && now[k] == e;
        if k < had.len() {
            assert(had[k] == e);
        }
    }
    assert(now[had.len() as int] == x);
}

/// All edges between two sides of `d` vertices, and some random ones within the first.
pub fn dense_bipartite_plus(d: usize, extra: usize, seed: u64) -> (edges: Vec<(u32, u32)>)
    requires
        0 < d < 0x4000_0000,
    ensures
        forall|i: int| 0 <= i < edges@.len() ==> (#[trigger] edges@[i]).0 < d && edges@[i].1 < 2 * d,
        forall|i: int, j: int|
            0 <= i < d && 0 <= j < d ==> #[trigger] edges@.contains((i as u32, (d + j) as u32)),
        d * d <= edges@.len() <= d * d + extra,
        forall|k: int| 0 <= k < d * d ==> (#[trigger] edges@[k]).1 >= d,
        forall|k: int|
            d * d <= k < edges@.len() ==> (#[trigger] edges@[k]).1 < d && edges@[k].0
                != edges@[k].1,
{
    let mut edges: Vec<(u32, u32)> = Vec::new();
    let mut i: usize = 0;
    while i < d
        invariant
            0 < d < 0x4000_0000,
            i <= d,
            edges@.len() == i * d,
            forall|k: int| 0 <= k < edges@.len() ==> (#[trigger] edges@[k]).1 >= d,
            forall|k: int| 0 <= k < edges@.len() ==> (#[trigger] edges@[k]).0 < d && edges@[k].1 < 2 * d,
            forall|a: int, b: int|
                0 <= a < i && 0 <= b < d ==> #[trigger] edges@.contains((a as u32, (d + b) as u32)),
        decreases d - i,
    {
        let mut j: usize = 0;
        assert(i * d + 0 == i * d);
        while j < d
            invariant
                0 < d < 0x4000_0000,
                i < d,
                j <= d,
                edges@.len() == i * d + j,
                forall|k: int| 0 <= k < edges@.len() ==> (#[trigger] edges@[k]).1 >= d,
                forall|k: int|
                    0 <= k < edges@.len() ==> (#[trigger] edges@[k]).0 < d && edges@[k].1 < 2 * d,
                forall|a: int, b: int|
                    0 <= a < i && 0 <= b < d ==> #[trigger] edges@.contains(
                        (a as u32, (d + b) as u32),
                    ),
                forall|b: int|
                    0 <= b < j ==> #[trigger] edges@.contains((i as u32, (d + b) as u32)),
            decreases d - j,
        {
            let ghost had = edges@;
            edges.push((i as u32, (d + j) as u32));
            proof {
                let x = (i as u32, (d + j) as u32);
                assert forall|a: int, b: int| 0 <= a < i && 0 <= b < d implies #[trigger] edges@.contains(
                    (a as u32, (d + b) as u32),
                ) by {
                    pushed_pair(had, x, (a as u32, (d + b) as u32));
                    assert(had.contains((a as u32, (d + b) as u32)));
                }
                assert forall|b: int| 0 <= b < j + 1 implies #[trigger] edges@.contains(
                    (i as u32, (d + b) as u32),
                ) by {
                    pushed_pair(had, x, (i as u32, (d + b) as u32));
                    if b < j {
                        assert(had.contains((i as u32, (d + b) as u32)));
                    }
                }
            }
            j = j + 1;
        }
        proof {
            assert(i * d + d == (i + 1) * d) by (nonlinear_arith);
        }
        i = i + 1;
    }
    let mut rng = seeded(seed);
    let mut n: usize = 0;
    while n < extra
        invariant
            0 < d < 0x4000_0000,
            n <= extra,
            d * d <= edges@.len() <= d * d + n,
            forall|k: int| 0 <= k < d * d ==> (#[trigger] edges@[k]).1 >= d,
            forall|k: int|
                d * d <= k < edges@.len() ==> (#[trigger] edges@[k]).1 < d && edges@[k].0
                    != edges@[k].1,
            forall|k: int| 0 <= k < edges@.len() ==> (#[trigger] edges@[k]).0 < d && edges@[k].1 < 2 * d,
            forall|a: int, b: int|
                0 <= a < d && 0 <= b < d ==> #[trigger] edges@.contains((a as u32, (d + b) as u32)),
        decreases extra - n,
    {
        let a: u32 = below(&mut rng, d as u64) as u32;
        let b: u32 = below(&mut rng, d as u64) as u32;
        if a != b {
            let ghost had = edges@;
            edges.push((a, b));
            proof {
                assert forall|x: int, y: int| 0 <= x < d && 0 <= y < d implies #[trigger] edges@.contains(
                    (x as u32, (d + y) as u32),
                ) by {
                    pushed_pair(had, (a, b), (x as u32, (d + y) as u32));
                    assert(had.contains((x as u32, (d + y) as u32)));
                }
            }
        }
        n = n + 1;
    }
    edges
}

/// Whether a pair comes before the pair of `i` and `j`.
spec fn earlier(a: u32, b: u32, n: int, i: int, j: int) -> bool {
    a < b < n && (a < i || (a == i && b < j))
}

/// Whether edges are pairs before the pair of `i` and `j`, in order.
spec fn drawn(edges: Seq<(u32, u32)>, n: int, i: int, j: int) -> bool {
    &&& forall|k: int|
        0 <= k < edges.len() ==> earlier((#[trigger] edges[k]).0, edges[k].1, n, i, j)
    &&& forall|k: int, l: int|
        0 <= k < l < edges.len() ==> (#[trigger] edges[k]).0 < (#[trigger] edges[l]).0
            || (edges[k].0 == edges[l].0 && edges[k].1 < edges[l].1)
}

spec fn all_drawn(edges: Seq<(u32, u32)>, n: int, i: int, j: int) -> bool {
    forall|a: u32, b: u32| earlier(a, b, n, i, j) ==> #[trigger] edges.contains((a, b))
}

/// Each pair of `n` vertices with a chance of so many in a million.
pub fn erdos_renyi(n: usize, per_million: u64, seed: u64) -> (edges: Vec<(u32, u32)>)
    requires
        n <= 0x1_0000_0000,
    ensures
        forall|i: int|
            0 <= i < edges@.len() ==> (#[trigger] edges@[i]).0 < edges@[i].1 && edges@[i].1 < n,
        edges@.no_duplicates(),
        per_million == 0 ==> edges@.len() == 0,
        per_million >= 1_000_000 ==> forall|a: u32, b: u32|
            a < b < n ==> #[trigger] edges@.contains((a, b)),
{
    let mut rng = seeded(seed);
    let mut edges: Vec<(u32, u32)> = Vec::new();
    let mut i: usize = 0;
    while i < n
        invariant
            i <= n <= 0x1_0000_0000,
            drawn(edges@, n as int, i as int, 0),
            per_million == 0 ==> edges@.len() == 0,
            per_million >= 1_000_000 ==> all_drawn(edges@, n as int, i as int, 0),
        decreases n - i,
    {
        let mut j: usize = i + 1;
        while j < n
            invariant
                i < j <= n <= 0x1_0000_0000,
                drawn(edges@, n as int, i as int, j as int),
                per_million == 0 ==> edges@.len() == 0,
                per_million >= 1_000_000 ==> all_drawn(edges@, n as int, i as int, j as int),
            decreases n - j,
        {
            let ghost had = edges@;
            let x: (u32, u32) = (i as u32, j as u32);
            if below(&mut rng, 1_000_000) < per_million {
                edges.push(x);
                proof {
                    assert forall|a: u32, b: u32|
                        per_million >= 1_000_000 && earlier(a, b, n as int, i as int, j + 1) implies
                        #[trigger] edges@.contains((a, b)) by {
                        pushed_pair(had, x, (a, b));
                        assert(earlier(a, b, n as int, i as int, j as int) ==> had.contains((a, b)));
                    }
                }
            }
            j = j + 1;
        }
        proof {
            assert forall|a: u32, b: u32|
                per_million >= 1_000_000 && earlier(a, b, n as int, i + 1, 0) implies
                #[trigger] edges@.contains((a, b)) by {
                assert(earlier(a, b, n as int, i as int, j as int));
            }
        }
        i = i + 1;
    }
    proof {
        assert forall|a: u32, b: u32| per_million >= 1_000_000 && a < b < n implies
            #[trigger] edges@.contains((a, b)) by {
            assert(earlier(a, b, n as int, i as int, 0));
        }
    }
    edges
}

/// Both counts agree; on two cliques of eight they are what two times eight over three
/// gives.
pub fn correctness() -> (r: Result<(), String>)
    ensures
        r is Ok,
{
    let edges = two_cliques(8);
    let adj = undirected_adj(16, edges.as_slice());
    proof {
        two_cliques_triangles(adj@, 8, edges@);
        triangles_bound(adj@, 16);
        paths_bound(adj@, 16);
    }
    let w: u64 = triangle_node_iter(&adj);
    if w != 2 * (8 * 7 * 6 / 6) {
        return Err(String::from_str("two cliques: unexpected count"));
    }
    let (b, _): (u64, u64) = triangle_hash_pairs(&adj);
    if b != w {
        return Err(String::from_str("binary count differs"));
    }
    let er = erdos_renyi(40, 200_000, 1);
    let sparse = undirected_adj(40, er.as_slice());
    proof {
        triangles_bound(sparse@, 40);
        paths_bound(sparse@, 40);
    }
    let w: u64 = triangle_node_iter(&sparse);
    let (b, _): (u64, u64) = triangle_hash_pairs(&sparse);
    if w != b {
        return Err(String::from_str("random graph counts differ"));
    }
    Ok(())
}

} // verus!
