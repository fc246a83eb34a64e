//! How many triangles a graph of two cliques has.
use vstd::prelude::*;

use crate::numbers::increasing;
use crate::wcoj::{corners, fan, graph_of, joined, linked, triangles};

verus! {

/// Whether edges are all those within the first `s` vertices and within the next `s`.
pub open spec fn two_full(edges: Seq<(u32, u32)>, s: int) -> bool {
    forall|a: u32, b: u32| #[trigger]
        edges.contains((a, b)) <==> (a < b && (b < s || (s <= a && b < 2 * s)))
}

/// The vertices from `lo` on and before `hi`.
spec fn span(lo: int, hi: int) -> Set<u64> {
    Set::new(|w: u64| lo <= w < hi)
}

proof fn span_size(lo: int, hi: int)
    requires
        0 <= lo <= hi <= u64::MAX,
    ensures
        span(lo, hi).finite(),
        span(lo, hi).len() == hi - lo,
    decreases hi - lo,
{
    if lo == hi {
        assert(span(lo, hi) =~= Set::empty());
    } else {
        span_size(lo, hi - 1);
        assert(span(lo, hi) =~= span(lo, hi - 1).insert((hi - 1) as u64));
    }
}

/// The `i`-th of the `s` vertices from `base` on, `u` left out.
spec fn other(base: int, u: int, i: int) -> int {
    if base + i < u {
        base + i
    } else {
        base + i + 1
    }
}

/// Whether a list has exactly the other vertices of a clique.
spec fn others(a: Seq<u64>, base: int, s: int, u: int) -> bool {
    &&& increasing(a)
    &&& 0 <= base <= u < base + s <= 0x1_0000_0000
    &&& forall|x: u64| #[trigger] a.contains(x) <==> (base <= x < base + s && x != u)
}

/// Such a list is in order without gaps.
proof fn list_of_others(a: Seq<u64>, base: int, s: int, u: int, n: int)
    requires
        others(a, base, s, u),
        0 <= n <= a.len(),
    ensures
        forall|i: int| 0 <= i < n ==> #[trigger] a[i] == other(base, u, i),
        n < s,
    decreases n,
{
    if n > 0 {
        list_of_others(a, base, s, u, n - 1);
        let i = n - 1;
        let x = a[i];
        assert(a.contains(x));
        let j = if x < u {
            x - base
        } else {
            x - base - 1
        };
        assert(other(base, u, j) == x);
        if j < i {
            assert(a[j] == x);
            assert(a[j] < a[i]);
        }
        let y = other(base, u, i);
        assert(y <= x);
        assert(y != u && base <= y < base + s);
        assert(a.contains(y as u64));
        let k = choose|k: int| 0 <= k < a.len() && a[k] == y as u64;
        if k < i {
            assert(a[k] == other(base, u, k));
        } else if k > i {
            assert(a[i] < a[k]);
        }
    }
}

proof fn count_of_others(a: Seq<u64>, base: int, s: int, u: int)
    requires
        others(a, base, s, u),
    ensures
        a.len() == s - 1,
        forall|i: int| 0 <= i < a.len() ==> #[trigger] a[i] == other(base, u, i),
{
    list_of_others(a, base, s, u, a.len() as int);
    if a.len() < s - 1 {
        let y = other(base, u, a.len() as int);
        assert(a.contains(y as u64));
        let k = choose|k: int| 0 <= k < a.len() && a[k] == y as u64;
        assert(a[k] == other(base, u, k));
    }
}

/// Twice the triangles on a vertex and its first neighbours in a clique.
proof fn fan_in_clique(adj: Seq<Vec<u64>>, base: int, s: int, u: int, n: int)
    requires
        0 <= base <= u < base + s <= adj.len(),
        adj.len() <= 0x1_0000_0000,
        forall|x: int| base <= x < base + s ==> others((#[trigger] adj[x])@, base, s, x),
        0 <= n <= adj[u]@.len(),
    ensures
        adj[u]@.len() == s - 1,
        n <= u - base ==> fan(adj, u, n) == 0,
        n >= u - base ==> 2 * fan(adj, u, n) == (n - (u - base)) * (2 * (base + s - 1 - u) - (n - (u
            - base)) - 1),
    decreases n,
{
    let a = adj[u]@;
    count_of_others(a, base, s, u);
    if n > 0 {
        fan_in_clique(adj, base, s, u, n - 1);
        let v = a[n - 1];
        assert(v == other(base, u, n - 1));
        if v > u {
            let b = adj[v as int]@;
            assert(others(b, base, s, v as int));
            assert forall|w: u64| corners(adj, u, v as int).contains(w) <==> span(
                v + 1,
                base + s,
            ).contains(w) by {
                assert(a.contains(w) <==> (base <= w < base + s && w != u));
                assert(b.contains(w) <==> (base <= w < base + s && w != v));
            }
            assert(corners(adj, u, v as int) =~= span(v + 1, base + s));
            span_size(v + 1, base + s);
            let m = n - (u - base);
            let k = base + s - 1 - u;
            assert(v == u + m);
            assert((m - 1) * (2 * k - (m - 1) - 1) + 2 * (k - m) == m * (2 * k - m - 1))
                by (nonlinear_arith);
        } else {
            assert(n <= u - base);
            if n == u - base {
                assert(0 * (2 * (base + s - 1 - u) - 0 - 1) == 0) by (nonlinear_arith);
            }
        }
    } else if u == base {
        assert(0 * (2 * (base + s - 1 - u) - 0 - 1) == 0) by (nonlinear_arith);
    }
}

/// The triangles of a clique, six times over.
pub open spec fn six_fold(s: int) -> int {
    s * (s - 1) * (s - 2)
}

proof fn six_fold_step(t: int)
    ensures
        six_fold(t) - six_fold(t - 1) == 3 * ((t - 1) * (t - 2)),
{
    assert(t * (t - 1) * (t - 2) - (t - 1) * (t - 1 - 1) * (t - 1 - 2) == 3 * ((t - 1) * (t - 2)))
        by (nonlinear_arith);
}

proof fn triangles_upto(adj: Seq<Vec<u64>>, s: int, n: int)
    requires
        s >= 0,
        adj.len() == 2 * s,
        adj.len() <= 0x1_0000_0000,
        forall|x: int| 0 <= x < s ==> others((#[trigger] adj[x])@, 0, s, x),
        forall|x: int| s <= x < 2 * s ==> others((#[trigger] adj[x])@, s, s, x),
        0 <= n <= 2 * s,
    ensures
        n <= s ==> 6 * triangles(adj, n) == six_fold(s) - six_fold(s - n),
        n >= s ==> 6 * triangles(adj, n) == 2 * six_fold(s) - six_fold(2 * s - n),
    decreases n,
{
    assert(six_fold(0) == 0) by (nonlinear_arith);
    if n > 0 {
        triangles_upto(adj, s, n - 1);
        let u = n - 1;
        let base = if u < s {
            0
        } else {
            s
        };
        let size = adj[u]@.len() as int;
        fan_in_clique(adj, base, s, u, size);
        let t = base + s - u;
        let m = size - (u - base);
        assert(m == t - 1);
        assert((t - 1) * (2 * (t - 1) - (t - 1) - 1) == (t - 1) * (t - 2)) by (nonlinear_arith);
        six_fold_step(t);
    }
}

/// Two cliques of `s` vertices each have twice as many triangles as there are ways to
/// choose three of `s` vertices.
pub proof fn two_cliques_triangles(adj: Seq<Vec<u64>>, s: int, edges: Seq<(u32, u32)>)
    requires
        s >= 0,
        graph_of(adj, 2 * s, edges),
        two_full(edges, s),
    ensures
        6 * triangles(adj, 2 * s) == 2 * (s * (s - 1) * (s - 2)),
{
    assert forall|x: int| 0 <= x < 2 * s implies others(
        (#[trigger] adj[x])@,
        if x < s {
            0
        } else {
            s
        },
        s,
        x,
    ) by {
        let base = if x < s {
            0
        } else {
            s
        };
        let a = adj[x]@;
        assert forall|w: u64| #[trigger] a.contains(w) <==> (base <= w < base + s && w != x) by {
            if a.contains(w) {
                let i = choose|i: int| 0 <= i < a.len() && a[i] == w;
                assert(adj[x]@[i] < adj.len());
            }
            if w < 2 * s {
                assert(joined(adj, x, w as int) <==> linked(edges, x, w as int));
                assert(edges.contains((x as u32, w as u32)) <==> (x < w && (w < s || (s <= x && w < 2
                    * s))));
                assert(edges.contains((w as u32, x as u32)) <==> (w < x && (x < s || (s <= w && x < 2
                    * s))));
            }
        }
    }
    triangles_upto(adj, s, 2 * s);
    assert(six_fold(0) == 0) by (nonlinear_arith);
}

} // verus!
