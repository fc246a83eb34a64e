//! What the counts of triangles and of two-hop paths count: triples of vertices, over graphs of
//! any size.
use vstd::prelude::*;
use vstd::relations::injective_on;

use crate::numbers::increasing;
use crate::wcoj::{
    above, corners, fan, graph, graph_of, hops, joined, linked, no_more_triangles_than_paths, paths,
    triangles,
};

verus! {

/// Three vertices.
pub type Triple = (int, int, int);

/// The triangles among the edges, by their vertices in order, with a smallest vertex below
/// `upto`.
pub open spec fn linked_triangles(n: int, edges: Seq<(u32, u32)>, upto: int) -> Set<Triple> {
    Set::new(
        |t: Triple|
            {
                &&& 0 <= t.0 < upto
                &&& t.0 < t.1 < t.2 < n
                &&& linked(edges, t.0, t.1)
                &&& linked(edges, t.0, t.2)
                &&& linked(edges, t.1, t.2)
            },
    )
}

/// The paths upwards over two edges, with a first vertex below `upto`.
pub open spec fn linked_paths(n: int, edges: Seq<(u32, u32)>, upto: int) -> Set<Triple> {
    Set::new(
        |t: Triple|
            {
                &&& 0 <= t.0 < upto
                &&& t.0 < t.1 < t.2 < n
                &&& linked(edges, t.0, t.1)
                &&& linked(edges, t.1, t.2)
            },
    )
}

/// The larger vertices that a vertex has as neighbours.
spec fn uppers(adj: Seq<Vec<u64>>, v: int) -> Set<u64> {
    adj[v]@.to_set().filter(|w: u64| w > v)
}

/// How many third vertices there are over the first `i` second ones.
spec fn tall(a: Seq<u64>, u: int, tops: spec_fn(int) -> Set<u64>, i: int) -> nat
    decreases i,
{
    if i <= 0 {
        0
    } else {
        tall(a, u, tops, i - 1) + if a[i - 1] > u {
            tops(a[i - 1] as int).len()
        } else {
            0
        }
    }
}

/// The triples over the first `i` second vertices.
spec fn over(a: Seq<u64>, u: int, tops: spec_fn(int) -> Set<u64>, i: int) -> Set<Triple> {
    Set::new(
        |t: Triple|
            {
                &&& t.0 == u
                &&& t.1 > u
                &&& exists|k: int| 0 <= k < i && #[trigger] a[k] == t.1
                &&& 0 <= t.2 <= u64::MAX
                &&& tops(t.1).contains(t.2 as u64)
            },
    )
}

proof fn over_counts(a: Seq<u64>, u: int, tops: spec_fn(int) -> Set<u64>, i: int)
    requires
        increasing(a),
        0 <= i <= a.len(),
        forall|v: int| (#[trigger] tops(v)).finite(),
    ensures
        over(a, u, tops, i).finite(),
        over(a, u, tops, i).len() == tall(a, u, tops, i),
    decreases i,
{
    if i == 0 {
        assert(over(a, u, tops, 0) =~= Set::empty());
    } else {
        over_counts(a, u, tops, i - 1);
        let had = over(a, u, tops, i - 1);
        let v = a[i - 1] as int;
        if v > u {
            let f = |w: u64| (u, v, w as int);
            let new = tops(v).map(f);
            assert(injective_on(f, tops(v)));
            vstd::set_lib::lemma_map_size(tops(v), new, f);
            assert(over(a, u, tops, i) =~= had.union(new)) by {
                assert forall|t: Triple| over(a, u, tops, i).contains(t) == had.union(
                    new,
                ).contains(t) by {
                    if over(a, u, tops, i).contains(t) {
                        let k = choose|k: int| 0 <= k < i && #[trigger] a[k] == t.1;
                        if k == i - 1 {
                            assert(f(t.2 as u64) == t);
                            assert(new.contains(t));
                        }
                    }
                    if new.contains(t) {
                        let w = choose|w: u64| #[trigger] tops(v).contains(w) && f(w) == t;
                        assert(a[i - 1] == t.1);
                    }
                }
            }
            assert(had.disjoint(new)) by {
                assert forall|t: Triple| !(had.contains(t) && new.contains(t)) by {
                    if had.contains(t) && new.contains(t) {
                        let k = choose|k: int| 0 <= k < i - 1 && #[trigger] a[k] == t.1;
                        let w = choose|w: u64| #[trigger] tops(v).contains(w) && f(w) == t;
                        assert(a[k] < a[i - 1]);
                    }
                }
            }
            vstd::set_lib::lemma_set_disjoint_lens(had, new);
        } else {
            assert(over(a, u, tops, i) =~= had) by {
                assert forall|t: Triple| over(a, u, tops, i).contains(t) == had.contains(t) by {
                    if over(a, u, tops, i).contains(t) {
                        let k = choose|k: int| 0 <= k < i && #[trigger] a[k] == t.1;
                        assert(k < i - 1);
                    }
                }
            }
        }
    }
}

/// How many numbers of an ordered list are above a bound.
proof fn above_is_size(a: Seq<u64>, v: int)
    requires
        increasing(a),
    ensures
        a.to_set().filter(|w: u64| w > v).finite(),
        a.to_set().filter(|w: u64| w > v).len() == above(a, v),
    decreases a.len(),
{
    let big = |w: u64| w > v;
    let all = a.to_set().filter(big);
    if a.len() == 0 {
        assert(all =~= Set::empty());
    } else {
        let init = a.drop_last();
        assert(increasing(init)) by {
            assert forall|i: int, j: int| 0 <= i < j < init.len() implies init[i] < init[j] by {
                assert(init[i] == a[i] && init[j] == a[j]);
            }
        }
        above_is_size(init, v);
        let had = init.to_set().filter(big);
        let x = a.last();
        assert(!init.contains(x)) by {
            if init.contains(x) {
                let k = choose|k: int| 0 <= k < init.len() && init[k] == x;
                assert(a[k] < a[a.len() - 1]);
            }
        }
        assert forall|w: u64| a.contains(w) <==> init.contains(w) || w == x by {
            if a.contains(w) {
                let k = choose|k: int| 0 <= k < a.len() && a[k] == w;
                if k < init.len() {
                    assert(init[k] == w);
                }
            }
            if init.contains(w) {
                let k = choose|k: int| 0 <= k < init.len() && init[k] == w;
                assert(a[k] == w);
            }
            assert(a[a.len() - 1] == x);
        }
        if x > v {
            assert(all =~= had.insert(x));
        } else {
            assert(all =~= had);
        }
    }
}

spec fn corner_tops(adj: Seq<Vec<u64>>, u: int) -> spec_fn(int) -> Set<u64> {
    |v: int| corners(adj, u, v)
}

spec fn path_tops(adj: Seq<Vec<u64>>) -> spec_fn(int) -> Set<u64> {
    |v: int| uppers(adj, v)
}

proof fn fan_is_tall(adj: Seq<Vec<u64>>, u: int, i: int)
    requires
        graph(adj),
        0 <= u < adj.len(),
        0 <= i <= adj[u]@.len(),
    ensures
        fan(adj, u, i) == tall(adj[u]@, u, corner_tops(adj, u), i),
        hops(adj, u, i) == tall(adj[u]@, u, path_tops(adj), i),
    decreases i,
{
    if i > 0 {
        fan_is_tall(adj, u, i - 1);
        let v = adj[u]@[i - 1] as int;
        assert(adj[u]@[i - 1] < adj.len());
        above_is_size(adj[v]@, v);
    }
}

/// The triangles and the paths with a given first vertex.
proof fn one_vertex(adj: Seq<Vec<u64>>, n: int, edges: Seq<(u32, u32)>, u: int)
    requires
        graph_of(adj, n, edges),
        0 <= u < n,
    ensures
        ({
            let (a, i) = (adj[u]@, adj[u]@.len() as int);
            let (t, p) = (over(a, u, corner_tops(adj, u), i), over(a, u, path_tops(adj), i));
            &&& t.finite() && t.len() == fan(adj, u, i)
            &&& p.finite() && p.len() == hops(adj, u, i)
            &&& linked_triangles(n, edges, u + 1) == linked_triangles(n, edges, u).union(t)
            &&& linked_triangles(n, edges, u).disjoint(t)
            &&& linked_paths(n, edges, u + 1) == linked_paths(n, edges, u).union(p)
            &&& linked_paths(n, edges, u).disjoint(p)
        }),
{
    let (a, i) = (adj[u]@, adj[u]@.len() as int);
    let (ct, pt) = (corner_tops(adj, u), path_tops(adj));
    assert forall|v: int| (#[trigger] ct(v)).finite() && (#[trigger] pt(v)).finite() by {
        let big = |w: u64| w > v;
        vstd::seq_lib::seq_to_set_is_finite(adj[u]@);
        vstd::seq_lib::seq_to_set_is_finite(adj[v]@);
        adj[u]@.to_set().intersect(adj[v]@.to_set()).lemma_len_filter(big);
        adj[v]@.to_set().lemma_len_filter(big);
    }
    assert forall|v: int| (#[trigger] ct(v)).finite() by {
        assert(pt(v) == pt(v));
    }
    assert forall|v: int| (#[trigger] pt(v)).finite() by {
        assert(ct(v) == ct(v));
    }
    over_counts(a, u, ct, i);
    over_counts(a, u, pt, i);
    fan_is_tall(adj, u, i);
    let (t, p) = (over(a, u, ct, i), over(a, u, pt, i));
    assert forall|x: Triple| linked_triangles(n, edges, u + 1).contains(x) == linked_triangles(
        n,
        edges,
        u,
    ).union(t).contains(x) by {
        spelled(adj, n, edges, u, x);
    }
    assert forall|x: Triple| linked_paths(n, edges, u + 1).contains(x) == linked_paths(
        n,
        edges,
        u,
    ).union(p).contains(x) by {
        spelled(adj, n, edges, u, x);
    }
    assert(linked_triangles(n, edges, u + 1) =~= linked_triangles(n, edges, u).union(t));
    assert(linked_paths(n, edges, u + 1) =~= linked_paths(n, edges, u).union(p));
}

/// What it means of three vertices to lie over the first.
proof fn spelled(adj: Seq<Vec<u64>>, n: int, edges: Seq<(u32, u32)>, u: int, x: Triple)
    requires
        graph_of(adj, n, edges),
        0 <= u < n,
    ensures
        ({
            let (a, i) = (adj[u]@, adj[u]@.len() as int);
            let order = x.0 == u && x.0 < x.1 < x.2 < n;
            &&& over(a, u, corner_tops(adj, u), i).contains(x) <==> order && linked(
                edges,
                x.0,
                x.1,
            ) && linked(edges, x.0, x.2) && linked(edges, x.1, x.2)
            &&& over(a, u, path_tops(adj), i).contains(x) <==> order && linked(edges, x.0, x.1)
                && linked(edges, x.1, x.2)
        }),
{
    let (a, i) = (adj[u]@, adj[u]@.len() as int);
    let (v, w) = (x.1, x.2);
    if x.0 == u && u < v && exists|k: int| 0 <= k < i && #[trigger] a[k] == v {
        let k = choose|k: int| 0 <= k < i && #[trigger] a[k] == v;
        assert(adj[u]@[k] < adj.len());
        assert(a.contains(v as u64));
        assert(joined(adj, u, v));
        if 0 <= w <= u64::MAX && adj[v]@.contains(w as u64) {
            let m = choose|m: int| 0 <= m < adj[v]@.len() && adj[v]@[m] == w as u64;
            assert(adj[v]@[m] < adj.len());
            assert(joined(adj, v, w));
            assert(joined(adj, u, w) <==> linked(edges, u, w));
        }
    }
    if x.0 == u && u < v < w < n && linked(edges, u, v) && linked(edges, v, w) {
        assert(joined(adj, u, v));
        let k = choose|k: int| 0 <= k < a.len() && a[k] == v as u64;
        assert(a[k] == v);
        assert(joined(adj, v, w));
        assert(joined(adj, u, w) <==> linked(edges, u, w));
    }
}

proof fn counted_upto(adj: Seq<Vec<u64>>, n: int, edges: Seq<(u32, u32)>, m: int)
    requires
        graph_of(adj, n, edges),
        0 <= m <= n,
    ensures
        linked_triangles(n, edges, m).finite(),
        linked_triangles(n, edges, m).len() == triangles(adj, m),
        linked_paths(n, edges, m).finite(),
        linked_paths(n, edges, m).len() == paths(adj, m),
    decreases m,
{
    if m == 0 {
        assert(linked_triangles(n, edges, 0) =~= Set::empty());
        assert(linked_paths(n, edges, 0) =~= Set::empty());
    } else {
        counted_upto(adj, n, edges, m - 1);
        one_vertex(adj, n, edges, m - 1);
        let (a, i) = (adj[m - 1]@, adj[m - 1]@.len() as int);
        vstd::set_lib::lemma_set_disjoint_lens(
            linked_triangles(n, edges, m - 1),
            over(a, m - 1, corner_tops(adj, m - 1), i),
        );
        vstd::set_lib::lemma_set_disjoint_lens(
            linked_paths(n, edges, m - 1),
            over(a, m - 1, path_tops(adj), i),
        );
    }
}

/// Both ways of counting count the same triples, whatever the graph: the triangles are the
/// vertices `u < v < w` that are neighbours in pairs, the paths those where `v` is a neighbour
/// of `u` and `w` one of `v`; so there are no more triangles than paths.
pub proof fn counts_are_of_triples(adj: Seq<Vec<u64>>, n: int, edges: Seq<(u32, u32)>)
    requires
        graph_of(adj, n, edges),
    ensures
        linked_triangles(n, edges, n).finite(),
        triangles(adj, n) == linked_triangles(n, edges, n).len(),
        linked_paths(n, edges, n).finite(),
        paths(adj, n) == linked_paths(n, edges, n).len(),
        triangles(adj, n) <= paths(adj, n),
{
    counted_upto(adj, n, edges, n);
    no_more_triangles_than_paths(adj, n);
}

} // verus!
