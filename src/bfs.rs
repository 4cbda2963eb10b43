use vstd::prelude::*;
use vstd::set_lib::{lemma_int_range, lemma_len_subset, set_int_range};
use crate::graph::{Graph, Vertex};

verus! {

/// `p` is a walk of `g` from `s` to `v`: a nonempty sequence of vertices,
/// each a neighbour of the one before.
pub open spec fn is_walk(g: &Graph, p: Seq<int>, s: int, v: int) -> bool {
    &&& p.len() > 0
    &&& p[0] == s
    &&& p.last() == v
    &&& forall|i: int| 0 <= i < p.len() ==> 0 <= #[trigger] p[i] < g.n
    &&& forall|i: int| 0 <= i < p.len() - 1 ==> g.adjacent(#[trigger] p[i], p[i + 1])
}

/// `v` can be reached from `s` by a walk of at most `k` edges of `g`.
pub open spec fn within(g: &Graph, s: int, v: int, k: nat) -> bool {
    exists|p: Seq<int>| #[trigger] is_walk(g, p, s, v) && p.len() <= k + 1
}

/// Some walk of `g` leads from `s` to `v`.
pub open spec fn reachable(g: &Graph, s: int, v: int) -> bool {
    exists|k: nat| #[trigger] within(g, s, v, k)
}

/// `d` is the length of a shortest walk from `s` to `v`.
pub open spec fn is_distance(g: &Graph, s: int, v: int, d: nat) -> bool {
    &&& within(g, s, v, d)
    &&& forall|k: nat| k < d ==> !#[trigger] within(g, s, v, k)
}

/// `r` holds, for every vertex, its distance from `s`, or `None` where it cannot be reached.
pub open spec fn distances_from(g: &Graph, s: int, r: Seq<Option<u32>>) -> bool {
    &&& r.len() == g.n
    &&& forall|v: int| 0 <= v < g.n ==> match #[trigger] r[v] {
        Some(d) => is_distance(g, s, v, d as nat),
        None => !reachable(g, s, v),
    }
}

/// Every vertex lies at distance zero from itself.
proof fn lemma_within_zero(g: &Graph, s: int)
    requires
        0 <= s < g.n,
    ensures
        within(g, s, s, 0),
{
    assert(is_walk(g, seq![s], s, s));
}

/// The only vertex within zero edges of `s` is `s`.
proof fn lemma_within_zero_only(g: &Graph, s: int, v: int)
    requires
        within(g, s, v, 0),
    ensures
        v == s,
{
    let p = choose|p: Seq<int>| #[trigger] is_walk(g, p, s, v) && p.len() <= 1;
}

/// Walks only get more numerous as the bound grows.
pub proof fn lemma_within_monotone(g: &Graph, s: int, v: int, k1: nat, k2: nat)
    requires
        k1 <= k2,
        within(g, s, v, k1),
    ensures
        within(g, s, v, k2),
{
    let p = choose|p: Seq<int>| #[trigger] is_walk(g, p, s, v) && p.len() <= k1 + 1;
}

/// A walk to `u` followed by an edge `u`-`v` is a walk to `v`, one edge longer.
proof fn lemma_within_extend(g: &Graph, s: int, u: int, v: int, k: nat)
    requires
        within(g, s, u, k),
        g.adjacent(u, v),
        0 <= v < g.n,
    ensures
        within(g, s, v, k + 1),
{
    let p = choose|p: Seq<int>| #[trigger] is_walk(g, p, s, u) && p.len() <= k + 1;
    let q = p.push(v);
    assert forall|i: int| 0 <= i < q.len() - 1 implies g.adjacent(#[trigger] q[i], q[i + 1]) by {
        if i < p.len() - 1 {
            assert(q[i] == p[i] && q[i + 1] == p[i + 1]);
        }
    }
    assert(is_walk(g, q, s, v));
}

/// A walk of at most `k + 1` edges to `v` is a walk of at most `k` edges, or ends
/// with an edge from a vertex within `k` edges.
proof fn lemma_within_last_step(g: &Graph, s: int, v: int, k: nat) -> (u: int)
    requires
        within(g, s, v, k + 1),
    ensures
        within(g, s, v, k) || (0 <= u < g.n && within(g, s, u, k) && g.adjacent(u, v)),
{
    let p = choose|p: Seq<int>| #[trigger] is_walk(g, p, s, v) && p.len() <= k + 2;
    if p.len() <= k + 1 {
        0
    } else {
        let q = p.drop_last();
        let u = q.last();
        assert(p[q.len() - 1] == u);
        assert(is_walk(g, q, s, u));
        u
    }
}

/// A vertex has at most one distance from a given source.
pub proof fn lemma_distance_unique(g: &Graph, s: int, v: int, d1: nat, d2: nat)
    requires
        is_distance(g, s, v, d1),
        is_distance(g, s, v, d2),
    ensures
        d1 == d2,
{
}

/// In a graph whose neighbour relation is symmetric, walks can be reversed.
pub proof fn lemma_within_symmetric(g: &Graph, u: int, v: int, k: nat)
    requires
        g.wf(),
        within(g, u, v, k),
    ensures
        within(g, v, u, k),
{
    let p = choose|p: Seq<int>| #[trigger] is_walk(g, p, u, v) && p.len() <= k + 1;
    let q = p.reverse();
    assert forall|i: int| 0 <= i < q.len() - 1 implies g.adjacent(#[trigger] q[i], q[i + 1]) by {
        let j = p.len() - 2 - i;
        assert(g.adjacent(p[j], p[j + 1]));
        assert(q[i] == p[j + 1] && q[i + 1] == p[j]);
    }
    assert(q[0] == p.last());
    assert(q.last() == p[0]);
    assert forall|i: int| 0 <= i < q.len() implies 0 <= #[trigger] q[i] < g.n by {
        assert(q[i] == p[p.len() - 1 - i]);
    }
    assert(is_walk(g, q, v, u));
}

/// Distances in an undirected graph do not depend on the direction of travel.
pub proof fn lemma_distance_symmetric(g: &Graph, u: int, v: int, d: nat)
    requires
        g.wf(),
    ensures
        is_distance(g, u, v, d) <==> is_distance(g, v, u, d),
        reachable(g, u, v) <==> reachable(g, v, u),
{
    assert forall|k: nat|
        #![trigger within(g, u, v, k)]
        #![trigger within(g, v, u, k)]
        within(g, u, v, k) <==> within(g, v, u, k) by {
        if within(g, u, v, k) {
            lemma_within_symmetric(g, u, v, k);
        }
        if within(g, v, u, k) {
            lemma_within_symmetric(g, v, u, k);
        }
    }
}

/// A sequence of distinct vertices below `n` has at most `n` elements.
proof fn lemma_distinct_bounded(s: Seq<Vertex>, n: nat)
    requires
        forall|i: int, j: int| 0 <= i < j < s.len() ==> s[i] != s[j],
        forall|i: int| 0 <= i < s.len() ==> #[trigger] s[i] < n,
    ensures
        s.len() <= n,
{
    let t = s.map_values(|x: Vertex| x as int);
    assert(t.no_duplicates());
    t.unique_seq_to_set();
    lemma_int_range(0, n as int);
    assert forall|x: int| #[trigger] t.to_set().contains(x) implies set_int_range(0, n as int).contains(x) by {
        assert(t.contains(x));
    }
    lemma_len_subset(t.to_set(), set_int_range(0, n as int));
}

/// When every neighbour of a vertex with a distance has one too, every vertex
/// that `s` reaches has one.
proof fn lemma_closed_covers(g: &Graph, s: int, dist: Seq<Option<u32>>, v: int, k: nat)
    requires
        g.in_range(),
        0 <= s < g.n,
        dist.len() == g.n,
        dist[s] is Some,
        forall|u: int, w: int|
            0 <= u < g.n && (#[trigger] dist[u]) is Some && #[trigger] g.adjacent(u, w)
                ==> dist[w] is Some,
        within(g, s, v, k),
    ensures
        0 <= v < g.n,
        dist[v] is Some,
    decreases k,
{
    if k == 0 {
        lemma_within_zero_only(g, s, v);
    } else {
        let u = lemma_within_last_step(g, s, v, (k - 1) as nat);
        if within(g, s, v, (k - 1) as nat) {
            lemma_closed_covers(g, s, dist, v, (k - 1) as nat);
        } else {
            lemma_closed_covers(g, s, dist, u, (k - 1) as nat);
            let p = choose|p: Seq<int>| #[trigger] is_walk(g, p, s, v) && p.len() <= k + 1;
            assert(p[p.len() - 1] == v);
        }
    }
}

} // verus!

verus! {

/// The distance recorded for the `i`-th vertex of the queue.
spec fn level(dist: Seq<Option<u32>>, q: Seq<Vertex>, i: int) -> int {
    match dist[q[i] as int] {
        Some(d) => d as int,
        None => 0,
    }
}

/// What holds of the distances and the queue throughout the search: the queue
/// holds, without repetition and in non-decreasing order of distance, exactly
/// the vertices that have a distance, and each such distance is the true one.
spec fn queue_ok(g: &Graph, s: int, dist: Seq<Option<u32>>, q: Seq<Vertex>) -> bool {
    &&& dist.len() == g.n
    &&& q.len() <= g.n
    &&& dist[s] == Some(0u32)
    &&& forall|i: int| 0 <= i < q.len() ==> #[trigger] q[i] < g.n && dist[q[i] as int] is Some
    &&& forall|i: int, j: int| 0 <= i < j < q.len() ==> q[i] != q[j]
    &&& forall|v: int|
        0 <= v < g.n && (#[trigger] dist[v]) is Some ==> exists|i: int|
            0 <= i < q.len() && q[i] == v
    &&& forall|v: int|
        0 <= v < g.n ==> match #[trigger] dist[v] {
            Some(d) => is_distance(g, s, v, d as nat),
            None => true,
        }
    &&& forall|i: int, j: int|
        0 <= i <= j < q.len() ==> level(dist, q, i) <= level(dist, q, j)
    &&& forall|i: int| 0 <= i < q.len() ==> #[trigger] level(dist, q, i) <= i
}

/// Distances from `start` to every vertex of `graph`, by breadth-first search:
/// `Some(d)` where a shortest walk has `d` edges, `None` where no walk exists.
pub fn bfs_distance(start: Vertex, graph: &Graph) -> (r: Vec<Option<u32>>)
    requires
        graph.in_range(),
        start < graph.n,
        graph.n <= u32::MAX,
    ensures
        distances_from(graph, start as int, r@),
        r@[start as int] == Some(0u32),
{
    let n = graph.n;
    let ghost s = start as int;
    let mut distance: Vec<Option<u32>> = Vec::new();
    let mut k: usize = 0;
    while k < n
        invariant
            k <= n,
            distance@.len() == k,
            forall|v: int| 0 <= v < k ==> (#[trigger] distance@[v]) is None,
        decreases n - k,
    {
        distance.push(None);
        k = k + 1;
    }
    distance.set(start, Some(0));
    let mut queue: Vec<Vertex> = Vec::new();
    queue.push(start);
    let mut head: usize = 0;
    proof {
        lemma_within_zero(graph, s);
        assert(level(distance@, queue@, 0) == 0);
        assert forall|v: int| 0 <= v < n && (#[trigger] distance@[v]) is Some implies exists|i: int|
            0 <= i < queue@.len() && queue@[i] == v by {
            assert(queue@[0] == v);
        }
        assert forall|v: int| #[trigger] within(graph, s, v, level(distance@, queue@, 0) as nat)
            implies distance@[v] is Some by {
            lemma_within_zero_only(graph, s, v);
        }
    }
    while head < queue.len()
        invariant
            graph.in_range(),
            n == graph.n,
            n <= u32::MAX,
            s == start,
            start < n,
            head <= queue@.len(),
            queue_ok(graph, s, distance@, queue@),
            head < queue@.len() ==> level(distance@, queue@, queue@.len() - 1) <= level(
                distance@,
                queue@,
                head as int,
            ) + 1,
            forall|i: int, w: int|
                0 <= i < head && 0 <= w < n && #[trigger] graph.adjacent(queue@[i] as int, w)
                    ==> distance@[w] is Some,
            head < queue@.len() ==> forall|v: int|
                #[trigger] within(graph, s, v, level(distance@, queue@, head as int) as nat)
                    ==> distance@[v] is Some,
        decreases n - head,
    {
        let current = queue[head];
        if let Some(current_distance) = distance[current] {
            let neighbours = &graph.outedges[current];
            let ghost lv = level(distance@, queue@, head as int);
            assert(lv == current_distance);
            let mut j: usize = 0;
            while j < neighbours.len()
                invariant
                    graph.in_range(),
                    n == graph.n,
                    n <= u32::MAX,
                    s == start,
                    head < queue@.len(),
                    current == queue@[head as int],
                    neighbours@ == graph.adj(current as int),
                    lv == current_distance,
                    level(distance@, queue@, head as int) == lv,
                    distance@[current as int] == Some(current_distance),
                    queue_ok(graph, s, distance@, queue@),
                    level(distance@, queue@, queue@.len() - 1) <= lv + 1,
                    forall|i: int, w: int|
                        0 <= i < head && 0 <= w < n && #[trigger] graph.adjacent(queue@[i] as int, w)
                            ==> distance@[w] is Some,
                    forall|t: int| 0 <= t < j ==> (#[trigger] distance@[neighbours@[t] as int]) is Some,
                    forall|v: int|
                        #[trigger] within(graph, s, v, lv as nat) ==> distance@[v] is Some,
                decreases neighbours@.len() - j,
            {
                let neighbor = neighbours[j];
                assert(neighbor < n);
                if distance[neighbor].is_none() {
                    let ghost d0 = distance@;
                    let ghost q0 = queue@;
                    proof {
                        assert forall|i: int| 0 <= i < q0.len() implies #[trigger] q0[i] != neighbor by {}
                        let q1 = q0.push(neighbor);
                        assert forall|i: int| 0 <= i < q1.len() implies #[trigger] q1[i] < n by {
                            if i < q0.len() {
                                assert(q0[i] < n);
                            }
                        }
                        lemma_distinct_bounded(q1, n as nat);
                        assert(lv <= head);
                    }
                    distance.set(neighbor, Some(current_distance + 1));
                    queue.push(neighbor);
                    proof {
                        let v = neighbor as int;
                        assert(graph.adjacent(current as int, v)) by {
                            assert(graph.adj(current as int)[j as int] as int == v);
                        }
                        lemma_within_extend(graph, s, current as int, v, lv as nat);
                        assert forall|k: nat| k < lv + 1 implies !#[trigger] within(graph, s, v, k) by {
                            if within(graph, s, v, k) {
                                lemma_within_monotone(graph, s, v, k, lv as nat);
                            }
                        }
                        assert forall|i: int| 0 <= i < q0.len() implies level(distance@, queue@, i)
                            == level(d0, q0, i) by {
                            assert(q0[i] != neighbor);
                        }
                        assert(level(distance@, queue@, q0.len() as int) == lv + 1);
                        assert forall|w: int| 0 <= w < n && (#[trigger] distance@[w]) is Some implies exists|i: int|
                            0 <= i < queue@.len() && queue@[i] == w by {
                            if w == v {
                                assert(queue@[q0.len() as int] == w);
                            } else {
                                assert(d0[w] is Some);
                                let i = choose|i: int| 0 <= i < q0.len() && q0[i] == w;
                                assert(queue@[i] == w);
                            }
                        }
                        assert forall|i: int, jj: int| 0 <= i <= jj < queue@.len() implies level(distance@, queue@, i)
                            <= level(distance@, queue@, jj) by {
                            if i == q0.len() {
                            } else if jj == q0.len() {
                                assert(level(d0, q0, i) <= level(d0, q0, q0.len() - 1));
                            } else {
                                assert(level(d0, q0, i) <= level(d0, q0, jj));
                            }
                        }
                        assert forall|i: int| 0 <= i < queue@.len() implies #[trigger] queue@[i] < n
                            && distance@[queue@[i] as int] is Some by {
                            if i < q0.len() {
                                assert(q0[i] < n && d0[q0[i] as int] is Some);
                            }
                        }
                        assert forall|i: int| 0 <= i < queue@.len() implies #[trigger] level(distance@, queue@, i) <= i by {
                            if i < q0.len() {
                                assert(level(d0, q0, i) <= i);
                            }
                        }
                        assert(queue_ok(graph, s, distance@, queue@));
                    }
                }
                j = j + 1;
            }
            proof {
                assert forall|i: int, w: int|
                    0 <= i < head + 1 && 0 <= w < n && #[trigger] graph.adjacent(queue@[i] as int, w)
                        implies distance@[w] is Some by {
                    if i == head {
                        let t = choose|t: int| 0 <= t < neighbours@.len() && neighbours@[t] as int == w;
                        assert(distance@[neighbours@[t] as int] is Some);
                    }
                }
            }
        }
        proof {
            let h1 = head as int + 1;
            if h1 < queue@.len() {
                let lv = level(distance@, queue@, head as int);
                let lv1 = level(distance@, queue@, h1);
                assert(lv <= lv1);
                assert(level(distance@, queue@, queue@.len() - 1) >= lv1);
                if lv1 > lv {
                    assert forall|v: int| #[trigger] within(graph, s, v, lv1 as nat)
                        implies distance@[v] is Some by {
                        let u = lemma_within_last_step(graph, s, v, lv as nat);
                        if !within(graph, s, v, lv as nat) {
                            assert(distance@[u] is Some);
                            let e = distance@[u]->Some_0;
                            assert(is_distance(graph, s, u, e as nat));
                            assert(e <= lv);
                            let i = choose|i: int| 0 <= i < queue@.len() && queue@[i] == u;
                            if i >= h1 {
                                assert(level(distance@, queue@, h1) <= level(distance@, queue@, i));
                            }
                            let p = choose|p: Seq<int>| #[trigger] is_walk(graph, p, s, v) && p.len() <= lv1 + 1;
                            assert(p[0] == s);
                            assert(0 <= p[p.len() - 1] < n);
                        }
                    }
                }
            }
        }
        head = head + 1;
    }
    proof {
        assert forall|u: int, w: int|
            0 <= u < n && (#[trigger] distance@[u]) is Some && #[trigger] graph.adjacent(u, w)
                implies distance@[w] is Some by {
            let t = choose|t: int| 0 <= t < graph.adj(u).len() && graph.adj(u)[t] as int == w;
            assert(graph.adj(u)[t] < n);
            assert(head == queue@.len());
            let i = choose|i: int| 0 <= i < queue@.len() && queue@[i] == u;
            assert(queue@[i] as int == u);
            assert(graph.adjacent(queue@[i] as int, w));
        }
        assert forall|v: int| 0 <= v < n implies match #[trigger] distance@[v] {
            Some(d) => is_distance(graph, s, v, d as nat),
            None => !reachable(graph, s, v),
        } by {
            if distance@[v] is None {
                if reachable(graph, s, v) {
                    let k = choose|k: nat| #[trigger] within(graph, s, v, k);
                    lemma_closed_covers(graph, s, distance@, v, k);
                }
            }
        }
    }
    distance
}

} // verus!

verus! {

/// The rows of a table, each as a sequence.
pub open spec fn view_rows(t: &Vec<Vec<Option<u32>>>) -> Seq<Seq<Option<u32>>> {
    t@.map_values(|r: Vec<Option<u32>>| r@)
}

/// The distance from `u` to `v`, `None` where `v` cannot be reached
/// (or, beyond what a `u32` holds, the distance is too long to record).
pub open spec fn distance_entry(g: &Graph, u: int, v: int) -> Option<u32> {
    if exists|d: u32| is_distance(g, u, v, d as nat) {
        Some(choose|d: u32| is_distance(g, u, v, d as nat))
    } else {
        None
    }
}

/// The all-pairs distance table of `g`: entry `[u][v]` is the distance from `u` to `v`.
pub open spec fn distance_table(g: &Graph) -> Seq<Seq<Option<u32>>> {
    Seq::new(g.n as nat, |u: int| Seq::new(g.n as nat, |v: int| distance_entry(g, u, v)))
}

/// A row of distances from `u` is row `u` of the distance table.
proof fn lemma_row_of_table(g: &Graph, u: int, r: Seq<Option<u32>>)
    requires
        0 <= u < g.n,
        distances_from(g, u, r),
    ensures
        r == distance_table(g)[u],
{
    assert forall|v: int| 0 <= v < g.n implies r[v] == #[trigger] distance_entry(g, u, v) by {
        match r[v] {
            Some(d) => {
                assert(is_distance(g, u, v, d as nat));
                let e = choose|e: u32| is_distance(g, u, v, e as nat);
                lemma_distance_unique(g, u, v, d as nat, e as nat);
            },
            None => {
                if exists|d: u32| is_distance(g, u, v, d as nat) {
                    let e = choose|e: u32| is_distance(g, u, v, e as nat);
                    assert(within(g, u, v, e as nat));
                }
            },
        }
    }
    assert(r =~= distance_table(g)[u]);
}

/// `t` is the all-pairs distance table of `g`: row `u` holds the distances from `u`.
pub open spec fn all_pairs_of(g: &Graph, t: Seq<Vec<Option<u32>>>) -> bool {
    &&& t.len() == g.n
    &&& forall|u: int| 0 <= u < g.n ==> distances_from(g, u, #[trigger] t[u]@)
}

/// In an all-pairs table of a well-formed graph, the distance from `u` to `v`
/// equals the distance from `v` to `u`.
pub proof fn lemma_table_symmetric(g: &Graph, t: Seq<Vec<Option<u32>>>, u: int, v: int)
    requires
        g.wf(),
        all_pairs_of(g, t),
        0 <= u < g.n,
        0 <= v < g.n,
    ensures
        t[u]@[v] == t[v]@[u],
{
    let ruv = t[u]@[v];
    let rvu = t[v]@[u];
    assert(distances_from(g, u, t[u]@));
    assert(distances_from(g, v, t[v]@));
    lemma_distance_symmetric(g, u, v, 0);
    match ruv {
        Some(d) => {
            lemma_distance_symmetric(g, u, v, d as nat);
            match rvu {
                Some(e) => lemma_distance_unique(g, v, u, d as nat, e as nat),
                None => {
                    assert(within(g, v, u, d as nat));
                }
            }
        },
        None => {
            if let Some(e) = rvu {
                assert(within(g, u, v, e as nat)) by {
                    lemma_distance_symmetric(g, u, v, e as nat);
                }
            }
        },
    }
}

/// The distances between all ordered pairs of vertices: row `u` is
/// `bfs_distance(u, graph)`. The table is symmetric.
pub fn all_pairs_distances(graph: &Graph) -> (t: Vec<Vec<Option<u32>>>)
    requires
        graph.wf(),
        graph.n <= u32::MAX,
    ensures
        all_pairs_of(graph, t@),
        view_rows(&t) == distance_table(graph),
        forall|u: int, v: int|
            0 <= u < graph.n && 0 <= v < graph.n ==> #[trigger] t@[u]@[v] == t@[v]@[u],
{
    let mut table: Vec<Vec<Option<u32>>> = Vec::new();
    let mut u: usize = 0;
    while u < graph.n
        invariant
            graph.wf(),
            graph.n <= u32::MAX,
            u <= graph.n,
            table@.len() == u,
            forall|w: int| 0 <= w < u ==> distances_from(graph, w, #[trigger] table@[w]@),
        decreases graph.n - u,
    {
        let row = bfs_distance(u, graph);
        table.push(row);
        u = u + 1;
    }
    proof {
        assert forall|a: int, b: int| 0 <= a < graph.n && 0 <= b < graph.n implies #[trigger] table@[a]@[b]
            == table@[b]@[a] by {
            lemma_table_symmetric(graph, table@, a, b);
        }
        assert forall|w: int| 0 <= w < graph.n implies #[trigger] view_rows(&table)[w]
            == distance_table(graph)[w] by {
            lemma_row_of_table(graph, w, table@[w]@);
        }
        assert(view_rows(&table) =~= distance_table(graph));
    }
    table
}

} // verus!
