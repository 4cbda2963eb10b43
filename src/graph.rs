use vstd::prelude::*;
use vstd::multiset::Multiset;
use vstd::multiset::lemma_multiset_empty_len;

verus! {

/// A vertex is identified by its index in `0..n`.
pub type Vertex = usize;

/// A list of edges, each a pair of vertices.
pub type ListOfEdges = Vec<(Vertex, Vertex)>;

/// One neighbour list per vertex.
pub type AdjacencyLists = Vec<Vec<Vertex>>;

/// Failures reported by the library.
#[derive(Debug, Clone, Copy, PartialEq, Eq, Structural)]
pub enum SeparationError {
    /// An edge names a vertex outside `0..n`.
    InvalidVertexIndex,
    /// A record of the edge list could not be read as a pair of vertices.
    MalformedInput,
    /// A statistic that needs at least one distance found none.
    EmptyDistribution,
}

/// An undirected graph on the vertices `0..n`.
#[derive(Debug)]
pub struct Graph {
    /// Number of vertices.
    pub n: usize,
    /// For each vertex, its neighbours in ascending order.
    pub outedges: AdjacencyLists,
}

/// The neighbours that the edges `es` give to vertex `u`, with multiplicity:
/// an edge `(a, b)` makes `b` a neighbour of `a` and `a` a neighbour of `b`.
pub open spec fn neighbours_from(es: Seq<(Vertex, Vertex)>, u: Vertex) -> Multiset<Vertex>
    decreases es.len(),
{
    if es.len() == 0 {
        Multiset::empty()
    } else {
        let (a, b) = es.last();
        let rest = neighbours_from(es.drop_last(), u);
        let with_b = if a == u { rest.insert(b) } else { rest };
        if b == u { with_b.insert(a) } else { with_b }
    }
}

/// Every endpoint of every edge lies in `0..n`.
pub open spec fn edges_in_range(es: Seq<(Vertex, Vertex)>, n: nat) -> bool {
    forall|i: int| 0 <= i < es.len() ==> (#[trigger] es[i]).0 < n && es[i].1 < n
}

/// Every identifier of every record lies in `1..=n`.
pub open spec fn ids_in_range(rs: Seq<(Vertex, Vertex)>, n: nat) -> bool {
    forall|i: int| 0 <= i < rs.len() ==> 1 <= (#[trigger] rs[i]).0 <= n && 1 <= rs[i].1 <= n
}

/// The edges named by 1-based records, as 0-based vertex pairs.
pub open spec fn zero_based(rs: Seq<(Vertex, Vertex)>) -> Seq<(Vertex, Vertex)> {
    rs.map_values(|p: (Vertex, Vertex)| ((p.0 - 1) as Vertex, (p.1 - 1) as Vertex))
}

/// The sequence is in ascending order.
pub open spec fn ascending(s: Seq<Vertex>) -> bool {
    forall|i: int, j: int| 0 <= i < j < s.len() ==> s[i] <= s[j]
}

impl Graph {
    /// The neighbour list of vertex `u`.
    pub open spec fn adj(&self, u: int) -> Seq<Vertex> {
        self.outedges@[u]@
    }

    /// `v` is a neighbour of `u`.
    pub open spec fn adjacent(&self, u: int, v: int) -> bool {
        exists|i: int| 0 <= i < self.adj(u).len() && #[trigger] self.adj(u)[i] as int == v
    }

    /// One neighbour list per vertex, and every neighbour is a vertex.
    pub open spec fn in_range(&self) -> bool {
        &&& self.outedges@.len() == self.n
        &&& forall|u: int, i: int|
            0 <= u < self.n && 0 <= i < self.adj(u).len() ==> #[trigger] self.adj(u)[i] < self.n
    }

    /// Well-formed: lists in range, each ascending, and the neighbour relation symmetric.
    pub open spec fn wf(&self) -> bool {
        &&& self.in_range()
        &&& forall|u: int| 0 <= u < self.n ==> ascending(#[trigger] self.adj(u))
        &&& forall|u: int, v: int|
            0 <= u < self.n && 0 <= v < self.n ==> (#[trigger] self.adjacent(u, v)
                <==> #[trigger] self.adjacent(v, u))
    }

    /// Builds the undirected graph on `0..n` whose edges are `edges`; each edge is
    /// entered in both directions and each neighbour list is then sorted.
    /// Fails with `InvalidVertexIndex` when an endpoint lies outside `0..n`.
    pub fn undirected(n: usize, edges: &ListOfEdges) -> (r: Result<Graph, SeparationError>)
        ensures
            r.is_ok() <==> edges_in_range(edges@, n as nat),
            r.is_err() ==> r == Err::<Graph, SeparationError>(SeparationError::InvalidVertexIndex),
            r matches Ok(g) ==> {
                &&& g.n == n
                &&& g.wf()
                &&& forall|u: int| 0 <= u < n ==> (#[trigger] g.adj(u)).to_multiset()
                    == neighbours_from(edges@, u as Vertex)
            },
    {
        let mut outedges: AdjacencyLists = Vec::new();
        let mut k: usize = 0;
        while k < n
            invariant
                k <= n,
                outedges@.len() == k,
                forall|u: int| 0 <= u < k ==> (#[trigger] outedges@[u])@ == Seq::<Vertex>::empty(),
            decreases n - k,
        {
            outedges.push(Vec::new());
            k = k + 1;
        }
        proof {
            assert(edges@.take(0) =~= Seq::<(Vertex, Vertex)>::empty());
            assert forall|u: int| 0 <= u < n implies (#[trigger] outedges@[u])@.to_multiset()
                == neighbours_from(edges@.take(0), u as Vertex) by {
                outedges@[u]@.to_multiset_ensures();
                lemma_multiset_empty_len(outedges@[u]@.to_multiset());
            }
        }
        let mut i: usize = 0;
        while i < edges.len()
            invariant
                i <= edges@.len(),
                outedges@.len() == n,
                edges_in_range(edges@.take(i as int), n as nat),
                forall|u: int| 0 <= u < n ==> (#[trigger] outedges@[u])@.to_multiset()
                    == neighbours_from(edges@.take(i as int), u as Vertex),
                forall|u: int, j: int| 0 <= u < n && 0 <= j < outedges@[u]@.len()
                    ==> #[trigger] outedges@[u]@[j] < n,
            decreases edges@.len() - i,
        {
            let (a, b) = edges[i];
            if a >= n || b >= n {
                proof {
                    assert(edges@.take(i as int + 1).drop_last() =~= edges@.take(i as int));
                    let k = i as int;
                    assert(!(edges@[k].0 < n && edges@[k].1 < n));
                }
                return Err(SeparationError::InvalidVertexIndex);
            }
            let ghost before = outedges@;
            outedges[a].push(b);
            outedges[b].push(a);
            proof {
                let es = edges@.take(i as int + 1);
                assert(es.drop_last() =~= edges@.take(i as int));
                assert(es.last() == (a, b));
                assert forall|u: int| 0 <= u < n implies (#[trigger] outedges@[u])@.to_multiset()
                    == neighbours_from(es, u as Vertex) by {
                    lemma_push_multiset(before[u]@, b);
                    lemma_push_multiset(before[u]@, a);
                    lemma_push_multiset(before[u]@.push(b), a);
                }
            }
            i = i + 1;
        }
        proof {
            assert(edges@.take(edges@.len() as int) =~= edges@);
        }
        let mut graph = Graph { n, outedges };
        graph.sort();
        proof {
            assert forall|u: int, v: int| 0 <= u < n && 0 <= v < n implies (#[trigger] graph.adjacent(u, v)
                <==> #[trigger] graph.adjacent(v, u)) by {
                lemma_neighbours_symmetric(edges@, u as Vertex, v as Vertex);
                graph.adj(u).to_multiset_ensures();
                graph.adj(v).to_multiset_ensures();
                assert(graph.adjacent(u, v) <==> graph.adj(u).contains(v as Vertex));
                assert(graph.adjacent(v, u) <==> graph.adj(v).contains(u as Vertex));
            }
        }
        Ok(graph)
    }

    /// Sorts every neighbour list in ascending order.
    fn sort(&mut self)
        requires
            old(self).in_range(),
        ensures
            final(self).n == old(self).n,
            final(self).in_range(),
            forall|u: int| 0 <= u < final(self).n ==> ascending(#[trigger] final(self).adj(u)),
            forall|u: int| 0 <= u < final(self).n ==> (#[trigger] final(self).adj(u)).to_multiset()
                == old(self).adj(u).to_multiset(),
    {
        let ghost orig = self.outedges@;
        let mut u: usize = 0;
        while u < self.outedges.len()
            invariant
                self.n == old(self).n,
                orig == old(self).outedges@,
                self.outedges@.len() == self.n,
                u <= self.n,
                forall|w: int| 0 <= w < u ==> ascending(#[trigger] self.outedges@[w]@),
                forall|w: int| 0 <= w < self.n ==> (#[trigger] self.outedges@[w])@.to_multiset()
                    == orig[w]@.to_multiset(),
                self.in_range(),
            decreases self.n - u,
        {
            let ghost unsorted = self.outedges@[u as int]@;
            let ghost before = *self;
            assert(before.in_range());
            sort_ascending(&mut self.outedges[u]);
            let ghost list = self.outedges@[u as int];
            proof {
                assert forall|j: int| 0 <= j < list@.len() implies #[trigger] list@[j] < self.n by {
                    unsorted.to_multiset_ensures();
                    list@.to_multiset_ensures();
                    assert(list@.contains(list@[j]));
                    assert(unsorted.to_multiset().count(list@[j]) > 0);
                    assert(unsorted.contains(list@[j]));
                    let k = choose|k: int| 0 <= k < unsorted.len() && unsorted[k] == list@[j];
                    assert(before.adj(u as int)[k] < self.n);
                }
                assert forall|w: int, j: int| 0 <= w < self.n && 0 <= j < self.adj(w).len()
                    implies #[trigger] self.adj(w)[j] < self.n by {
                    if w == u {
                        assert(self.adj(w)[j] == list@[j]);
                    } else {
                        assert(self.outedges@[w] == before.outedges@[w]);
                        assert(before.adj(w)[j] < self.n);
                    }
                }
            }
            u = u + 1;
        }
    }
}

/// Relies on `<[T]>::sort`: it leaves the same elements, in ascending order.
#[verifier::external_body]
fn sort_ascending(v: &mut Vec<Vertex>)
    ensures
        ascending(final(v)@),
        final(v)@.to_multiset() == old(v)@.to_multiset(),
{
    v.sort();
}

proof fn lemma_push_multiset(s: Seq<Vertex>, x: Vertex)
    ensures
        s.push(x).to_multiset() == s.to_multiset().insert(x),
{
    s.to_multiset_ensures();
}

/// `v` occurs as often among the neighbours of `u` as `u` among those of `v`.
proof fn lemma_neighbours_symmetric(es: Seq<(Vertex, Vertex)>, u: Vertex, v: Vertex)
    ensures
        neighbours_from(es, u).count(v) == neighbours_from(es, v).count(u),
    decreases es.len(),
{
    if es.len() > 0 {
        lemma_neighbours_symmetric(es.drop_last(), u, v);
    }
}


impl Graph {
    /// Builds the undirected graph on `0..n` from records that name vertices by
    /// 1-based identifiers. Fails with `InvalidVertexIndex` when an identifier
    /// lies outside `1..=n`.
    pub fn from_one_based(n: usize, records: &ListOfEdges) -> (r: Result<Graph, SeparationError>)
        ensures
            r.is_ok() <==> ids_in_range(records@, n as nat),
            r.is_err() ==> r == Err::<Graph, SeparationError>(SeparationError::InvalidVertexIndex),
            r matches Ok(g) ==> {
                &&& g.n == n
                &&& g.wf()
                &&& forall|u: int| 0 <= u < n ==> (#[trigger] g.adj(u)).to_multiset()
                    == neighbours_from(zero_based(records@), u as Vertex)
            },
    {
        let mut edges: ListOfEdges = Vec::new();
        let mut i: usize = 0;
        while i < records.len()
            invariant
                i <= records@.len(),
                ids_in_range(records@.take(i as int), n as nat),
                edges@ == zero_based(records@.take(i as int)),
            decreases records@.len() - i,
        {
            let (a, b) = records[i];
            if a == 0 || b == 0 || a > n || b > n {
                proof {
                    let k = i as int;
                    assert(!(1 <= records@[k].0 <= n && 1 <= records@[k].1 <= n));
                }
                return Err(SeparationError::InvalidVertexIndex);
            }
            edges.push((a - 1, b - 1));
            proof {
                assert(records@.take(i as int + 1) =~= records@.take(i as int).push((a, b)));
                assert(edges@ =~= zero_based(records@.take(i as int + 1)));
            }
            i = i + 1;
        }
        proof {
            assert(records@.take(records@.len() as int) =~= records@);
            assert(edges_in_range(edges@, n as nat));
        }
        Graph::undirected(n, &edges)
    }
}

} // verus!
