//! The proximity graph of a waypoint set under a maximum hop distance.

use vstd::prelude::*;
use crate::waypoint::{WaypointSet, MAX_WAYPOINTS};

verus! {

/// A directed hop from one waypoint to another with its length in metres.
#[derive(Clone, Copy, Debug, PartialEq, Eq)]
pub struct Edge {
    pub from: usize,
    pub to: usize,
    pub weight: u32,
}

/// Whether a table of distances allows the hop from `i` to `j` under the
/// limit `constraint`: two different waypoints no farther apart than it.
pub open spec fn hop_allowed(spacing: Seq<Vec<u32>>, constraint: int, i: int, j: int) -> bool {
    &&& 0 <= i < spacing.len()
    &&& 0 <= j < spacing.len()
    &&& i != j
    &&& spacing[i]@[j] <= constraint
}

/// Whether edge `a` comes before edge `b` when edges are ordered by source
/// and then by destination.
pub open spec fn edge_before(a: Edge, b: Edge) -> bool {
    a.from < b.from || (a.from == b.from && a.to < b.to)
}

/// Whether `edges` lists exactly the allowed hops of the table, each once
/// with its distance, ordered by source and then by destination.
pub open spec fn lists_hops(edges: Seq<Edge>, spacing: Seq<Vec<u32>>, constraint: int) -> bool {
    &&& forall|k: int|
        0 <= k < edges.len() ==> {
            &&& hop_allowed(spacing, constraint, (#[trigger] edges[k]).from as int, edges[k].to as int)
            &&& edges[k].weight == spacing[edges[k].from as int]@[edges[k].to as int]
        }
    &&& forall|i: int, j: int| #[trigger]
        hop_allowed(spacing, constraint, i, j) ==> exists|k: int|
            0 <= k < edges.len() && (#[trigger] edges[k]).from == i && edges[k].to == j
    &&& forall|k: int, l: int|
        0 <= k < l < edges.len() ==> edge_before(#[trigger] edges[k], #[trigger] edges[l])
}

/// Two edge lists of one table under one constraint agree on their first
/// `k` edges, and where one has that many the other has too.
proof fn lemma_edge_prefix(
    a: Seq<Edge>,
    b: Seq<Edge>,
    spacing: Seq<Vec<u32>>,
    constraint: int,
    k: nat,
)
    requires
        lists_hops(a, spacing, constraint),
        lists_hops(b, spacing, constraint),
        k <= a.len(),
    ensures
        k <= b.len(),
        forall|i: int| 0 <= i < k ==> a[i] == b[i],
    decreases k,
{
    if k > 0 {
        let j = (k - 1) as int;
        lemma_edge_prefix(a, b, spacing, constraint, (k - 1) as nat);
        let e = a[j];
        assert(hop_allowed(spacing, constraint, e.from as int, e.to as int));
        let m = choose|m: int|
            0 <= m < b.len() && (#[trigger] b[m]).from == e.from && b[m].to == e.to;
        if m < j {
            assert(a[m] == b[m]);
            assert(edge_before(a[m], a[j]));
        }
        assert(j < b.len());
        let f = b[j];
        assert(hop_allowed(spacing, constraint, f.from as int, f.to as int));
        let w = choose|w: int|
            0 <= w < a.len() && (#[trigger] a[w]).from == f.from && a[w].to == f.to;
        if w < j {
            assert(a[w] == b[w]);
            assert(edge_before(b[w], b[j]));
        }
        if m > j {
            assert(edge_before(b[j], b[m]));
            if w > j {
                assert(edge_before(a[j], a[w]));
            }
        }
        assert(m == j);
        assert(e.weight == f.weight);
    }
}

/// A table of distances and a constraint have one edge list only.
pub proof fn lemma_edge_list_unique(
    a: Seq<Edge>,
    b: Seq<Edge>,
    spacing: Seq<Vec<u32>>,
    constraint: int,
)
    requires
        lists_hops(a, spacing, constraint),
        lists_hops(b, spacing, constraint),
    ensures
        a == b,
{
    lemma_edge_prefix(a, b, spacing, constraint, a.len());
    lemma_edge_prefix(b, a, spacing, constraint, b.len());
    assert(a =~= b);
}

/// A graph over a waypoint set in which a hop exists between two different
/// waypoints exactly when their distance does not exceed the constraint.
pub struct ProximityGraph {
    pub(crate) spacing: Vec<Vec<u32>>,
    pub(crate) constraint: u32,
    pub(crate) edges: Vec<Edge>,
}

impl ProximityGraph {
    /// The table of distances the graph was built from.
    pub open(crate) spec fn spacing(&self) -> Seq<Vec<u32>> {
        self.spacing@
    }

    /// The longest hop the graph allows, in metres.
    pub open(crate) spec fn constraint(&self) -> int {
        self.constraint as int
    }

    /// The edge list of the graph.
    pub open(crate) spec fn edges(&self) -> Seq<Edge> {
        self.edges@
    }

    /// The number of waypoints.
    pub open spec fn nodes(&self) -> nat {
        self.spacing().len()
    }

    /// Whether the graph has the hop from `i` to `j`.
    pub open spec fn linked(&self, i: int, j: int) -> bool {
        hop_allowed(self.spacing(), self.constraint(), i, j)
    }

    /// The length of the hop from `i` to `j`.
    pub open spec fn weight(&self, i: int, j: int) -> int {
        self.spacing()[i]@[j] as int
    }

    /// The invariant of the type: a square table of bounded size, and an
    /// edge list that holds exactly the allowed hops.
    pub open spec fn well_formed(&self) -> bool {
        &&& self.nodes() <= MAX_WAYPOINTS
        &&& forall|i: int|
            0 <= i < self.nodes() ==> (#[trigger] self.spacing()[i])@.len() == self.nodes()
        &&& lists_hops(self.edges(), self.spacing(), self.constraint())
    }

    /// Whether the graph is the one that `set` has under `constraint`.
    pub open spec fn built_from(&self, set: &WaypointSet, constraint: int) -> bool {
        &&& self.well_formed()
        &&& self.nodes() == set.points().len()
        &&& self.constraint() == constraint
        &&& forall|i: int|
            0 <= i < self.nodes() ==> (#[trigger] self.spacing()[i])@ == set.spacing()[i]@
    }

    /// Whether `p` is a walk: a non-empty sequence of waypoints of the
    /// graph, each linked to the next.
    pub open spec fn is_walk(&self, p: Seq<usize>) -> bool {
        &&& p.len() > 0
        &&& forall|k: int| 0 <= k < p.len() ==> (#[trigger] p[k]) < self.nodes()
        &&& forall|k: int|
            0 <= k < p.len() - 1 ==> self.linked((#[trigger] p[k]) as int, p[k + 1] as int)
    }

    /// The sum of the hop lengths along `p`.
    pub open spec fn walk_cost(&self, p: Seq<usize>) -> int
        decreases p.len(),
    {
        if p.len() <= 1 {
            0
        } else {
            self.walk_cost(p.drop_last()) + self.weight(p[p.len() - 2] as int, p.last() as int)
        }
    }

    /// Whether `p` is a walk that starts at `from` and ends at `to`.
    pub open spec fn connects(&self, p: Seq<usize>, from: usize, to: usize) -> bool {
        self.is_walk(p) && p[0] == from && p.last() == to
    }

    /// Builds the graph of `set` under `constraint`: for every ordered pair
    /// of different waypoints whose distance is within the constraint, one
    /// edge weighted by that distance.
    pub fn build(set: &WaypointSet, constraint: u32) -> (g: ProximityGraph)
        requires
            set.well_formed(),
        ensures
            g.built_from(set, constraint as int),
            forall|i: int, j: int| #[trigger]
                g.linked(i, j) <==> hop_allowed(set.spacing(), constraint as int, i, j),
    {
        let n: usize = set.spacing.len();
        let mut rows: Vec<Vec<u32>> = Vec::new();
        let mut edges: Vec<Edge> = Vec::new();
        let mut i: usize = 0;
        while i < n
            invariant
                set.well_formed(),
                n == set.spacing@.len(),
                0 <= i <= n,
                rows@.len() == i,
                forall|a: int| 0 <= a < i ==> (#[trigger] rows@[a])@ == set.spacing@[a]@,
                forall|k: int|
                    0 <= k < edges@.len() ==> {
                        &&& hop_allowed(
                            set.spacing@,
                            constraint as int,
                            (#[trigger] edges@[k]).from as int,
                            edges@[k].to as int,
                        )
                        &&& edges@[k].weight == set.spacing@[edges@[k].from as int]@[edges@[k].to
                            as int]
                        &&& edges@[k].from < i
                    },
                forall|a: int, b: int| #[trigger]
                    hop_allowed(set.spacing@, constraint as int, a, b) && a < i ==> exists|k: int|
                        0 <= k < edges@.len() && (#[trigger] edges@[k]).from == a && edges@[k].to
                            == b,
                forall|k: int, l: int|
                    0 <= k < l < edges@.len() ==> edge_before(
                        #[trigger] edges@[k],
                        #[trigger] edges@[l],
                    ),
            decreases n - i,
        {
            let mut row: Vec<u32> = Vec::new();
            let mut j: usize = 0;
            while j < n
                invariant
                    set.well_formed(),
                    n == set.spacing@.len(),
                    0 <= i < n,
                    0 <= j <= n,
                    row@.len() == j,
                    forall|b: int| 0 <= b < j ==> #[trigger] row@[b] == set.spacing@[i as int]@[b],
                    forall|k: int|
                        0 <= k < edges@.len() ==> {
                            &&& hop_allowed(
                                set.spacing@,
                                constraint as int,
                                (#[trigger] edges@[k]).from as int,
                                edges@[k].to as int,
                            )
                            &&& edges@[k].weight
                                == set.spacing@[edges@[k].from as int]@[edges@[k].to as int]
                            &&& (edges@[k].from < i || (edges@[k].from == i && edges@[k].to < j))
                        },
                    forall|a: int, b: int| #[trigger]
                        hop_allowed(set.spacing@, constraint as int, a, b) && (a < i || (a == i
                            && b < j)) ==> exists|k: int|
                            0 <= k < edges@.len() && (#[trigger] edges@[k]).from == a
                                && edges@[k].to == b,
                    forall|k: int, l: int|
                        0 <= k < l < edges@.len() ==> edge_before(
                            #[trigger] edges@[k],
                            #[trigger] edges@[l],
                        ),
                decreases n - j,
            {
                assert(set.spacing@[i as int]@.len() == n);
                let d: u32 = set.spacing[i][j];
                row.push(d);
                if i != j && d <= constraint {
                    let ghost before = edges@;
                    edges.push(Edge { from: i, to: j, weight: d });
                    proof {
                        let last = before.len() as int;
                        assert(edges@[last].from == i && edges@[last].to == j);
                        assert forall|a: int, b: int| #[trigger]
                            hop_allowed(set.spacing@, constraint as int, a, b) && (a < i || (a == i
                                && b < j + 1)) implies exists|k: int|
                            0 <= k < edges@.len() && (#[trigger] edges@[k]).from == a
                                && edges@[k].to == b by {
                            if a == i && b == j {
                                assert(edges@[last].from == a);
                            } else {
                                let k = choose|k: int|
                                    0 <= k < before.len() && (#[trigger] before[k]).from == a
                                        && before[k].to == b;
                                assert(edges@[k] == before[k]);
                            }
                        }
                        assert forall|k: int, l: int| 0 <= k < l < edges@.len() implies edge_before(
                            #[trigger] edges@[k],
                            #[trigger] edges@[l],
                        ) by {
                            assert(edges@[k] == before[k]);
                            if l < last {
                                assert(edges@[l] == before[l]);
                            }
                        }
                    }
                }
                j += 1;
            }
            proof {
                assert(row@ =~= set.spacing@[i as int]@);
            }
            rows.push(row);
            i += 1;
        }
        proof {
            assert forall|a: int, b: int| #[trigger]
                hop_allowed(rows@, constraint as int, a, b) == hop_allowed(
                    set.spacing@,
                    constraint as int,
                    a,
                    b,
                ) by {}
        }
        ProximityGraph { spacing: rows, constraint, edges }
    }

    /// The number of waypoints.
    pub fn node_count(&self) -> (n: usize)
        ensures
            n == self.nodes(),
    {
        self.spacing.len()
    }

    /// The edges of the graph, ordered by source and then by destination.
    pub fn get_edges(&self) -> (out: Vec<Edge>)
        ensures
            out@ == self.edges(),
    {
        let mut out: Vec<Edge> = Vec::new();
        let mut k: usize = 0;
        while k < self.edges.len()
            invariant
                0 <= k <= self.edges@.len(),
                out@ == self.edges@.take(k as int),
            decreases self.edges@.len() - k,
        {
            out.push(self.edges[k]);
            proof {
                assert(out@ =~= self.edges@.take(k + 1));
            }
            k += 1;
        }
        proof {
            assert(self.edges@.take(k as int) =~= self.edges@);
        }
        out
    }
}

/// A built graph has an edge for a pair of waypoints exactly when they are
/// different and no farther apart than the constraint, and so never an edge
/// from a waypoint to itself.
pub proof fn lemma_edges_match_constraint(g: ProximityGraph, i: int, j: int)
    requires
        g.well_formed(),
        0 <= i < g.nodes(),
        0 <= j < g.nodes(),
    ensures
        (exists|k: int| 0 <= k < g.edges().len() && (#[trigger] g.edges()[k]).from == i
            && g.edges()[k].to == j) <==> (i != j && g.weight(i, j) <= g.constraint()),
        forall|k: int| 0 <= k < g.edges().len() ==> (#[trigger] g.edges()[k]).from != g.edges()[k].to,
{
    if i != j && g.weight(i, j) <= g.constraint() {
        assert(hop_allowed(g.spacing(), g.constraint(), i, j));
    }
}

/// Building twice from one waypoint set under one constraint gives the
/// same edges.
pub proof fn lemma_same_build_same_edges(
    g: ProximityGraph,
    other: ProximityGraph,
    set: WaypointSet,
    constraint: int,
)
    requires
        g.built_from(&set, constraint),
        other.built_from(&set, constraint),
    ensures
        g.edges() == other.edges(),
        forall|i: int, j: int| g.linked(i, j) == other.linked(i, j),
        forall|i: int, j: int| g.linked(i, j) ==> g.weight(i, j) == other.weight(i, j),
{
    assert forall|i: int, j: int|
        hop_allowed(g.spacing(), constraint, i, j) == hop_allowed(
            other.spacing(),
            constraint,
            i,
            j,
        ) by {
        if 0 <= i < g.nodes() {
            assert(g.spacing()[i]@ == set.spacing()[i]@);
            assert(other.spacing()[i]@ == set.spacing()[i]@);
        }
    }
    assert(lists_hops(other.edges(), g.spacing(), constraint)) by {
        assert forall|k: int| 0 <= k < other.edges().len() implies {
            &&& hop_allowed(
                g.spacing(),
                constraint,
                (#[trigger] other.edges()[k]).from as int,
                other.edges()[k].to as int,
            )
            &&& other.edges()[k].weight == g.weight(
                other.edges()[k].from as int,
                other.edges()[k].to as int,
            )
        } by {
            let e = other.edges()[k];
            assert(hop_allowed(other.spacing(), constraint, e.from as int, e.to as int));
            assert(g.spacing()[e.from as int]@ == set.spacing()[e.from as int]@);
            assert(other.spacing()[e.from as int]@ == set.spacing()[e.from as int]@);
        }
        assert forall|i: int, j: int| #[trigger]
            hop_allowed(g.spacing(), constraint, i, j) implies exists|k: int|
            0 <= k < other.edges().len() && (#[trigger] other.edges()[k]).from == i
                && other.edges()[k].to == j by {
            assert(hop_allowed(other.spacing(), constraint, i, j));
        }
    }
    lemma_edge_list_unique(g.edges(), other.edges(), g.spacing(), constraint);
}

/// Where the table of distances is symmetric the graph is undirected: an
/// edge one way has an edge the other way, of the same length.
pub proof fn lemma_symmetric_table_undirected_graph(g: ProximityGraph, i: int, j: int)
    requires
        g.well_formed(),
        0 <= i < g.nodes(),
        0 <= j < g.nodes(),
        g.weight(i, j) == g.weight(j, i),
    ensures
        g.linked(i, j) == g.linked(j, i),
        (exists|k: int|
            0 <= k < g.edges().len() && (#[trigger] g.edges()[k]).from == i && g.edges()[k].to == j)
            == (exists|k: int|
            0 <= k < g.edges().len() && (#[trigger] g.edges()[k]).from == j && g.edges()[k].to == i),
{
    lemma_edges_match_constraint(g, i, j);
    lemma_edges_match_constraint(g, j, i);
}

} // verus!
