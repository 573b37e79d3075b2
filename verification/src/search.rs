//! Lowest-cost walks in a proximity graph.

use vstd::prelude::*;
use crate::graph::ProximityGraph;
use crate::waypoint::MAX_WAYPOINTS;

verus! {

/// The strategies a search can follow.
#[derive(Clone, Copy, Debug, PartialEq, Eq)]
pub enum Algorithm {
    /// Settle waypoints in order of their distance from the start.
    Dijkstra,
    /// Settle waypoints in order of their distance from the start plus an
    /// estimate of the distance that remains to the goal.
    AStar,
}

/// Why a search gave no route.
#[derive(Clone, Copy, Debug, PartialEq, Eq)]
pub enum SearchError {
    /// The start or the goal is no waypoint of the graph.
    UnknownWaypoint,
    /// No walk leads from the start to the goal.
    NoPathExists,
    /// The goal can be reached, but only at a cost above the limit.
    SearchLimitExceeded,
}

/// The longest hop a graph can hold, in metres.
pub const MAX_HOP: u64 = 0xFFFF_FFFF;

impl ProximityGraph {
    /// Whether no walk leads from `from` to `to`.
    pub open spec fn unreachable(&self, from: usize, to: usize) -> bool {
        forall|q: Seq<usize>| !#[trigger] self.connects(q, from, to)
    }

    /// Whether every walk from `from` to `to` costs at least `floor`.
    pub open spec fn no_cheaper(&self, from: usize, to: usize, floor: int) -> bool {
        forall|q: Seq<usize>| #[trigger] self.connects(q, from, to) ==> floor <= self.walk_cost(q)
    }
}

/// What holds of the waypoints settled so far (`done`) and of those
/// discovered (`seen`) with their tentative distances, none of which
/// exceeds `cap`, under the estimates `h`. While the hops out of waypoint `u` are being followed,
/// only those to waypoints below `j` count as followed; between rounds `u`
/// is -1.
#[verifier::opaque]
spec fn settled_inv(
    g: &ProximityGraph,
    from: usize,
    h: Seq<u32>,
    dist: Seq<u64>,
    seen: Seq<bool>,
    done: Seq<bool>,
    u: int,
    j: int,
    cap: int,
) -> bool {
    let n = g.nodes() as int;
    &&& dist.len() == n && seen.len() == n && done.len() == n
    &&& consistent(g, h)
    &&& from < n
    &&& seen[from as int]
    &&& dist[from as int] == 0
    &&& forall|v: int| 0 <= v < n && #[trigger] done[v] ==> seen[v]
    &&& forall|v: int| 0 <= v < n && #[trigger] seen[v] ==> dist[v] <= cap
    &&& forall|y: int, x: int|
        0 <= y < n && done[y] && #[trigger] g.linked(y, x) && (y != u || x < j) ==> seen[x]
            && dist[x] <= dist[y] + g.weight(y, x)
    &&& forall|s: int, t: int|
        0 <= s < n && 0 <= t < n && #[trigger] done[s] && #[trigger] seen[t] && !done[t]
            ==> dist[s] + h[s] <= dist[t] + h[t]
}

/// Each discovered waypoint has a walk from the start whose cost is its
/// tentative distance, and that walk is the walk of its predecessor, a
/// settled waypoint, with one more hop.
#[verifier::opaque]
spec fn traced(
    g: &ProximityGraph,
    from: usize,
    dist: Seq<u64>,
    seen: Seq<bool>,
    done: Seq<bool>,
    pred: Seq<usize>,
    trail: Seq<Seq<usize>>,
) -> bool {
    let n = g.nodes() as int;
    &&& pred.len() == n && trail.len() == n
    &&& forall|v: int|
        0 <= v < n && #[trigger] seen[v] ==> {
            &&& g.connects(trail[v], from, v as usize)
            &&& g.walk_cost(trail[v]) == dist[v]
            &&& (v == from ==> trail[v] == seq![from])
            &&& (v != from ==> pred[v] < n && done[pred[v] as int] && trail[v]
                == trail[pred[v] as int].push(v as usize))
        }
}

/// Whether the estimates `h` of the remaining cost agree with the hops of
/// the graph: no estimate exceeds the length of a hop plus the estimate at
/// its end.
pub open spec fn consistent(g: &ProximityGraph, h: Seq<u32>) -> bool {
    &&& h.len() == g.nodes()
    &&& forall|u: int, v: int| #[trigger] g.linked(u, v) ==> h[u] <= g.weight(u, v) + h[v]
}

/// Whether no settled waypoint has a distance plus estimate above `m`.
spec fn settled_within(dist: Seq<u64>, h: Seq<u32>, done: Seq<bool>, m: int) -> bool {
    forall|s: int| 0 <= s < done.len() && #[trigger] done[s] ==> dist[s] + h[s] <= m
}

/// Whether no discovered waypoint that is not settled has a distance plus
/// estimate below `m`.
spec fn open_beyond(dist: Seq<u64>, h: Seq<u32>, seen: Seq<bool>, done: Seq<bool>, m: int) -> bool {
    forall|t: int| 0 <= t < seen.len() && #[trigger] seen[t] && !done[t] ==> m <= dist[t] + h[t]
}

/// The state before the first round: only the start is discovered.
proof fn lemma_initial(
    g: &ProximityGraph,
    from: usize,
    h: Seq<u32>,
    dist: Seq<u64>,
    seen: Seq<bool>,
    done: Seq<bool>,
    pred: Seq<usize>,
    trail: Seq<Seq<usize>>,
)
    requires
        consistent(g, h),
        from < g.nodes(),
        dist.len() == g.nodes(),
        seen.len() == g.nodes(),
        done.len() == g.nodes(),
        pred.len() == g.nodes(),
        trail.len() == g.nodes(),
        forall|v: int| 0 <= v < g.nodes() ==> dist[v] == 0 && !done[v] && (seen[v] <==> v == from),
        trail[from as int] == seq![from],
    ensures
        settled_inv(g, from, h, dist, seen, done, -1, 0, 0),
        traced(g, from, dist, seen, done, pred, trail),
{
    reveal(settled_inv);
    reveal(traced);
    assert(g.is_walk(seq![from]));
    assert(g.walk_cost(seq![from]) == 0);
}

/// What the invariant says of single waypoints.
proof fn lemma_facts(
    g: &ProximityGraph,
    from: usize,
    h: Seq<u32>,
    dist: Seq<u64>,
    seen: Seq<bool>,
    done: Seq<bool>,
    u: int,
    j: int,
    cap: int,
    v: int,
)
    requires
        settled_inv(g, from, h, dist, seen, done, u, j, cap),
        0 <= v < g.nodes(),
    ensures
        consistent(g, h),
        dist.len() == g.nodes(),
        seen.len() == g.nodes(),
        done.len() == g.nodes(),
        seen[from as int],
        dist[from as int] == 0,
        seen[v] ==> dist[v] <= cap,
        done[v] ==> seen[v],
{
    reveal(settled_inv);
}

/// Settling the nearest open waypoint `v` keeps the invariant, with no hop
/// out of `v` followed yet.
proof fn lemma_settle(
    g: &ProximityGraph,
    from: usize,
    h: Seq<u32>,
    dist: Seq<u64>,
    seen: Seq<bool>,
    done: Seq<bool>,
    pred: Seq<usize>,
    trail: Seq<Seq<usize>>,
    cap: int,
    bound: int,
    v: int,
)
    requires
        settled_inv(g, from, h, dist, seen, done, -1, 0, cap),
        traced(g, from, dist, seen, done, pred, trail),
        0 <= v < g.nodes(),
        seen[v],
        !done[v],
        open_beyond(dist, h, seen, done, dist[v] + h[v]),
        cap <= bound,
    ensures
        settled_inv(g, from, h, dist, seen, done.update(v, true), v, 0, bound),
        traced(g, from, dist, seen, done.update(v, true), pred, trail),
        settled_within(dist, h, done.update(v, true), dist[v] + h[v]),
        settled_within(dist, h, done, dist[v] + h[v]),
{
    reveal(settled_inv);
    reveal(traced);
    let done1 = done.update(v, true);
    assert forall|s: int, t: int|
        0 <= s < g.nodes() && 0 <= t < g.nodes() && #[trigger] done1[s] && #[trigger] seen[t]
            && !done1[t] implies dist[s] + h[s] <= dist[t] + h[t] by {
        if s != v {
            assert(done[s]);
        }
    }
    assert forall|y: int, x: int|
        0 <= y < g.nodes() && done1[y] && #[trigger] g.linked(y, x) && (y != v || x < 0)
            implies seen[x] && dist[x] <= dist[y] + g.weight(y, x) by {
        assert(done[y]);
    }
    assert forall|s: int| 0 <= s < done1.len() && #[trigger] done1[s] implies dist[s] + h[s]
        <= dist[v] + h[v] by {
        if s != v {
            assert(done[s]);
        }
    }
    assert forall|w: int|
        0 <= w < g.nodes() && #[trigger] seen[w] && w != from implies done1[pred[w] as int] by {
        assert(done[pred[w] as int]);
    }
}

/// A hop out of `u` that improves nothing can be passed over.
proof fn lemma_relax_skip(
    g: &ProximityGraph,
    from: usize,
    h: Seq<u32>,
    dist: Seq<u64>,
    seen: Seq<bool>,
    done: Seq<bool>,
    u: int,
    x: int,
    cap: int,
)
    requires
        settled_inv(g, from, h, dist, seen, done, u, x, cap),
        0 <= u < g.nodes(),
        0 <= x < g.nodes(),
        g.linked(u, x) ==> seen[x] && dist[x] <= dist[u] + g.weight(u, x),
    ensures
        settled_inv(g, from, h, dist, seen, done, u, x + 1, cap),
{
    reveal(settled_inv);
}

/// Following a hop out of the settled waypoint `u` to an open waypoint `x`
/// that it reaches at a lower cost `nd` keeps the invariant.
proof fn lemma_relax_update(
    g: &ProximityGraph,
    from: usize,
    h: Seq<u32>,
    dist: Seq<u64>,
    seen: Seq<bool>,
    done: Seq<bool>,
    pred: Seq<usize>,
    trail: Seq<Seq<usize>>,
    u: usize,
    x: usize,
    nd: u64,
    cap: int,
)
    requires
        settled_inv(g, from, h, dist, seen, done, u as int, x as int, cap),
        traced(g, from, dist, seen, done, pred, trail),
        u < g.nodes(),
        x < g.nodes(),
        done[u as int],
        settled_within(dist, h, done, dist[u as int] + h[u as int]),
        g.linked(u as int, x as int),
        nd == dist[u as int] + g.weight(u as int, x as int),
        !seen[x as int] || nd < dist[x as int],
        nd <= cap,
    ensures
        !done[x as int],
        x != from,
        settled_inv(
            g,
            from,
            h,
            dist.update(x as int, nd),
            seen.update(x as int, true),
            done,
            u as int,
            x + 1,
            cap,
        ),
        traced(
            g,
            from,
            dist.update(x as int, nd),
            seen.update(x as int, true),
            done,
            pred.update(x as int, u),
            trail.update(x as int, trail[u as int].push(x)),
        ),
        settled_within(dist.update(x as int, nd), h, done, dist[u as int] + h[u as int]),
{
    reveal(settled_inv);
    reveal(traced);
    let n = g.nodes() as int;
    let dist1 = dist.update(x as int, nd);
    let seen1 = seen.update(x as int, true);
    let pred1 = pred.update(x as int, u);
    let tu = trail[u as int];
    let tx = tu.push(x);
    let trail1 = trail.update(x as int, tx);
    assert(seen[u as int]);
    assert(!done[x as int]);
    assert(x != from);
    assert forall|y: int, z: int|
        0 <= y < n && done[y] && #[trigger] g.linked(y, z) && (y != u || z < x + 1)
            implies seen1[z] && dist1[z] <= dist1[y] + g.weight(y, z) by {
        if !(y == u && z == x) {
            assert(seen[z] && dist[z] <= dist[y] + g.weight(y, z));
        }
    }
    assert forall|s: int, t: int|
        0 <= s < n && 0 <= t < n && #[trigger] done[s] && #[trigger] seen1[t] && !done[t]
            implies dist1[s] + h[s] <= dist1[t] + h[t] by {
        if t != x {
            assert(seen[t]);
        }
    }
    assert forall|v: int| 0 <= v < n && #[trigger] seen1[v] implies dist1[v] <= cap by {
        if v != x {
            assert(seen[v]);
        }
    }
    assert forall|v: int| 0 <= v < n && #[trigger] done[v] implies seen1[v] by {
        assert(seen[v]);
    }
    assert(tx.drop_last() =~= tu);
    assert(g.connects(tu, from, u));
    assert(g.is_walk(tx)) by {
        assert forall|k: int| 0 <= k < tx.len() - 1 implies g.linked(
            (#[trigger] tx[k]) as int,
            tx[k + 1] as int,
        ) by {
            if k < tu.len() - 1 {
                assert(tx[k] == tu[k] && tx[k + 1] == tu[k + 1]);
            } else {
                assert(tx[k] == u && tx[k + 1] == x);
            }
        }
    }
    assert(g.walk_cost(tx) == g.walk_cost(tu) + g.weight(u as int, x as int));
    assert forall|v: int| 0 <= v < n && #[trigger] seen1[v] implies {
        &&& g.connects(trail1[v], from, v as usize)
        &&& g.walk_cost(trail1[v]) == dist1[v]
        &&& (v == from ==> trail1[v] == seq![from])
        &&& (v != from ==> pred1[v] < n && done[pred1[v] as int] && trail1[v]
            == trail1[pred1[v] as int].push(v as usize))
    } by {
        if v != x {
            assert(seen[v]);
            assert(trail1[v] == trail[v]);
            if v != from {
                assert(pred1[v] == pred[v]);
                assert(done[pred[v] as int]);
            }
        }
    }
}

/// When every hop out of `u` is followed the round is over.
proof fn lemma_round_end(
    g: &ProximityGraph,
    from: usize,
    h: Seq<u32>,
    dist: Seq<u64>,
    seen: Seq<bool>,
    done: Seq<bool>,
    u: int,
    cap: int,
)
    requires
        settled_inv(g, from, h, dist, seen, done, u, g.nodes() as int, cap),
    ensures
        settled_inv(g, from, h, dist, seen, done, -1, 0, cap),
{
    reveal(settled_inv);
}

/// What a discovered waypoint's walk and predecessor are.
proof fn lemma_trail(
    g: &ProximityGraph,
    from: usize,
    dist: Seq<u64>,
    seen: Seq<bool>,
    done: Seq<bool>,
    pred: Seq<usize>,
    trail: Seq<Seq<usize>>,
    v: int,
)
    requires
        traced(g, from, dist, seen, done, pred, trail),
        0 <= v < g.nodes(),
        seen[v],
    ensures
        pred.len() == g.nodes(),
        trail.len() == g.nodes(),
        g.connects(trail[v], from, v as usize),
        g.walk_cost(trail[v]) == dist[v],
        v == from ==> trail[v] == seq![from],
        v != from ==> pred[v] < g.nodes() && done[pred[v] as int] && trail[v]
            == trail[pred[v] as int].push(v as usize),
{
    reveal(traced);
}

/// The number of waypoints not yet settled.
spec fn pending(done: Seq<bool>) -> nat
    decreases done.len(),
{
    if done.len() == 0 {
        0
    } else {
        pending(done.drop_last()) + if done.last() {
            0nat
        } else {
            1nat
        }
    }
}

proof fn lemma_pending_le(done: Seq<bool>)
    ensures
        pending(done) <= done.len(),
    decreases done.len(),
{
    if done.len() > 0 {
        lemma_pending_le(done.drop_last());
    }
}

proof fn lemma_pending_mark(done: Seq<bool>, u: int)
    requires
        0 <= u < done.len(),
        !done[u],
    ensures
        pending(done.update(u, true)) + 1 == pending(done),
    decreases done.len(),
{
    if u == done.len() - 1 {
        assert(done.update(u, true).drop_last() =~= done.drop_last());
    } else {
        lemma_pending_mark(done.drop_last(), u);
        assert(done.update(u, true).drop_last() =~= done.drop_last().update(u, true));
    }
}

/// A walk from the start costs at least the distance of the waypoint it
/// ends at, if that one is settled; otherwise its cost plus the estimate
/// at its end is at least `m`, where `m` lies between the distances plus
/// estimates of the settled waypoints and those of the open ones.
proof fn lemma_floor(
    g: &ProximityGraph,
    from: usize,
    h: Seq<u32>,
    dist: Seq<u64>,
    seen: Seq<bool>,
    done: Seq<bool>,
    cap: int,
    m: int,
    q: Seq<usize>,
)
    requires
        settled_inv(g, from, h, dist, seen, done, -1, 0, cap),
        open_beyond(dist, h, seen, done, m),
        settled_within(dist, h, done, m),
        g.is_walk(q),
        q[0] == from,
    ensures
        done[q.last() as int] ==> g.walk_cost(q) >= dist[q.last() as int],
        !done[q.last() as int] ==> g.walk_cost(q) + h[q.last() as int] >= m,
    decreases q.len(),
{
    reveal(settled_inv);
    if q.len() > 1 {
        let p = q.drop_last();
        let y = q[q.len() - 2] as int;
        let x = q.last() as int;
        assert(g.is_walk(p)) by {
            assert forall|k: int| 0 <= k < p.len() - 1 implies g.linked(
                (#[trigger] p[k]) as int,
                p[k + 1] as int,
            ) by {
                assert(p[k] == q[k] && p[k + 1] == q[k + 1]);
            }
        }
        lemma_floor(g, from, h, dist, seen, done, cap, m, p);
        assert(p.last() == q[q.len() - 2]);
        assert(g.linked(y, x));
        if done[y] {
            assert(seen[x]);
            assert(dist[x] <= dist[y] + g.weight(y, x));
        }
    } else {
        assert(q.last() == from);
        assert(seen[from as int]);
    }
}

/// Once every discovered waypoint is settled, every walk from the start
/// ends at a settled waypoint.
proof fn lemma_closed(
    g: &ProximityGraph,
    from: usize,
    h: Seq<u32>,
    dist: Seq<u64>,
    seen: Seq<bool>,
    done: Seq<bool>,
    cap: int,
    q: Seq<usize>,
)
    requires
        settled_inv(g, from, h, dist, seen, done, -1, 0, cap),
        forall|t: int| 0 <= t < g.nodes() && #[trigger] seen[t] ==> done[t],
        g.is_walk(q),
        q[0] == from,
    ensures
        done[q.last() as int],
    decreases q.len(),
{
    reveal(settled_inv);
    if q.len() > 1 {
        let p = q.drop_last();
        let y = q[q.len() - 2] as int;
        let x = q.last() as int;
        assert(g.is_walk(p)) by {
            assert forall|k: int| 0 <= k < p.len() - 1 implies g.linked(
                (#[trigger] p[k]) as int,
                p[k + 1] as int,
            ) by {
                assert(p[k] == q[k] && p[k + 1] == q[k + 1]);
            }
        }
        lemma_closed(g, from, h, dist, seen, done, cap, p);
        assert(p.last() == q[q.len() - 2]);
        assert(g.linked(y, x));
        assert(seen[x]);
    } else {
        assert(q.last() == from);
        assert(seen[from as int]);
    }
}

/// `s` read from its end to its start.
spec fn flipped(s: Seq<usize>) -> Seq<usize> {
    Seq::new(s.len(), |i: int| s[s.len() - 1 - i])
}

/// Moving the last waypoint of a walk to the front of the flipped rest
/// leaves the whole unchanged.
proof fn lemma_flip_push(tp: Seq<usize>, rev: Seq<usize>, cur: usize)
    requires
        tp.len() > 0,
    ensures
        tp.push(cur).drop_last() + flipped(rev) == tp.drop_last() + flipped(rev.push(tp.last())),
{
    assert(tp.push(cur).drop_last() =~= tp);
    assert(tp.push(cur).drop_last() + flipped(rev) =~= tp.drop_last() + flipped(
        rev.push(tp.last()),
    ));
}

/// Follows the predecessors from `to` back to the start and returns the
/// walk in travelling order.
fn trace_back(
    g: &ProximityGraph,
    pred: &Vec<usize>,
    from: usize,
    to: usize,
    Ghost(h): Ghost<Seq<u32>>,
    Ghost(dist): Ghost<Seq<u64>>,
    Ghost(seen): Ghost<Seq<bool>>,
    Ghost(done): Ghost<Seq<bool>>,
    Ghost(trail): Ghost<Seq<Seq<usize>>>,
    Ghost(cap): Ghost<int>,
) -> (path: Vec<usize>)
    requires
        settled_inv(g, from, h, dist, seen, done, -1, 0, cap),
        traced(g, from, dist, seen, done, pred@, trail),
        to < g.nodes(),
        seen[to as int],
    ensures
        path@ == trail[to as int],
{
    let mut rev: Vec<usize> = Vec::new();
    rev.push(to);
    let mut cur: usize = to;
    proof {
        lemma_trail(g, from, dist, seen, done, pred@, trail, to as int);
        assert(trail[to as int] =~= trail[cur as int].drop_last() + flipped(rev@));
    }
    while cur != from
        invariant
            settled_inv(g, from, h, dist, seen, done, -1, 0, cap),
            traced(g, from, dist, seen, done, pred@, trail),
            to < g.nodes(),
            cur < g.nodes(),
            pred@.len() == g.nodes(),
            seen[cur as int],
            trail[to as int] == trail[cur as int].drop_last() + flipped(rev@),
        decreases trail[cur as int].len(),
    {
        let p: usize = pred[cur];
        proof {
            lemma_trail(g, from, dist, seen, done, pred@, trail, cur as int);
            lemma_facts(g, from, h, dist, seen, done, -1, 0, cap, p as int);
            lemma_trail(g, from, dist, seen, done, pred@, trail, p as int);
            lemma_flip_push(trail[p as int], rev@, cur);
        }
        rev.push(p);
        cur = p;
    }
    proof {
        lemma_trail(g, from, dist, seen, done, pred@, trail, from as int);
        assert(trail[from as int].drop_last() =~= Seq::<usize>::empty());
        assert(trail[to as int] =~= flipped(rev@));
    }
    let mut path: Vec<usize> = Vec::new();
    let mut k: usize = rev.len();
    while k > 0
        invariant
            k <= rev@.len(),
            path@.len() == rev@.len() - k,
            forall|i: int| 0 <= i < path@.len() ==> #[trigger] path@[i] == rev@[rev@.len() - 1 - i],
        decreases k,
    {
        k -= 1;
        path.push(rev[k]);
    }
    proof {
        assert(path@ =~= flipped(rev@));
    }
    path
}

/// Whether waypoint `a` is settled no later than waypoint `b` when both are
/// open: the one with the lower distance plus estimate goes first; of two
/// that are equal in this, the one discovered in the earlier round; of two
/// of one round, the one with the lower identifier, which that round
/// discovered first.
spec fn goes_first(dist: Seq<u64>, h: Seq<u32>, stamp: Seq<usize>, a: int, b: int) -> bool {
    ||| dist[a] + h[a] < dist[b] + h[b]
    ||| (dist[a] + h[a] == dist[b] + h[b] && stamp[a] < stamp[b])
    ||| (dist[a] + h[a] == dist[b] + h[b] && stamp[a] == stamp[b] && a <= b)
}

/// Among the discovered waypoints that are not settled, the one that goes
/// first. Returns the number of waypoints if there is none.
fn nearest_open(
    dist: &Vec<u64>,
    h: &Vec<u32>,
    seen: &Vec<bool>,
    done: &Vec<bool>,
    stamp: &Vec<usize>,
) -> (best: usize)
    requires
        h@.len() == dist@.len(),
        seen@.len() == dist@.len(),
        done@.len() == dist@.len(),
        stamp@.len() == dist@.len(),
        forall|v: int| 0 <= v < dist@.len() && #[trigger] seen@[v] ==> dist@[v] + h@[v] <= u64::MAX,
    ensures
        best <= dist@.len(),
        best < dist@.len() ==> seen@[best as int] && !done@[best as int],
        forall|t: int|
            0 <= t < dist@.len() && #[trigger] seen@[t] && !done@[t] ==> best < dist@.len()
                && goes_first(dist@, h@, stamp@, best as int, t),
{
    let n: usize = dist.len();
    let mut best: usize = n;
    let mut least: u64 = 0;
    let mut v: usize = 0;
    while v < n
        invariant
            n == dist@.len(),
            h@.len() == n,
            seen@.len() == n,
            done@.len() == n,
            stamp@.len() == n,
            forall|t: int| 0 <= t < n && #[trigger] seen@[t] ==> dist@[t] + h@[t] <= u64::MAX,
            0 <= v <= n,
            best <= n,
            best < n ==> best < v && seen@[best as int] && !done@[best as int] && least
                == dist@[best as int] + h@[best as int],
            forall|t: int|
                0 <= t < v && #[trigger] seen@[t] && !done@[t] ==> best < n && goes_first(
                    dist@,
                    h@,
                    stamp@,
                    best as int,
                    t,
                ),
        decreases n - v,
    {
        if seen[v] && !done[v] {
            let key: u64 = dist[v] + h[v] as u64;
            if best == n || key < least || (key == least && stamp[v] < stamp[best]) {
                best = v;
                least = key;
            }
        }
        v += 1;
    }
    best
}

/// Whether `h` is consistent for `g`.
pub fn is_consistent(g: &ProximityGraph, h: &Vec<u32>) -> (b: bool)
    requires
        g.well_formed(),
    ensures
        b == consistent(g, h@),
{
    let n: usize = g.spacing.len();
    if h.len() != n {
        return false;
    }
    let mut i: usize = 0;
    while i < n
        invariant
            g.well_formed(),
            n == g.nodes(),
            h@.len() == n,
            0 <= i <= n,
            forall|u: int, v: int|
                #[trigger] g.linked(u, v) && u < i ==> h@[u] <= g.weight(u, v) + h@[v],
        decreases n - i,
    {
        let mut j: usize = 0;
        while j < n
            invariant
                g.well_formed(),
                n == g.nodes(),
                h@.len() == n,
                0 <= i < n,
                0 <= j <= n,
                forall|u: int, v: int|
                    #[trigger] g.linked(u, v) && (u < i || (u == i && v < j)) ==> h@[u]
                        <= g.weight(u, v) + h@[v],
            decreases n - j,
        {
            assert(g.spacing()[i as int]@.len() == n);
            let w: u32 = g.spacing[i][j];
            if i != j && w <= g.constraint && h[i] as u64 > w as u64 + h[j] as u64 {
                assert(g.linked(i as int, j as int));
                return false;
            }
            j += 1;
        }
        i += 1;
    }
    true
}

/// Settles waypoints in order of their distance from `from` plus the
/// estimate `h` of what remains, until `to` is settled or nothing is left
/// to settle.
fn guided(g: &ProximityGraph, from: usize, to: usize, h: &Vec<u32>) -> (r: Option<
    (u64, Vec<usize>),
>)
    requires
        g.well_formed(),
        consistent(g, h@),
        from < g.nodes(),
        to < g.nodes(),
    ensures
        match r {
            Some((cost, path)) => {
                &&& g.connects(path@, from, to)
                &&& g.walk_cost(path@) == cost
                &&& g.no_cheaper(from, to, cost as int)
                &&& (from == to ==> cost == 0 && path@ == seq![from])
            },
            None => g.unreachable(from, to),
        },
{
    let n: usize = g.spacing.len();
    let mut dist: Vec<u64> = vec![0u64; n];
    let mut seen: Vec<bool> = vec![false; n];
    let mut done: Vec<bool> = vec![false; n];
    let mut pred: Vec<usize> = vec![0usize; n];
    let mut stamp: Vec<usize> = vec![0usize; n];
    seen[from] = true;
    let ghost mut trail: Seq<Seq<usize>> = Seq::new(n as nat, |v: int| seq![from]);
    let mut count: usize = 0;
    proof {
        lemma_pending_le(done@);
        lemma_initial(g, from, h@, dist@, seen@, done@, pred@, trail);
    }
    loop
        invariant
            g.well_formed(),
            n == g.nodes(),
            from < n,
            to < n,
            h@.len() == n,
            dist@.len() == n,
            seen@.len() == n,
            done@.len() == n,
            pred@.len() == n,
            stamp@.len() == n,
            settled_inv(g, from, h@, dist@, seen@, done@, -1, 0, count * MAX_HOP),
            traced(g, from, dist@, seen@, done@, pred@, trail),
            count + pending(done@) <= n,
            !done@[to as int],
        decreases pending(done@),
    {
        proof {
            lemma_pending_le(done@);
            assert forall|v: int| 0 <= v < n && #[trigger] seen@[v] implies dist@[v] + h@[v]
                <= u64::MAX by {
                lemma_facts(g, from, h@, dist@, seen@, done@, -1, 0, count * MAX_HOP, v);
            }
        }
        let u: usize = nearest_open(&dist, h, &seen, &done, &stamp);
        if u == n {
            proof {
                assert forall|q: Seq<usize>| !#[trigger] g.connects(q, from, to) by {
                    if g.connects(q, from, to) {
                        lemma_closed(g, from, h@, dist@, seen@, done@, count * MAX_HOP, q);
                    }
                }
            }
            return None;
        }
        let du: u64 = dist[u];
        proof {
            assert(open_beyond(dist@, h@, seen@, done@, du + h@[u as int]));
            lemma_settle(
                g,
                from,
                h@,
                dist@,
                seen@,
                done@,
                pred@,
                trail,
                count * MAX_HOP,
                (count + 1) * MAX_HOP,
                u as int,
            );
            lemma_facts(g, from, h@, dist@, seen@, done@, -1, 0, count * MAX_HOP, u as int);
        }
        if u == to {
            proof {
                lemma_trail(g, from, dist@, seen@, done@, pred@, trail, u as int);
                assert forall|q: Seq<usize>| #[trigger] g.connects(q, from, to) implies du
                    <= g.walk_cost(q) by {
                    lemma_floor(
                        g,
                        from,
                        h@,
                        dist@,
                        seen@,
                        done@,
                        count * MAX_HOP,
                        du + h@[u as int],
                        q,
                    );
                }
            }
            let path = trace_back(
                g,
                &pred,
                from,
                to,
                Ghost(h@),
                Ghost(dist@),
                Ghost(seen@),
                Ghost(done@),
                Ghost(trail),
                Ghost(count * MAX_HOP),
            );
            return Some((du, path));
        }
        proof {
            lemma_pending_mark(done@, u as int);
        }
        done[u] = true;
        let mut x: usize = 0;
        while x < n
            invariant
                g.well_formed(),
                n == g.nodes(),
                n <= MAX_WAYPOINTS,
                from < n,
                to < n,
                u < n,
                0 <= x <= n,
                h@.len() == n,
                dist@.len() == n,
                seen@.len() == n,
                done@.len() == n,
                pred@.len() == n,
                stamp@.len() == n,
                settled_inv(
                    g,
                    from,
                    h@,
                    dist@,
                    seen@,
                    done@,
                    u as int,
                    x as int,
                    (count + 1) * MAX_HOP,
                ),
                traced(g, from, dist@, seen@, done@, pred@, trail),
                done@[u as int],
                du == dist@[u as int],
                settled_within(dist@, h@, done@, du + h@[u as int]),
                count < n,
                du <= count * MAX_HOP,
                !done@[to as int],
            decreases n - x,
        {
            assert(g.spacing()[u as int]@.len() == n);
            let w: u32 = g.spacing[u][x];
            if x != u && w <= g.constraint && (!seen[x] || du + (w as u64) < dist[x]) {
                let nd: u64 = du + w as u64;
                proof {
                    lemma_relax_update(
                        g,
                        from,
                        h@,
                        dist@,
                        seen@,
                        done@,
                        pred@,
                        trail,
                        u,
                        x,
                        nd,
                        (count + 1) * MAX_HOP,
                    );
                    trail = trail.update(x as int, trail[u as int].push(x));
                }
                dist[x] = nd;
                seen[x] = true;
                pred[x] = u;
                stamp[x] = count;
            } else {
                proof {
                    lemma_relax_skip(
                        g,
                        from,
                        h@,
                        dist@,
                        seen@,
                        done@,
                        u as int,
                        x as int,
                        (count + 1) * MAX_HOP,
                    );
                }
            }
            x += 1;
        }
        proof {
            lemma_round_end(g, from, h@, dist@, seen@, done@, u as int, (count + 1) * MAX_HOP);
        }
        count += 1;
    }
}

/// Finds a lowest-cost walk from `from` to `to`.
///
/// The result is the cost and the waypoints of the walk in travelling
/// order, both ends included. With a `limit`, a walk is only returned if
/// its cost does not exceed the limit.
///
/// `heuristic` gives, for each waypoint, an estimate of the cost that
/// remains from there to `to`. It is apart from the hop lengths of the
/// graph and never changes the cost of what is found, only the order in
/// which `Algorithm::AStar` looks: that strategy follows the estimates
/// where they are consistent for the graph, and goes without them
/// otherwise.
pub fn find_shortest_path(
    g: &ProximityGraph,
    from: usize,
    to: usize,
    algorithm: Algorithm,
    heuristic: Option<&Vec<u32>>,
    limit: Option<u64>,
) -> (r: Result<(u64, Vec<usize>), SearchError>)
    requires
        g.well_formed(),
    ensures
        match r {
            Ok((cost, path)) => {
                &&& g.connects(path@, from, to)
                &&& g.walk_cost(path@) == cost
                &&& g.no_cheaper(from, to, cost as int)
                &&& (limit matches Some(k) ==> cost <= k)
            },
            Err(SearchError::UnknownWaypoint) => from >= g.nodes() || to >= g.nodes(),
            Err(SearchError::NoPathExists) => {
                &&& from < g.nodes()
                &&& to < g.nodes()
                &&& g.unreachable(from, to)
            },
            Err(SearchError::SearchLimitExceeded) => {
                &&& from < g.nodes()
                &&& to < g.nodes()
                &&& !g.unreachable(from, to)
                &&& (limit matches Some(k) && g.no_cheaper(from, to, k + 1))
            },
        },
        from == to && from < g.nodes() ==> (r matches Ok((cost, path)) && cost == 0 && path@
            == seq![from]),
{
    let n: usize = g.node_count();
    if from >= n || to >= n {
        return Err(SearchError::UnknownWaypoint);
    }
    let plain: Vec<u32> = vec![0u32; n];
    let found: Option<(u64, Vec<usize>)> = match (algorithm, heuristic) {
        (Algorithm::AStar, Some(h)) => {
            if is_consistent(g, h) {
                guided(g, from, to, h)
            } else {
                guided(g, from, to, &plain)
            }
        },
        _ => guided(g, from, to, &plain),
    };
    match found {
        None => {
            proof {
                assert(from == to ==> g.connects(seq![from], from, to));
            }
            Err(SearchError::NoPathExists)
        },
        Some((cost, path)) => {
            let within: bool = match limit {
                Some(k) => cost <= k,
                None => true,
            };
            if within {
                Ok((cost, path))
            } else {
                proof {
                    assert(g.connects(path@, from, to));
                }
                Err(SearchError::SearchLimitExceeded)
            }
        },
    }
}

} // verus!
