//! Waypoints, the selection of waypoints around a centre, and waypoint sets.

use vstd::prelude::*;

verus! {

/// The largest number of waypoints a set may hold.
pub const MAX_WAYPOINTS: usize = 0xFFFF_FFFF;

/// A point on the globe, in millionths of a degree.
#[derive(Clone, Copy, Debug, PartialEq, Eq)]
pub struct Coordinate {
    pub lat_micro: i32,
    pub lon_micro: i32,
}

/// A routing point: its index in the set it belongs to, and where it lies.
#[derive(Clone, Copy, Debug, PartialEq, Eq)]
pub struct Waypoint {
    pub id: usize,
    pub location: Coordinate,
}

/// A proposed site together with its distance from the centre, in metres.
#[derive(Clone, Copy, Debug, PartialEq, Eq)]
pub struct Candidate {
    pub location: Coordinate,
    pub offset: u32,
}

/// The positions in `c` of the candidates that are chosen: in order, every
/// candidate no farther than `radius` from the centre, until `capacity` of
/// them have been taken. A radius or capacity that is not positive admits
/// nothing.
pub open spec fn picked(c: Seq<Candidate>, radius: int, capacity: int) -> Seq<usize>
    decreases c.len(),
{
    if c.len() == 0 {
        Seq::empty()
    } else {
        let prev = picked(c.drop_last(), radius, capacity);
        if radius > 0 && c.last().offset <= radius && prev.len() < capacity {
            prev.push((c.len() - 1) as usize)
        } else {
            prev
        }
    }
}

/// The waypoints made of the chosen candidates: each gets its position
/// among the chosen as identifier.
pub open spec fn admitted(c: Seq<Candidate>, radius: int, capacity: int) -> Seq<Waypoint> {
    let p = picked(c, radius, capacity);
    Seq::new(p.len(), |k: int| Waypoint { id: k as usize, location: c[p[k] as int].location })
}

/// Every chosen candidate lies within the radius of the centre, at most
/// `capacity` are chosen, and they are chosen in the order they stand in.
pub proof fn lemma_picked_bounds(c: Seq<Candidate>, radius: int, capacity: int)
    requires
        c.len() <= usize::MAX,
    ensures
        picked(c, radius, capacity).len() <= c.len(),
        capacity >= 0 ==> picked(c, radius, capacity).len() <= capacity,
        capacity <= 0 || radius <= 0 ==> picked(c, radius, capacity).len() == 0,
        forall|k: int|
            0 <= k < picked(c, radius, capacity).len() ==> {
                &&& (#[trigger] picked(c, radius, capacity)[k]) < c.len()
                &&& c[picked(c, radius, capacity)[k] as int].offset <= radius
            },
        forall|k: int, l: int|
            0 <= k < l < picked(c, radius, capacity).len() ==> (#[trigger] picked(
                c,
                radius,
                capacity,
            )[k]) < (#[trigger] picked(c, radius, capacity)[l]),
    decreases c.len(),
{
    if c.len() > 0 {
        lemma_picked_bounds(c.drop_last(), radius, capacity);
    }
}

/// Every waypoint that `generate` returns lies within the radius of the
/// centre, there are at most `capacity` of them, and their identifiers
/// count up from zero.
pub proof fn lemma_admitted_bounds(c: Seq<Candidate>, radius: int, capacity: int)
    requires
        c.len() <= usize::MAX,
    ensures
        admitted(c, radius, capacity).len() <= c.len(),
        capacity >= 0 ==> admitted(c, radius, capacity).len() <= capacity,
        capacity <= 0 || radius <= 0 ==> admitted(c, radius, capacity).len() == 0,
        forall|k: int|
            0 <= k < admitted(c, radius, capacity).len() ==> {
                &&& (#[trigger] admitted(c, radius, capacity)[k]).id == k
                &&& exists|j: int|
                    0 <= j < c.len() && (#[trigger] c[j]).offset <= radius && c[j].location
                        == admitted(c, radius, capacity)[k].location
            },
{
    lemma_picked_bounds(c, radius, capacity);
    let p = picked(c, radius, capacity);
    assert forall|k: int| 0 <= k < admitted(c, radius, capacity).len() implies {
        &&& (#[trigger] admitted(c, radius, capacity)[k]).id == k
        &&& exists|j: int|
            0 <= j < c.len() && (#[trigger] c[j]).offset <= radius && c[j].location == admitted(
                c,
                radius,
                capacity,
            )[k].location
    } by {
        let j = p[k] as int;
        assert(c[j].offset <= radius);
    }
}

/// Finds the positions of the candidates to keep.
pub fn select(candidates: &Vec<Candidate>, radius: u32, capacity: i32) -> (out: Vec<usize>)
    ensures
        out@ == picked(candidates@, radius as int, capacity as int),
        forall|k: int| 0 <= k < out@.len() ==> (#[trigger] out@[k]) < candidates@.len(),
{
    let mut out: Vec<usize> = Vec::new();
    let mut i: usize = 0;
    while i < candidates.len()
        invariant
            0 <= i <= candidates@.len(),
            out@ == picked(candidates@.take(i as int), radius as int, capacity as int),
            out@.len() <= i,
        decreases candidates@.len() - i,
    {
        let c = candidates[i];
        proof {
            assert(candidates@.take(i + 1).drop_last() =~= candidates@.take(i as int));
            assert(candidates@.take(i + 1).last() == c);
        }
        if radius > 0 && c.offset <= radius && capacity > 0 && out.len() < capacity as usize {
            out.push(i);
        }
        i += 1;
    }
    proof {
        assert(candidates@.take(i as int) =~= candidates@);
        lemma_picked_bounds(candidates@, radius as int, capacity as int);
    }
    out
}

/// Selects waypoints from candidate sites scattered round a centre.
///
/// Each candidate carries its own distance from the centre; the ones within
/// `radius` metres are kept in order until `capacity` are taken.
pub fn generate(candidates: &Vec<Candidate>, radius: u32, capacity: i32) -> (out: Vec<Waypoint>)
    ensures
        out@ == admitted(candidates@, radius as int, capacity as int),
        out@.len() <= candidates@.len(),
        capacity >= 0 ==> out@.len() <= capacity,
        capacity <= 0 || radius == 0 ==> out@.len() == 0,
        forall|k: int|
            0 <= k < out@.len() ==> {
                &&& (#[trigger] out@[k]).id == k
                &&& exists|j: int|
                    0 <= j < candidates@.len() && (#[trigger] candidates@[j]).offset <= radius
                        && candidates@[j].location == out@[k].location
            },
{
    let chosen = select(candidates, radius, capacity);
    let out = waypoints_at(candidates, &chosen);
    proof {
        assert(candidates@.len() == candidates.len());
        lemma_admitted_bounds(candidates@, radius as int, capacity as int);
        assert(out@ =~= admitted(candidates@, radius as int, capacity as int));
    }
    out
}

/// Makes the waypoints that stand at the positions `chosen` of `candidates`.
pub fn waypoints_at(candidates: &Vec<Candidate>, chosen: &Vec<usize>) -> (out: Vec<Waypoint>)
    requires
        forall|k: int| 0 <= k < chosen@.len() ==> (#[trigger] chosen@[k]) < candidates@.len(),
    ensures
        out@.len() == chosen@.len(),
        forall|k: int|
            0 <= k < out@.len() ==> (#[trigger] out@[k]) == (Waypoint {
                id: k as usize,
                location: candidates@[chosen@[k] as int].location,
            }),
{
    let mut out: Vec<Waypoint> = Vec::new();
    let mut k: usize = 0;
    while k < chosen.len()
        invariant
            0 <= k <= chosen@.len(),
            out@.len() == k,
            forall|i: int| 0 <= i < chosen@.len() ==> (#[trigger] chosen@[i]) < candidates@.len(),
            forall|i: int|
                0 <= i < k ==> (#[trigger] out@[i]) == (Waypoint {
                    id: i as usize,
                    location: candidates@[chosen@[i] as int].location,
                }),
        decreases chosen@.len() - k,
    {
        out.push(Waypoint { id: k, location: candidates[chosen[k]].location });
        k += 1;
    }
    out
}

/// An ordered set of waypoints with the distance in metres between each
/// ordered pair of them. The waypoint at position `i` has identifier `i`, and
/// the table of distances is square.
pub struct WaypointSet {
    pub(crate) points: Vec<Waypoint>,
    pub(crate) spacing: Vec<Vec<u32>>,
}

/// Whether `points` and `spacing` can make up a waypoint set.
pub open spec fn fits(points: Seq<Waypoint>, spacing: Seq<Vec<u32>>) -> bool {
    &&& points.len() == spacing.len()
    &&& points.len() <= MAX_WAYPOINTS
    &&& forall|i: int| 0 <= i < points.len() ==> (#[trigger] points[i]).id == i
    &&& forall|i: int| 0 <= i < spacing.len() ==> (#[trigger] spacing[i])@.len() == spacing.len()
}

impl WaypointSet {
    /// The waypoints, in identifier order.
    pub open(crate) spec fn points(&self) -> Seq<Waypoint> {
        self.points@
    }

    /// The table of distances, row by row.
    pub open(crate) spec fn spacing(&self) -> Seq<Vec<u32>> {
        self.spacing@
    }

    /// The invariant of the type.
    pub open spec fn well_formed(&self) -> bool {
        fits(self.points(), self.spacing())
    }

    /// Makes a set out of waypoints and their table of distances, if the
    /// identifiers count up from zero and the table is square of that size.
    pub fn new(points: Vec<Waypoint>, spacing: Vec<Vec<u32>>) -> (r: Option<WaypointSet>)
        ensures
            r is Some <==> fits(points@, spacing@),
            r matches Some(s) ==> s.well_formed() && s.points() == points@ && s.spacing()
                == spacing@,
    {
        let n: usize = points.len();
        if spacing.len() != n || n > MAX_WAYPOINTS {
            return None;
        }
        let mut i: usize = 0;
        while i < n
            invariant
                n == points@.len(),
                n == spacing@.len(),
                0 <= i <= n,
                forall|k: int| 0 <= k < i ==> (#[trigger] points@[k]).id == k,
                forall|k: int| 0 <= k < i ==> (#[trigger] spacing@[k])@.len() == n,
            decreases n - i,
        {
            if points[i].id != i || spacing[i].len() != n {
                return None;
            }
            i += 1;
        }
        Some(WaypointSet { points, spacing })
    }

    /// How many waypoints the set holds.
    pub fn len(&self) -> (n: usize)
        ensures
            n == self.points().len(),
    {
        self.points.len()
    }

    /// The waypoints, in identifier order.
    pub fn list(&self) -> (out: Vec<Waypoint>)
        ensures
            out@ == self.points(),
    {
        let mut out: Vec<Waypoint> = Vec::new();
        let mut k: usize = 0;
        while k < self.points.len()
            invariant
                0 <= k <= self.points@.len(),
                out@ == self.points@.take(k as int),
            decreases self.points@.len() - k,
        {
            out.push(self.points[k]);
            proof {
                assert(out@ =~= self.points@.take(k + 1));
            }
            k += 1;
        }
        proof {
            assert(self.points@.take(k as int) =~= self.points@);
        }
        out
    }

    /// The distance in metres from waypoint `i` to waypoint `j`, if the set
    /// has both.
    pub fn distance(&self, i: usize, j: usize) -> (r: Option<u32>)
        requires
            self.well_formed(),
        ensures
            r == if i < self.points().len() && j < self.points().len() {
                Some(self.spacing()[i as int]@[j as int])
            } else {
                None
            },
    {
        if i < self.points.len() && j < self.points.len() {
            assert(self.spacing()[i as int]@.len() == self.points().len());
            Some(self.spacing[i][j])
        } else {
            None
        }
    }

    /// The waypoint with identifier `id`, if the set has one.
    pub fn get(&self, id: usize) -> (r: Option<Waypoint>)
        ensures
            r == if id < self.points().len() {
                Some(self.points()[id as int])
            } else {
                None
            },
    {
        if id < self.points.len() {
            Some(self.points[id])
        } else {
            None
        }
    }
}

} // verus!
