//! The operations offered to a front end: one call per request.

use vstd::prelude::*;
use crate::graph::Edge;
use crate::registry::{Aircraft, InitStatus, RouteError, RoutingState};
use crate::search::SearchError;
use crate::waypoint::{
    admitted, generate, picked, select, Candidate, Coordinate, Waypoint, WaypointSet,
    MAX_WAYPOINTS,
};

verus! {

/// A request for waypoints round a centre: at most `capacity` of them, none
/// farther than `radius` metres from `location`.
#[derive(Clone, Copy, Debug, PartialEq, Eq)]
pub struct NearbyLocationQuery {
    pub location: Coordinate,
    pub radius: u32,
    pub capacity: i32,
}

/// A request for a route of one profile between two waypoints.
#[derive(Clone, Copy, Debug, PartialEq, Eq)]
pub struct RouteQuery {
    pub aircraft: Aircraft,
    pub from: Waypoint,
    pub to: Waypoint,
}

/// Whether `table` gives a distance for every ordered pair of `count`
/// sites, and the sites are few enough for one waypoint set.
pub open spec fn table_fits(count: nat, table: Seq<Vec<u32>>) -> bool {
    &&& count <= MAX_WAYPOINTS
    &&& table.len() == count
    &&& forall|i: int| 0 <= i < table.len() ==> (#[trigger] table[i])@.len() == count
}

/// Whether `out` is the table of distances between the sites `chosen`,
/// taken from `table`.
pub open spec fn sub_table(table: Seq<Vec<u32>>, chosen: Seq<usize>, out: Seq<Vec<u32>>) -> bool {
    &&& out.len() == chosen.len()
    &&& forall|i: int| 0 <= i < out.len() ==> (#[trigger] out[i])@.len() == chosen.len()
    &&& forall|i: int, j: int|
        0 <= i < chosen.len() && 0 <= j < chosen.len() ==> #[trigger] out[i]@[j]
            == table[chosen[i] as int]@[chosen[j] as int]
}

/// The places of the waypoints `path` of the set `points`.
pub open spec fn located(points: Seq<Waypoint>, path: Seq<usize>) -> Seq<Coordinate> {
    Seq::new(path.len(), |k: int| points[path[k] as int].location)
}

/// Whether `w` is a waypoint of `points`.
pub open spec fn holds(points: Seq<Waypoint>, w: Waypoint) -> bool {
    w.id < points.len() && points[w.id as int] == w
}

/// Checks that a table of distances is square with `count` rows.
pub fn check_table(count: usize, table: &Vec<Vec<u32>>) -> (ok: bool)
    ensures
        ok == table_fits(count as nat, table@),
{
    if count > MAX_WAYPOINTS || table.len() != count {
        return false;
    }
    let mut i: usize = 0;
    while i < count
        invariant
            count == table@.len(),
            0 <= i <= count,
            forall|k: int| 0 <= k < i ==> (#[trigger] table@[k])@.len() == count,
        decreases count - i,
    {
        if table[i].len() != count {
            return false;
        }
        i += 1;
    }
    true
}

/// Takes from `table` the distances between the sites `chosen`.
pub fn extract_table(table: &Vec<Vec<u32>>, chosen: &Vec<usize>) -> (out: Vec<Vec<u32>>)
    requires
        forall|i: int| 0 <= i < table@.len() ==> (#[trigger] table@[i])@.len() == table@.len(),
        forall|k: int| 0 <= k < chosen@.len() ==> (#[trigger] chosen@[k]) < table@.len(),
    ensures
        sub_table(table@, chosen@, out@),
{
    let n: usize = chosen.len();
    let mut out: Vec<Vec<u32>> = Vec::new();
    let mut i: usize = 0;
    while i < n
        invariant
            n == chosen@.len(),
            0 <= i <= n,
            out@.len() == i,
            forall|a: int| 0 <= a < table@.len() ==> (#[trigger] table@[a])@.len() == table@.len(),
            forall|k: int| 0 <= k < chosen@.len() ==> (#[trigger] chosen@[k]) < table@.len(),
            forall|a: int| 0 <= a < i ==> (#[trigger] out@[a])@.len() == n,
            forall|a: int, b: int|
                0 <= a < i && 0 <= b < n ==> #[trigger] out@[a]@[b]
                    == table@[chosen@[a] as int]@[chosen@[b] as int],
        decreases n - i,
    {
        let mut row: Vec<u32> = Vec::new();
        let mut j: usize = 0;
        let r: usize = chosen[i];
        while j < n
            invariant
                n == chosen@.len(),
                0 <= j <= n,
                r < table@.len(),
                row@.len() == j,
                forall|a: int|
                    0 <= a < table@.len() ==> (#[trigger] table@[a])@.len() == table@.len(),
                forall|k: int| 0 <= k < chosen@.len() ==> (#[trigger] chosen@[k]) < table@.len(),
                forall|b: int|
                    0 <= b < j ==> #[trigger] row@[b] == table@[r as int]@[chosen@[b] as int],
            decreases n - j,
        {
            let c: usize = chosen[j];
            assert(table@[r as int]@.len() == table@.len());
            row.push(table[r][c]);
            j += 1;
        }
        out.push(row);
        i += 1;
    }
    out
}

/// Answers a request for waypoints: drops every router, chooses the
/// waypoints among `sites`, and makes them the current waypoint set with
/// the distances that `table` gives between their sites.
///
/// `table` must give a distance for every ordered pair of sites; if it does
/// not, no waypoint set is left in place.
pub fn get_nearby_nodes(
    state: &mut RoutingState,
    query: &NearbyLocationQuery,
    sites: &Vec<Candidate>,
    table: &Vec<Vec<u32>>,
) -> (r: Option<Vec<Waypoint>>)
    ensures
        final(state).well_formed(),
        forall|a: Aircraft| #[trigger] final(state).router(a) is None,
        r is Some <==> table_fits(sites@.len(), table@),
        r is None ==> final(state).current() is None,
        r matches Some(nodes) ==> {
            &&& nodes@ == admitted(sites@, query.radius as int, query.capacity as int)
            &&& final(state).current() matches Some(set) && set.points() == nodes@ && sub_table(
                table@,
                picked(sites@, query.radius as int, query.capacity as int),
                set.spacing(),
            )
        },
{
    if !check_table(sites.len(), table) {
        state.clear();
        return None;
    }
    let chosen: Vec<usize> = select(sites, query.radius, query.capacity);
    let listed: Vec<Waypoint> = generate(sites, query.radius, query.capacity);
    let spacing: Vec<Vec<u32>> = extract_table(table, &chosen);
    match WaypointSet::new(listed, spacing) {
        Some(set) => {
            let nodes: Vec<Waypoint> = set.list();
            state.replace_waypoints(set);
            Some(nodes)
        },
        None => {
            state.clear();
            None
        },
    }
}

/// Whether the router of `aircraft` has been initialized.
pub fn is_router_initialized(state: &RoutingState, aircraft: Aircraft) -> (b: bool)
    ensures
        b == state.router(aircraft) is Some,
{
    state.is_initialized(aircraft)
}

/// Builds the router of `aircraft` unless it is there already or there are
/// no waypoints.
pub fn init_router(state: &mut RoutingState, aircraft: Aircraft) -> (status: InitStatus)
    requires
        old(state).well_formed(),
    ensures
        crate::registry::step_initialize(*old(state), *final(state), aircraft, status),
{
    state.ensure_initialized(aircraft)
}

/// The edges of the router of `aircraft`.
pub fn get_edges(state: &RoutingState, aircraft: Aircraft) -> (r: Result<Vec<Edge>, RouteError>)
    ensures
        match r {
            Ok(edges) => state.router(aircraft) matches Some(g) && edges@ == g.edges(),
            Err(e) => e == RouteError::NotInitialized && state.router(aircraft) is None,
        },
{
    state.get_edges(aircraft)
}

/// Looks up the place of each waypoint of `path`.
pub fn resolve(set: &WaypointSet, path: &Vec<usize>) -> (out: Vec<Coordinate>)
    requires
        forall|k: int| 0 <= k < path@.len() ==> (#[trigger] path@[k]) < set.points().len(),
    ensures
        out@ == located(set.points(), path@),
{
    let mut out: Vec<Coordinate> = Vec::new();
    let mut k: usize = 0;
    while k < path.len()
        invariant
            0 <= k <= path@.len(),
            forall|i: int| 0 <= i < path@.len() ==> (#[trigger] path@[i]) < set.points().len(),
            out@.len() == k,
            forall|i: int| 0 <= i < k ==> #[trigger] out@[i] == set.points()[path@[i] as int].location,
        decreases path@.len() - k,
    {
        out.push(set.points[path[k]].location);
        k += 1;
    }
    proof {
        assert(out@ =~= located(set.points(), path@));
    }
    out
}

/// Whether `w` is a waypoint of `set`, with the identifier and the place
/// that the set has for it.
pub fn is_known(set: &WaypointSet, w: &Waypoint) -> (b: bool)
    ensures
        b == holds(set.points(), *w),
{
    match set.get(w.id) {
        Some(p) => p.id == w.id && p.location.lat_micro == w.location.lat_micro
            && p.location.lon_micro == w.location.lon_micro,
        None => false,
    }
}

/// Answers a request for a route: the places along a lowest-cost walk
/// between the two waypoints in the router of the profile.
pub fn get_route(state: &RoutingState, query: &RouteQuery) -> (r: Result<Vec<Coordinate>, RouteError>)
    requires
        state.well_formed(),
    ensures
        match r {
            Ok(places) => state.router(query.aircraft) matches Some(g) && {
                &&& holds(state.current()->0.points(), query.from)
                &&& holds(state.current()->0.points(), query.to)
                &&& exists|path: Seq<usize>|
                    {
                        &&& #[trigger] g.connects(path, query.from.id, query.to.id)
                        &&& g.no_cheaper(query.from.id, query.to.id, g.walk_cost(path))
                        &&& places@ == located(state.current()->0.points(), path)
                    }
            },
            Err(RouteError::NotInitialized) => state.router(query.aircraft) is None,
            Err(RouteError::Search(SearchError::UnknownWaypoint)) => {
                &&& state.router(query.aircraft) is Some
                &&& !(holds(state.current()->0.points(), query.from) && holds(
                    state.current()->0.points(),
                    query.to,
                ))
            },
            Err(RouteError::Search(SearchError::NoPathExists)) => state.router(
                query.aircraft,
            ) matches Some(g) && {
                &&& holds(state.current()->0.points(), query.from)
                &&& holds(state.current()->0.points(), query.to)
                &&& g.unreachable(query.from.id, query.to.id)
            },
            Err(RouteError::Search(SearchError::SearchLimitExceeded)) => false,
        },
{
    if !state.is_initialized(query.aircraft) {
        return Err(RouteError::NotInitialized);
    }
    match &state.waypoints {
        None => Err(RouteError::NotInitialized),
        Some(set) => {
            if !is_known(set, &query.from) || !is_known(set, &query.to) {
                return Err(RouteError::Search(SearchError::UnknownWaypoint));
            }
            match state.find_path(query.aircraft, query.from.id, query.to.id) {
                Ok((cost, path)) => {
                    let places = resolve(set, &path);
                    Ok(places)
                },
                Err(e) => Err(e),
            }
        },
    }
}

} // verus!
