//! The routers of the vehicle profiles and the waypoint set they share.

use vstd::prelude::*;
use crate::graph::{Edge, ProximityGraph};
use crate::search::{find_shortest_path, Algorithm, SearchError};
use crate::waypoint::WaypointSet;

verus! {

/// The vehicle profiles.
#[derive(Clone, Copy, Debug, PartialEq, Eq)]
pub enum Aircraft {
    ArrowXl,
    ArrowCargo,
    ArrowInterstate,
}

/// The longest hop of an Arrow XL, in metres.
pub const ARROW_XL_CONSTRAINT: u32 = 25_000;

/// The longest hop of an Arrow Cargo, in metres.
pub const ARROW_CARGO_CONSTRAINT: u32 = 75_000;

/// The longest hop of an Arrow Interstate, in metres.
pub const ARROW_INTERSTATE_CONSTRAINT: u32 = 100_000;

impl Aircraft {
    /// The longest hop of the profile, in metres.
    pub open spec fn range(self) -> int {
        match self {
            Aircraft::ArrowXl => 25_000,
            Aircraft::ArrowCargo => 75_000,
            Aircraft::ArrowInterstate => 100_000,
        }
    }

    /// The longest hop of the profile, in metres.
    pub fn constraint(self) -> (c: u32)
        ensures
            c == self.range(),
    {
        match self {
            Aircraft::ArrowXl => ARROW_XL_CONSTRAINT,
            Aircraft::ArrowCargo => ARROW_CARGO_CONSTRAINT,
            Aircraft::ArrowInterstate => ARROW_INTERSTATE_CONSTRAINT,
        }
    }
}

/// What a request to initialize a router came to.
#[derive(Clone, Copy, Debug, PartialEq, Eq)]
pub enum InitStatus {
    /// The router was built now.
    Initialized,
    /// The router had been built before; nothing changed.
    AlreadyInitialized,
    /// There are no waypoints to build a router from.
    NodesNotReady,
}

/// Why a router gave no answer.
#[derive(Clone, Copy, Debug, PartialEq, Eq)]
pub enum RouteError {
    /// The router of the profile has not been initialized.
    NotInitialized,
    /// The search itself failed.
    Search(SearchError),
}

/// The current waypoint set and, for each profile, its router if it has
/// been initialized. Every router is built from the current waypoint set.
pub struct RoutingState {
    pub(crate) waypoints: Option<WaypointSet>,
    pub(crate) arrow_xl: Option<ProximityGraph>,
    pub(crate) arrow_cargo: Option<ProximityGraph>,
    pub(crate) arrow_interstate: Option<ProximityGraph>,
}

impl RoutingState {
    /// The current waypoint set.
    pub open(crate) spec fn current(&self) -> Option<WaypointSet> {
        self.waypoints
    }

    /// The router of profile `a`.
    pub open(crate) spec fn router(&self, a: Aircraft) -> Option<ProximityGraph> {
        match a {
            Aircraft::ArrowXl => self.arrow_xl,
            Aircraft::ArrowCargo => self.arrow_cargo,
            Aircraft::ArrowInterstate => self.arrow_interstate,
        }
    }

    /// Whether there are waypoints to build routers from.
    pub open spec fn nodes_ready(&self) -> bool {
        self.current() matches Some(set) && set.points().len() > 0
    }

    /// The invariant of the type: the waypoint set is well formed, and each
    /// router is the graph of the current waypoint set under the
    /// constraint of its profile.
    pub open spec fn well_formed(&self) -> bool {
        &&& self.current() matches Some(set) ==> set.well_formed()
        &&& forall|a: Aircraft| #[trigger]
            self.router(a) matches Some(g) ==> {
                &&& self.nodes_ready()
                &&& g.built_from(&self.current()->0, a.range())
            }
    }

    /// What `find_path` returns: without a router the search is refused;
    /// with one, the result is a lowest-cost walk, or the reason why there
    /// is none.
    pub open spec fn path_outcome(
        &self,
        aircraft: Aircraft,
        from: usize,
        to: usize,
        r: Result<(u64, Vec<usize>), RouteError>,
    ) -> bool {
        match r {
            Ok((cost, path)) => self.router(aircraft) matches Some(g) && {
                &&& g.connects(path@, from, to)
                &&& g.walk_cost(path@) == cost
                &&& g.no_cheaper(from, to, cost as int)
                &&& (from == to ==> cost == 0 && path@ == seq![from])
            },
            Err(RouteError::NotInitialized) => self.router(aircraft) is None,
            Err(RouteError::Search(SearchError::UnknownWaypoint)) => self.router(
                aircraft,
            ) matches Some(g) && (from >= g.nodes() || to >= g.nodes()),
            Err(RouteError::Search(SearchError::NoPathExists)) => self.router(
                aircraft,
            ) matches Some(g) && from < g.nodes() && to < g.nodes() && g.unreachable(from, to),
            Err(RouteError::Search(SearchError::SearchLimitExceeded)) => false,
        }
    }

    /// A state with no waypoints and no router.
    pub fn new() -> (s: RoutingState)
        ensures
            s.well_formed(),
            s.current() is None,
            forall|a: Aircraft| #[trigger] s.router(a) is None,
    {
        RoutingState { waypoints: None, arrow_xl: None, arrow_cargo: None, arrow_interstate: None }
    }

    /// Installs `set` as the current waypoint set and drops every router,
    /// in one step.
    pub fn replace_waypoints(&mut self, set: WaypointSet)
        requires
            set.well_formed(),
        ensures
            final(self).well_formed(),
            final(self).current() == Some(set),
            forall|a: Aircraft| #[trigger] final(self).router(a) is None,
    {
        self.arrow_xl = None;
        self.arrow_cargo = None;
        self.arrow_interstate = None;
        self.waypoints = Some(set);
    }

    /// Drops the waypoint set and every router, in one step.
    pub fn clear(&mut self)
        ensures
            final(self).well_formed(),
            final(self).current() is None,
            forall|a: Aircraft| #[trigger] final(self).router(a) is None,
    {
        self.arrow_xl = None;
        self.arrow_cargo = None;
        self.arrow_interstate = None;
        self.waypoints = None;
    }

    /// Whether the router of `aircraft` has been initialized.
    pub fn is_initialized(&self, aircraft: Aircraft) -> (b: bool)
        ensures
            b == self.router(aircraft) is Some,
    {
        match aircraft {
            Aircraft::ArrowXl => self.arrow_xl.is_some(),
            Aircraft::ArrowCargo => self.arrow_cargo.is_some(),
            Aircraft::ArrowInterstate => self.arrow_interstate.is_some(),
        }
    }

    /// Builds the router of `aircraft` from the current waypoint set unless
    /// it is there already. Without waypoints nothing is built.
    pub fn ensure_initialized(&mut self, aircraft: Aircraft) -> (status: InitStatus)
        requires
            old(self).well_formed(),
        ensures
            step_initialize(*old(self), *final(self), aircraft, status),
    {
        let ready: bool = match &self.waypoints {
            Some(set) => set.len() > 0,
            None => false,
        };
        if !ready {
            return InitStatus::NodesNotReady;
        }
        if self.is_initialized(aircraft) {
            return InitStatus::AlreadyInitialized;
        }
        let built: Option<ProximityGraph> = match &self.waypoints {
            Some(set) => Some(ProximityGraph::build(set, aircraft.constraint())),
            None => None,
        };
        match aircraft {
            Aircraft::ArrowXl => {
                self.arrow_xl = built;
            },
            Aircraft::ArrowCargo => {
                self.arrow_cargo = built;
            },
            Aircraft::ArrowInterstate => {
                self.arrow_interstate = built;
            },
        }
        proof {
            assert forall|a: Aircraft| (#[trigger] self.router(a)) is Some implies {
                &&& self.nodes_ready()
                &&& self.router(a)->0.built_from(&self.current()->0, a.range())
            } by {
                if a != aircraft {
                    assert(self.router(a) == old(self).router(a));
                }
            }
        }
        InitStatus::Initialized
    }

    /// The edges of the router of `aircraft`, ordered by source and then by
    /// destination.
    pub fn get_edges(&self, aircraft: Aircraft) -> (r: Result<Vec<Edge>, RouteError>)
        ensures
            match r {
                Ok(edges) => self.router(aircraft) matches Some(g) && edges@ == g.edges(),
                Err(e) => e == RouteError::NotInitialized && self.router(aircraft) is None,
            },
    {
        let router: &Option<ProximityGraph> = match aircraft {
            Aircraft::ArrowXl => &self.arrow_xl,
            Aircraft::ArrowCargo => &self.arrow_cargo,
            Aircraft::ArrowInterstate => &self.arrow_interstate,
        };
        match router {
            Some(g) => Ok(g.get_edges()),
            None => Err(RouteError::NotInitialized),
        }
    }

    /// A lowest-cost walk from `from` to `to` in the router of `aircraft`:
    /// its cost, and its waypoints in travelling order.
    pub fn find_path(&self, aircraft: Aircraft, from: usize, to: usize) -> (r: Result<
        (u64, Vec<usize>),
        RouteError,
    >)
        requires
            self.well_formed(),
        ensures
            self.path_outcome(aircraft, from, to, r),
    {
        let router: &Option<ProximityGraph> = match aircraft {
            Aircraft::ArrowXl => &self.arrow_xl,
            Aircraft::ArrowCargo => &self.arrow_cargo,
            Aircraft::ArrowInterstate => &self.arrow_interstate,
        };
        match router {
            Some(g) => {
                assert(self.router(aircraft) == Some(*g));
                match find_shortest_path(g, from, to, Algorithm::Dijkstra, None, None) {
                    Ok(found) => Ok(found),
                    Err(e) => Err(RouteError::Search(e)),
                }
            },
            None => Err(RouteError::NotInitialized),
        }
    }
}

/// Asking twice in a row for the router of one profile, with waypoints
/// there and no router yet, builds it the first time and finds it there the
/// second time: the state, and with it the edges, stay as they were built.
pub proof fn lemma_initialize_once(
    before: RoutingState,
    between: RoutingState,
    after: RoutingState,
    aircraft: Aircraft,
    first: InitStatus,
    second: InitStatus,
)
    requires
        before.nodes_ready(),
        before.router(aircraft) is None,
        step_initialize(before, between, aircraft, first),
        step_initialize(between, after, aircraft, second),
    ensures
        first == InitStatus::Initialized,
        second == InitStatus::AlreadyInitialized,
        after == between,
        after.router(aircraft) is Some,
        after.router(aircraft)->0.edges() == between.router(aircraft)->0.edges(),
{
}

/// Once the waypoints have been replaced no profile has a router, and a
/// search for any profile is refused until its router is built again.
pub proof fn lemma_replacement_invalidates(
    after: RoutingState,
    aircraft: Aircraft,
    from: usize,
    to: usize,
    r: Result<(u64, Vec<usize>), RouteError>,
)
    requires
        forall|a: Aircraft| #[trigger] after.router(a) is None,
        after.path_outcome(aircraft, from, to, r),
    ensures
        after.router(aircraft) is None,
        r == Err::<(u64, Vec<usize>), RouteError>(RouteError::NotInitialized),
{
    assert(after.router(aircraft) is None);
}

/// What `ensure_initialized` promises of the state before and after it
/// and of the status it returns.
pub open spec fn step_initialize(
    before: RoutingState,
    after: RoutingState,
    aircraft: Aircraft,
    status: InitStatus,
) -> bool {
    &&& after.well_formed()
    &&& after.current() == before.current()
    &&& forall|a: Aircraft| a != aircraft ==> #[trigger] after.router(a) == before.router(a)
    &&& match status {
        InitStatus::NodesNotReady => !before.nodes_ready() && after == before,
        InitStatus::AlreadyInitialized => before.router(aircraft) is Some && after == before,
        InitStatus::Initialized => {
            &&& before.nodes_ready()
            &&& before.router(aircraft) is None
            &&& after.router(aircraft) is Some
        },
    }
}

} // verus!
