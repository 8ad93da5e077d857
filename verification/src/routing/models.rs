//! The candidate-route value type of the search.

use vstd::prelude::*;

verus! {

/// One hop of a candidate itinerary: a scheduled ride when `journey_id`
/// carries a journey, a stop-connection transfer when it is absent.
/// `arrival_at` is in minutes from midnight of the operating day.
#[derive(Clone, Copy, Debug, PartialEq, Eq, Structural, Hash)]
pub struct RouteSection {
    pub journey_id: Option<i32>,
    pub departure_stop_id: i32,
    pub arrival_stop_id: i32,
    pub arrival_at: u32,
}

/// An immutable partial itinerary: the ordered hops walked so far and the
/// set of stops they visit. Created and dropped within one search; never
/// shared between queries. Extension copies, it never mutates.
#[derive(Clone, Debug, PartialEq, Eq, Hash)]
pub struct Route {
    /// The stop the route starts from.
    pub origin_stop_id: i32,
    /// The time the route becomes available at its origin, in minutes.
    pub departure_at: u32,
    pub sections: Vec<RouteSection>,
    pub visited_stops: Vec<i32>,
}

impl Route {
    /// The stop the route has reached: the last hop's arrival stop, or the
    /// origin while there is no hop.
    pub open spec fn spec_arrival_stop_id(self) -> i32 {
        if self.sections@.len() == 0 {
            self.origin_stop_id
        } else {
            self.sections@.last().arrival_stop_id
        }
    }

    /// The time the route has reached its arrival stop: the last hop's
    /// arrival time, or the departure time while there is no hop.
    pub open spec fn spec_arrival_at(self) -> u32 {
        if self.sections@.len() == 0 {
            self.departure_at
        } else {
            self.sections@.last().arrival_at
        }
    }

    /// The set of stops the route runs through: the origin and each hop's
    /// arrival stop.
    pub open spec fn spec_route_stop(self, stop: i32) -> bool {
        stop == self.origin_stop_id || exists|i: int|
            0 <= i < self.sections@.len() && (#[trigger] self.sections@[i]).arrival_stop_id == stop
    }

    /// Well-formedness of a candidate route: hops chain stop to stop from
    /// the origin, arrival times never decrease, no stop is reached twice,
    /// and the visited-stop set holds exactly the origin and the stops the
    /// hops arrive at, each once.
    pub open spec fn wf(self) -> bool {
        &&& self.sections@.len() > 0 ==> self.sections@[0].departure_stop_id
            == self.origin_stop_id
        &&& forall|i: int|
            0 < i < self.sections@.len() ==> (#[trigger] self.sections@[i]).departure_stop_id
                == self.sections@[i - 1].arrival_stop_id
        &&& self.sections@.len() > 0 ==> self.sections@[0].arrival_at >= self.departure_at
        &&& forall|i: int|
            0 < i < self.sections@.len() ==> (#[trigger] self.sections@[i]).arrival_at
                >= self.sections@[i - 1].arrival_at
        &&& forall|i: int|
            0 <= i < self.sections@.len() ==> (#[trigger] self.sections@[i]).arrival_stop_id
                != self.origin_stop_id
        &&& forall|i: int, j: int|
            0 <= i < self.sections@.len() && 0 <= j < self.sections@.len() && i != j
                ==> (#[trigger] self.sections@[i]).arrival_stop_id
                != (#[trigger] self.sections@[j]).arrival_stop_id
        &&& self.visited_stops@.contains(self.origin_stop_id)
        &&& forall|i: int|
            0 <= i < self.sections@.len() ==> self.visited_stops@.contains(
                (#[trigger] self.sections@[i]).arrival_stop_id,
            )
        &&& forall|v: i32| #[trigger] self.visited_stops@.contains(v) ==> self.spec_route_stop(v)
        &&& forall|x: int, y: int|
            0 <= x < self.visited_stops@.len() && 0 <= y < self.visited_stops@.len() && x != y
                ==> #[trigger] self.visited_stops@[x] != #[trigger] self.visited_stops@[y]
    }

    /// Builds a route from its parts.
    pub fn new(
        origin_stop_id: i32,
        departure_at: u32,
        sections: Vec<RouteSection>,
        visited_stops: Vec<i32>,
    ) -> (r: Route)
        ensures
            r == (Route { origin_stop_id, departure_at, sections, visited_stops }),
    {
        Route { origin_stop_id, departure_at, sections, visited_stops }
    }

    /// A hop-less route standing at `origin_stop_id`, available from
    /// `departure_at`; its only visited stop is the origin.
    pub fn seed(origin_stop_id: i32, departure_at: u32) -> (r: Route)
        ensures
            r.origin_stop_id == origin_stop_id,
            r.departure_at == departure_at,
            r.sections@ == Seq::<RouteSection>::empty(),
            r.visited_stops@ == seq![origin_stop_id],
            r.wf(),
    {
        let mut visited_stops: Vec<i32> = Vec::new();
        visited_stops.push(origin_stop_id);
        let r = Route { origin_stop_id, departure_at, sections: Vec::new(), visited_stops };
        proof {
            assert(r.visited_stops@ =~= seq![origin_stop_id]);
            assert(r.visited_stops@[0] == origin_stop_id);
            assert(r.visited_stops@.contains(origin_stop_id));
        }
        r
    }

    /// The ordered hops.
    pub fn sections(&self) -> (r: &Vec<RouteSection>)
        ensures
            r@ == self.sections@,
    {
        &self.sections
    }

    /// The visited stops.
    pub fn visited_stops(&self) -> (r: &Vec<i32>)
        ensures
            r@ == self.visited_stops@,
    {
        &self.visited_stops
    }

    /// The stop the route has reached.
    pub fn arrival_stop_id(&self) -> (r: i32)
        ensures
            r == self.spec_arrival_stop_id(),
    {
        if self.sections.len() == 0 {
            self.origin_stop_id
        } else {
            self.sections[self.sections.len() - 1].arrival_stop_id
        }
    }

    /// The stop the route departs from: the first hop's departure stop, or
    /// the origin while there is no hop.
    pub fn departure_stop_id(&self) -> (r: i32)
        ensures
            r == if self.sections@.len() == 0 {
                self.origin_stop_id
            } else {
                self.sections@[0].departure_stop_id
            },
    {
        if self.sections.len() == 0 {
            self.origin_stop_id
        } else {
            self.sections[0].departure_stop_id
        }
    }

    /// The time the route has reached its arrival stop.
    pub fn arrival_at(&self) -> (r: u32)
        ensures
            r == self.spec_arrival_at(),
    {
        if self.sections.len() == 0 {
            self.departure_at
        } else {
            self.sections[self.sections.len() - 1].arrival_at
        }
    }

    /// The route one hop longer: a copy of this route with `section`
    /// appended and its arrival stop marked visited. The receiver is never
    /// touched.
    pub fn extend(&self, section: RouteSection) -> (r: Route)
        ensures
            r.origin_stop_id == self.origin_stop_id,
            r.departure_at == self.departure_at,
            r.sections@ == self.sections@.push(section),
            r.visited_stops@ == self.visited_stops@.push(section.arrival_stop_id),
    {
        let f = |s: Vec<RouteSection>, v: Vec<i32>| -> (out: (Vec<RouteSection>, Vec<i32>))
            ensures
                out.0@ == s@.push(section) && out.1@ == v@.push(section.arrival_stop_id),
            {
                let mut s2 = s;
                let mut v2 = v;
                s2.push(section);
                v2.push(section.arrival_stop_id);
                (s2, v2)
            };
        let r = crate::routing::utils::clone_update_route(self, f);
        proof {
            let a = choose|a: (Vec<RouteSection>, Vec<i32>)|
                a.0@ == self.sections@ && a.1@ == self.visited_stops@ && #[trigger] call_ensures(
                    f,
                    a,
                    (r.sections, r.visited_stops),
                );
            assert(r.sections@ == a.0@.push(section));
            assert(r.visited_stops@ == a.1@.push(section.arrival_stop_id));
        }
        r
    }

    /// Whether some hop is a scheduled ride.
    pub open spec fn spec_has_ride(self) -> bool {
        exists|i: int|
            0 <= i < self.sections@.len() && (#[trigger] self.sections@[i]).journey_id is Some
    }

    /// Whether some hop is a scheduled ride, as opposed to a route made of
    /// foot transfers alone.
    pub fn has_ride(&self) -> (r: bool)
        ensures
            r == self.spec_has_ride(),
    {
        let n = self.sections.len();
        let mut i: usize = 0;
        while i < n
            invariant
                n == self.sections@.len(),
                i <= n,
                forall|t: int| 0 <= t < i ==> (#[trigger] self.sections@[t]).journey_id is None,
            decreases n - i,
        {
            if self.sections[i].journey_id.is_some() {
                return true;
            }
            i += 1;
        }
        false
    }
}

/// The stop a route stands at after its first `i` hops: the origin, then
/// hop by hop each arrival stop.
pub open spec fn spec_route_stop_at(r: Route, i: int) -> i32 {
    if i == 0 {
        r.origin_stop_id
    } else {
        r.sections@[i - 1].arrival_stop_id
    }
}

/// A well-formed route never visits the same stop twice: the origin and
/// the arrival stops of its hops are pairwise distinct. Every route the
/// search returns is well-formed, so no produced itinerary repeats a
/// stop.
pub proof fn lemma_no_stop_visited_twice(r: Route, i: int, j: int)
    requires
        r.wf(),
        0 <= i < j <= r.sections@.len(),
    ensures
        spec_route_stop_at(r, i) != spec_route_stop_at(r, j),
{
}

/// Appending one hop to a well-formed route keeps it well-formed, as long
/// as the hop leaves the route's arrival stop no earlier than the route
/// arrived there and ends at a stop the route has not visited.
pub proof fn lemma_extend_wf(r: Route, s: RouteSection, e: Route)
    requires
        r.wf(),
        s.departure_stop_id == r.spec_arrival_stop_id(),
        s.arrival_at >= r.spec_arrival_at(),
        !r.visited_stops@.contains(s.arrival_stop_id),
        e.origin_stop_id == r.origin_stop_id,
        e.departure_at == r.departure_at,
        e.sections@ == r.sections@.push(s),
        e.visited_stops@ == r.visited_stops@.push(s.arrival_stop_id),
    ensures
        e.wf(),
        e.spec_arrival_stop_id() == s.arrival_stop_id,
        e.spec_arrival_at() == s.arrival_at,
{
    let n = r.sections@.len() as int;
    assert(e.sections@[n] == s);
    assert(forall|i: int| 0 <= i < n ==> #[trigger] e.sections@[i] == r.sections@[i]);
    assert(forall|i: int| 0 <= i < r.visited_stops@.len() ==> #[trigger] e.visited_stops@[i]
        == r.visited_stops@[i]);
    assert(e.visited_stops@[r.visited_stops@.len() as int] == s.arrival_stop_id);
    assert(s.arrival_stop_id != r.origin_stop_id) by {
        assert(r.visited_stops@.contains(r.origin_stop_id));
    }
    assert forall|i: int| 0 <= i < n implies (#[trigger] e.sections@[i]).arrival_stop_id
        != s.arrival_stop_id by {
        assert(r.visited_stops@.contains(r.sections@[i].arrival_stop_id));
    }
    assert forall|v: i32| #[trigger] e.visited_stops@.contains(v) implies e.spec_route_stop(v) by {
        let x = choose|x: int| 0 <= x < e.visited_stops@.len() && e.visited_stops@[x] == v;
        if x < r.visited_stops@.len() {
            assert(r.visited_stops@.contains(v));
            assert(r.spec_route_stop(v));
            if v != r.origin_stop_id {
                let i = choose|i: int|
                    0 <= i < r.sections@.len() && (#[trigger] r.sections@[i]).arrival_stop_id == v;
                assert(e.sections@[i].arrival_stop_id == v);
            }
        } else {
            assert(v == s.arrival_stop_id);
            assert(e.sections@[n].arrival_stop_id == v);
        }
    }
    assert(e.visited_stops@.contains(e.origin_stop_id)) by {
        let x = choose|x: int|
            0 <= x < r.visited_stops@.len() && r.visited_stops@[x] == r.origin_stop_id;
        assert(e.visited_stops@[x] == r.origin_stop_id);
    }
    assert forall|i: int| 0 <= i < e.sections@.len() implies e.visited_stops@.contains(
        (#[trigger] e.sections@[i]).arrival_stop_id,
    ) by {
        if i < n {
            assert(r.visited_stops@.contains(r.sections@[i].arrival_stop_id));
            let x = choose|x: int|
                0 <= x < r.visited_stops@.len() && r.visited_stops@[x] == r.sections@[i].arrival_stop_id;
            assert(e.visited_stops@[x] == e.sections@[i].arrival_stop_id);
        } else {
            assert(e.visited_stops@[r.visited_stops@.len() as int] == s.arrival_stop_id);
        }
    }
}

} // verus!
