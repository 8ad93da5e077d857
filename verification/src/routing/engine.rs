//! The earliest-arrival search engine: a time-ordered frontier of
//! candidate routes, expanded hop by hop over the timetable store.

use vstd::prelude::*;

use crate::index::contains_id;
use crate::index::spec_pair_key;
use crate::models::Date;
use crate::models::HrdfError;
use crate::models::StopConnection;
use crate::routing::models::Route;
use crate::routing::models::RouteSection;
use crate::routing::models::lemma_extend_wf;
use crate::routing::utils::get_operating_journeys;
use crate::routing::utils::get_routes_to_ignore;
use crate::routing::utils::get_stop_connections;
use crate::routing::utils::sorted_insert;
use crate::routing::utils::spec_ignored_fingerprint;
use crate::routing::utils::spec_sorted_by_arrival;
use crate::storage::DataStorage;

verus! {

/// The externally supplied bounds of one query: a cap on frontier pops, a
/// cap on hops per candidate route, and whether an itinerary made of foot
/// transfers alone counts as a result.
#[derive(Clone, Copy, Debug, PartialEq, Eq, Structural)]
pub struct SearchConfig {
    pub max_pops: u32,
    pub max_sections: u32,
    pub allow_foot_only: bool,
}

/// How a search ended: with itineraries; with itineraries cut short by
/// the effort budget, carrying the number of frontier pops spent (always
/// the whole budget); or with the frontier exhausted before the
/// destination was reached.
#[derive(Clone, Debug)]
pub enum SearchOutcome {
    Routes(Vec<Route>),
    RoutesTruncated { routes: Vec<Route>, pops: u32 },
    NoRouteFound,
}

/// The other endpoint of a connection, seen from `from`.
pub open spec fn spec_connection_target(c: StopConnection, from: i32) -> i32 {
    if c.stop_id_1 == from {
        c.stop_id_2
    } else {
        c.stop_id_1
    }
}

/// Whether the hop `s` is a transfer the timetable offers from
/// `prev_stop` at `prev_time`: a stored connection touching `prev_stop`
/// leads to the hop's arrival stop, and the hop arrives exactly its
/// duration later.
#[verifier::opaque]
pub open spec fn spec_transfer_section_ok(
    storage: DataStorage,
    prev_stop: i32,
    prev_time: u32,
    s: RouteSection,
) -> bool {
    &&& s.journey_id is None
    &&& s.departure_stop_id == prev_stop
    &&& exists|cid: i32|
        match #[trigger] storage.stop_connections.spec_find(cid as int) {
            Some(c) => c.spec_touches(prev_stop as int) && spec_connection_target(c, prev_stop)
                == s.arrival_stop_id && s.arrival_at == prev_time + c.duration,
            None => false,
        }
}

/// Whether the hop `s` is a ride the timetable offers on `date` from
/// `prev_stop` at `prev_time`: its journey operates at (`prev_stop`,
/// `date`), departs there no earlier than `prev_time`, and arrives at the
/// hop's stop at the hop's time, downstream of the boarding.
#[verifier::opaque]
pub open spec fn spec_ride_section_ok(
    storage: DataStorage,
    date: Date,
    prev_stop: i32,
    prev_time: u32,
    s: RouteSection,
) -> bool {
    match s.journey_id {
        Some(jid) => storage.spec_journey_operating_at(jid, prev_stop, date) && {
            let j = storage.journeys.spec_find(jid as int)->Some_0;
            exists|p: int, q: int|
                0 <= p < q < j.visits@.len() && (#[trigger] j.visits@[p]).stop_id == prev_stop && (
                #[trigger] j.visits@[q]).stop_id == s.arrival_stop_id && match j.visits@[p].departure_time {
                    Some(dep) => dep >= prev_time,
                    None => false,
                } && j.visits@[q].arrival_time == Some(s.arrival_at)
        },
        None => false,
    }
}

/// Whether the hop `s` is one the timetable offers on `date` from
/// `prev_stop` at `prev_time`, as a transfer or as a ride.
pub open spec fn spec_section_ok(
    storage: DataStorage,
    date: Date,
    prev_stop: i32,
    prev_time: u32,
    s: RouteSection,
) -> bool {
    spec_transfer_section_ok(storage, prev_stop, prev_time, s) || spec_ride_section_ok(
        storage,
        date,
        prev_stop,
        prev_time,
        s,
    )
}

/// The stop a route stands at just before its hop `i`.
pub open spec fn spec_prev_stop(r: Route, i: int) -> i32 {
    if i == 0 {
        r.origin_stop_id
    } else {
        r.sections@[i - 1].arrival_stop_id
    }
}

/// The time a route stands there just before its hop `i`.
pub open spec fn spec_prev_time(r: Route, i: int) -> u32 {
    if i == 0 {
        r.departure_at
    } else {
        r.sections@[i - 1].arrival_at
    }
}

/// Whether a route is an itinerary the timetable really offers on `date`:
/// it is well-formed, and each hop is a transfer or a ride the timetable
/// offers where and when the route stands.
pub open spec fn spec_valid_route(storage: DataStorage, date: Date, r: Route) -> bool {
    &&& r.wf()
    &&& forall|i: int|
        0 <= i < r.sections@.len() ==> spec_section_ok(
            storage,
            date,
            spec_prev_stop(r, i),
            spec_prev_time(r, i),
            #[trigger] r.sections@[i],
        )
}

/// Whether visit `p` of `j` lets one board at `stop`, departing no
/// earlier than `ready` and `floor`.
pub open spec fn spec_boarding_at(j: crate::models::Journey, p: int, stop: i32, ready: u32, floor: u32) -> bool {
    &&& 0 <= p < j.visits@.len()
    &&& j.visits@[p].stop_id == stop
    &&& match j.visits@[p].departure_time {
        Some(d) => d >= ready && d >= floor,
        None => false,
    }
}

/// The first visit of `j` at `stop` that departs no earlier than `ready`
/// and `floor`, if any.
fn find_boarding(j: &crate::models::Journey, stop: i32, ready: u32, floor: u32) -> (r: Option<
    usize,
>)
    ensures
        match r {
            Some(p) => spec_boarding_at(*j, p as int, stop, ready, floor) && forall|p2: int|
                0 <= p2 < p ==> !spec_boarding_at(*j, p2, stop, ready, floor),
            None => forall|p2: int| !spec_boarding_at(*j, p2, stop, ready, floor),
        },
{
    let m = j.visits.len();
    let mut p: usize = 0;
    while p < m
        invariant
            m == j.visits@.len(),
            p <= m,
            forall|p2: int| 0 <= p2 < p ==> !spec_boarding_at(*j, p2, stop, ready, floor),
        decreases m - p,
    {
        let v = j.visits[p];
        if v.stop_id == stop {
            if let Some(dep) = v.departure_time {
                if dep >= ready && dep >= floor {
                    return Some(p);
                }
            }
        }
        p += 1;
    }
    None
}

/// The transfer hop the connection `c` offers from `from` at `time`.
pub open spec fn spec_transfer_hop(c: StopConnection, from: i32, time: u32) -> RouteSection {
    RouteSection {
        journey_id: None,
        departure_stop_id: from,
        arrival_stop_id: spec_connection_target(c, from),
        arrival_at: (time + c.duration) as u32,
    }
}

/// The ride hop on journey `j` from `from`, alighting at its visit `q`.
pub open spec fn spec_ride_hop(j: crate::models::Journey, from: i32, q: int) -> RouteSection {
    RouteSection {
        journey_id: Some(j.id),
        departure_stop_id: from,
        arrival_stop_id: j.visits@[q].stop_id,
        arrival_at: j.visits@[q].arrival_time->Some_0,
    }
}

/// The exchange time in minutes the engine requires before boarding `j2`
/// as a continuation of `r`: the resolved precedence value when `r` last
/// rode a stored journey and stands at a stored stop, zero otherwise, and
/// never negative.
#[verifier::opaque]
pub open spec fn spec_required_gap(storage: DataStorage, r: Route, j2: crate::models::Journey) -> u32 {
    if r.sections@.len() > 0 && r.sections@.last().journey_id is Some {
        let j1id = r.sections@.last().journey_id->Some_0;
        match (
            storage.stops.spec_find(r.spec_arrival_stop_id() as int),
            storage.journeys.spec_find(j1id as int),
        ) {
            (Some(stop), Some(j1)) => {
                let et = storage.spec_exchange_time(stop, j1, j2);
                if et < 0 {
                    0
                } else {
                    et as u32
                }
            },
            _ => 0,
        }
    } else {
        0
    }
}

/// Whether some element of `out` is the one-hop extension of `r` by `s`.
#[verifier::opaque]
pub open spec fn spec_produces(out: Seq<Route>, r: Route, s: RouteSection) -> bool {
    exists|k: int| 0 <= k < out.len() && (#[trigger] out[k]).sections@ == r.sections@.push(s)
}

/// Whatever an expansion has produced stays produced as it grows.
proof fn lemma_produces_monotone(out: Seq<Route>, e: Route, r: Route, s: RouteSection)
    requires
        spec_produces(out, r, s),
    ensures
        spec_produces(out.push(e), r, s),
{
    reveal(spec_produces);
    let k = choose|k: int|
        0 <= k < out.len() && (#[trigger] out[k]).sections@ == r.sections@.push(s);
    assert(out.push(e)[k] == out[k]);
}

/// Whether the expansion of `r` owes the transfer over the stored
/// connection `cid`: it touches the route's arrival stop, leads to a stop
/// the route has not visited, and its arrival time fits.
#[verifier::opaque]
pub open spec fn transfer_candidate_due(storage: DataStorage, r: Route, cid: i32) -> bool {
    match storage.stop_connections.spec_find(cid as int) {
        Some(c) => c.spec_touches(r.spec_arrival_stop_id() as int) && !r.visited_stops@.contains(
            spec_connection_target(c, r.spec_arrival_stop_id()),
        ) && r.spec_arrival_at() + c.duration <= u32::MAX,
        None => false,
    }
}

/// Completeness of an expansion over transfers: every owed transfer hop
/// was produced.
pub open spec fn transfers_covered(storage: DataStorage, r: Route, out: Seq<Route>) -> bool {
    forall|cid: i32|
        #[trigger] transfer_candidate_due(storage, r, cid) ==> spec_produces(
            out,
            r,
            spec_transfer_hop(
                storage.stop_connections.spec_find(cid as int)->Some_0,
                r.spec_arrival_stop_id(),
                r.spec_arrival_at(),
            ),
        )
}

/// Whether the expansion of `r` owes the ride on the stored journey `jid`
/// alighting at its visit `q`: the journey operates at the route's
/// arrival stop on `date`, its continuation there is not already folded
/// into `r`, the required exchange time fits, `p` is the first boarding
/// meeting it, and visit `q` lies downstream with an arrival time no
/// earlier than the route's at a stop the route has not visited.
#[verifier::opaque]
pub open spec fn ride_candidate_due(
    storage: DataStorage,
    date: Date,
    r: Route,
    jid: i32,
    p: int,
    q: int,
) -> bool {
    let stop = r.spec_arrival_stop_id();
    let time = r.spec_arrival_at();
    match storage.journeys.spec_find(jid as int) {
        Some(j) => {
            let gap = spec_required_gap(storage, r, j);
            let ready = (time + gap) as u32;
            &&& storage.spec_journey_operating_at(jid, stop, date)
            &&& !spec_ignored_fingerprint(storage, r, spec_pair_key(jid, stop))
            &&& time + gap <= u32::MAX
            &&& spec_boarding_at(j, p, stop, ready, time)
            &&& forall|p2: int| 0 <= p2 < p ==> !spec_boarding_at(j, p2, stop, ready, time)
            &&& p < q < j.visits@.len()
            &&& j.visits@[q].arrival_time is Some
            &&& j.visits@[q].arrival_time->Some_0 >= time
            &&& !r.visited_stops@.contains(j.visits@[q].stop_id)
        },
        None => false,
    }
}

/// Completeness of an expansion over rides: every owed ride hop was
/// produced.
pub open spec fn rides_covered(storage: DataStorage, date: Date, r: Route, out: Seq<Route>) -> bool {
    forall|jid: i32, p: int, q: int|
        #[trigger] ride_candidate_due(storage, date, r, jid, p, q) ==> spec_produces(
            out,
            r,
            spec_ride_hop(
                storage.journeys.spec_find(jid as int)->Some_0,
                r.spec_arrival_stop_id(),
                q,
            ),
        )
}

/// Completeness over the rides of the first `w` operating journeys.
pub open spec fn rides_covered_prefix(
    storage: DataStorage,
    date: Date,
    r: Route,
    js: Seq<&crate::models::Journey>,
    w: int,
    out: Seq<Route>,
) -> bool {
    forall|t: int, p: int, q: int|
        0 <= t < w && #[trigger] ride_candidate_due(storage, date, r, js[t].id, p, q)
            ==> spec_produces(out, r, spec_ride_hop(*js[t], r.spec_arrival_stop_id(), q))
}

/// A valid route extended by a hop the timetable offers at its arrival
/// stop stays valid.
#[verifier::rlimit(100)]
#[verifier::spinoff_prover]
proof fn lemma_valid_extend(storage: DataStorage, date: Date, r: Route, s: RouteSection, e: Route)
    requires
        spec_valid_route(storage, date, r),
        spec_section_ok(storage, date, r.spec_arrival_stop_id(), r.spec_arrival_at(), s),
        s.departure_stop_id == r.spec_arrival_stop_id(),
        s.arrival_at >= r.spec_arrival_at(),
        !r.visited_stops@.contains(s.arrival_stop_id),
        e.origin_stop_id == r.origin_stop_id,
        e.departure_at == r.departure_at,
        e.sections@ == r.sections@.push(s),
        e.visited_stops@ == r.visited_stops@.push(s.arrival_stop_id),
    ensures
        spec_valid_route(storage, date, e),
        e.spec_arrival_stop_id() == s.arrival_stop_id,
        e.spec_arrival_at() == s.arrival_at,
{
    lemma_extend_wf(r, s, e);
    lemma_sections_carry(storage, date, r, s, e);
}

/// The hop-by-hop validity of a route carries over to its extension by
/// one offered hop.
proof fn lemma_sections_carry(storage: DataStorage, date: Date, r: Route, s: RouteSection, e: Route)
    requires
        e.origin_stop_id == r.origin_stop_id,
        e.departure_at == r.departure_at,
        e.sections@ == r.sections@.push(s),
        forall|i: int|
            0 <= i < r.sections@.len() ==> spec_section_ok(
                storage,
                date,
                spec_prev_stop(r, i),
                spec_prev_time(r, i),
                #[trigger] r.sections@[i],
            ),
        spec_section_ok(storage, date, r.spec_arrival_stop_id(), r.spec_arrival_at(), s),
    ensures
        forall|i: int|
            0 <= i < e.sections@.len() ==> spec_section_ok(
                storage,
                date,
                spec_prev_stop(e, i),
                spec_prev_time(e, i),
                #[trigger] e.sections@[i],
            ),
{
    let n = r.sections@.len() as int;
    assert forall|i: int|
        0 <= i < e.sections@.len() implies spec_section_ok(
        storage,
        date,
        spec_prev_stop(e, i),
        spec_prev_time(e, i),
        #[trigger] e.sections@[i],
    ) by {
        if i < n {
            assert(e.sections@[i] == r.sections@[i]);
            assert(spec_prev_stop(e, i) == spec_prev_stop(r, i));
            assert(spec_prev_time(e, i) == spec_prev_time(r, i));
            assert(spec_section_ok(
                storage,
                date,
                spec_prev_stop(r, i),
                spec_prev_time(r, i),
                r.sections@[i],
            ));
        } else {
            assert(e.sections@[i] == s);
            assert(spec_prev_stop(e, i) == r.spec_arrival_stop_id());
            assert(spec_prev_time(e, i) == r.spec_arrival_at());
        }
    }
}

/// Expands one candidate route by every admissible next hop: transfers
/// over the stop's connections and rides on the journeys operating at the
/// stop on `date`. Every produced route extends `r` by one hop the
/// timetable offers, ends at a stop `r` has not visited, arrives no
/// earlier than `r`, and — for a ride — boards no journey whose
/// continuation fingerprint at `r`'s arrival stop is already folded into
/// `r`.
#[verifier::rlimit(100)]
#[verifier::spinoff_prover]
pub fn expand_route(storage: &DataStorage, date: Date, r: &Route) -> (out: Vec<Route>)
    requires
        storage.wf(),
        spec_valid_route(*storage, date, *r),
    ensures
        forall|k: int|
            0 <= k < out@.len() ==> expansion_ok(*storage, date, *r, #[trigger] out@[k]),
        transfers_covered(*storage, *r, out@),
        rides_covered(*storage, date, *r, out@),
{
    let current_stop = r.arrival_stop_id();
    let current_time = r.arrival_at();
    let ignore = get_routes_to_ignore(storage, r);
    let mut out: Vec<Route> = Vec::new();
    match get_stop_connections(storage, current_stop) {
        None => {
            proof {
                assert forall|cid: i32| !(#[trigger] transfer_candidate_due(*storage, *r, cid)) by {
                    reveal(transfer_candidate_due);
                    assert(!storage.spec_connection_touches(cid, current_stop));
                }
            }
        },
        Some(conns) => {
            let n = conns.len();
            let mut k: usize = 0;
            while k < n
                invariant
                    storage.wf(),
                    spec_valid_route(*storage, date, *r),
                    current_stop == r.spec_arrival_stop_id(),
                    current_time == r.spec_arrival_at(),
                    n == conns@.len(),
                    k <= n,
                    forall|t: int|
                        0 <= t < n ==> storage.stop_connections.spec_find(
                            (#[trigger] conns@[t]).id as int,
                        ) == Some(*conns@[t]) && conns@[t].spec_touches(current_stop as int),
                    forall|cid: i32|
                        storage.spec_connection_touches(cid, current_stop) ==> exists|t: int|
                            0 <= t < n && (#[trigger] conns@[t]).id == cid,
                    forall|t: int|
                        0 <= t < k ==> (transfer_candidate_due(
                            *storage,
                            *r,
                            (#[trigger] conns@[t]).id,
                        ) ==> spec_produces(
                            out@,
                            *r,
                            spec_transfer_hop(*conns@[t], current_stop, current_time),
                        )),
                    forall|x: int|
                        0 <= x < out@.len() ==> expansion_ok(*storage, date, *r, #[trigger] out@[x]),
                decreases n - k,
            {
                let ghost pre_out = out@;
                let c = conns[k];
                let target = if c.stop_id_1 == current_stop {
                    c.stop_id_2
                } else {
                    c.stop_id_1
                };
                proof {
                    assert(target == spec_connection_target(*c, current_stop));
                }
                if !contains_id(&r.visited_stops, target) && current_time <= u32::MAX - (
                c.duration as u32) {
                    let arr = current_time + (c.duration as u32);
                    let s = RouteSection {
                        journey_id: None,
                        departure_stop_id: current_stop,
                        arrival_stop_id: target,
                        arrival_at: arr,
                    };
                    let e = r.extend(s);
                    proof {
                        assert(spec_transfer_section_ok(*storage, current_stop, current_time, s))
                            by {
                            reveal(spec_transfer_section_ok);
                            assert(storage.stop_connections.spec_find(c.id as int) == Some(*c));
                        }
                        lemma_valid_extend(*storage, date, *r, s, e);
                    }
                    out.push(e);
                    proof {
                        assert(s == spec_transfer_hop(*c, current_stop, current_time));
                        assert(out@ == pre_out.push(e));
                        assert(out@[pre_out.len() as int].sections@ == r.sections@.push(s));
                        assert(spec_produces(out@, *r, s)) by {
                            reveal(spec_produces);
                        }
                        assert forall|t: int|
                            0 <= t < k && transfer_candidate_due(
                                *storage,
                                *r,
                                (#[trigger] conns@[t]).id,
                            ) implies spec_produces(
                            out@,
                            *r,
                            spec_transfer_hop(*conns@[t], current_stop, current_time),
                        ) by {
                            lemma_produces_monotone(
                                pre_out,
                                e,
                                *r,
                                spec_transfer_hop(*conns@[t], current_stop, current_time),
                            );
                        }
                    }
                } else {
                    proof {
                        assert(!transfer_candidate_due(*storage, *r, c.id)) by {
                            reveal(transfer_candidate_due);
                            assert(storage.stop_connections.spec_find(c.id as int) == Some(*c));
                        }
                    }
                }
                k += 1;
            }
            proof {
                assert forall|cid: i32| #[trigger] transfer_candidate_due(*storage, *r, cid)
                    implies spec_produces(
                    out@,
                    *r,
                    spec_transfer_hop(
                        storage.stop_connections.spec_find(cid as int)->Some_0,
                        current_stop,
                        current_time,
                    ),
                ) by {
                    reveal(transfer_candidate_due);
                    assert(storage.spec_connection_touches(cid, current_stop));
                    let t = choose|t: int| 0 <= t < n && (#[trigger] conns@[t]).id == cid;
                    assert(storage.stop_connections.spec_find(cid as int) == Some(*conns@[t]));
                }
            }
        },
    }
    proof {
        assert(transfers_covered(*storage, *r, out@));
    }
    let journeys = get_operating_journeys(storage, date, current_stop);
    let jn = journeys.len();
    let mut w: usize = 0;
    while w < jn
        invariant
            storage.wf(),
            spec_valid_route(*storage, date, *r),
            current_stop == r.spec_arrival_stop_id(),
            jn == journeys@.len(),
            w <= jn,
            forall|t: int|
                0 <= t < jn ==> storage.spec_journey_operating_at(
                    (#[trigger] journeys@[t]).id,
                    current_stop,
                    date,
                ) && storage.journeys.spec_find(journeys@[t].id as int) == Some(*journeys@[t]),
            forall|h: u64|
                #[trigger] ignore@.contains(h) <==> spec_ignored_fingerprint(*storage, *r, h),
            transfers_covered(*storage, *r, out@),
            rides_covered_prefix(*storage, date, *r, journeys@, w as int, out@),
            forall|x: int|
                0 <= x < out@.len() ==> expansion_ok(*storage, date, *r, #[trigger] out@[x]),
        decreases jn - w,
    {
        let ghost pre_out = out@;
        let j2 = journeys[w];
        expand_journey_rides(storage, date, r, j2, &ignore, &mut out);
        proof {
            lemma_covered_extended(*storage, date, *r, journeys@, w as int, pre_out, out@);
            assert forall|t: int, p2: int, q2: int|
                0 <= t < w + 1 && #[trigger] ride_candidate_due(
                    *storage,
                    date,
                    *r,
                    journeys@[t].id,
                    p2,
                    q2,
                ) implies spec_produces(
                out@,
                *r,
                spec_ride_hop(*journeys@[t], r.spec_arrival_stop_id(), q2),
            ) by {
                if t == w {
                    assert(journeys@[t] == j2);
                }
            }
        }
        w += 1;
    }
    proof {
        assert forall|jid: i32, p: int, q: int| #[trigger] ride_candidate_due(
            *storage,
            date,
            *r,
            jid,
            p,
            q,
        ) implies spec_produces(
            out@,
            *r,
            spec_ride_hop(storage.journeys.spec_find(jid as int)->Some_0, current_stop, q),
        ) by {
            assert(storage.spec_journey_operating_at(jid, current_stop, date)) by {
                reveal(ride_candidate_due);
            }
            let t = choose|t: int|
                0 <= t < journeys@.len() && (#[trigger] journeys@[t]).id == jid;
            assert(storage.journeys.spec_find(jid as int) == Some(*journeys@[t]));
        }
    }
    out
}

/// Whether every ride the expansion of `r` owes on journey `j` was
/// produced.
pub open spec fn journey_covered(
    storage: DataStorage,
    date: Date,
    r: Route,
    j: crate::models::Journey,
    out: Seq<Route>,
) -> bool {
    forall|p: int, q: int|
        #[trigger] ride_candidate_due(storage, date, r, j.id, p, q) ==> spec_produces(
            out,
            r,
            spec_ride_hop(j, r.spec_arrival_stop_id(), q),
        )
}

/// Expands `r` by every ride it owes on the operating journey `j2`:
/// appends the produced routes to `out`, touching nothing already there.
#[verifier::rlimit(100)]
#[verifier::spinoff_prover]
fn expand_journey_rides(
    storage: &DataStorage,
    date: Date,
    r: &Route,
    j2: &crate::models::Journey,
    ignore: &Vec<u64>,
    out: &mut Vec<Route>,
)
    requires
        storage.wf(),
        spec_valid_route(*storage, date, *r),
        storage.spec_journey_operating_at(j2.id, r.spec_arrival_stop_id(), date),
        storage.journeys.spec_find(j2.id as int) == Some(*j2),
        forall|h: u64|
            #[trigger] ignore@.contains(h) <==> spec_ignored_fingerprint(*storage, *r, h),
    ensures
        old(out)@.len() <= final(out)@.len(),
        forall|x: int| 0 <= x < old(out)@.len() ==> #[trigger] final(out)@[x] == old(out)@[x],
        forall|x: int|
            old(out)@.len() <= x < final(out)@.len() ==> expansion_ok(
                *storage,
                date,
                *r,
                #[trigger] final(out)@[x],
            ),
        journey_covered(*storage, date, *r, *j2, final(out)@),
{
    let current_stop = r.arrival_stop_id();
    let current_time = r.arrival_at();
    let fingerprint = match j2.hash_route(current_stop) {
        Some(h) => h,
        None => {
            proof {
                assert(false);
            }
            0
        },
    };
    if contains_u64(ignore, fingerprint) {
        proof {
            assert forall|p: int, q: int|
                !(#[trigger] ride_candidate_due(*storage, date, *r, j2.id, p, q)) by {
                reveal(ride_candidate_due);
                assert(spec_ignored_fingerprint(
                    *storage,
                    *r,
                    spec_pair_key(j2.id, current_stop),
                ));
            }
        }
        return ;
    }
    let mut gap: u32 = 0;
    if r.sections.len() > 0 {
        if let Some(j1id) = r.sections[r.sections.len() - 1].journey_id {
            match (storage.stops.find(current_stop), storage.journeys.find(j1id)) {
                (Ok(stop), Ok(j1)) => {
                    let et = storage.exchange_time_between(stop, j1, j2);
                    gap = if et < 0 {
                        0
                    } else {
                        et as u32
                    };
                },
                _ => {},
            }
        }
    }
    proof {
        assert(gap == spec_required_gap(*storage, *r, *j2)) by {
            reveal(spec_required_gap);
        }
    }
    if current_time > u32::MAX - gap {
        proof {
            assert forall|p: int, q: int|
                !(#[trigger] ride_candidate_due(*storage, date, *r, j2.id, p, q)) by {
                reveal(ride_candidate_due);
            }
        }
        return ;
    }
    let ready = current_time + gap;
    let p = match find_boarding(j2, current_stop, ready, current_time) {
        Some(p) => p,
        None => {
            proof {
                assert forall|p: int, q: int|
                    !(#[trigger] ride_candidate_due(*storage, date, *r, j2.id, p, q)) by {
                    reveal(ride_candidate_due);
                }
            }
            return ;
        },
    };
    let ghost pre = out@;
    let m = j2.visits.len();
    let mut q: usize = p + 1;
    while q < m
        invariant
            storage.wf(),
            spec_valid_route(*storage, date, *r),
            current_stop == r.spec_arrival_stop_id(),
            current_time == r.spec_arrival_at(),
            storage.spec_journey_operating_at(j2.id, current_stop, date),
            storage.journeys.spec_find(j2.id as int) == Some(*j2),
            !spec_ignored_fingerprint(*storage, *r, spec_pair_key(j2.id, current_stop)),
            ready == current_time + spec_required_gap(*storage, *r, *j2),
            m == j2.visits@.len(),
            p < m,
            q >= p + 1,
            spec_boarding_at(*j2, p as int, current_stop, ready, current_time),
            pre.len() <= out@.len(),
            forall|x: int| 0 <= x < pre.len() ==> #[trigger] out@[x] == pre[x],
            forall|x: int|
                pre.len() <= x < out@.len() ==> expansion_ok(
                    *storage,
                    date,
                    *r,
                    #[trigger] out@[x],
                ),
            forall|q2: int|
                p < q2 < q && (#[trigger] j2.visits@[q2]).arrival_time is Some
                    && j2.visits@[q2].arrival_time->Some_0 >= current_time
                    && !r.visited_stops@.contains(j2.visits@[q2].stop_id) ==> spec_produces(
                    out@,
                    *r,
                    spec_ride_hop(*j2, current_stop, q2),
                ),
        decreases m - q,
    {
        let ghost pre_out = out@;
        let vq = j2.visits[q];
        if let Some(arr) = vq.arrival_time {
            if arr >= current_time && !contains_id(&r.visited_stops, vq.stop_id) {
                push_ride_extension(storage, date, r, j2, p, q, out);
                proof {
                    assert forall|q2: int|
                        p < q2 < q + 1 && (#[trigger] j2.visits@[q2]).arrival_time is Some
                            && j2.visits@[q2].arrival_time->Some_0 >= current_time
                            && !r.visited_stops@.contains(j2.visits@[q2].stop_id)
                            implies spec_produces(
                        out@,
                        *r,
                        spec_ride_hop(*j2, current_stop, q2),
                    ) by {
                        if q2 < q {
                            lemma_produces_extended(
                                pre_out,
                                out@,
                                *r,
                                spec_ride_hop(*j2, current_stop, q2),
                            );
                        } else {
                            assert(out@.last().sections@ == r.sections@.push(
                                spec_ride_hop(*j2, current_stop, q as int),
                            ));
                            assert(spec_produces(
                                out@,
                                *r,
                                spec_ride_hop(*j2, current_stop, q as int),
                            )) by {
                                reveal(spec_produces);
                            }
                        }
                    }
                }
            }
        }
        q += 1;
    }
    proof {
        assert forall|p2: int, q2: int|
            #[trigger] ride_candidate_due(*storage, date, *r, j2.id, p2, q2) implies spec_produces(
            out@,
            *r,
            spec_ride_hop(*j2, current_stop, q2),
        ) by {
            reveal(ride_candidate_due);
            assert(spec_boarding_at(*j2, p2, current_stop, ready, current_time));
            if p2 < p as int {
                assert(!spec_boarding_at(*j2, p2, current_stop, ready, current_time));
            }
            if (p as int) < p2 {
                assert(!spec_boarding_at(*j2, p as int, current_stop, ready, current_time));
            }
            assert(p2 == p as int);
        }
    }
}


/// Appends to `out` the one-hop extension of `r` riding `j2` from its
/// visit `p` to its visit `q`.
#[verifier::spinoff_prover]
fn push_ride_extension(
    storage: &DataStorage,
    date: Date,
    r: &Route,
    j2: &crate::models::Journey,
    p: usize,
    q: usize,
    out: &mut Vec<Route>,
)
    requires
        storage.wf(),
        spec_valid_route(*storage, date, *r),
        storage.spec_journey_operating_at(j2.id, r.spec_arrival_stop_id(), date),
        storage.journeys.spec_find(j2.id as int) == Some(*j2),
        !spec_ignored_fingerprint(
            *storage,
            *r,
            spec_pair_key(j2.id, r.spec_arrival_stop_id()),
        ),
        p < q < j2.visits@.len(),
        j2.visits@[p as int].stop_id == r.spec_arrival_stop_id(),
        match j2.visits@[p as int].departure_time {
            Some(d) => d >= r.spec_arrival_at(),
            None => false,
        },
        match j2.visits@[q as int].arrival_time {
            Some(a) => a >= r.spec_arrival_at(),
            None => false,
        },
        !r.visited_stops@.contains(j2.visits@[q as int].stop_id),
    ensures
        final(out)@.len() == old(out)@.len() + 1,
        forall|x: int| 0 <= x < old(out)@.len() ==> #[trigger] final(out)@[x] == old(out)@[x],
        expansion_ok(*storage, date, *r, final(out)@.last()),
        final(out)@.last().sections@ == r.sections@.push(
            spec_ride_hop(*j2, r.spec_arrival_stop_id(), q as int),
        ),
{
    let current_stop = r.arrival_stop_id();
    let current_time = r.arrival_at();
    let vq = j2.visits[q];
    let arr = match vq.arrival_time {
        Some(arr) => arr,
        None => {
            proof {
                assert(false);
            }
            0
        },
    };
    let s = RouteSection {
        journey_id: Some(j2.id),
        departure_stop_id: current_stop,
        arrival_stop_id: vq.stop_id,
        arrival_at: arr,
    };
    let e = r.extend(s);
    proof {
        assert(spec_ride_section_ok(*storage, date, current_stop, current_time, s)) by {
            reveal(spec_ride_section_ok);
            let j = storage.journeys.spec_find(j2.id as int)->Some_0;
            assert(j == *j2);
            assert(0 <= p < q < j.visits@.len() && j.visits@[p as int].stop_id == current_stop
                && j.visits@[q as int].stop_id == s.arrival_stop_id
                && j.visits@[q as int].arrival_time == Some(s.arrival_at));
            assert(j.visits@[p as int].departure_time->Some_0 >= current_time);
        }
        lemma_valid_extend(*storage, date, *r, s, e);
        assert(s == spec_ride_hop(*j2, current_stop, q as int));
    }
    out.push(e);
}
/// Whatever an expansion has produced stays produced as it is extended.
proof fn lemma_produces_extended(out1: Seq<Route>, out2: Seq<Route>, r: Route, s: RouteSection)
    requires
        spec_produces(out1, r, s),
        out1.len() <= out2.len(),
        forall|x: int| 0 <= x < out1.len() ==> #[trigger] out2[x] == out1[x],
    ensures
        spec_produces(out2, r, s),
{
    reveal(spec_produces);
    let k = choose|k: int|
        0 <= k < out1.len() && (#[trigger] out1[k]).sections@ == r.sections@.push(s);
    assert(out2[k] == out1[k]);
}

/// Coverage of transfers and of a prefix of the operating journeys is
/// kept as an expansion is extended.
proof fn lemma_covered_extended(
    storage: DataStorage,
    date: Date,
    r: Route,
    js: Seq<&crate::models::Journey>,
    w: int,
    out1: Seq<Route>,
    out2: Seq<Route>,
)
    requires
        transfers_covered(storage, r, out1),
        rides_covered_prefix(storage, date, r, js, w, out1),
        out1.len() <= out2.len(),
        forall|x: int| 0 <= x < out1.len() ==> #[trigger] out2[x] == out1[x],
    ensures
        transfers_covered(storage, r, out2),
        rides_covered_prefix(storage, date, r, js, w, out2),
{
    assert forall|cid: i32| #[trigger] transfer_candidate_due(storage, r, cid) implies spec_produces(
        out2,
        r,
        spec_transfer_hop(
            storage.stop_connections.spec_find(cid as int)->Some_0,
            r.spec_arrival_stop_id(),
            r.spec_arrival_at(),
        ),
    ) by {
        lemma_produces_extended(
            out1,
            out2,
            r,
            spec_transfer_hop(
                storage.stop_connections.spec_find(cid as int)->Some_0,
                r.spec_arrival_stop_id(),
                r.spec_arrival_at(),
            ),
        );
    }
    assert forall|t: int, p: int, q: int|
        0 <= t < w && #[trigger] ride_candidate_due(storage, date, r, js[t].id, p, q)
            implies spec_produces(out2, r, spec_ride_hop(*js[t], r.spec_arrival_stop_id(), q)) by {
        lemma_produces_extended(out1, out2, r, spec_ride_hop(*js[t], r.spec_arrival_stop_id(), q));
    }
}

/// What every route produced by one expansion step satisfies, relative to
/// the route it extends.
pub open spec fn expansion_ok(storage: DataStorage, date: Date, r: Route, e: Route) -> bool {
    &&& spec_valid_route(storage, date, e)
    &&& e.origin_stop_id == r.origin_stop_id
    &&& e.departure_at == r.departure_at
    &&& e.sections@.len() == r.sections@.len() + 1
    &&& e.spec_arrival_at() >= r.spec_arrival_at()
    &&& !r.visited_stops@.contains(e.spec_arrival_stop_id())
    &&& match e.sections@.last().journey_id {
        Some(jid) => !spec_ignored_fingerprint(
            storage,
            r,
            spec_pair_key(jid, r.spec_arrival_stop_id()),
        ),
        None => true,
    }
}

/// Whether the candidate route ends a query for `d` under `config`: it
/// stands at `d`, and counts as through-service.
pub open spec fn completes_at(rt: Route, d: i32, config: SearchConfig) -> bool {
    rt.spec_arrival_stop_id() == d && (rt.sections@.len() == 0 || rt.spec_has_ride()
        || config.allow_foot_only)
}

/// One witness that the stored journey `jid` offers a single ride from
/// `origin`, boarded at its first suitable visit `p` no earlier than
/// `departure_at`, alighting at its visit `q` at the stop `d`.
#[verifier::opaque]
pub open spec fn direct_ride_witness(
    storage: DataStorage,
    date: Date,
    origin: i32,
    departure_at: u32,
    d: i32,
    jid: i32,
    p: int,
    q: int,
) -> bool {
    match storage.journeys.spec_find(jid as int) {
        Some(j) => {
            &&& storage.spec_journey_operating_at(jid, origin, date)
            &&& spec_boarding_at(j, p, origin, departure_at, departure_at)
            &&& forall|p2: int|
                0 <= p2 < p ==> !spec_boarding_at(j, p2, origin, departure_at, departure_at)
            &&& p < q < j.visits@.len()
            &&& j.visits@[q].arrival_time is Some
            &&& j.visits@[q].arrival_time->Some_0 >= departure_at
            &&& j.visits@[q].stop_id == d
        },
        None => false,
    }
}

/// Whether some stored journey offers a single ride from `origin` to `d`.
#[verifier::opaque]
pub open spec fn spec_direct_ride_to(
    storage: DataStorage,
    date: Date,
    origin: i32,
    departure_at: u32,
    d: i32,
) -> bool {
    exists|jid: i32, p: int, q: int|
        #[trigger] direct_ride_witness(storage, date, origin, departure_at, d, jid, p, q)
}

/// Whether some stored connection offers a single transfer from `origin`
/// to `d` whose arrival time fits.
#[verifier::opaque]
pub open spec fn spec_direct_transfer_to(
    storage: DataStorage,
    origin: i32,
    departure_at: u32,
    d: i32,
) -> bool {
    exists|cid: i32|
        match #[trigger] storage.stop_connections.spec_find(cid as int) {
            Some(c) => c.spec_touches(origin as int) && spec_connection_target(c, origin) == d
                && departure_at + c.duration <= u32::MAX,
            None => false,
        }
}

/// Whether the timetable reaches `d` from `origin` in one hop that counts
/// as through-service under `config`.
#[verifier::opaque]
pub open spec fn spec_one_hop_reaches(
    storage: DataStorage,
    date: Date,
    origin: i32,
    departure_at: u32,
    config: SearchConfig,
    d: i32,
) -> bool {
    spec_direct_ride_to(storage, date, origin, departure_at, d) || (config.allow_foot_only
        && spec_direct_transfer_to(storage, origin, departure_at, d))
}

/// Whether the query owes `d` an answer other than `NoRouteFound`: a
/// one-hop itinerary exists and the configuration lets the search take
/// the hop.
#[verifier::opaque]
pub open spec fn owes_one_hop(
    storage: DataStorage,
    date: Date,
    origin: i32,
    departure_at: u32,
    destination: Option<i32>,
    config: SearchConfig,
) -> bool {
    match destination {
        Some(d) => d != origin && config.max_sections >= 1 && spec_one_hop_reaches(
            storage,
            date,
            origin,
            departure_at,
            config,
            d,
        ),
        None => false,
    }
}

/// Whether nothing leaves `origin` on `date`: no stored connection
/// touches it and no journey operates there.
pub open spec fn spec_origin_isolated(storage: DataStorage, date: Date, origin: i32) -> bool {
    &&& forall|cid: i32| !(#[trigger] storage.spec_connection_touches(cid, origin))
    &&& forall|jid: i32| !(#[trigger] storage.spec_journey_operating_at(jid, origin, date))
}

/// What every candidate route of one query satisfies: it is an itinerary
/// the timetable offers, starting at the query's origin and time.
pub open spec fn candidate_ok(
    storage: DataStorage,
    date: Date,
    origin: i32,
    departure_at: u32,
    rt: Route,
) -> bool {
    &&& spec_valid_route(storage, date, rt)
    &&& rt.origin_stop_id == origin
    &&& rt.departure_at == departure_at
}

/// What the returned itinerary list of one query satisfies: every route
/// is a valid itinerary of the queried origin and time, reaches the
/// destination where one was requested, counts as through-service under
/// the configuration, and the list ascends by arrival time.
pub open spec fn spec_good_result(
    storage: DataStorage,
    date: Date,
    origin: i32,
    departure_at: u32,
    destination: Option<i32>,
    config: SearchConfig,
    v: Seq<Route>,
) -> bool {
    &&& forall|k: int|
        0 <= k < v.len() ==> {
            let rt = #[trigger] v[k];
            &&& candidate_ok(storage, date, origin, departure_at, rt)
            &&& match destination {
                Some(d) => rt.spec_arrival_stop_id() == d,
                None => true,
            }
            &&& rt.sections@.len() > 0 ==> (rt.spec_has_ride() || config.allow_foot_only)
        }
    &&& spec_sorted_by_arrival(v)
}

/// Answers one itinerary query: earliest arrival from `origin` towards
/// `destination` (or everywhere, when none is given) on `date`, leaving
/// no earlier than `departure_at` minutes, within the bounds of `config`.
///
/// The frontier is kept ascending by arrival time and popped from the
/// front, so routes leave it in non-decreasing arrival order; with a
/// destination, the first route to reach it is the answer. An exhausted
/// frontier without a reached destination is the ordinary `NoRouteFound`
/// outcome; an exhausted pop budget ends the search deterministically
/// with whatever was completed, marked truncated.
#[verifier::rlimit(100)]
#[verifier::spinoff_prover]
pub fn plan_journey(
    storage: &DataStorage,
    origin: i32,
    destination: Option<i32>,
    date: Date,
    departure_at: u32,
    config: SearchConfig,
) -> (r: Result<SearchOutcome, HrdfError>)
    requires
        storage.wf(),
    ensures
        match r {
            Err(e) => match e {
                HrdfError::Configuration => config.max_pops == 0,
                HrdfError::NotFound { id } => config.max_pops > 0 && ((id == origin
                    && !storage.stops.spec_contains_key(origin as int)) || (destination == Some(id)
                    && storage.stops.spec_contains_key(origin as int)
                    && !storage.stops.spec_contains_key(id as int))),
                HrdfError::DataIntegrity { .. } => false,
            },
            Ok(out) => {
                &&& config.max_pops > 0
                &&& storage.stops.spec_contains_key(origin as int)
                &&& match destination {
                    Some(d) => storage.stops.spec_contains_key(d as int),
                    None => true,
                }
                &&& match out {
                    SearchOutcome::Routes(v) => spec_good_result(
                        *storage,
                        date,
                        origin,
                        departure_at,
                        destination,
                        config,
                        v@,
                    ) && (destination is Some ==> v@.len() == 1),
                    SearchOutcome::RoutesTruncated { routes, pops } => spec_good_result(
                        *storage,
                        date,
                        origin,
                        departure_at,
                        destination,
                        config,
                        routes@,
                    ) && pops == config.max_pops,
                    SearchOutcome::NoRouteFound => destination is Some,
                }
            },
        },
        config.max_pops > 0 && storage.stops.spec_contains_key(origin as int) && destination
            == Some(origin) ==> (r matches Ok(SearchOutcome::Routes(v)) && v@.len() == 1),
        (config.max_pops > 0 && storage.stops.spec_contains_key(origin as int) && (match destination {
            Some(d) => storage.stops.spec_contains_key(d as int) && d != origin,
            None => false,
        }) && spec_origin_isolated(*storage, date, origin)) ==> (r matches Ok(
            SearchOutcome::NoRouteFound,
        )),
{
    if config.max_pops == 0 {
        return Err(HrdfError::Configuration);
    }
    if !storage.stops.contains_key(origin) {
        return Err(HrdfError::NotFound { id: origin });
    }
    if let Some(d) = destination {
        if !storage.stops.contains_key(d) {
            return Err(HrdfError::NotFound { id: d });
        }
    }
    let seed = Route::seed(origin, departure_at);
    let ghost seed0 = seed;
    let mut frontier: Vec<Route> = Vec::new();
    frontier.push(seed);
    proof {
        assert(frontier@ =~= seq![seed0]);
    }
    let mut completed: Vec<Route> = Vec::new();
    let mut pops: u32 = 0;
    let ghost mut floor: u32 = departure_at;
    while frontier.len() > 0 && pops < config.max_pops
        invariant
            storage.wf(),
            config.max_pops > 0,
            storage.stops.spec_contains_key(origin as int),
            match destination {
                Some(d) => storage.stops.spec_contains_key(d as int),
                None => true,
            },
            pops <= config.max_pops,
            forall|k: int|
                0 <= k < frontier@.len() ==> candidate_ok(
                    *storage,
                    date,
                    origin,
                    departure_at,
                    #[trigger] frontier@[k],
                ) && frontier@[k].spec_arrival_at() >= floor,
            spec_sorted_by_arrival(frontier@),
            forall|k: int|
                0 <= k < completed@.len() ==> candidate_ok(
                    *storage,
                    date,
                    origin,
                    departure_at,
                    #[trigger] completed@[k],
                ) && completed@[k].spec_arrival_at() <= floor && completed@[k].sections@.len() > 0
                    && (completed@[k].spec_has_ride() || config.allow_foot_only),
            spec_sorted_by_arrival(completed@),
            destination is Some ==> completed@.len() == 0,
            destination == Some(origin) ==> pops == 0 && frontier@.len() > 0 && frontier@[0].spec_arrival_stop_id()
                == origin && frontier@[0].sections@.len() == 0,
            seed0.origin_stop_id == origin && seed0.departure_at == departure_at
                && seed0.sections@.len() == 0,
            ((match destination {
                Some(d) => d != origin,
                None => false,
            }) && spec_origin_isolated(*storage, date, origin)) ==> ((pops == 0 && frontier@
                =~= seq![seed0]) || frontier@.len() == 0),
            seed0.visited_stops@ == seq![origin],
        decreases config.max_pops - pops,
    {
        let ghost pre_frontier = frontier@;
        let rt = frontier.remove(0);
        pops += 1;
        proof {
            assert(rt == pre_frontier[0]);
            assert(candidate_ok(*storage, date, origin, departure_at, rt));
            assert forall|k: int|
                0 <= k < frontier@.len() implies candidate_ok(
                *storage,
                date,
                origin,
                departure_at,
                #[trigger] frontier@[k],
            ) && frontier@[k].spec_arrival_at() >= rt.spec_arrival_at() by {
                assert(frontier@[k] == pre_frontier[k + 1]);
            }
            assert forall|x: int, y: int|
                0 <= x < y < frontier@.len() implies (#[trigger] frontier@[x]).spec_arrival_at()
                <= (#[trigger] frontier@[y]).spec_arrival_at() by {
                assert(frontier@[x] == pre_frontier[x + 1] && frontier@[y] == pre_frontier[y + 1]);
            }
            floor = rt.spec_arrival_at();
        }
        if let Some(d) = destination {
            if rt.arrival_stop_id() == d && (rt.sections.len() == 0 || rt.has_ride()
                || config.allow_foot_only) {
                completed.push(rt);
                proof {
                    assert(completed@.len() == 1);
                    assert(completed@[0] == rt);
                    if destination matches Some(d2) && d2 != origin && spec_origin_isolated(
                        *storage,
                        date,
                        origin,
                    ) {
                        assert(rt == seed0);
                        assert(rt.spec_arrival_stop_id() == origin);
                        assert(false);
                    }
                }
                return Ok(SearchOutcome::Routes(completed));
            }
        }
        if (rt.sections.len() as u64) < (config.max_sections as u64) {
            let mut exts = expand_route(storage, date, &rt);
            proof {
                if destination matches Some(d2) && d2 != origin && spec_origin_isolated(
                    *storage,
                    date,
                    origin,
                ) {
                    assert(rt == seed0);
                    if exts@.len() > 0 {
                        let e = exts@[0];
                        assert(expansion_ok(*storage, date, rt, e));
                        assert(e.sections@.len() == 1);
                        assert(spec_section_ok(
                            *storage,
                            date,
                            spec_prev_stop(e, 0),
                            spec_prev_time(e, 0),
                            e.sections@[0],
                        ));
                        assert(spec_prev_stop(e, 0) == origin);
                        reveal(spec_transfer_section_ok);
                        reveal(spec_ride_section_ok);
                        if spec_transfer_section_ok(
                            *storage,
                            origin,
                            spec_prev_time(e, 0),
                            e.sections@[0],
                        ) {
                            let cid = choose|cid: i32|
                                match #[trigger] storage.stop_connections.spec_find(cid as int) {
                                    Some(c) => c.spec_touches(origin as int)
                                        && spec_connection_target(c, origin)
                                        == e.sections@[0].arrival_stop_id && e.sections@[0].arrival_at
                                        == spec_prev_time(e, 0) + c.duration,
                                    None => false,
                                };
                            assert(storage.spec_connection_touches(cid, origin));
                            assert(false);
                        } else {
                            let jid = e.sections@[0].journey_id->Some_0;
                            assert(storage.spec_journey_operating_at(jid, origin, date));
                            assert(false);
                        }
                    }
                    assert(exts@.len() == 0);
                }
            }
            while exts.len() > 0
                invariant
                    storage.wf(),
                    forall|k: int|
                        0 <= k < exts@.len() ==> expansion_ok(
                            *storage,
                            date,
                            rt,
                            #[trigger] exts@[k],
                        ),
                    candidate_ok(*storage, date, origin, departure_at, rt),
                    rt.spec_arrival_at() == floor,
                    ((match destination {
                        Some(d2) => d2 != origin,
                        None => false,
                    }) && spec_origin_isolated(*storage, date, origin)) ==> (frontier@.len() == 0
                        && exts@.len() == 0),
                    forall|k: int|
                        0 <= k < frontier@.len() ==> candidate_ok(
                            *storage,
                            date,
                            origin,
                            departure_at,
                            #[trigger] frontier@[k],
                        ) && frontier@[k].spec_arrival_at() >= floor,
                    spec_sorted_by_arrival(frontier@),
                decreases exts@.len(),
            {
                let ghost pre = frontier@;
                let ghost exts_pre = exts@;
                if let Some(e) = exts.pop() {
                    proof {
                        assert(expansion_ok(*storage, date, rt, e));
                    }
                    sorted_insert(&mut frontier, e);
                    proof {
                        broadcast use vstd::seq_lib::group_to_multiset_ensures;

                        assert forall|k: int|
                            0 <= k < frontier@.len() implies candidate_ok(
                            *storage,
                            date,
                            origin,
                            departure_at,
                            #[trigger] frontier@[k],
                        ) && frontier@[k].spec_arrival_at() >= floor by {
                            if pre.contains(frontier@[k]) {
                                let t = choose|t: int|
                                    0 <= t < pre.len() && #[trigger] pre[t] == frontier@[k];
                                assert(candidate_ok(*storage, date, origin, departure_at, pre[t]));
                            } else {
                                assert(frontier@[k] == e);
                            }
                        }
                    }
                }
            }
        }
        if destination.is_none() {
            if rt.sections.len() > 0 && (rt.has_ride() || config.allow_foot_only) {
                let ghost pre_completed = completed@;
                completed.push(rt);
                proof {
                    assert forall|x: int, y: int|
                        0 <= x < y < completed@.len() implies (
                    #[trigger] completed@[x]).spec_arrival_at() <= (
                    #[trigger] completed@[y]).spec_arrival_at() by {
                        if y < completed@.len() - 1 {
                            assert(completed@[x] == pre_completed[x] && completed@[y]
                                == pre_completed[y]);
                        } else {
                            assert(completed@[y] == rt);
                            if x < completed@.len() - 1 {
                                assert(completed@[x] == pre_completed[x]);
                            }
                        }
                    }
                }
            }
        }
    }
    proof {
        if destination == Some(origin) {
            assert(pops == 0 && frontier@.len() > 0);
            assert(false);
        }
    }
    if frontier.len() > 0 {
        return Ok(SearchOutcome::RoutesTruncated { routes: completed, pops });
    }
    if destination.is_some() {
        Ok(SearchOutcome::NoRouteFound)
    } else {
        Ok(SearchOutcome::Routes(completed))
    }
}

/// Whether `values` holds `value`.
fn contains_u64(values: &Vec<u64>, value: u64) -> (r: bool)
    ensures
        r == values@.contains(value),
{
    let n = values.len();
    let mut i: usize = 0;
    while i < n
        invariant
            n == values@.len(),
            i <= n,
            forall|a: int| 0 <= a < i ==> #[trigger] values@[a] != value,
        decreases n - i,
    {
        if values[i] == value {
            return true;
        }
        i += 1;
    }
    false
}

} // verus!
