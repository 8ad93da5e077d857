//! Helpers of the route search over the timetable store.

use vstd::prelude::*;

use crate::index::contains_id;
use crate::index::pair_key;
use crate::index::spec_pair_key;
use crate::models::Date;
use crate::models::Journey;
use crate::models::Keyed;
use crate::models::StopConnection;
use crate::routing::models::Route;
use crate::routing::models::RouteSection;
use crate::storage::DataStorage;

verus! {

broadcast use vstd::seq_lib::lemma_seq_contains_after_push;

/// Extends a route by copy: hands a copy of the route's hops and
/// visited-stop set to the caller's mutation and builds a brand-new route
/// from what it returns; the given route is never touched.
pub fn clone_update_route<F: FnOnce(Vec<RouteSection>, Vec<i32>) -> (Vec<RouteSection>, Vec<i32>)>(
    route: &Route,
    f: F,
) -> (r: Route)
    requires
        forall|args: (Vec<RouteSection>, Vec<i32>)|
            args.0@ == route.sections@ && args.1@ == route.visited_stops@ ==> #[trigger] call_requires(
                f,
                args,
            ),
    ensures
        r.origin_stop_id == route.origin_stop_id,
        r.departure_at == route.departure_at,
        exists|args: (Vec<RouteSection>, Vec<i32>)|
            args.0@ == route.sections@ && args.1@ == route.visited_stops@ && #[trigger] call_ensures(
                f,
                args,
                (r.sections, r.visited_stops),
            ),
{
    let cloned_sections = route.sections.clone();
    let cloned_visited_stops = route.visited_stops.clone();
    proof {
        assert(cloned_sections@ =~= route.sections@);
        assert(cloned_visited_stops@ =~= route.visited_stops@);
    }
    let ghost args = (cloned_sections, cloned_visited_stops);
    let (sections, visited_stops) = f(cloned_sections, cloned_visited_stops);
    let result = Route {
        origin_stop_id: route.origin_stop_id,
        departure_at: route.departure_at,
        sections,
        visited_stops,
    };
    proof {
        assert(args.0@ == route.sections@ && args.1@ == route.visited_stops@ && call_ensures(
            f,
            args,
            (result.sections, result.visited_stops),
        ));
        assert(exists|a: (Vec<RouteSection>, Vec<i32>)|
            a.0@ == route.sections@ && a.1@ == route.visited_stops@ && #[trigger] call_ensures(
                f,
                a,
                (result.sections, result.visited_stops),
            ));
    }
    result
}

/// The connections touching `stop_id`, resolved to entities; `None` when
/// no connection touches it. The result holds exactly the stored
/// connections with that stop as an endpoint, each once.
pub fn get_stop_connections<'a>(data_storage: &'a DataStorage, stop_id: i32) -> (r: Option<
    Vec<&'a StopConnection>,
>)
    requires
        data_storage.wf(),
    ensures
        match r {
            Some(v) => {
                &&& forall|k: int|
                    0 <= k < v@.len() ==> data_storage.stop_connections.spec_find(
                        (#[trigger] v@[k]).id as int,
                    ) == Some(*v@[k]) && v@[k].spec_touches(stop_id as int)
                &&& forall|cid: i32|
                    data_storage.spec_connection_touches(cid, stop_id) ==> exists|k: int|
                        0 <= k < v@.len() && (#[trigger] v@[k]).id == cid
                &&& forall|x: int, y: int|
                    0 <= x < v@.len() && 0 <= y < v@.len() && x != y ==> (#[trigger] v@[x]).id
                        != (#[trigger] v@[y]).id
            },
            None => forall|cid: i32| !data_storage.spec_connection_touches(cid, stop_id),
        },
{
    match data_storage.find_connections_by_stop(stop_id) {
        None => None,
        Some(ids) => {
            let mut out: Vec<&StopConnection> = Vec::new();
            let n = ids.len();
            let mut k: usize = 0;
            while k < n
                invariant
                    data_storage.wf(),
                    n == ids@.len(),
                    k <= n,
                    out@.len() == k,
                    forall|cid: i32|
                        #[trigger] ids@.contains(cid) <==> data_storage.spec_connection_touches(
                            cid,
                            stop_id,
                        ),
                    forall|x: int, y: int|
                        0 <= x < n && 0 <= y < n && x != y ==> #[trigger] ids@[x]
                            != #[trigger] ids@[y],
                    forall|t: int|
                        0 <= t < k ==> data_storage.stop_connections.spec_find(
                            (#[trigger] out@[t]).id as int,
                        ) == Some(*out@[t]) && out@[t].id == ids@[t],
                decreases n - k,
            {
                proof {
                    assert(ids@.contains(ids@[k as int]));
                }
                match data_storage.stop_connections.find(ids[k]) {
                    Ok(c) => out.push(c),
                    Err(_) => {
                        proof {
                            assert(false);
                        }
                        return None;
                    },
                }
                k += 1;
            }
            proof {
                assert forall|t: int| 0 <= t < n implies (#[trigger] out@[t]).spec_touches(
                    stop_id as int,
                ) by {
                    assert(ids@.contains(ids@[t]));
                }
                assert forall|cid: i32|
                    data_storage.spec_connection_touches(cid, stop_id) implies exists|t: int|
                    0 <= t < out@.len() && (#[trigger] out@[t]).id == cid by {
                    assert(ids@.contains(cid));
                    let t = choose|t: int| 0 <= t < n && ids@[t] == cid;
                    assert(out@[t].id == cid);
                }
            }
            Some(out)
        },
    }
}

/// Whether the journey `jid` departs `s` under one of the first `t`
/// bit-fields of `bfs`, according to the (stop, bit-field) → journeys
/// index.
pub open spec fn op_with_bf_in(
    storage: DataStorage,
    jid: i32,
    s: i32,
    bfs: Seq<i32>,
    t: int,
) -> bool {
    exists|u: int|
        0 <= u < t && storage.journeys_by_stop_and_bit_field.spec_has(
            spec_pair_key(s, #[trigger] bfs[u]),
            jid,
        )
}

/// Whether one of the collected journeys has the id `jid`.
pub open spec fn out_has_id(out: Seq<&Journey>, jid: i32) -> bool {
    exists|k: int| 0 <= k < out.len() && (#[trigger] out[k]).id == jid
}

/// The journeys operating at (`stop_id`, `date`): those departing the
/// stop whose calendar entry is active that day, derived by intersecting
/// the day's bit-fields with the stop's and resolving the (stop,
/// bit-field) → journeys index. The result holds each such journey
/// exactly once; a date outside the validity window yields no journey.
pub fn get_operating_journeys<'a>(data_storage: &'a DataStorage, date: Date, stop_id: i32) -> (r:
    Vec<&'a Journey>)
    requires
        data_storage.wf(),
    ensures
        forall|k: int|
            0 <= k < r@.len() ==> data_storage.spec_journey_operating_at(
                (#[trigger] r@[k]).id,
                stop_id,
                date,
            ) && data_storage.journeys.spec_find(r@[k].id as int) == Some(*r@[k]),
        forall|jid: i32|
            #[trigger] data_storage.spec_journey_operating_at(jid, stop_id, date) ==> exists|k: int|
                0 <= k < r@.len() && (#[trigger] r@[k]).id == jid,
        forall|x: int, y: int|
            0 <= x < r@.len() && 0 <= y < r@.len() && x != y ==> (#[trigger] r@[x]).id
                != (#[trigger] r@[y]).id,
{
    let bf1 = data_storage.find_bit_fields_by_day(date);
    let mut out: Vec<&Journey> = Vec::new();
    let bf2 = match data_storage.find_bit_fields_by_stop(stop_id) {
        Some(v) => v,
        None => {
            proof {
                assert forall|jid: i32| !(#[trigger] data_storage.spec_journey_operating_at(
                    jid,
                    stop_id,
                    date,
                )) by {
                    if data_storage.spec_journey_operating_at(jid, stop_id, date) {
                        let j = data_storage.journeys.spec_find(jid as int)->Some_0;
                        assert(data_storage.journeys_by_stop_and_bit_field.spec_has(
                            spec_pair_key(stop_id, j.bit_field_id),
                            jid,
                        ));
                        lemma_journey_at_stop_bf(*data_storage, jid, stop_id, j.bit_field_id);
                    }
                }
            }
            return out;
        },
    };
    let n = bf1.len();
    let mut t: usize = 0;
    while t < n
        invariant
            data_storage.wf(),
            n == bf1@.len(),
            t <= n,
            forall|b: i32| #[trigger] bf1@.contains(b) <==> data_storage.spec_bit_field_active_on(b, date),
            forall|x: int, y: int|
                0 <= x < n && 0 <= y < n && x != y ==> #[trigger] bf1@[x] != #[trigger] bf1@[y],
            forall|b: i32|
                #[trigger] bf2@.contains(b) <==> data_storage.bit_fields_by_stop.spec_has(
                    crate::storage::spec_id_key(stop_id),
                    b,
                ),
            forall|k: int|
                0 <= k < out@.len() ==> data_storage.spec_journey_operating_at(
                    (#[trigger] out@[k]).id,
                    stop_id,
                    date,
                ) && data_storage.journeys.spec_find(out@[k].id as int) == Some(*out@[k]),
            forall|jid: i32| #![trigger out_has_id(out@, jid)]
                op_with_bf_in(*data_storage, jid, stop_id, bf1@, t as int) <==> out_has_id(
                    out@,
                    jid,
                ),
            forall|x: int, y: int|
                0 <= x < out@.len() && 0 <= y < out@.len() && x != y ==> (#[trigger] out@[x]).id
                    != (#[trigger] out@[y]).id,
        decreases n - t,
    {
        let ghost pre = out@;
        let b = bf1[t];
        proof {
            assert(bf1@.contains(b));
        }
        if contains_id(bf2, b) {
            match data_storage.find_journeys_by_stop_and_bit_field(stop_id, b) {
                None => {
                    proof {
                        assert forall|jid: i32|
                            op_with_bf_in(*data_storage, jid, stop_id, bf1@, t + 1)
                                implies op_with_bf_in(*data_storage, jid, stop_id, bf1@, t as int) by {
                            let u = choose|u: int|
                                0 <= u < t + 1
                                    && data_storage.journeys_by_stop_and_bit_field.spec_has(
                                    spec_pair_key(stop_id, #[trigger] bf1@[u]),
                                    jid,
                                );
                            assert(u < t);
                        }
                        assert forall|jid: i32|
                            op_with_bf_in(*data_storage, jid, stop_id, bf1@, t as int)
                                implies op_with_bf_in(*data_storage, jid, stop_id, bf1@, t + 1) by {
                            let u = choose|u: int|
                                0 <= u < t && data_storage.journeys_by_stop_and_bit_field.spec_has(
                                    spec_pair_key(stop_id, #[trigger] bf1@[u]),
                                    jid,
                                );
                        }
                    }
                },
                Some(jids) => {
                    let m = jids.len();
                    let mut w: usize = 0;
                    while w < m
                        invariant
                            data_storage.wf(),
                            n == bf1@.len(),
                            t < n,
                            b == bf1@[t as int],
                            forall|b2: i32|
                                #[trigger] bf1@.contains(b2)
                                    <==> data_storage.spec_bit_field_active_on(b2, date),
                            forall|x: int, y: int|
                                0 <= x < n && 0 <= y < n && x != y ==> #[trigger] bf1@[x]
                                    != #[trigger] bf1@[y],
                            m == jids@.len(),
                            w <= m,
                            forall|jid: i32|
                                #[trigger] jids@.contains(jid)
                                    <==> data_storage.journeys_by_stop_and_bit_field.spec_has(
                                    spec_pair_key(stop_id, b),
                                    jid,
                                ),
                            forall|x: int, y: int|
                                0 <= x < m && 0 <= y < m && x != y ==> #[trigger] jids@[x]
                                    != #[trigger] jids@[y],
                            forall|k: int|
                                0 <= k < out@.len() ==> data_storage.spec_journey_operating_at(
                                    (#[trigger] out@[k]).id,
                                    stop_id,
                                    date,
                                ) && data_storage.journeys.spec_find(out@[k].id as int) == Some(
                                    *out@[k],
                                ),
                            forall|jid: i32| #![trigger out_has_id(out@, jid)]
                                op_with_bf_in(*data_storage, jid, stop_id, bf1@, t as int)
                                    || jids@.take(w as int).contains(jid) <==> out_has_id(
                                    out@,
                                    jid,
                                ),
                            forall|x: int, y: int|
                                0 <= x < out@.len() && 0 <= y < out@.len() && x != y ==> (
                                #[trigger] out@[x]).id != (#[trigger] out@[y]).id,
                        decreases m - w,
                    {
                        let ghost pre_in = out@;
                        let jid = jids[w];
                        proof {
                            assert(jids@.contains(jid));
                            assert(data_storage.journeys_by_stop_and_bit_field.spec_has(
                                spec_pair_key(stop_id, b),
                                jid,
                            ));
                            assert(jids@.take(w + 1) =~= jids@.take(w as int).push(jid));
                        }
                        match data_storage.journeys.find(jid) {
                            Ok(j) => {
                                proof {
                                    assert(j.key() == jid as int);
                                    assert(bf1@[t as int] == b);
                                    assert(bf1@.contains(b));
                                    assert(data_storage.spec_bit_field_active_on(b, date));
                                    assert(j.bit_field_id == b);
                                    if pre_in.len() > 0 {
                                        assert forall|k: int|
                                            0 <= k < pre_in.len() implies (
                                        #[trigger] pre_in[k]).id != jid by {
                                            if pre_in[k].id == jid {
                                                assert(out_has_id(pre_in, jid));
                                                assert(data_storage.journeys.spec_find(jid as int)
                                                    == Some(*pre_in[k]));
                                                if op_with_bf_in(
                                                    *data_storage,
                                                    jid,
                                                    stop_id,
                                                    bf1@,
                                                    t as int,
                                                ) {
                                                    let u = choose|u: int|
                                                        0 <= u < t
                                                            && data_storage.journeys_by_stop_and_bit_field.spec_has(
                                                            spec_pair_key(
                                                                stop_id,
                                                                #[trigger] bf1@[u],
                                                            ),
                                                            jid,
                                                        );
                                                    assert(pre_in[k].bit_field_id == bf1@[u]);
                                                    assert(bf1@[u] != b);
                                                    assert(false);
                                                } else {
                                                    assert(jids@.take(w as int).contains(jid));
                                                    assert(false);
                                                }
                                            }
                                        }
                                    }
                                }
                                out.push(j);
                            },
                            Err(_) => {
                                proof {
                                    assert(false);
                                }
                            },
                        }
                        proof {
                            assert forall|jid2: i32| #![trigger out_has_id(out@, jid2)]
                                op_with_bf_in(*data_storage, jid2, stop_id, bf1@, t as int)
                                    || jids@.take(w + 1).contains(jid2) <==> out_has_id(
                                out@,
                                jid2,
                            ) by {
                                let seen_in_prefix = jids@.take(w as int).contains(jid2);
                                if op_with_bf_in(*data_storage, jid2, stop_id, bf1@, t as int)
                                    || jids@.take(w as int).contains(jid2) {
                                    assert(out_has_id(pre_in, jid2));
                                    let k = choose|k: int|
                                        0 <= k < pre_in.len() && (#[trigger] pre_in[k]).id == jid2;
                                    assert(out@[k].id == jid2);
                                    assert(out_has_id(out@, jid2));
                                }
                                if jid2 == jid {
                                    assert(out@[out@.len() - 1].id == jid2);
                                    assert(out_has_id(out@, jid2));
                                }
                                if out_has_id(out@, jid2) {
                                    let k = choose|k: int|
                                        0 <= k < out@.len() && (#[trigger] out@[k]).id == jid2;
                                    if k < pre_in.len() {
                                        assert(pre_in[k].id == jid2);
                                        assert(out_has_id(pre_in, jid2));
                                    } else {
                                        assert(jid2 == jid);
                                        assert(jids@.take(w + 1).contains(jid2));
                                    }
                                }
                            }
                        }
                        w += 1;
                    }
                    proof {
                        assert(jids@.take(m as int) =~= jids@);
                        assert forall|jid: i32| #![trigger out_has_id(out@, jid)]
                            (op_with_bf_in(*data_storage, jid, stop_id, bf1@, t as int)
                                || jids@.contains(jid)) <==> out_has_id(out@, jid) by {
                            let seen_earlier = op_with_bf_in(*data_storage, jid, stop_id, bf1@, t as int);
                            let seen_here = jids@.take(m as int).contains(jid);
                            assert(jids@.take(m as int).contains(jid) == jids@.contains(jid));
                        }
                        assert forall|jid: i32|
                            op_with_bf_in(*data_storage, jid, stop_id, bf1@, t + 1) implies (
                        op_with_bf_in(*data_storage, jid, stop_id, bf1@, t as int)
                            || jids@.contains(jid)) by {
                            let u = choose|u: int|
                                0 <= u < t + 1
                                    && data_storage.journeys_by_stop_and_bit_field.spec_has(
                                    spec_pair_key(stop_id, #[trigger] bf1@[u]),
                                    jid,
                                );
                            if u < t {
                                assert(op_with_bf_in(*data_storage, jid, stop_id, bf1@, t as int));
                            } else {
                                assert(jids@.contains(jid));
                            }
                        }
                        assert forall|jid: i32|
                            op_with_bf_in(*data_storage, jid, stop_id, bf1@, t as int)
                                || jids@.contains(jid) implies op_with_bf_in(
                            *data_storage,
                            jid,
                            stop_id,
                            bf1@,
                            t + 1,
                        ) by {
                            if op_with_bf_in(*data_storage, jid, stop_id, bf1@, t as int) {
                                let u = choose|u: int|
                                    0 <= u < t
                                        && data_storage.journeys_by_stop_and_bit_field.spec_has(
                                        spec_pair_key(stop_id, #[trigger] bf1@[u]),
                                        jid,
                                    );
                                assert(op_with_bf_in(*data_storage, jid, stop_id, bf1@, t + 1));
                            } else {
                                assert(data_storage.journeys_by_stop_and_bit_field.spec_has(
                                    spec_pair_key(stop_id, bf1@[t as int]),
                                    jid,
                                ));
                                assert(op_with_bf_in(*data_storage, jid, stop_id, bf1@, t + 1));
                            }
                        }
                        assert forall|jid: i32| #![trigger out_has_id(out@, jid)]
                            op_with_bf_in(*data_storage, jid, stop_id, bf1@, t + 1) <==> out_has_id(
                            out@,
                            jid,
                        ) by {
                            if op_with_bf_in(*data_storage, jid, stop_id, bf1@, t + 1) {
                                assert(op_with_bf_in(*data_storage, jid, stop_id, bf1@, t as int)
                                    || jids@.contains(jid));
                            }
                            if out_has_id(out@, jid) {
                                assert(op_with_bf_in(*data_storage, jid, stop_id, bf1@, t as int)
                                    || jids@.contains(jid));
                            }
                        }
                    }
                },
            }
        } else {
            proof {
                assert forall|jid: i32|
                    op_with_bf_in(*data_storage, jid, stop_id, bf1@, t + 1) implies op_with_bf_in(
                    *data_storage,
                    jid,
                    stop_id,
                    bf1@,
                    t as int,
                ) by {
                    let u = choose|u: int|
                        0 <= u < t + 1 && data_storage.journeys_by_stop_and_bit_field.spec_has(
                            spec_pair_key(stop_id, #[trigger] bf1@[u]),
                            jid,
                        );
                    if u == t {
                        lemma_journey_at_stop_bf(*data_storage, jid, stop_id, b);
                        assert(bf2@.contains(b));
                        assert(false);
                    }
                }
                assert forall|jid: i32|
                    op_with_bf_in(*data_storage, jid, stop_id, bf1@, t as int)
                        implies op_with_bf_in(*data_storage, jid, stop_id, bf1@, t + 1) by {
                    let u = choose|u: int|
                        0 <= u < t && data_storage.journeys_by_stop_and_bit_field.spec_has(
                            spec_pair_key(stop_id, #[trigger] bf1@[u]),
                            jid,
                        );
                }
            }
        }
        t += 1;
    }
    proof {
        assert forall|jid: i32|
            #[trigger] data_storage.spec_journey_operating_at(jid, stop_id, date) implies exists|
            k: int,
        |
            0 <= k < out@.len() && (#[trigger] out@[k]).id == jid by {
            let j = data_storage.journeys.spec_find(jid as int)->Some_0;
            assert(data_storage.journeys_by_stop_and_bit_field.spec_has(
                spec_pair_key(stop_id, j.bit_field_id),
                jid,
            ));
            assert(bf1@.contains(j.bit_field_id));
            let u = choose|u: int| 0 <= u < n && bf1@[u] == j.bit_field_id;
            assert(data_storage.journeys_by_stop_and_bit_field.spec_has(
                spec_pair_key(stop_id, bf1@[u]),
                jid,
            ));
            assert(op_with_bf_in(*data_storage, jid, stop_id, bf1@, n as int));
            assert(out_has_id(out@, jid));
        }
    }
    out
}

/// A journey the (stop, bit-field) → journeys index lists for (`s`, `b`)
/// calls at `s`, so the stop → bit-fields index lists `b` for `s`.
proof fn lemma_journey_at_stop_bf(storage: DataStorage, jid: i32, s: i32, b: i32)
    requires
        storage.wf(),
        storage.journeys_by_stop_and_bit_field.spec_has(spec_pair_key(s, b), jid),
    ensures
        storage.bit_fields_by_stop.spec_has(crate::storage::spec_id_key(s), b),
{
    let j = storage.journeys.spec_find(jid as int)->Some_0;
    assert(j.spec_departs_from(s as int));
    let p = choose|p: int|
        0 <= p < j.visits@.len() && (#[trigger] j.visits@[p]).stop_id == s
            && j.visits@[p].departure_time is Some;
    assert(j.visits@[p].stop_id == s as int);
    assert(j.spec_visits_stop(s as int));
    let t = choose|t: int|
        0 <= t < storage.journeys.items@.len() && #[trigger] storage.journeys.items@[t].key()
            == jid as int;
    assert(storage.journeys.items@[t] == j);
    assert(storage.journeys.items@[t].spec_visits_stop(s as int) && storage.journeys.items@[t].bit_field_id
        == b);
}

/// Whether `h` is the fingerprint of a continuation that one of the first
/// `n` hops of `route` already stands for: that hop rode a journey that
/// calls at the route's arrival stop, and `h` is that journey's
/// fingerprint there.
pub open spec fn spec_ignored_in_prefix(storage: DataStorage, route: Route, n: int, h: u64) -> bool {
    exists|i: int|
        0 <= i < n && match (#[trigger] route.sections@[i]).journey_id {
            Some(jid) => match storage.journeys.spec_find(jid as int) {
                Some(j) => j.spec_visits_stop(route.spec_arrival_stop_id() as int) && h
                    == spec_pair_key(jid, route.spec_arrival_stop_id()),
                None => false,
            },
            None => false,
        }
}

/// Whether `h` is a continuation fingerprint already folded into `route`.
pub open spec fn spec_ignored_fingerprint(storage: DataStorage, route: Route, h: u64) -> bool {
    spec_ignored_in_prefix(storage, route, route.sections@.len() as int, h)
}

/// The continuation fingerprints already represented by the route's own
/// hops: one per hop that rode a journey calling at the route's arrival
/// stop. A candidate continuation carrying one of these is provably
/// equivalent to one already folded into the route and is not expanded
/// again.
pub fn get_routes_to_ignore(data_storage: &DataStorage, route: &Route) -> (r: Vec<u64>)
    requires
        data_storage.wf(),
    ensures
        forall|h: u64|
            #[trigger] r@.contains(h) <==> spec_ignored_fingerprint(*data_storage, *route, h),
{
    let arrival = route.arrival_stop_id();
    let mut out: Vec<u64> = Vec::new();
    let n = route.sections.len();
    let mut i: usize = 0;
    while i < n
        invariant
            data_storage.wf(),
            n == route.sections@.len(),
            i <= n,
            arrival == route.spec_arrival_stop_id(),
            forall|h: u64|
                #[trigger] out@.contains(h) <==> spec_ignored_in_prefix(
                    *data_storage,
                    *route,
                    i as int,
                    h,
                ),
        decreases n - i,
    {
        let ghost pre = out@;
        let sec = route.sections[i];
        let ghost target = match sec.journey_id {
            Some(jid) => match data_storage.journeys.spec_find(jid as int) {
                Some(j) => if j.spec_visits_stop(arrival as int) {
                    Some(spec_pair_key(jid, arrival))
                } else {
                    None
                },
                None => None,
            },
            None => None,
        };
        let mut added: Option<u64> = None;
        if let Some(jid) = sec.journey_id {
            match data_storage.journeys.find(jid) {
                Ok(j) => {
                    proof {
                        assert(data_storage.journeys.spec_find(jid as int) == Some(*j));
                        assert(j.key() == jid as int);
                        assert(j.id == jid);
                    }
                    added = j.hash_route(arrival);
                },
                Err(_) => {},
            }
        }
        proof {
            assert(added == target);
        }
        if let Some(h) = added {
            out.push(h);
        }
        proof {
            assert forall|h: u64| #[trigger] out@.contains(h) <==> spec_ignored_in_prefix(
                *data_storage,
                *route,
                i + 1,
                h,
            ) by {
                if out@.contains(h) && !pre.contains(h) {
                    assert(spec_ignored_in_prefix(*data_storage, *route, i + 1, h));
                }
                if pre.contains(h) {
                    let t = choose|t: int|
                        0 <= t < i && match (#[trigger] route.sections@[t]).journey_id {
                            Some(jid) => match data_storage.journeys.spec_find(jid as int) {
                                Some(j) => j.spec_visits_stop(route.spec_arrival_stop_id() as int)
                                    && h == spec_pair_key(jid, route.spec_arrival_stop_id()),
                                None => false,
                            },
                            None => false,
                        };
                    assert(spec_ignored_in_prefix(*data_storage, *route, i + 1, h));
                }
                if spec_ignored_in_prefix(*data_storage, *route, i + 1, h) {
                    let t = choose|t: int|
                        0 <= t < i + 1 && match (#[trigger] route.sections@[t]).journey_id {
                            Some(jid) => match data_storage.journeys.spec_find(jid as int) {
                                Some(j) => j.spec_visits_stop(route.spec_arrival_stop_id() as int)
                                    && h == spec_pair_key(jid, route.spec_arrival_stop_id()),
                                None => false,
                            },
                            None => false,
                        };
                    if t < i {
                        assert(spec_ignored_in_prefix(*data_storage, *route, i as int, h));
                        assert(pre.contains(h));
                    } else {
                        assert(target == Some(h));
                        assert(out@ == pre.push(h));
                    }
                    assert(out@.contains(h));
                }
            }
        }
        i += 1;
    }
    out
}

/// Whether `s` is ordered by arrival time, ascending.
pub open spec fn spec_sorted_by_arrival(s: Seq<Route>) -> bool {
    forall|i: int, j: int|
        0 <= i < j < s.len() ==> (#[trigger] s[i]).spec_arrival_at() <= (#[trigger] s[j]).spec_arrival_at()
}

/// Popping the front of a frontier kept ascending by arrival time yields
/// the earliest arrival it holds: successive front pops within one query
/// can therefore never decrease in arrival time, since everything a pop
/// inserts arrives no earlier than the route it extends.
pub proof fn lemma_front_pop_is_earliest(s: Seq<Route>, k: int)
    requires
        spec_sorted_by_arrival(s),
        0 < s.len(),
        0 <= k < s.len(),
    ensures
        s[0].spec_arrival_at() <= s[k].spec_arrival_at(),
{
}

/// Whether a route arrives exactly at `a`.
pub open spec fn by_arrival(a: u32) -> spec_fn(Route) -> bool {
    |x: Route| x.spec_arrival_at() == a
}

/// The routes of `s` arriving exactly at `a`, in the order `s` holds
/// them.
pub open spec fn spec_arrival_bucket(s: Seq<Route>, a: u32) -> Seq<Route> {
    s.filter(by_arrival(a))
}

/// A sequence none of whose elements satisfies the predicate filters to
/// nothing.
proof fn lemma_filter_none(s: Seq<Route>, pred: spec_fn(Route) -> bool)
    requires
        forall|i: int| 0 <= i < s.len() ==> !pred(#[trigger] s[i]),
    ensures
        s.filter(pred) =~= Seq::<Route>::empty(),
    decreases s.len(),
{
    broadcast use vstd::seq::Seq::lemma_filter_push;

    if s.len() > 0 {
        assert(s.drop_last().push(s.last()) =~= s);
        lemma_filter_none(s.drop_last(), pred);
        assert(!pred(s.last()));
        assert(s.drop_last().push(s.last()).filter(pred) =~= Seq::<Route>::empty());
    }
}

/// Orders routes by arrival time, ascending and stably: each arrival
/// time's routes keep exactly the relative order the input held them in,
/// the tie-break the frontier contract asks for.
pub fn sort_routes(routes: &mut Vec<Route>)
    ensures
        spec_sorted_by_arrival(final(routes)@),
        final(routes)@.to_multiset() == old(routes)@.to_multiset(),
        forall|a: u32|
            #[trigger] spec_arrival_bucket(final(routes)@, a) == spec_arrival_bucket(
                old(routes)@,
                a,
            ),
{
    let mut sorted: Vec<Route> = Vec::new();
    let ghost input = routes@;
    let ghost mut done: int = 0;
    proof {
        broadcast use vstd::seq_lib::group_to_multiset_ensures;

        assert(sorted@.to_multiset().add(routes@.to_multiset()) =~= routes@.to_multiset());
        assert(routes@ =~= input.skip(0));
        assert(input.take(0) =~= Seq::<Route>::empty());
        assert forall|a: u32| #[trigger] spec_arrival_bucket(sorted@, a) == spec_arrival_bucket(
            input.take(done),
            a,
        ) by {
            lemma_filter_none(sorted@, by_arrival(a));
            lemma_filter_none(input.take(done), by_arrival(a));
        }
    }
    while routes.len() > 0
        invariant
            0 <= done <= input.len(),
            routes@ == input.skip(done),
            spec_sorted_by_arrival(sorted@),
            sorted@.to_multiset().add(routes@.to_multiset()) == input.to_multiset(),
            forall|a: u32|
                #[trigger] spec_arrival_bucket(sorted@, a) == spec_arrival_bucket(
                    input.take(done),
                    a,
                ),
        decreases routes@.len(),
    {
        let ghost pre = routes@;
        let ghost pre_sorted = sorted@;
        let r = routes.remove(0);
        proof {
            assert(r == input[done]) by {
                assert(pre[0] == input.skip(done)[0]);
            }
            assert(routes@ =~= input.skip(done + 1));
        }
        sorted_insert(&mut sorted, r);
        proof {
            broadcast use vstd::seq_lib::group_to_multiset_ensures;
            broadcast use vstd::seq::Seq::lemma_filter_push;

            assert(routes@.to_multiset() =~= pre.to_multiset().remove(r));
            assert(pre.contains(r)) by {
                assert(pre[0] == r);
            }
            assert(pre.to_multiset().contains(r));
            assert(sorted@.to_multiset().add(routes@.to_multiset()) =~= pre_sorted.to_multiset().add(
                pre.to_multiset(),
            ));
            assert(input.take(done + 1) =~= input.take(done).push(input[done]));
            assert forall|a: u32| #[trigger] spec_arrival_bucket(sorted@, a) == spec_arrival_bucket(
                input.take(done + 1),
                a,
            ) by {
                let pred = by_arrival(a);
                assert(input.take(done + 1).filter(pred) == if pred(input[done]) {
                    input.take(done).filter(pred).push(input[done])
                } else {
                    input.take(done).filter(pred)
                });
            }
            done = done + 1;
        }
    }
    proof {
        broadcast use vstd::seq_lib::group_to_multiset_ensures;

        assert(routes@.to_multiset().len() == 0);
        assert(sorted@.to_multiset().add(routes@.to_multiset()) =~= sorted@.to_multiset());
        assert(input.take(done) =~= input);
    }
    *routes = sorted;
}

/// The position of the first route arriving strictly later than
/// `arrival`, or the length when there is none.
fn insert_position(routes: &Vec<Route>, arrival: u32) -> (p: usize)
    ensures
        p <= routes@.len(),
        forall|q: int| 0 <= q < p ==> (#[trigger] routes@[q]).spec_arrival_at() <= arrival,
        p < routes@.len() ==> arrival < routes@[p as int].spec_arrival_at(),
{
    let n = routes.len();
    let mut p: usize = 0;
    while p < n
        invariant
            n == routes@.len(),
            p <= n,
            forall|q: int| 0 <= q < p ==> (#[trigger] routes@[q]).spec_arrival_at() <= arrival,
        decreases n - p,
    {
        if arrival < routes[p].arrival_at() {
            return p;
        }
        p += 1;
    }
    p
}

/// Inserts a route into a frontier kept ascending by arrival time, behind
/// every route arriving no later: first in, first reached, on ties.
pub fn sorted_insert(routes: &mut Vec<Route>, route_to_insert: Route)
    ensures
        exists|p: int|
            {
                &&& 0 <= p <= old(routes)@.len()
                &&& final(routes)@ == old(routes)@.insert(p, route_to_insert)
                &&& forall|q: int|
                    0 <= q < p ==> (#[trigger] old(routes)@[q]).spec_arrival_at()
                        <= route_to_insert.spec_arrival_at()
                &&& p < old(routes)@.len() ==> route_to_insert.spec_arrival_at() < old(
                    routes,
                )@[p].spec_arrival_at()
            },
        forall|k: int|
            0 <= k < final(routes)@.len() ==> old(routes)@.contains(#[trigger] final(routes)@[k])
                || final(routes)@[k] == route_to_insert,
        spec_sorted_by_arrival(old(routes)@) ==> spec_sorted_by_arrival(final(routes)@),
        final(routes)@.to_multiset() == old(routes)@.to_multiset().insert(route_to_insert),
        spec_sorted_by_arrival(old(routes)@) ==> forall|a: u32|
            #[trigger] spec_arrival_bucket(final(routes)@, a) == if a
                == route_to_insert.spec_arrival_at() {
                spec_arrival_bucket(old(routes)@, a).push(route_to_insert)
            } else {
                spec_arrival_bucket(old(routes)@, a)
            },
{
    let ghost pre = routes@;
    let arrival = route_to_insert.arrival_at();
    let p = insert_position(routes, arrival);
    routes.insert(p, route_to_insert);
    proof {
        broadcast use vstd::seq_lib::group_to_multiset_ensures;

        let post = routes@;
        assert(post == pre.insert(p as int, route_to_insert));
        assert(post =~= pre.subrange(0, p as int).push(route_to_insert) + pre.subrange(
            p as int,
            pre.len() as int,
        ));
        assert(post.len() == pre.len() + 1);
        assert(post[p as int] == route_to_insert);
        assert(forall|k: int| 0 <= k < p ==> #[trigger] post[k] == pre[k]);
        assert(forall|k: int| p < k < post.len() ==> #[trigger] post[k] == pre[k - 1]);
        assert forall|k: int|
            0 <= k < post.len() implies pre.contains(#[trigger] post[k]) || post[k]
            == route_to_insert by {
            if k < p {
                assert(pre[k] == post[k]);
            } else if k > p {
                assert(pre[k - 1] == post[k]);
            }
        }
        let arr = route_to_insert.spec_arrival_at();
        if spec_sorted_by_arrival(pre) {
            let prefix = pre.subrange(0, p as int);
            let suffix = pre.subrange(p as int, pre.len() as int);
            assert(pre =~= prefix + suffix);
            assert forall|a: u32| #[trigger] spec_arrival_bucket(post, a) == if a == arr {
                spec_arrival_bucket(pre, a).push(route_to_insert)
            } else {
                spec_arrival_bucket(pre, a)
            } by {
                broadcast use vstd::seq::Seq::lemma_filter_push;
                broadcast use vstd::seq::Seq::filter_distributes_over_add;

                let pred = by_arrival(a);
                assert(post.filter(pred) == prefix.push(route_to_insert).filter(pred)
                    + suffix.filter(pred));
                assert(prefix.push(route_to_insert).filter(pred) == if pred(route_to_insert) {
                    prefix.filter(pred).push(route_to_insert)
                } else {
                    prefix.filter(pred)
                });
                assert(pre.filter(pred) == prefix.filter(pred) + suffix.filter(pred));
                if a == arr {
                    assert forall|i: int| 0 <= i < suffix.len() implies !pred(#[trigger] suffix[i]) by {
                        assert(suffix[i] == pre[p + i]);
                        assert(arr < pre[p as int].spec_arrival_at());
                        if i > 0 {
                            assert(pre[p as int].spec_arrival_at() <= pre[p + i].spec_arrival_at());
                        }
                    }
                    lemma_filter_none(suffix, pred);
                    assert(post.filter(pred) =~= prefix.filter(pred).push(route_to_insert));
                    assert(pre.filter(pred) =~= prefix.filter(pred));
                    assert(post.filter(pred) =~= pre.filter(pred).push(route_to_insert));
                } else {
                    assert(!pred(route_to_insert));
                    assert(post.filter(pred) =~= pre.filter(pred));
                }
            }
            assert forall|x: int, y: int| 0 <= x < y < post.len() implies (
            #[trigger] post[x]).spec_arrival_at() <= (#[trigger] post[y]).spec_arrival_at() by {
                if x == p as int {
                    assert(post[y] == pre[y - 1]);
                    assert(p < pre.len());
                    assert(arr < pre[p as int].spec_arrival_at());
                    assert(pre[p as int].spec_arrival_at() <= pre[y - 1].spec_arrival_at());
                } else if y == p as int {
                    assert(post[x] == pre[x]);
                    assert(pre[x].spec_arrival_at() <= arr);
                } else if x < p && p < y {
                    assert(post[x] == pre[x] && post[y] == pre[y - 1]);
                    assert(p < pre.len());
                    assert(pre[x].spec_arrival_at() <= arr);
                    assert(arr < pre[p as int].spec_arrival_at());
                    assert(pre[p as int].spec_arrival_at() <= pre[y - 1].spec_arrival_at());
                } else if y < p {
                    assert(post[x] == pre[x] && post[y] == pre[y]);
                    assert(pre[x].spec_arrival_at() <= pre[y].spec_arrival_at());
                } else {
                    assert(post[x] == pre[x - 1] && post[y] == pre[y - 1]);
                    assert(pre[x - 1].spec_arrival_at() <= pre[y - 1].spec_arrival_at());
                }
            }
        }
        assert(post.remove(p as int) =~= pre);
        assert(post.remove(p as int).to_multiset() =~= post.to_multiset().remove(route_to_insert));
        assert(post.to_multiset().contains(route_to_insert)) by {
            assert(post.contains(route_to_insert));
        }
        assert(post.to_multiset() =~= pre.to_multiset().insert(route_to_insert));
    }
}

} // verus!
