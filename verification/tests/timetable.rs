use std::collections::hash_map::DefaultHasher;
use std::hash::Hash;
use std::hash::Hasher;

use hrdf_routing::BitField;
use hrdf_routing::DataStorage;
use hrdf_routing::Date;
use hrdf_routing::ExchangeTimeJourney;
use hrdf_routing::ExchangeTimeLine;
use hrdf_routing::HrdfError;
use hrdf_routing::IndexedStore;
use hrdf_routing::Journey;
use hrdf_routing::JourneyVisit;
use hrdf_routing::Route;
use hrdf_routing::RouteSection;
use hrdf_routing::SearchConfig;
use hrdf_routing::SearchOutcome;
use hrdf_routing::Stop;
use hrdf_routing::StopConnection;
use hrdf_routing::TimetableMetadata;
use hrdf_routing::clone_update_route;
use hrdf_routing::get_operating_journeys;
use hrdf_routing::get_routes_to_ignore;
use hrdf_routing::get_stop_connections;
use hrdf_routing::plan_journey;
use hrdf_routing::sort_routes;
use hrdf_routing::sorted_insert;

const WINDOW_START: i32 = 1000;

fn metadata() -> TimetableMetadata {
    TimetableMetadata {
        name: "test".to_string(),
        created_at: "01.06.2024 12:00:00".to_string(),
        version: "1".to_string(),
        provider: "tests".to_string(),
        start_date: Date::new(WINDOW_START),
        end_date: Date::new(WINDOW_START + 4),
    }
}

fn visit(stop_id: i32, arrival: Option<u32>, departure: Option<u32>) -> JourneyVisit {
    JourneyVisit { stop_id, arrival_time: arrival, departure_time: departure }
}

fn config() -> SearchConfig {
    SearchConfig { max_pops: 1000, max_sections: 8, allow_foot_only: false }
}

/// Stops 1 (A), 2 (B), 3 (C); journey 10 runs A 08:00 -> B 08:30 on days
/// 0..=2 of the window; journey 11 runs B 08:32 -> C 09:00 the same days;
/// a 5-minute walk links A and B. Stop B carries the exchange-time pair
/// (2, 3); the journey-pair override (10, 11) at B takes 1 minute.
fn build_storage(with_override: bool) -> DataStorage {
    let mut stop_b = Stop::new(2, "B".to_string());
    stop_b.exchange_time = Some((2, 3));
    let stops = vec![Stop::new(1, "A".to_string()), stop_b, Stop::new(3, "C".to_string())];
    let connections = vec![StopConnection::new(500, 1, 2, 5)];
    let bit_fields = vec![BitField::new(100, vec![true, true, true, false, false])];
    let journeys = vec![
        Journey::new(
            10,
            "000011".to_string(),
            100,
            vec![visit(1, None, Some(480)), visit(2, Some(510), Some(511))],
        ),
        Journey::new(
            11,
            "000022".to_string(),
            100,
            vec![visit(2, None, Some(512)), visit(3, Some(540), None)],
        ),
    ];
    let overrides = if with_override {
        vec![ExchangeTimeJourney {
            id: 1,
            stop_id: 2,
            journey_id_1: 10,
            journey_id_2: 11,
            duration: 1,
            is_guaranteed: true,
            bit_field_id: None,
        }]
    } else {
        Vec::new()
    };
    DataStorage::new(
        stops,
        connections,
        bit_fields,
        journeys,
        overrides,
        Vec::<ExchangeTimeLine>::new(),
        metadata(),
        (2, 2),
    )
    .expect("the test timetable is consistent")
}

#[test]
fn lookup_returns_stored_entity() {
    let storage = build_storage(false);
    let stop = storage.stops.find(2).expect("stop 2 is stored");
    assert_eq!(stop.id, 2);
    assert_eq!(stop.name, "B");
    let journey = storage.journeys.find(11).expect("journey 11 is stored");
    assert_eq!(journey.id, 11);
    assert_eq!(journey.administration, "000022");
    let connection = storage.stop_connections.find(500).expect("connection 500 is stored");
    assert_eq!(connection.duration, 5);
    assert!(matches!(storage.stops.find(99), Err(HrdfError::NotFound { id: 99 })));
}

#[test]
fn construction_rejects_duplicate_keys() {
    let duplicated = vec![Stop::new(7, "X".to_string()), Stop::new(7, "Y".to_string())];
    let result = IndexedStore::new(duplicated);
    assert!(matches!(result, Err(HrdfError::DataIntegrity { id: 7 })));
}

#[test]
fn resolve_ids_preserves_order_and_fails_on_unknown() {
    let storage = build_storage(false);
    let resolved = storage.stops.resolve_ids(&vec![3, 1, 2]).expect("all ids are known");
    let names: Vec<&str> = resolved.iter().map(|s| s.name.as_str()).collect();
    assert_eq!(names, vec!["C", "A", "B"]);
    assert!(matches!(
        storage.stops.resolve_ids(&vec![3, 42, 2]),
        Err(HrdfError::NotFound { id: 42 })
    ));
}

#[test]
fn bit_field_reflects_pattern_and_tolerates_out_of_range() {
    let bf = BitField::new(1, vec![true, false, true, true, false]);
    assert!(bf.is_set(0));
    assert!(!bf.is_set(1));
    assert!(bf.is_set(2));
    assert!(bf.is_set(3));
    assert!(!bf.is_set(4));
    assert!(!bf.is_set(5));
    assert!(!bf.is_set(1000));
}

fn hash_route(route: &Route) -> u64 {
    let mut hasher = DefaultHasher::new();
    route.hash(&mut hasher);
    hasher.finish()
}

#[test]
fn route_extension_leaves_the_source_unchanged() {
    let seed = Route::seed(1, 470);
    let before = hash_route(&seed);
    let derived = clone_update_route(&seed, |mut sections, mut visited| {
        sections.push(RouteSection {
            journey_id: Some(10),
            departure_stop_id: 1,
            arrival_stop_id: 2,
            arrival_at: 510,
        });
        visited.push(2);
        (sections, visited)
    });
    assert_eq!(hash_route(&seed), before);
    assert_eq!(seed.sections.len(), 0);
    assert_eq!(derived.sections.len(), 1);
    assert_eq!(derived.visited_stops, vec![1, 2]);
    let extended = derived.extend(RouteSection {
        journey_id: Some(11),
        departure_stop_id: 2,
        arrival_stop_id: 3,
        arrival_at: 540,
    });
    assert_eq!(derived.sections.len(), 1);
    assert_eq!(extended.sections.len(), 2);
    assert_eq!(extended.arrival_at(), 540);
}

#[test]
fn query_prefers_the_scheduled_ride_over_a_bare_transfer() {
    let storage = build_storage(false);
    let outcome = plan_journey(&storage, 1, Some(2), Date::new(WINDOW_START), 470, config())
        .expect("the query is well-formed");
    match outcome {
        SearchOutcome::Routes(routes) => {
            assert_eq!(routes.len(), 1);
            let route = &routes[0];
            assert_eq!(route.sections.len(), 1);
            assert_eq!(route.sections[0].journey_id, Some(10));
            assert_eq!(route.arrival_at(), 510);
            assert_eq!(route.arrival_stop_id(), 2);
        },
        other => panic!("expected itineraries, got {:?}", other),
    }
}

#[test]
fn query_outside_operating_days_finds_no_route() {
    let storage = build_storage(false);
    let outcome = plan_journey(&storage, 1, Some(2), Date::new(WINDOW_START + 3), 470, config())
        .expect("the query is well-formed");
    assert!(matches!(outcome, SearchOutcome::NoRouteFound));
}

#[test]
fn query_outside_validity_window_finds_no_route_without_failing() {
    let storage = build_storage(false);
    let outcome = plan_journey(&storage, 1, Some(2), Date::new(WINDOW_START - 50), 470, config())
        .expect("an out-of-window date is not an error");
    assert!(matches!(outcome, SearchOutcome::NoRouteFound));
}

/// The same network without the walking edge, so that reaching C hinges
/// on the exchange time between journeys 10 and 11 at B alone.
fn build_exchange_storage(with_override: bool) -> DataStorage {
    let mut stop_b = Stop::new(2, "B".to_string());
    stop_b.exchange_time = Some((2, 3));
    let stops = vec![Stop::new(1, "A".to_string()), stop_b, Stop::new(3, "C".to_string())];
    let bit_fields = vec![BitField::new(100, vec![true, true, true, false, false])];
    let journeys = vec![
        Journey::new(
            10,
            "000011".to_string(),
            100,
            vec![visit(1, None, Some(480)), visit(2, Some(510), Some(511))],
        ),
        Journey::new(
            11,
            "000022".to_string(),
            100,
            vec![visit(2, None, Some(512)), visit(3, Some(540), None)],
        ),
    ];
    let overrides = if with_override {
        vec![ExchangeTimeJourney {
            id: 1,
            stop_id: 2,
            journey_id_1: 10,
            journey_id_2: 11,
            duration: 1,
            is_guaranteed: true,
            bit_field_id: None,
        }]
    } else {
        Vec::new()
    };
    DataStorage::new(
        stops,
        Vec::new(),
        bit_fields,
        journeys,
        overrides,
        Vec::<ExchangeTimeLine>::new(),
        metadata(),
        (2, 2),
    )
    .expect("the test timetable is consistent")
}

#[test]
fn journey_pair_override_beats_the_stop_pair() {
    let storage = build_exchange_storage(true);
    let stop_b = storage.stops.find(2).expect("stop 2 is stored");
    let j1 = storage.journeys.find(10).expect("journey 10 is stored");
    let j2 = storage.journeys.find(11).expect("journey 11 is stored");
    assert_eq!(storage.exchange_time_between(stop_b, j1, j2), 1);
    let outcome = plan_journey(&storage, 1, Some(3), Date::new(WINDOW_START), 470, config())
        .expect("the query is well-formed");
    match outcome {
        SearchOutcome::Routes(routes) => {
            assert_eq!(routes.len(), 1);
            let route = &routes[0];
            assert_eq!(route.sections.len(), 2);
            assert_eq!(route.sections[1].journey_id, Some(11));
            assert_eq!(route.arrival_at(), 540);
        },
        other => panic!("expected itineraries, got {:?}", other),
    }
}

#[test]
fn without_the_override_the_stop_pair_blocks_the_connection() {
    // Arriving at 08:30 with the stop's 3-minute pair, journey 11 leaving
    // at 08:32 cannot be boarded; with the 1-minute override it can.
    let storage = build_exchange_storage(false);
    let stop_b = storage.stops.find(2).expect("stop 2 is stored");
    let j1 = storage.journeys.find(10).expect("journey 10 is stored");
    let j2 = storage.journeys.find(11).expect("journey 11 is stored");
    assert_eq!(storage.exchange_time_between(stop_b, j1, j2), 3);
    let outcome = plan_journey(&storage, 1, Some(3), Date::new(WINDOW_START), 470, config())
        .expect("the query is well-formed");
    assert!(matches!(outcome, SearchOutcome::NoRouteFound));
}

#[test]
fn operating_journeys_follow_the_calendar() {
    let storage = build_storage(false);
    let at_a = get_operating_journeys(&storage, Date::new(WINDOW_START + 2), 1);
    assert_eq!(at_a.len(), 1);
    assert_eq!(at_a[0].id, 10);
    let off_day = get_operating_journeys(&storage, Date::new(WINDOW_START + 4), 1);
    assert!(off_day.is_empty());
    let outside = get_operating_journeys(&storage, Date::new(WINDOW_START + 70), 1);
    assert!(outside.is_empty());
}

#[test]
fn stop_connections_are_symmetric() {
    let storage = build_storage(false);
    let from_a = get_stop_connections(&storage, 1).expect("stop 1 has a connection");
    assert_eq!(from_a.len(), 1);
    assert_eq!(from_a[0].id, 500);
    let from_b = get_stop_connections(&storage, 2).expect("stop 2 has a connection");
    assert_eq!(from_b.len(), 1);
    assert!(get_stop_connections(&storage, 3).is_none());
}

#[test]
fn equivalent_partial_routes_share_their_fingerprints() {
    let storage = build_storage(false);
    let direct = Route::seed(1, 470).extend(RouteSection {
        journey_id: Some(10),
        departure_stop_id: 1,
        arrival_stop_id: 2,
        arrival_at: 510,
    });
    let detour = Route::seed(4, 460)
        .extend(RouteSection {
            journey_id: None,
            departure_stop_id: 4,
            arrival_stop_id: 1,
            arrival_at: 465,
        })
        .extend(RouteSection {
            journey_id: Some(10),
            departure_stop_id: 1,
            arrival_stop_id: 2,
            arrival_at: 510,
        });
    let first = get_routes_to_ignore(&storage, &direct);
    let second = get_routes_to_ignore(&storage, &detour);
    assert_eq!(first.len(), 1);
    assert_eq!(first, second);
}

#[test]
fn a_journey_is_not_reboarded_at_its_own_stops() {
    // Journey 20 serves A -> B -> C; the answer rides it in one hop
    // instead of splitting at B and boarding it again.
    let stops = vec![
        Stop::new(1, "A".to_string()),
        Stop::new(2, "B".to_string()),
        Stop::new(3, "C".to_string()),
    ];
    let bit_fields = vec![BitField::new(100, vec![true; 5])];
    let journeys = vec![Journey::new(
        20,
        "000033".to_string(),
        100,
        vec![
            visit(1, None, Some(480)),
            visit(2, Some(500), Some(501)),
            visit(3, Some(520), None),
        ],
    )];
    let storage = DataStorage::new(
        stops,
        Vec::new(),
        bit_fields,
        journeys,
        Vec::new(),
        Vec::new(),
        metadata(),
        (2, 2),
    )
    .expect("the test timetable is consistent");
    let outcome = plan_journey(&storage, 1, Some(3), Date::new(WINDOW_START), 470, config())
        .expect("the query is well-formed");
    match outcome {
        SearchOutcome::Routes(routes) => {
            assert_eq!(routes.len(), 1);
            assert_eq!(routes[0].sections.len(), 1);
            assert_eq!(routes[0].arrival_at(), 520);
        },
        other => panic!("expected itineraries, got {:?}", other),
    }
}

#[test]
fn no_itinerary_visits_a_stop_twice() {
    // A triangle of walking edges would loop forever without the
    // visited-stop rule.
    let stops = vec![
        Stop::new(1, "A".to_string()),
        Stop::new(2, "B".to_string()),
        Stop::new(3, "C".to_string()),
    ];
    let connections = vec![
        StopConnection::new(501, 1, 2, 5),
        StopConnection::new(502, 2, 3, 5),
        StopConnection::new(503, 3, 1, 5),
    ];
    let bit_fields = vec![BitField::new(100, vec![true; 5])];
    let storage = DataStorage::new(
        stops,
        connections,
        bit_fields,
        Vec::new(),
        Vec::new(),
        Vec::new(),
        metadata(),
        (2, 2),
    )
    .expect("the test timetable is consistent");
    let relaxed = SearchConfig { max_pops: 1000, max_sections: 8, allow_foot_only: true };
    let outcome = plan_journey(&storage, 1, None, Date::new(WINDOW_START), 470, relaxed)
        .expect("the query is well-formed");
    match outcome {
        SearchOutcome::Routes(routes) => {
            assert!(!routes.is_empty());
            for route in &routes {
                let mut stops_seen = vec![route.origin_stop_id];
                for section in &route.sections {
                    assert!(!stops_seen.contains(&section.arrival_stop_id));
                    stops_seen.push(section.arrival_stop_id);
                }
            }
        },
        other => panic!("expected itineraries, got {:?}", other),
    }
}

#[test]
fn completed_itineraries_ascend_by_arrival_time() {
    let storage = build_storage(false);
    let relaxed = SearchConfig { max_pops: 1000, max_sections: 8, allow_foot_only: true };
    let outcome = plan_journey(&storage, 1, None, Date::new(WINDOW_START), 470, relaxed)
        .expect("the query is well-formed");
    match outcome {
        SearchOutcome::Routes(routes) => {
            assert!(routes.len() >= 2);
            for pair in routes.windows(2) {
                assert!(pair[0].arrival_at() <= pair[1].arrival_at());
            }
        },
        other => panic!("expected itineraries, got {:?}", other),
    }
}

fn leg(origin: i32, arrival_at: u32) -> Route {
    Route::seed(origin, 0).extend(RouteSection {
        journey_id: None,
        departure_stop_id: origin,
        arrival_stop_id: origin + 100,
        arrival_at,
    })
}

#[test]
fn sorted_insert_keeps_order_and_breaks_ties_by_arrival_order() {
    let mut frontier = Vec::new();
    sorted_insert(&mut frontier, leg(1, 30));
    sorted_insert(&mut frontier, leg(2, 10));
    sorted_insert(&mut frontier, leg(3, 30));
    sorted_insert(&mut frontier, leg(4, 20));
    let order: Vec<(i32, u32)> =
        frontier.iter().map(|r| (r.origin_stop_id, r.arrival_at())).collect();
    assert_eq!(order, vec![(2, 10), (4, 20), (1, 30), (3, 30)]);
}

#[test]
fn sort_routes_orders_by_arrival() {
    let mut routes = vec![leg(1, 50), leg(2, 10), leg(3, 30)];
    sort_routes(&mut routes);
    let arrivals: Vec<u32> = routes.iter().map(|r| r.arrival_at()).collect();
    assert_eq!(arrivals, vec![10, 30, 50]);
}

#[test]
fn construction_surfaces_integrity_defects() {
    let stops = vec![Stop::new(1, "A".to_string())];
    let dangling = vec![StopConnection::new(500, 1, 9, 5)];
    let bit_fields = vec![BitField::new(100, vec![true; 5])];
    let result = DataStorage::new(
        stops,
        dangling,
        bit_fields,
        Vec::new(),
        Vec::new(),
        Vec::new(),
        metadata(),
        (2, 2),
    );
    assert!(matches!(result, Err(HrdfError::DataIntegrity { id: 500 })));

    let result = DataStorage::new(
        vec![Stop::new(1, "A".to_string())],
        Vec::new(),
        vec![BitField::new(100, vec![true; 3])],
        Vec::new(),
        Vec::new(),
        Vec::new(),
        metadata(),
        (2, 2),
    );
    assert!(matches!(result, Err(HrdfError::DataIntegrity { id: 100 })));

    let result = DataStorage::new(
        vec![Stop::new(1, "A".to_string())],
        Vec::new(),
        vec![BitField::new(100, vec![true; 5])],
        vec![Journey::new(10, "000011".to_string(), 999, vec![visit(1, None, Some(480))])],
        Vec::new(),
        Vec::new(),
        metadata(),
        (2, 2),
    );
    assert!(matches!(result, Err(HrdfError::DataIntegrity { id: 10 })));

    let mut inverted = metadata();
    inverted.end_date = Date::new(WINDOW_START - 1);
    let result = DataStorage::new(
        vec![Stop::new(1, "A".to_string())],
        Vec::new(),
        Vec::new(),
        Vec::new(),
        Vec::new(),
        Vec::new(),
        inverted,
        (2, 2),
    );
    assert!(matches!(result, Err(HrdfError::Configuration)));
}

#[test]
fn queries_against_unknown_stops_fail_typed() {
    let storage = build_storage(false);
    let result = plan_journey(&storage, 77, Some(2), Date::new(WINDOW_START), 470, config());
    assert!(matches!(result, Err(HrdfError::NotFound { id: 77 })));
    let result = plan_journey(&storage, 1, Some(88), Date::new(WINDOW_START), 470, config());
    assert!(matches!(result, Err(HrdfError::NotFound { id: 88 })));
    let zero = SearchConfig { max_pops: 0, max_sections: 8, allow_foot_only: false };
    let result = plan_journey(&storage, 1, Some(2), Date::new(WINDOW_START), 470, zero);
    assert!(matches!(result, Err(HrdfError::Configuration)));
}

#[test]
fn an_exhausted_budget_truncates_the_search() {
    let storage = build_storage(false);
    let tight = SearchConfig { max_pops: 1, max_sections: 8, allow_foot_only: false };
    let outcome = plan_journey(&storage, 1, Some(3), Date::new(WINDOW_START), 470, tight)
        .expect("the query is well-formed");
    match outcome {
        SearchOutcome::RoutesTruncated { routes, pops } => {
            assert!(routes.is_empty());
            assert_eq!(pops, 1);
        },
        other => panic!("expected a truncated search, got {:?}", other),
    }
}

#[test]
fn exchange_time_precedence_runs_journey_line_stop_default() {
    let mut stop_b = Stop::new(2, "B".to_string());
    stop_b.exchange_time = Some((2, 3));
    let stops = vec![Stop::new(1, "A".to_string()), stop_b, Stop::new(3, "C".to_string())];
    let bit_fields = vec![BitField::new(100, vec![true; 5])];
    let journeys = vec![
        Journey::new(10, "000011".to_string(), 100, vec![visit(1, None, Some(480))]),
        Journey::new(11, "000022".to_string(), 100, vec![visit(1, None, Some(490))]),
    ];
    let journey_override = ExchangeTimeJourney {
        id: 1,
        stop_id: 2,
        journey_id_1: 10,
        journey_id_2: 11,
        duration: 1,
        is_guaranteed: false,
        bit_field_id: None,
    };
    let line_override = ExchangeTimeLine {
        id: 1,
        stop_id: None,
        administration_1: "000011".to_string(),
        administration_2: "000022".to_string(),
        duration: 7,
        is_guaranteed: false,
    };
    let build = |etj: Vec<ExchangeTimeJourney>, etl: Vec<ExchangeTimeLine>| {
        DataStorage::new(
            stops.clone(),
            Vec::new(),
            bit_fields.clone(),
            journeys.clone(),
            etj,
            etl,
            metadata(),
            (4, 5),
        )
        .expect("the test timetable is consistent")
    };

    let both = build(vec![journey_override.clone()], vec![line_override.clone()]);
    let j1 = both.journeys.find(10).unwrap();
    let j2 = both.journeys.find(11).unwrap();
    let b = both.stops.find(2).unwrap();
    assert_eq!(both.exchange_time_between(b, j1, j2), 1);

    let line_only = build(Vec::new(), vec![line_override.clone()]);
    let j1 = line_only.journeys.find(10).unwrap();
    let j2 = line_only.journeys.find(11).unwrap();
    let b = line_only.stops.find(2).unwrap();
    assert_eq!(line_only.exchange_time_between(b, j1, j2), 7);

    let stop_only = build(Vec::new(), Vec::new());
    let j1 = stop_only.journeys.find(10).unwrap();
    let j2 = stop_only.journeys.find(11).unwrap();
    let b = stop_only.stops.find(2).unwrap();
    assert_eq!(stop_only.exchange_time_between(b, j1, j2), 3);
    let a = stop_only.stops.find(1).unwrap();
    assert_eq!(stop_only.exchange_time_between(a, j1, j2), 5);
}

#[test]
fn a_query_to_the_origin_answers_immediately() {
    let storage = build_storage(false);
    let outcome = plan_journey(&storage, 1, Some(1), Date::new(WINDOW_START), 470, config())
        .expect("the query is well-formed");
    match outcome {
        SearchOutcome::Routes(routes) => {
            assert_eq!(routes.len(), 1);
            assert_eq!(routes[0].sections.len(), 0);
            assert_eq!(routes[0].arrival_stop_id(), 1);
            assert_eq!(routes[0].arrival_at(), 470);
        },
        other => panic!("expected the hop-less itinerary, got {:?}", other),
    }
}

#[test]
fn default_exchange_time_is_exposed() {
    let storage = build_storage(false);
    assert_eq!(storage.default_exchange_time(), (2, 2));
}
