//! An in-memory indexed timetable model and an earliest-arrival route
//! search built on it.
//!
//! The library answers itinerary queries ("earliest arrival from stop A to
//! stop B on a given date") over a rail/transit timetable that an ingestion
//! collaborator loads once. It holds the generic keyed storage layer, the
//! operating-calendar (bit-field) model, the candidate-route value type with
//! its pure extension protocol, and the search loop that explores the
//! transit graph.

mod index;
mod models;
mod routing;
mod storage;
mod store;

pub use models::BitField;
pub use models::Date;
pub use models::ExchangeTimeJourney;
pub use models::ExchangeTimeLine;
pub use models::HrdfError;
pub use models::Journey;
pub use models::JourneyVisit;
pub use models::Keyed;
pub use models::Stop;
pub use models::StopConnection;
pub use models::TimetableMetadata;
pub use routing::Route;
pub use routing::RouteSection;
pub use routing::SearchConfig;
pub use routing::SearchOutcome;
pub use routing::clone_update_route;
pub use routing::expand_route;
pub use routing::get_operating_journeys;
pub use routing::get_routes_to_ignore;
pub use routing::get_stop_connections;
pub use routing::lemma_front_pop_is_earliest;
pub use routing::lemma_no_stop_visited_twice;
pub use routing::plan_journey;
pub use routing::sort_routes;
pub use routing::sorted_insert;
pub use storage::DataStorage;
pub use store::IndexedStore;
pub use store::lemma_find_stored;
