//! The route search: the candidate-route value type, the helper
//! functions over the timetable store, and the earliest-arrival engine.

mod engine;
mod models;
mod utils;

pub use engine::SearchConfig;
pub use engine::SearchOutcome;
pub use engine::expand_route;
pub use engine::expansion_ok;
pub use engine::plan_journey;
pub use engine::spec_good_result;
pub use engine::spec_valid_route;
pub use models::Route;
pub use models::RouteSection;
pub use models::lemma_no_stop_visited_twice;
pub use models::spec_route_stop_at;
pub use utils::lemma_front_pop_is_earliest;
pub use utils::spec_sorted_by_arrival;
pub use utils::clone_update_route;
pub use utils::get_operating_journeys;
pub use utils::get_routes_to_ignore;
pub use utils::get_stop_connections;
pub use utils::sort_routes;
pub use utils::sorted_insert;
