//! Journey planning over a public-transport timetable: the best route from
//! one stop to another, the stops that can be reached within a time, and the
//! counting that an isochrone map needs.
pub mod builder;
pub mod collections;
pub mod isochrone;
pub mod journey;
pub mod routing;
pub mod service;
pub mod timetable;
pub mod utils;

pub use routing::find_reachable_stops_within_time_limit;
pub use routing::models::RouteResult as Route;
pub use routing::models::RouteSectionResult as RouteSection;
pub use routing::plan_journey;
