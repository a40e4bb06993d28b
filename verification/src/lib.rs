//! Route contracts of a service ecosystem: path rendering, structural identities,
//! route comparison, intent overlays and the topography map built from them.
pub mod outside;
pub mod text;
pub mod names;
pub mod route;
pub mod diff;
pub mod intent;
pub mod schema;
pub mod align;
pub mod map;
pub mod map_laws;
pub mod purpose_laws;

pub use route::{RouteSegment, RouteEntry};
pub use diff::{DiffResult, compare_routes, build_structural_index};
pub use intent::{
    ActualJson, InterfacesYml, InterfaceItem, merge_intent_into_actual, try_merge_intent_into_actual,
    parse_path_to_segments,
};
pub use schema::{
    LunarMapConfig, ProjectInfo, ProjectInterfaces, InterfaceRef, ConsumedRef, AlignmentEntry,
    PortConnection, AggregatedEdge, Anomalies, AnomalyEndpoint, LunarMap,
};
pub use align::{align_consumed_route, aggregate_status};
pub use map::{generate_lunar_map, detect_unused_endpoints, sort_by_name};
pub use align::find_server_route;
pub use vstd::hash_map::StringHashMap;
