pub mod cost;
pub mod edge;
pub mod latlon;
pub mod mst;
pub mod points;
pub mod statue;
pub mod tsp;
pub mod tsp_ext;
