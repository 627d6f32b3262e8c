//! Flattening of nested structured-data trees into flat, dot-keyed mappings.
//!
//! A tree value (scalars, arrays, objects) is walked recursively; every
//! scalar leaf becomes one entry of the result, keyed by the path from the
//! root to that leaf, with the segments joined by `.`. Array elements
//! contribute their decimal index as a path segment, so arrays flatten
//! exactly like objects keyed `"0"`, `"1"`, and so on.

pub mod flatten;
pub mod laws;
pub mod model;
pub mod value;

pub use flatten::arr_to_dot_map;
pub use flatten::map_to_dot_map;
pub use flatten::value_to_dot;
pub use value::DotMap;
pub use value::Entry;
pub use value::Value;
