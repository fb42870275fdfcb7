//! OpenStreetMap object retrieval and geometry reconstruction engine.
//!
//! Given the name of a geographic area, the engine fetches every node, way
//! and relation of that area from a set of Overpass API endpoints, resolves
//! their transitive dependencies, materialises them in an on-disk cache
//! keyed by canonical object id, and reconstructs well-known-text (WKT)
//! geometry strings, including ring-assembled multipolygons.
//!
//! The crate holds the verified logic: the object model, the cache codec,
//! the streaming JSON element parser, query construction, endpoint
//! rotation, dependency resolution and the geometry builder.  The HTTP
//! transport itself is driven by the host program, which feeds response
//! bodies back into the library.

pub mod cache;
pub mod change;
pub mod codec;
pub mod json;
pub mod numbers;
pub mod object;
pub mod object_manager;
pub mod queries;
pub mod strutil;
pub mod utils;
