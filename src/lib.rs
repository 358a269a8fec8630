//! Route trees compiled from a nested listing of route directories, and a
//! backtracking matcher that decides whether a request path is covered by a
//! route and which login flag the route carries.

pub mod decode;
pub mod pattern;
pub mod route;
pub mod classify;
pub mod builder;
pub mod render;

pub use builder::{build_tree, process_dir, Entry};
pub use classify::{parse_complex, SegmentType};
pub use pattern::ComplexWildcard;
pub use route::{Item, Segment, SveltePathFinder};
