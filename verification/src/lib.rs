//! A radix-tree router: registered path patterns are matched against incoming
//! request paths, yielding the attached metadata and any captured parameters.
//!
//! Patterns are split on `/` into segments. A literal segment matches itself;
//! `:name` or a bare `*` captures exactly one segment; `**` or `**:name`
//! captures all remaining segments. Fully literal patterns are also indexed
//! directly for constant-time lookup.
pub mod kvlist;
pub mod laws;
pub mod meta;
pub mod model;
pub mod router;
pub mod strutil;

pub use meta::Meta;
pub use meta::MetaType;
pub use meta::MetaValue;
pub use router::get_node_type;
pub use router::normalize_trailing_slash;
pub use router::MatchedRoute;
pub use router::RouteNode;
pub use router::RouteType;
pub use router::Router;
pub use router::RouterContext;
pub use router::RouterOptions;
