//! Trie-based HTTP route matching, route groups, and middleware chains.
//!
//! Routes are registered per method in a search tree of path segments
//! (`literal`, `:name`, `*rest`). Groups add a prefix and their own
//! middleware; building the engine merges every route into one table, and
//! dispatching a request yields its handler, its bound parameters and the
//! middleware to run around the handler, outermost first.

pub mod chain;
pub mod engine;
pub mod params;
pub mod pattern;
pub mod response;
pub mod router;
pub mod trie;

pub use chain::{trace, Step};
pub use engine::{Dispatcher, Engine, Routed, RouterGroup, Target};
pub use params::{Params, Table};
pub use response::{Reply, ResponseBuilder};
pub use router::Router;
pub use trie::{Node, Trie};
