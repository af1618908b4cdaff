//! A small dataflow interpreter: a program is a directed graph of named
//! nodes, each naming an operation, declaring a return type, and binding
//! its input ports to typed literals or typed references to other nodes.
//! Evaluation is demand-driven, memoized, cycle-checked, and every port
//! and return is checked against its declared type.

pub mod dict;
pub mod engine;
pub mod error;
pub mod json;
pub mod ops;
pub mod render;
pub mod schema;
pub mod types;

pub use engine::Engine;
pub use error::Error;
pub use json::Json;
pub use json::JsonV;
pub use ops::Operation;
pub use ops::Ops;
pub use schema::Graph;
pub use schema::Node;
pub use schema::TypedValue;
pub use types::SpellType;
