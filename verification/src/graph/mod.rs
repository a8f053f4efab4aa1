//! graph execution model

pub mod definition;
pub mod id;
pub mod laws;
pub mod node;
pub mod route;
pub mod runtime;
pub mod state;
pub mod table;
pub mod text;
pub mod wiring;

pub use definition::Graph;
pub use route::{ConditionalEdge, Edge, UnconditionalEdge};
pub use runtime::{RunError, Runnable, Runtime};
