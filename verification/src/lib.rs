//! Engram: a durable task-graph store.
//!
//! Items (units of work) are connected by directed, typed edges. Two
//! append-only record logs are the source of truth; an in-memory index
//! is derived from them and answers graph queries, in particular which
//! items are ready to work on. The blocking subgraph is kept acyclic.

pub mod batch;
pub mod clock;
pub mod compact;
pub mod daemon;
pub mod codec;
pub mod graph;
pub mod id;
pub mod laws;
pub mod model;
pub mod protocol;
pub mod store;
pub mod vacuum;
pub mod text;
pub mod types;

pub use batch::{BatchCloseResult, BatchCreateResult, CreateSpec};
pub use compact::{CompactConfig, CompactResult};
pub use daemon::DaemonConfig;
pub use protocol::{Request, Response};
pub use store::{Store, StoreError};
pub use types::{Edge, EdgeKind, Item, Status, ValidationError};
pub use vacuum::VacuumResult;
