//! Batched state-aggregation core for a telemetry backend.
//!
//! Shard connections deliver per-node add/update/remove/disconnect events.
//! This layer resolves node identity, mutates a live node registry, and
//! accumulates per-chain feed messages, which periodic drain operations hand
//! to the broadcast layer. A separately scheduled step rebuilds a chunked
//! snapshot of every chain from a frozen mirror of the registry, so that
//! newly subscribing feed clients can be caught up without blocking writers.

pub mod chunks;
pub mod feed;
pub mod ids;
pub mod registry;
pub mod state;

pub use feed::FeedMessage;
pub use registry::Payload;
pub use state::State;
pub use feed::FeedMessageSerializer;
pub use feed::MuteReason;
pub use feed::NodeDetails;
pub use feed::NodeInfo;
pub use feed::NodeLocation;
