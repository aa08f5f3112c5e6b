//! Endpoint-health registry core: a hierarchical key codec over a string
//! key-value store, endpoint records and statistics with their eviction
//! policy, and the decision logic of the periodic dispatcher and of the
//! probing worker. The transports around it — the store itself, the
//! message broker, outbound HTTP — are collaborators behind the narrow
//! interfaces this crate states.

pub mod db;
pub mod dispatch;
pub mod error;
pub mod keys;
pub mod kv;
pub mod opt;
pub mod queue;
pub mod values;
pub mod worker;
