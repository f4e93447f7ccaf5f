//! A verified request-lifecycle engine for a sharding cache proxy.
//!
//! The crate models the core of a RESP-speaking proxy: a codec that turns
//! byte streams into protocol frames and back, a per-client message queue
//! that fragments multi-key commands and reassembles responses in request
//! order, shard routing with an optional shadow pool, and the per-backend
//! health state machine that drives cool-off.

pub mod backend;
pub mod command;
pub mod health;
pub mod idalloc;
pub mod parse;
pub mod pipeline;
pub mod processor;
pub mod queue;
pub mod redis;
pub mod routing;
pub mod resp;

pub use health::BackendHealth;
pub use pipeline::Pipeline;
pub use queue::MessageQueue;
pub use resp::RespFrame;
