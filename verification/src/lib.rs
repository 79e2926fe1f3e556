//! Sailwind Online server library: the verified core of the shared-seas
//! server (economy, transport framing and peer bookkeeping, area of interest,
//! throttling, configuration).
pub mod arch_dag;
pub mod config;
pub mod contracts;
pub mod dispatch;
pub mod econ;
pub mod flush;
pub mod interest;
pub mod net;
pub mod persist;
pub mod ratelimit;
pub mod session;
pub mod validate;
pub mod world;
