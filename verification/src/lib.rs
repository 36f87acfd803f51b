//! Dispatch engine of a TCP-level HTTP load balancer.

pub mod dispatch;
pub mod fairness;
pub mod framer;
pub mod framing;
pub mod health;
pub mod message;
pub mod registry;
