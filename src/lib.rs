//! Model-parallel inference orchestration: layer dispatch planning, the
//! attention cache, the layer topology, the master/worker wire format and the
//! decisions of the token generation loop.

pub mod cache;
pub mod config;
pub mod dispatch;
pub mod names;
pub mod proto;
pub mod session;
pub mod topology;
