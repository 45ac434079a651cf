//! Time tracking per browser tab, aggregated over a tree of URL segments,
//! with named sessions and a framed request/response protocol.

pub mod text;
pub mod clock;
pub mod model;
pub mod tab;
pub mod node;
pub mod segments;
pub mod tracker;
pub mod nested;
pub mod laws;
pub mod session;
pub mod logger;
pub mod host;
