//! Generators for two data-centre network topologies: a two-layer CLOS
//! (leaf/spine) fabric and a high-bandwidth Dragonfly.
//!
//! Every topology is described by a list of links `[src, dst, bandwidth]`
//! over a dense id space: hosts first, then switches or routers.

pub mod text;
pub mod links;
pub mod json;
pub mod clos;
pub mod dragonfly_high_bw;
