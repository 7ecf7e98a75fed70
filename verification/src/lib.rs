//! A verified simulation core for a network of activity (task) nodes and
//! mutex (resource token) nodes. Activities start only when every input
//! mutex holds a positive token count; starting consumes one token per
//! input, and finishing produces one token per output. Ticks are split
//! into an admission phase and a settlement phase, with priority-ordered,
//! deterministically tie-broken contention resolution.

pub mod activity_node;
pub mod codec;
pub mod codec_laws;
pub mod connection;
pub mod geom;
pub mod graph;
pub mod laws;
pub mod mutex_node;
pub mod numbers;
mod rng;
