//! Two allocation-avoidance primitives for hot paths: a bounded pool of
//! reusable fixed-capacity byte buffers, and an associative container that
//! stores few entries inline and permanently promotes to an ordered tree
//! once a size threshold is crossed.

pub mod buffer_cache;
pub mod shitty_map;
