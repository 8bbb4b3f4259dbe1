//! Task snapshots of a repository for a progress globe: task sources
//! (beads issues, markdown checklists), their merge into one sorted snapshot
//! with reverse dependency links, aggregate counts, and the globe's
//! bookkeeping (lineage hues, claim/completion trails, completion timers).
pub mod text;
pub mod sorting;
pub mod model;
pub mod json;
pub mod sources;
pub mod render;
pub mod animation;
