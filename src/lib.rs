//! Board mechanics and solvable-level search for a "SameGame"-style
//! tile-matching puzzle: flood-fill grouping, gravity, column compaction,
//! win detection, and a randomized search that produces boards together with
//! a click sequence that clears them.

pub mod board;
pub mod collapse;
pub mod group;
pub mod level;
pub mod render;
