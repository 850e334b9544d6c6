//! Random rhythm patterns: a pattern is a tree of timed sub-patterns whose
//! leaves are notes; the generator grows such trees from a seeded random
//! source, and assembly flattens a tree into notes with absolute start times.
//! Times are counted in ticks of 2^-54 seconds. Beside the patterns, the
//! library holds how tagged phrase notes are voiced and arranged, and the
//! looping position of live playback.
pub mod unit_draw;
pub mod random;
pub mod pattern;
pub mod generate;
pub mod playground;
pub mod voicing;
pub mod arrangement;
pub mod playback;
