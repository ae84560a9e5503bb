//! A word scrambler: every word gets a stable pseudo-random translation,
//! memoized in a durable record store with backup-and-fallback recovery.

pub mod scrambler;
pub mod translate;
