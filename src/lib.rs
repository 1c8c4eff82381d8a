//! Core of a real-time audio graph: the graph store with its edge-admission
//! rules, the schedule compiler with its buffer assignment, silence masks,
//! and the decisions that the audio-thread processor makes for each
//! callback.
pub mod error;
pub mod graph;
pub mod ids;
pub mod processor;
pub mod schedule;
pub mod silence;
pub mod swap;
