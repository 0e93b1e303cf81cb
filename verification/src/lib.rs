//! A lightweight runtime profiler and tracer.
//!
//! Instrumented code reports timed scopes to a per-thread capture buffer,
//! the buffer spills to an append-only binary log through an exact codec,
//! and the reconstruction engine turns the flat event list back into a
//! per-thread, depth-annotated view suitable for flame-graph rendering.

pub mod capture;
pub mod codec;
pub mod data;
pub mod event;
pub mod viewer;

pub use codec::Event;
