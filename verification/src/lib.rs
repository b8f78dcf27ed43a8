//! A remote-introspection bridge for a single-owner, frame-driven world loop.
//!
//! The crate provides three cooperating pieces: a task bridge that lets other
//! threads schedule work to run on the world-owning thread at named drain
//! points and retrieve the result exactly once; an event sink that keeps a
//! bounded, filtered ring buffer of recent diagnostic events; and a span
//! recorder that captures timed trace entries into a session-scoped timeline
//! document.

pub mod chrome;
pub mod discovery;
pub mod events;
pub mod render_graph;
pub mod serialization;
pub mod sync;
pub mod tracing;
