//! A fixed-size grid with toggleable obstacle cells and two protected
//! endpoints, together with a verified breadth-first shortest-path engine
//! and a tick orchestrator that drains toggle requests before each
//! recomputation.

pub mod engine;
pub mod grid;
pub mod tick;
