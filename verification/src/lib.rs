//! A reactive state-machine runtime for process control: guarded operations
//! advance over a shared hierarchical state space once per tick, selected
//! state paths are bound to an external key-value store, and the whole state
//! graph can be rendered as a cycle-safe, JSON-compatible snapshot.

pub mod json;
pub mod ops;
pub mod runtime;
pub mod snapshot;
pub mod state;
pub mod text;
pub mod transitions;
pub mod value;
