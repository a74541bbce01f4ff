//! Verified core of a retained-mode UI toolkit: generational ids, the
//! committed style tree and its resolution, the element hierarchy, the
//! pointer gesture state machines, overlay placement decisions, column
//! bookkeeping, and a small in-memory backend.
pub mod collections;
pub mod columns;
pub mod element;
pub mod gesture;
pub mod host;
pub mod id;
pub mod interaction;
pub mod overlay;
pub mod presses;
pub mod scope;
pub mod signal;
pub mod style;
