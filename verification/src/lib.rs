//! Inventory of a host's open network sockets and a manager for named SSH
//! local-port-forward tunnels.
//!
//! The crate has two leaf components. The port discovery engine turns the
//! loosely structured text emitted by a socket-listing tool into a
//! normalized, deduplicated record set sorted by port. The tunnel lifecycle
//! manager owns a persisted registry of tunnel definitions whose connection
//! state is always re-derived from a fresh socket listing rather than cached.
//!
//! All process spawning, file access and terminal rendering live outside this
//! crate; every function here computes over plain values.

pub mod app;
pub mod codec;
pub mod port;
pub mod text;
pub mod tunnel;
