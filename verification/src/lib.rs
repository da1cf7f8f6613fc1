//! A user-space service supervisor core: a unit table with dependency
//! resolution, a parallel-startup scheduler model, socket-activation
//! bookkeeping, the child I/O multiplexer's pure parts, the status
//! notification protocol, and the signal-driven lifecycle reconciler.
//!
//! Blocking work (spawning children, `select`, signal waits) lives in the
//! surrounding binary; everything that decides or computes lives here.

pub mod config;
pub mod multiplexer;
pub mod notification_handler;
pub mod resolver;
pub mod scheduler;
pub mod signal_handler;
pub mod sockets;
pub mod units;
