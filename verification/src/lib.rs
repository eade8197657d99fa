//! Runtime resolution of protobuf schema information for RPC services.
//!
//! The crate assembles a dependency-complete schema registry from file-level
//! descriptor fragments that may arrive in arbitrary order, either decoded
//! from a local compiler's output or fetched from a running server's
//! reflection protocol. A generic incremental topological sorter orders the
//! fragments; the registry enforces that a unit is inserted only after all
//! of its dependencies; a small state machine drives the reflection
//! exchange, leaving the actual transport to the caller.

pub mod assemble;
pub mod compile;
pub mod descriptor;
pub mod errors;
pub mod registry;
pub mod route;
pub mod topo;
pub mod transport;
