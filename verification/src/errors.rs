use vstd::prelude::*;

verus! {

/// An error that aborts one schema-resolution call.
///
/// Per-service fetch failures are the one recoverable condition and are
/// skipped by the assembler rather than reported through this type.
#[derive(Debug)]
pub enum ResolveError {
    /// A unit was registered while one of its declared dependencies, the
    /// carried name, was absent from the registry.
    MissingDependency(String),
    /// The dependency graph contains a cycle; the carried name is one node
    /// that could not be resolved.
    Cycle(String),
    /// A descriptor fragment could not be decoded; the carried text is the
    /// decoder's message.
    Decode(String),
    /// The reflection server answered a request with a response of the
    /// wrong shape.
    ProtocolViolation,
    /// Enumerating the server's services failed; the carried text is the
    /// transport's message.
    Transport(String),
}

} // verus!
