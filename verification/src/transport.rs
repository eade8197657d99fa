use vstd::prelude::*;

verus! {

/// The transport-error classes the reflection exchange distinguishes. The
/// caller maps its transport library's status onto this type before handing
/// the failure in.
pub enum TransportCode {
    /// The endpoint was unreachable or refused the connection.
    Unavailable,
    /// Credentials were missing or invalid.
    Unauthenticated,
    /// The request exceeded its deadline.
    DeadlineExceeded,
    /// Any other transport fault.
    Other,
}

/// One request of the reflection exchange. Each is sent as one message and
/// answered by exactly one matching response message.
pub enum FetchAction {
    /// Ask the server for its service names.
    ListServices,
    /// Ask for the files defining the named symbol, with the dependencies
    /// the server chooses to bundle.
    FileContainingSymbol(String),
    /// Ask for one file by its name.
    FileByFilename(String),
}

/// One answer handed back by the caller after performing a `FetchAction`.
pub enum FetchEvent {
    /// The service names, in the order the server listed them.
    Services(Vec<String>),
    /// Raw file-descriptor blobs, one serialized file each.
    Descriptors(Vec<Vec<u8>>),
    /// The request failed in transport; the text is the classified message.
    FetchFailed(String),
    /// The server answered with a response shape the exchange does not
    /// know for this request: a protocol violation.
    UnexpectedResponse,
}

/// Map a classified transport error onto the message surfaced to the
/// caller: unreachable endpoints, missing credentials and exceeded
/// deadlines get fixed texts; any other fault passes the transport's own
/// message through unchanged.
pub fn classify_transport_error(code: TransportCode, raw: String) -> (msg: String)
    ensures
        match code {
            TransportCode::Unavailable => msg@ == "Failed to connect to endpoint"@,
            TransportCode::Unauthenticated => msg@ == "Authentication failed"@,
            TransportCode::DeadlineExceeded => msg@ == "Deadline exceeded"@,
            TransportCode::Other => msg@ == raw@,
        },
{
    match code {
        TransportCode::Unavailable => "Failed to connect to endpoint".to_owned(),
        TransportCode::Unauthenticated => "Authentication failed".to_owned(),
        TransportCode::DeadlineExceeded => "Deadline exceeded".to_owned(),
        TransportCode::Other => raw,
    }
}

} // verus!
