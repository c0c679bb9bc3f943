use vstd::prelude::*;

verus! {

/// Error categories shared with the surrounding system. The codec itself
/// only ever produces `Malformed`; every other kind is reserved for the
/// external collaborators that consume the codec.
#[derive(Debug)]
pub enum ErrorCode {
    // Protocol errors
    InvalidEventType,
    Malformed,
    IncompleteMessage,
    UnsupportedVersion,
    // Application errors
    KeyNotFound,
    TtlExpired,
    ValueTooLarge,
    DiskWriteFailed,
    // Cluster/state errors
    ReadonlyMode,
    MasterUnavailable,
    SyncDenied,
    // System errors
    InternalServerError,
    ConfigInvalid,
    // Client errors
    ConnectionFailed,
    SendFailed,
    NotConnected,
    ReadFailed,
    WriteFailed,
}

/// A typed error with a human-readable message payload.
#[derive(Debug)]
pub struct Error {
    code: ErrorCode,
    message: String,
}

impl Error {
    /// The error category this error carries.
    pub closed spec fn spec_code(self) -> ErrorCode {
        self.code
    }

    /// The human-readable payload.
    pub closed spec fn spec_message(self) -> Seq<char> {
        self.message@
    }

    pub fn new(code: ErrorCode, message: String) -> (r: Error)
        ensures
            r.spec_code() == code,
            r.spec_message() == message@,
    {
        Error { code, message }
    }
}

} // verus!
