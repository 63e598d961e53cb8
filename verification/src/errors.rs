use vstd::prelude::*;

verus! {

/// Error taxonomy of the control plane, mirroring the status codes the wire
/// layer reports to callers.
///
/// - `NotFound`: file or chunk unknown to the master, or blob missing.
/// - `InvalidArgument`: malformed upload stream or unparsable chunk name.
/// - `Unauthenticated`: OTP missing, unknown, or expired.
/// - `Internal`: I/O failure, no chunkservers available, clock anomaly.
/// - `Unavailable`: transient reconnect paths.
#[derive(Clone, Copy, PartialEq, Eq, Structural, Debug)]
pub enum FsError {
    NotFound,
    InvalidArgument,
    Unauthenticated,
    Internal,
    Unavailable,
}

impl FsError {
    /// Short description of the error, for log lines and operator output.
    pub fn describe(&self) -> (r: &'static str)
        ensures
            r@ == self.spec_describe(),
    {
        match self {
            FsError::NotFound => "not found",
            FsError::InvalidArgument => "invalid argument",
            FsError::Unauthenticated => "unauthenticated",
            FsError::Internal => "internal error",
            FsError::Unavailable => "unavailable",
        }
    }

    pub open spec fn spec_describe(self) -> Seq<char> {
        match self {
            FsError::NotFound => "not found"@,
            FsError::InvalidArgument => "invalid argument"@,
            FsError::Unauthenticated => "unauthenticated"@,
            FsError::Internal => "internal error"@,
            FsError::Unavailable => "unavailable"@,
        }
    }
}

} // verus!
