//! Error taxonomy of the streaming pipeline. File-level failures are
//! reported by the worker loop and never propagate here; a fence close
//! without a matching open is a no-op, not an error.

use vstd::prelude::*;

verus! {

/// A command-line argument that no command recognizes.
#[derive(Debug, PartialEq, Eq, Structural)]
pub struct InvalidArgument;

impl InvalidArgument {
    /// The user-facing description of the error.
    pub fn message(&self) -> (m: String)
        ensures
            m@ == "Invalid argument. Use -h to view valid commands."@,
    {
        String::from_str("Invalid argument. Use -h to view valid commands.")
    }
}

/// Why consuming a response stream stopped early: the transport failed,
/// a frame held bytes that are not UTF-8, or a frame's JSON payload did
/// not parse (the offending payload is kept for the report).
#[derive(Debug)]
pub enum StreamError {
    Network,
    Encoding,
    Decode { payload: String },
}

impl StreamError {
    /// The user-facing description of the error, naming the stage that
    /// failed.
    pub fn message(&self) -> (m: String)
        ensures
            self is Network ==> m@ == "network failure while reading the response stream"@,
            self is Encoding ==> m@ == "response frame held bytes that are not valid UTF-8"@,
            self matches StreamError::Decode { payload } ==> m@
                == "response frame held a malformed payload: "@ + payload@,
    {
        match self {
            StreamError::Network => String::from_str(
                "network failure while reading the response stream",
            ),
            StreamError::Encoding => String::from_str(
                "response frame held bytes that are not valid UTF-8",
            ),
            StreamError::Decode { payload } => String::from_str(
                "response frame held a malformed payload: ",
            ).concat(payload.as_str()),
        }
    }
}

} // verus!
