//! Status codes of the sealing operations and their messages.

use vstd::prelude::*;
use vstd::string::StringExecFns;
use crate::internal::ApiError;

verus! {

/// Outcome classes of an operation, as surfaced at the boundary.
#[derive(Clone, Copy, Debug, PartialEq, Eq, Structural)]
pub enum FCPResponseStatus {
    FCPNoError,
    FCPUnclassifiedError,
    FCPCallerError,
    FCPReceiverError,
}

impl FCPResponseStatus {
    /// The stable numeric value of each class.
    pub open spec fn spec_code(self) -> u32 {
        match self {
            FCPResponseStatus::FCPNoError => 0,
            FCPResponseStatus::FCPUnclassifiedError => 1,
            FCPResponseStatus::FCPCallerError => 2,
            FCPResponseStatus::FCPReceiverError => 3,
        }
    }

    pub fn code(&self) -> (c: u32)
        ensures
            c == self.spec_code(),
    {
        match self {
            FCPResponseStatus::FCPNoError => 0,
            FCPResponseStatus::FCPUnclassifiedError => 1,
            FCPResponseStatus::FCPCallerError => 2,
            FCPResponseStatus::FCPReceiverError => 3,
        }
    }
}

/// Classifies a library error into a response status: malformed caller data
/// is the caller's fault, machinery failures the receiver's, and a failed
/// self-check is unclassified.
pub fn err_code_and_msg(err: &ApiError) -> (r: (FCPResponseStatus, String))
    ensures
        r.0 == match err {
            ApiError::CallerError => FCPResponseStatus::FCPCallerError,
            ApiError::ReceiverError => FCPResponseStatus::FCPReceiverError,
            ApiError::InternalError => FCPResponseStatus::FCPUnclassifiedError,
        },
{
    match err {
        ApiError::CallerError => (FCPResponseStatus::FCPCallerError,
            String::from_str("malformed sector or identifier")),
        ApiError::ReceiverError => (FCPResponseStatus::FCPReceiverError,
            String::from_str("sector access failed")),
        ApiError::InternalError => (FCPResponseStatus::FCPUnclassifiedError,
            String::from_str("freshly produced proof failed verification")),
    }
}

/// The human-readable message of a boundary status code.
pub open spec fn spec_status_string(code: u32) -> Seq<char> {
    if code == 0 { "success"@ }
    else if code == 10 { "failed to seal"@ }
    else if code == 20 { "invalid replica and/or data commitment"@ }
    else if code == 21 { "unhandled verify_seal error"@ }
    else if code == 30 { "failed to get unsealed range"@ }
    else if code == 40 { "failed to write to unsealed sector"@ }
    else if code == 41 { "failed to create unsealed sector"@ }
    else if code == 50 { "failed to open file for truncating"@ }
    else if code == 51 { "failed to set file length"@ }
    else if code == 60 { "could not read unsealed sector file size"@ }
    else if code == 70 { "could not create sector access parent directory"@ }
    else if code == 71 { "could not create sector file"@ }
    else if code == 72 { "could not stringify path buffer"@ }
    else if code == 73 { "could not create C string"@ }
    else if code == 80 { "could not create sealed sector-directory"@ }
    else if code == 81 { "could not create sealed sector"@ }
    else { "unknown status code "@ + crate::internal::spec_decimal(code as nat) }
}

/// Returns the message for a status code.
pub fn status_to_string(status_code: u32) -> (r: String)
    ensures
        r@ == spec_status_string(status_code),
{
    let s: &str = match status_code {
        0 => "success",
        10 => "failed to seal",
        20 => "invalid replica and/or data commitment",
        21 => "unhandled verify_seal error",
        30 => "failed to get unsealed range",
        40 => "failed to write to unsealed sector",
        41 => "failed to create unsealed sector",
        50 => "failed to open file for truncating",
        51 => "failed to set file length",
        60 => "could not read unsealed sector file size",
        70 => "could not create sector access parent directory",
        71 => "could not create sector file",
        72 => "could not stringify path buffer",
        73 => "could not create C string",
        80 => "could not create sealed sector-directory",
        81 => "could not create sealed sector",
        _ => {
            // An unlisted code keeps its numeric value in the message.
            proof {
                reveal_strlit("unknown status code ");
            }
            let mut m = String::from_str("unknown status code ");
            crate::internal::push_decimal(&mut m, status_code as usize);
            return m;
        },
    };
    String::from_str(s)
}

} // verus!
