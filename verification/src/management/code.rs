//! The reply codes RFC 3080 defines for `<error>` and `<close>`.

use vstd::prelude::*;

verus! {

/// Service not available.
pub const SERVICE_NOT_AVAILABLE: u32 = 421;

/// Requested action not taken.
pub const ACTION_NOT_TAKEN: u32 = 450;

/// Requested action aborted.
pub const ACTION_ABORTED: u32 = 451;

/// Temporary authentication failure.
pub const TEMPORARY_AUTH_FAILURE: u32 = 454;

/// General syntax error.
pub const GENERAL_SYNTAX_ERROR: u32 = 500;

/// Syntax error in parameters.
pub const SYNTAX_ERROR_IN_PARAMETERS: u32 = 501;

/// Parameter not implemented.
pub const PARAMETER_NOT_IMPLEMENTED: u32 = 504;

/// Authentication required.
pub const AUTHENTICATION_REQUIRED: u32 = 530;

/// Authentication mechanism insufficient.
pub const AUTH_MECHANISM_INSUFFICIENT: u32 = 534;

/// Authentication failure.
pub const AUTHENTICATION_FAILURE: u32 = 535;

/// Action not authorised for user.
pub const ACTION_NOT_AUTHORISED: u32 = 537;

/// Authentication mechanism requires encryption.
pub const AUTH_REQUIRES_ENCRYPTION: u32 = 538;

/// Requested action not taken, most commonly a refused channel start.
pub const REQUESTED_ACTION_NOT_TAKEN: u32 = 550;

/// Parameter invalid.
pub const PARAMETER_INVALID: u32 = 553;

/// Transaction failed.
pub const TRANSACTION_FAILED: u32 = 554;

/// Success, the code a `<close>` normally carries.
pub const SUCCESS: u32 = 200;

} // verus!
