//! The simulated service topology: the services a demo request passes
//! through, their display colors, and the errors each can report.

use vstd::prelude::*;
use crate::labels::same_str;

verus! {

/// The display color of a known service; unknown services are grey.
pub open spec fn spec_color_for(name: Seq<char>) -> (u8, u8, u8) {
    if name == "api-gateway"@ {
        (94, 234, 212)
    } else if name == "auth"@ {
        (167, 139, 250)
    } else if name == "catalog"@ {
        (96, 165, 250)
    } else if name == "cart"@ {
        (52, 211, 153)
    } else if name == "payments"@ {
        (251, 191, 36)
    } else if name == "postgres"@ {
        (244, 114, 182)
    } else {
        (148, 148, 148)
    }
}

/// The display color for a service name (falls back to grey if unknown).
pub fn color_for(name: &str) -> (c: (u8, u8, u8))
    ensures
        c == spec_color_for(name@),
{
    if same_str(name, "api-gateway") {
        (94, 234, 212)
    } else if same_str(name, "auth") {
        (167, 139, 250)
    } else if same_str(name, "catalog") {
        (96, 165, 250)
    } else if same_str(name, "cart") {
        (52, 211, 153)
    } else if same_str(name, "payments") {
        (251, 191, 36)
    } else if same_str(name, "postgres") {
        (244, 114, 182)
    } else {
        (148, 148, 148)
    }
}

/// The error a service reports when it fails.
pub open spec fn spec_error_message(service: Seq<char>) -> Seq<char> {
    if service == "payments"@ {
        "card authorization declined by processor"@
    } else if service == "postgres"@ {
        "connection pool exhausted"@
    } else if service == "catalog"@ {
        "upstream inventory service timed out"@
    } else if service == "auth"@ {
        "token validation failed"@
    } else if service == "cart"@ {
        "cart snapshot is stale"@
    } else {
        "internal error"@
    }
}

/// A plausible error message for a given service.
pub fn error_message(service: &str) -> (m: &'static str)
    ensures
        m@ == spec_error_message(service@),
{
    if same_str(service, "payments") {
        "card authorization declined by processor"
    } else if same_str(service, "postgres") {
        "connection pool exhausted"
    } else if same_str(service, "catalog") {
        "upstream inventory service timed out"
    } else if same_str(service, "auth") {
        "token validation failed"
    } else if same_str(service, "cart") {
        "cart snapshot is stale"
    } else {
        "internal error"
    }
}

} // verus!
