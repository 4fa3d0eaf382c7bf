//! What is logged.
use crate::model::event::RefreshFailureKind;
use vstd::prelude::*;

verus! {

/// What is logged unless the environment says otherwise: a development build logs the
/// details of the application, but not of what it is built on.
pub fn default_filter(development: bool) -> (filter: &'static str)
    ensures
        filter@ == (if development {
            "info,pigeon=debug"@
        } else {
            "info"@
        }),
{
    if development {
        "info,pigeon=debug"
    } else {
        "info"
    }
}

/// What is logged of a failure: its kind, and nothing of what it says.
pub fn error_category(kind: RefreshFailureKind) -> (category: &'static str)
    ensures
        category@ == (match kind {
            RefreshFailureKind::Connectivity => "connectivity"@,
            RefreshFailureKind::Authentication => "authentication"@,
            RefreshFailureKind::Storage => "storage"@,
            RefreshFailureKind::Backend => "backend"@,
        }),
{
    match kind {
        RefreshFailureKind::Connectivity => "connectivity",
        RefreshFailureKind::Authentication => "authentication",
        RefreshFailureKind::Storage => "storage",
        RefreshFailureKind::Backend => "backend",
    }
}

} // verus!
