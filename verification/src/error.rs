//! The failure taxonomy every keyring operation reports.

use vstd::prelude::*;

verus! {

/// One failure kind of a keyring operation.
///
/// `Other` carries the raw errno of any kernel failure that has no dedicated
/// kind of its own.
#[derive(Debug, Copy, Clone, PartialEq, Eq, Structural)]
pub enum KeyError {
    /// A raw value returned by the kernel failed range validation.
    InvalidIdentifier,
    /// A description contains an embedded terminator byte or otherwise
    /// cannot be encoded for the kernel.
    InvalidDescription,
    /// The target of a lookup, search or unlink is absent.
    KeyDoesNotExist,
    /// The caller lacks the permission the operation demands.
    PermissionDenied,
    /// A kernel quota on keys was hit during creation.
    QuotaExceeded,
    /// The requested link would make a keyring reachable from itself.
    AccessCycle,
    /// The requested link would nest keyrings deeper than the kernel bound.
    NestingTooDeep,
    /// Any other kernel error, by raw errno.
    Other(i32),
}

/// The kind that a raw kernel errno maps to.
pub open spec fn classify_errno_spec(errno: i32) -> KeyError {
    if errno == 1 || errno == 13 {
        KeyError::PermissionDenied
    } else if errno == 126 {
        KeyError::KeyDoesNotExist
    } else if errno == 122 {
        KeyError::QuotaExceeded
    } else if errno == 35 {
        KeyError::AccessCycle
    } else if errno == 40 {
        KeyError::NestingTooDeep
    } else {
        KeyError::Other(errno)
    }
}

/// Classify a raw kernel errno into the typed taxonomy: EPERM/EACCES become
/// `PermissionDenied`, ENOKEY `KeyDoesNotExist`, EDQUOT `QuotaExceeded`,
/// EDEADLK `AccessCycle`, ELOOP `NestingTooDeep`; the rest pass through raw.
pub fn classify_errno(errno: i32) -> (r: KeyError)
    ensures
        r == classify_errno_spec(errno),
{
    if errno == 1 || errno == 13 {
        KeyError::PermissionDenied
    } else if errno == 126 {
        KeyError::KeyDoesNotExist
    } else if errno == 122 {
        KeyError::QuotaExceeded
    } else if errno == 35 {
        KeyError::AccessCycle
    } else if errno == 40 {
        KeyError::NestingTooDeep
    } else {
        KeyError::Other(errno)
    }
}

} // verus!
