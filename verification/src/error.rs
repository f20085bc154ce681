//! The error taxonomy of the resolution core.
//!
//! `NotFound` covers failed sanitization, failed containment and absent
//! files alike, deliberately indistinguishable so a caller cannot probe
//! the filesystem's structure. `Io` is any other filesystem failure.

use vstd::prelude::*;

verus! {

#[derive(Clone, Copy, Debug, PartialEq, Eq, Structural)]
pub enum AppError {
    NotFound,
    Io,
}

/// Classify a failed filesystem operation: an absent file stays
/// `NotFound`, every other failure is an I/O error.
pub fn io_err(not_found: bool) -> (r: AppError)
    ensures
        r == if not_found {
            AppError::NotFound
        } else {
            AppError::Io
        },
{
    if not_found {
        AppError::NotFound
    } else {
        AppError::Io
    }
}

} // verus!
