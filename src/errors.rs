use vstd::prelude::*;

use crate::outside::io_error_kind;

verus! {

/// Whether an I/O error only says that a non-blocking operation has nothing
/// to do right now.
pub fn would_block(err: &std::io::Error) -> (r: bool)
    ensures
        r == (io_error_kind(*err) == std::io::ErrorKind::WouldBlock),
{
    let kind = err.kind();
    matches!(kind, std::io::ErrorKind::WouldBlock)
}

/// Whether an I/O error only says that a wait was interrupted by a signal.
pub fn interrupted(err: &std::io::Error) -> (r: bool)
    ensures
        r == (io_error_kind(*err) == std::io::ErrorKind::Interrupted),
{
    let kind = err.kind();
    matches!(kind, std::io::ErrorKind::Interrupted)
}

} // verus!
