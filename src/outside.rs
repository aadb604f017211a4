use vstd::prelude::*;

verus! {

/// The kind of an I/O error: `std::io::ErrorKind`, a field-less enum whose
/// variants the library matches on.
#[verifier::external_type_specification]
pub struct ExErrorKind(std::io::ErrorKind);

/// An I/O error, carried through opaquely.
#[verifier::external_type_specification]
#[verifier::external_body]
pub struct ExIoError(std::io::Error);

/// The kind that `std::io::Error::kind` reports for an error; it depends on
/// the error value alone.
pub uninterp spec fn io_error_kind(e: std::io::Error) -> std::io::ErrorKind;

/// Relies on `std::io::Error::kind`: it returns the kind of the error.
pub assume_specification[ std::io::Error::kind ](e: &std::io::Error) -> (r: std::io::ErrorKind)
    ensures
        r == io_error_kind(*e),
;

/// A readiness token of mio: a plain `usize` that names a registration.
#[verifier::external_type_specification]
pub struct ExToken(mio::Token);

} // verus!
