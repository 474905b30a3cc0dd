use vstd::prelude::*;

verus! {

/// `std::io::Error` is carried through the library as an opaque value.
#[verifier::external_type_specification]
#[verifier::external_body]
pub struct ExIoError(std::io::Error);

/// Calls `std::io::Error::new` with kind `UnexpectedEof` and the message that
/// `Read::read_exact` uses when its input ends early. The value is opaque to Verus:
/// nothing is claimed of it.
#[verifier::external_body]
pub(crate) fn eof_error() -> std::io::Error {
    std::io::Error::new(std::io::ErrorKind::UnexpectedEof, "failed to fill whole buffer")
}

} // verus!
