use vstd::prelude::*;

verus! {

/// The error getrandom reports when the system's random source is unavailable.
#[verifier::external_type_specification]
#[verifier::external_body]
pub struct ExRandomError(getrandom::Error);

/// Relies on getrandom::u32: a number from the system's random source, or an
/// error when that source is unavailable. Nothing is promised of the number.
pub assume_specification[ getrandom::u32 ]() -> Result<u32, getrandom::Error>;

/// A random draw, or 0 when the system's random source is unavailable.
pub(crate) fn draw() -> u32 {
    match getrandom::u32() {
        Ok(v) => v,
        Err(_) => 0,
    }
}

} // verus!
