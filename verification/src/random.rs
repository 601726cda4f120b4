//! Random bytes from the operating system.
use vstd::prelude::*;

verus! {

#[verifier::external_type_specification]
#[verifier::external_body]
pub struct ExRandomError(getrandom::Error);

/// The operating system could not supply random bytes.
#[derive(Clone, Copy, Debug, PartialEq, Eq, Structural)]
pub struct RandomSourceError;

/// Calls `getrandom::getrandom` on the whole buffer. Of every outcome it
/// claims only what the crate documents: the buffer keeps its length, and an
/// empty buffer is filled at once with success. Which bytes come back, and
/// whether a non-empty request succeeds, is left open.
#[verifier::external_body]
pub(crate) fn fill_random(buf: &mut Vec<u8>) -> (r: Result<(), getrandom::Error>)
    ensures
        final(buf).len() == old(buf).len(),
        old(buf).len() == 0 ==> r is Ok,
{
    getrandom::getrandom(buf.as_mut_slice())
}

/// Draws random bytes into `buf`, reporting a failure of the source as the
/// library's own error.
pub(crate) fn draw_random_bytes(buf: &mut Vec<u8>) -> (r: Result<(), RandomSourceError>)
    ensures
        final(buf).len() == old(buf).len(),
        old(buf).len() == 0 ==> r is Ok,
{
    match fill_random(buf) {
        Ok(()) => Ok(()),
        Err(_) => Err(RandomSourceError),
    }
}

} // verus!
