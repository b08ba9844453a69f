//! Random bytes from the operating system.

use crate::error::StreamError;
use crate::utils::zero_bytes;
use rand::RngCore;
use vstd::prelude::*;

verus! {

#[verifier::external_type_specification]
#[verifier::external_body]
pub struct ExRandError(rand::Error);

/// Calls `OsRng.try_fill_bytes`, which overwrites `buf` with bytes of the
/// operating system's generator or reports its failure. Nothing is claimed of
/// the bytes.
#[verifier::external_body]
fn os_fill(buf: &mut [u8]) -> (r: Result<(), rand::Error>)
    ensures
        final(buf)@.len() == old(buf)@.len(),
{
    rand::rngs::OsRng.try_fill_bytes(buf)
}

/// `len` fresh random bytes; fails with [`StreamError::Io`] where the generator of
/// the operating system does.
pub fn random_bytes(len: usize) -> (r: Result<Vec<u8>, StreamError>)
    ensures
        r matches Ok(v) ==> v@.len() == len,
        r matches Err(e) ==> e == StreamError::Io,
{
    let mut out = zero_bytes(len);
    match os_fill(out.as_mut_slice()) {
        Ok(()) => Ok(out),
        Err(_) => Err(StreamError::Io),
    }
}

} // verus!
