//! The Adler-32 checksum of the zlib trailer.
use vstd::prelude::*;

verus! {

/// The Adler-32 checksum of a byte sequence, as RFC 1950 defines it.
pub uninterp spec fn adler32_of(s: Seq<u8>) -> u32;

/// Relies on adler32::RollingAdler32::from_buffer and hash: the checksum of `data`, started
/// from the initial value 1, which is also the checksum of no bytes.
#[verifier::external_body]
pub(crate) fn adler32_checksum(data: &[u8]) -> (r: u32)
    ensures
        r == adler32_of(data@),
        data@.len() == 0 ==> r == 1,
{
    adler32::RollingAdler32::from_buffer(data).hash()
}

} // verus!
