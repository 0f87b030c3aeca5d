use vstd::prelude::*;

verus! {

/// Calls `getrandom::fill` on an 8-byte buffer, first filled with zeros,
/// and reads it as a little-endian `u64` (`u64::from_le_bytes`); an error
/// from the random source is ignored, and the buffer then holds whatever
/// the source left in it. Nothing is claimed of the value: it comes from
/// the operating system.
#[verifier::external_body]
pub fn get_seed() -> u64 {
    let mut buf = [0u8; 8];
    getrandom::fill(&mut buf).unwrap_or(());
    u64::from_le_bytes(buf)
}

} // verus!
