use vstd::prelude::*;

use lz4_flex::block::DecompressError;

verus! {

/// What `lz4_flex::decompress_size_prepended` reads back from `input`, when it can.
pub uninterp spec fn lz4_decompressed(input: Seq<u8>) -> Option<Seq<u8>>;

/// The inputs `compress_prepend_size` takes without panicking: its bound on the output size,
/// `input_len * 110 / 100 + 20` plus the four prefix bytes, is computed in `usize`.
pub open spec fn compressible(input: Seq<u8>) -> bool {
    input.len() * 110 + 24 <= usize::MAX
}

/// The inputs `decompress_size_prepended` takes without panicking: an lz4 length is summed
/// byte by byte in a `u32` (up to 255 per byte read), then added to positions of `usize`
/// next to an output of up to `u32::MAX` bytes.
pub open spec fn decompressible(input: Seq<u8>) -> bool {
    &&& input.len() * 255 + 15 <= u32::MAX
    &&& input.len() * 255 + 0x1_0000_0000 + 64 <= usize::MAX
}

/// The error of a failed decompression, carried through as it is.
#[verifier::external_type_specification]
#[verifier::external_body]
pub struct ExDecompressError(DecompressError);

/// `lz4_flex::compress_prepend_size`: compresses `input`. Its first four bytes hold the length
/// of `input`, little endian, as the crate's source writes them, and, as the crate documents,
/// `decompress_size_prepended` reads `input` back from the result. The compressed bytes
/// themselves are not stated: the crate's hashing reads native endian words and picks its
/// table by pointer width, so they depend on the machine.
#[verifier::external_body]
fn compress_prepend_size(input: &[u8]) -> (r: Vec<u8>)
    requires
        compressible(input@),
    ensures
        input@.len() <= u32::MAX ==> r@.len() >= 4 && r@[0] as int + r@[1] as int * 0x100 + r@[2] as int
            * 0x10000 + r@[3] as int * 0x1000000 == input@.len(),
        input@.len() <= u32::MAX ==> lz4_decompressed(r@) == Some(input@),
{
    lz4_flex::block::compress_prepend_size(input)
}

/// `lz4_flex::decompress_size_prepended`: decompresses `input`. What it gives back is named by
/// `lz4_decompressed`. Inputs long enough to overflow its `u32` length sums (which panics
/// where overflow checks are on) are left out by `requires`; on a 32-bit machine that leaves
/// no input.
#[verifier::external_body]
fn decompress_size_prepended(input: &[u8]) -> (r: Result<Vec<u8>, DecompressError>)
    requires
        decompressible(input@),
    ensures
        (match r {
            Ok(v) => lz4_decompressed(input@) == Some(v@),
            Err(_) => lz4_decompressed(input@) is None,
        }),
{
    lz4_flex::block::decompress_size_prepended(input)
}

/// Why a cache file could not be read.
#[derive(Clone, Copy, Debug, PartialEq, Eq, Structural)]
pub enum CacheError {
    /// The bytes are not a compressed chunk.
    Corrupted,
}

/// **Returns** the bytes stored in the cache for the `serialized` bytes of a chunk: compressed,
/// their length first. [`decode_cache`] reads them back as they were.
pub fn encode_cache(serialized: &[u8]) -> (r: Vec<u8>)
    requires
        compressible(serialized@),
    ensures
        serialized@.len() <= u32::MAX ==> r@.len() >= 4 && r@[0] as int + r@[1] as int * 0x100
            + r@[2] as int * 0x10000 + r@[3] as int * 0x1000000 == serialized@.len(),
        serialized@.len() <= u32::MAX ==> lz4_decompressed(r@) == Some(serialized@),
{
    compress_prepend_size(serialized)
}

/// **Returns** the serialized bytes of a chunk read back from the cache `bytes`, or
/// `CacheError::Corrupted` when they cannot be decompressed.
pub fn decode_cache(bytes: &[u8]) -> (r: Result<Vec<u8>, CacheError>)
    requires
        decompressible(bytes@),
    ensures
        (match lz4_decompressed(bytes@) {
            Some(v) => r matches Ok(w) && w@ == v,
            None => r == Err::<Vec<u8>, CacheError>(CacheError::Corrupted),
        }),
{
    match decompress_size_prepended(bytes) {
        Ok(v) => Ok(v),
        Err(_) => Err(CacheError::Corrupted),
    }
}

} // verus!
