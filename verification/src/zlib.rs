//! Zlib streams.

use std::io::{Read, Write};
use vstd::prelude::*;

verus! {

/// What the zlib stream at the front of `data` holds and the number of bytes it takes, or what
/// is wrong with it, as `flate2::read::ZlibDecoder` has it.
pub uninterp spec fn inflated(data: Seq<u8>) -> Result<(Seq<u8>, nat), Seq<char>>;

/// `data` as a zlib stream, as `flate2::write::ZlibEncoder` writes it at its default level.
pub uninterp spec fn deflated(data: Seq<u8>) -> Seq<u8>;

/// Whether the zlib stream of `data` reads back, whatever follows it.
pub open spec fn reads_back(data: Seq<u8>) -> bool {
    forall|rest: Seq<u8>|
        #[trigger] inflated(deflated(data) + rest) == Ok::<(Seq<u8>, nat), Seq<char>>(
            (data, deflated(data).len()),
        )
}

/// Reads the zlib stream at the front of `data` to its end with `flate2::read::ZlibDecoder`.
///
/// The decoder works on these bytes alone, so its result has a name. It stops after one stream,
/// and `total_in` counts the bytes that it took of `data`. The error is that of `read_to_end`
/// as text.
#[verifier::external_body]
pub(crate) fn inflate(data: &[u8]) -> (r: Result<(Vec<u8>, usize), String>)
    ensures
        match inflated(data@) {
            Ok((bytes, taken)) => r matches Ok((v, n)) && v@ == bytes && n == taken && n <= data.len(),
            Err(message) => r matches Err(e) && e@ == message,
        },
{
    let mut decoder = flate2::read::ZlibDecoder::new(data);
    let mut bytes = Vec::new();
    match decoder.read_to_end(&mut bytes) {
        Ok(_) => Ok((bytes, decoder.total_in() as usize)),
        Err(e) => Err(e.to_string()),
    }
}

/// Writes `data` as one zlib stream with `flate2::write::ZlibEncoder` at its default level.
///
/// The encoder works on these bytes alone, so its result has a name. What it writes is a whole
/// stream: the decoder gives `data` back from it and takes exactly its bytes, whatever follows.
#[verifier::external_body]
pub fn zlib_compress(data: &[u8]) -> (r: Vec<u8>)
    ensures
        r@ == deflated(data@),
        inflated(r@) == Ok::<(Seq<u8>, nat), Seq<char>>((data@, r@.len())),
        forall|rest: Seq<u8>| #[trigger]
            inflated(r@ + rest) == Ok::<(Seq<u8>, nat), Seq<char>>((data@, r@.len())),
{
    let mut encoder = flate2::write::ZlibEncoder::new(Vec::new(), flate2::Compression::default());
    encoder.write_all(data).unwrap();
    encoder.finish().unwrap()
}

/// What a zlib stream holds.
pub fn zlib_decompress(data: &[u8]) -> (r: Vec<u8>)
    requires
        inflated(data@) is Ok,
    ensures
        r@ == inflated(data@)->Ok_0.0,
{
    match inflate(data) {
        Ok((bytes, _)) => bytes,
        Err(_) => Vec::new(),
    }
}

/// What a zlib stream holds, or `None` when the bytes are not one.
pub fn zlib_decompress_checked(data: &[u8]) -> (r: Option<Vec<u8>>)
    ensures
        match inflated(data@) {
            Ok((bytes, _)) => r matches Some(v) && v@ == bytes,
            Err(_) => r is None,
        },
{
    match inflate(data) {
        Ok(_) => Some(zlib_decompress(data)),
        Err(_) => None,
    }
}

} // verus!
