use std::io::Read;
use std::io::Write;
use vstd::prelude::*;

verus! {

/// What inflating a zlib stream yields, named but never written out: the
/// decompressed bytes are determined by the compressed bytes alone, as the
/// zlib format fixes them; `None` stands for a stream that does not inflate.
pub uninterp spec fn zlib_inflate(bytes: Seq<u8>) -> Option<Seq<u8>>;

/// Relies on `flate2::write::ZlibEncoder` over a `Vec<u8>` sink: writing and
/// finishing only propagate the sink's I/O errors, and a `Vec` sink has
/// none, so compression always succeeds, and the finished stream inflates
/// back to exactly the input bytes.
#[verifier::external_body]
pub(crate) fn zlib_compress(data: &Vec<u8>) -> (r: Vec<u8>)
    ensures
        zlib_inflate(r@) == Some(data@),
{
    let mut enc = flate2::write::ZlibEncoder::new(Vec::new(), flate2::Compression::fast());
    enc.write_all(data.as_slice()).expect("writing into a Vec sink cannot fail");
    enc.finish().expect("finishing into a Vec sink cannot fail")
}

/// Relies on `flate2::read::ZlibDecoder`: reading it to the end yields
/// exactly the bytes the stream inflates to, and fails exactly on a stream
/// that does not inflate.
#[verifier::external_body]
pub(crate) fn zlib_decompress(data: &Vec<u8>) -> (r: Option<Vec<u8>>)
    ensures
        r matches Some(v) ==> zlib_inflate(data@) == Some(v@),
        r is None ==> zlib_inflate(data@) is None,
{
    let mut dec = flate2::read::ZlibDecoder::new(data.as_slice());
    let mut out = Vec::new();
    match dec.read_to_end(&mut out) {
        Ok(_) => Some(out),
        Err(_) => None,
    }
}

} // verus!
