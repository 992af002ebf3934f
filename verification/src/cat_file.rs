use vstd::prelude::*;

use crate::codec::decode_object;
use crate::codec::obj_bytes;
use crate::compress::zlib_decompress;
use crate::compress::zlib_inflate;
use crate::types::RitError;
use crate::types::Types;

verus! {

/// Decode a stored object's file bytes back into its kind and payload:
/// inflate the compressed stream, then parse the canonical
/// `"<kind> <length>\0<payload>"` form. Anything that does not inflate to
/// canonical bytes is a damaged or foreign object. Reading the file and
/// rendering the result stay with the caller.
pub fn decode_stored_object(compressed: &Vec<u8>) -> (r: Result<(Types, Vec<u8>), RitError>)
    ensures
        r matches Ok(p) ==> zlib_inflate(compressed@) == Some(obj_bytes(p.0, p.1@)),
        r is Err ==> r == Err::<(Types, Vec<u8>), RitError>(RitError::Corrupt),
        forall|k: Types, d: Seq<u8>|
            zlib_inflate(compressed@) == Some(obj_bytes(k, d)) ==> (r matches Ok(p) && p.0 == k
                && p.1@ == d),
{
    match zlib_decompress(compressed) {
        None => Err(RitError::Corrupt),
        Some(bytes) => {
            let r = decode_object(&bytes);
            proof {
                assert forall|k: Types, d: Seq<u8>|
                    zlib_inflate(compressed@) == Some(obj_bytes(k, d)) implies (r matches Ok(p)
                    && p.0 == k && p.1@ == d) by {
                    assert(bytes@ == obj_bytes(k, d));
                }
            }
            r
        },
    }
}

} // verus!
