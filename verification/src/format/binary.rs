//! The raw binary format: `PPPBV1` followed by protobuf bytes.

use vstd::prelude::*;
use crate::error::{meets, ErrorKind, LoadError, Outcome};
use super::{binary_magic, has_prefix, starts_with};

verus! {

/// What reading a raw binary stream gives: the protobuf payload after the
/// six signature bytes, or the signature error.
pub open spec fn binary_outcome(data: Seq<u8>) -> Outcome {
    if has_prefix(data, binary_magic()) {
        Outcome::Payload(data.subrange(6, data.len() as int))
    } else {
        Outcome::Failure(ErrorKind::InvalidSignature)
    }
}

/// Check the `PPPBV1` signature and hand back the protobuf payload behind it.
pub fn load(data: &[u8]) -> (r: Result<Vec<u8>, LoadError>)
    ensures
        meets(r, binary_outcome(data@)),
{
    let magic: [u8; 6] = [0x50u8, 0x50u8, 0x50u8, 0x42u8, 0x56u8, 0x31u8];
    assert(magic@ =~= binary_magic());
    if !starts_with(data, &magic) {
        return Err(LoadError::InvalidSignature);
    }
    let payload = vstd::slice::slice_subrange(data, 6, data.len());
    Ok(vstd::slice::slice_to_vec(payload))
}

} // verus!
