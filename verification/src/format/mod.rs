//! Recognising the container of a `.portfolio` byte stream.

pub mod archive;
pub mod binary;

use vstd::prelude::*;
use crate::error::{meets, ErrorKind, LoadError, Outcome};
use archive::zip_outcome;
use binary::binary_outcome;

verus! {

/// `data` begins with `magic`.
pub open spec fn has_prefix(data: Seq<u8>, magic: Seq<u8>) -> bool {
    magic.len() <= data.len() && data.subrange(0, magic.len() as int) == magic
}

/// `data` ends with `suffix`.
pub open spec fn has_suffix(data: Seq<u8>, suffix: Seq<u8>) -> bool {
    suffix.len() <= data.len() && data.subrange(data.len() - suffix.len(), data.len() as int)
        == suffix
}

/// Local file header magic of a ZIP archive: `PK\x03\x04`.
pub open spec fn zip_magic() -> Seq<u8> {
    seq![0x50u8, 0x4bu8, 0x03u8, 0x04u8]
}

/// Signature of the raw binary format: `PPPBV1`.
pub open spec fn binary_magic() -> Seq<u8> {
    seq![0x50u8, 0x50u8, 0x50u8, 0x42u8, 0x56u8, 0x31u8]
}

/// Prefix of an encrypted Portfolio Performance file: `PORTFOLIO`.
pub open spec fn encrypted_magic() -> Seq<u8> {
    seq![0x50u8, 0x4fu8, 0x52u8, 0x54u8, 0x46u8, 0x4fu8, 0x4cu8, 0x49u8, 0x4fu8]
}

/// Does `data` begin with `magic`?
pub fn starts_with(data: &[u8], magic: &[u8]) -> (r: bool)
    ensures
        r == has_prefix(data@, magic@),
{
    if magic.len() > data.len() {
        return false;
    }
    let mut i: usize = 0;
    while i < magic.len()
        invariant
            magic.len() <= data.len(),
            i <= magic.len(),
            forall|j: int| 0 <= j < i ==> data@[j] == magic@[j],
        decreases magic.len() - i,
    {
        if data[i] != magic[i] {
            assert(data@.subrange(0, magic.len() as int)[i as int] != magic@[i as int]);
            return false;
        }
        i = i + 1;
    }
    assert(data@.subrange(0, magic.len() as int) =~= magic@);
    true
}

/// Does `data` end with `suffix`?
pub fn ends_with(data: &[u8], suffix: &[u8]) -> (r: bool)
    ensures
        r == has_suffix(data@, suffix@),
{
    if suffix.len() > data.len() {
        return false;
    }
    let off: usize = data.len() - suffix.len();
    let mut i: usize = 0;
    while i < suffix.len()
        invariant
            suffix.len() <= data.len(),
            off == data.len() - suffix.len(),
            i <= suffix.len(),
            forall|j: int| 0 <= j < i ==> data@[off + j] == suffix@[j],
        decreases suffix.len() - i,
    {
        if data[off + i] != suffix[i] {
            assert(data@.subrange(off as int, data.len() as int)[i as int] != suffix@[i as int]);
            return false;
        }
        i = i + 1;
    }
    assert(data@.subrange(off as int, data.len() as int) =~= suffix@);
    true
}

/// What loading a `.portfolio` byte stream gives, by its magic prefix:
/// a ZIP archive, the raw binary format, an encrypted file, or none of them.
pub open spec fn load_outcome(data: Seq<u8>) -> Outcome {
    if has_prefix(data, zip_magic()) {
        zip_outcome(data)
    } else if has_prefix(data, binary_magic()) {
        binary_outcome(data)
    } else if has_prefix(data, encrypted_magic()) {
        Outcome::Failure(ErrorKind::Encrypted)
    } else {
        Outcome::Failure(ErrorKind::UnknownFormat)
    }
}

/// Detect the container of a `.portfolio` byte stream and extract the
/// protobuf payload of the client from it.
pub fn load_bytes(data: &[u8]) -> (r: Result<Vec<u8>, LoadError>)
    ensures
        meets(r, load_outcome(data@)),
{
    let zip_sig: [u8; 4] = [0x50u8, 0x4bu8, 0x03u8, 0x04u8];
    let bin_sig: [u8; 6] = [0x50u8, 0x50u8, 0x50u8, 0x42u8, 0x56u8, 0x31u8];
    let enc_sig: [u8; 9] = [0x50u8, 0x4fu8, 0x52u8, 0x54u8, 0x46u8, 0x4fu8, 0x4cu8, 0x49u8, 0x4fu8];
    assert(zip_sig@ =~= zip_magic());
    assert(bin_sig@ =~= binary_magic());
    assert(enc_sig@ =~= encrypted_magic());
    if starts_with(data, &zip_sig) {
        archive::load(data)
    } else if starts_with(data, &bin_sig) {
        binary::load(data)
    } else if starts_with(data, &enc_sig) {
        Err(LoadError::Encrypted)
    } else {
        Err(LoadError::UnknownFormat)
    }
}

/// Framing a payload with the `PPPBV1` signature and loading the result
/// gives the payload back.
pub proof fn law_binary_frame_roundtrip(payload: Seq<u8>)
    ensures
        load_outcome(binary_magic() + payload) == Outcome::Payload(payload),
{
    let data = binary_magic() + payload;
    assert(data.subrange(0, 6) =~= binary_magic());
    assert(data.subrange(6, data.len() as int) =~= payload);
    assert(data[1] != zip_magic()[1]);
    assert(!has_prefix(data, zip_magic())) by {
        if has_prefix(data, zip_magic()) {
            assert(data.subrange(0, 4)[1] == zip_magic()[1]);
        }
    }
}

/// An encrypted Portfolio Performance file is refused as encrypted.
pub proof fn law_encrypted_refused(data: Seq<u8>)
    requires
        has_prefix(data, encrypted_magic()),
    ensures
        load_outcome(data) == Outcome::Failure(ErrorKind::Encrypted),
{
    assert(data.subrange(0, 9)[1] == encrypted_magic()[1]);
    assert(!has_prefix(data, zip_magic())) by {
        if has_prefix(data, zip_magic()) {
            assert(data.subrange(0, 4)[1] == data[1]);
        }
    }
    assert(!has_prefix(data, binary_magic())) by {
        if has_prefix(data, binary_magic()) {
            assert(data.subrange(0, 6)[1] == data[1]);
        }
    }
}

/// Bytes that begin with none of the three magic prefixes are refused as of
/// unknown format.
pub proof fn law_unknown_refused(data: Seq<u8>)
    requires
        !has_prefix(data, zip_magic()),
        !has_prefix(data, binary_magic()),
        !has_prefix(data, encrypted_magic()),
    ensures
        load_outcome(data) == Outcome::Failure(ErrorKind::UnknownFormat),
{
}

} // verus!
