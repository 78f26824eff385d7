//! Trusted access to the cryptographic digest and the CRC32 of a byte
//! string. Both results are functions of the input bytes alone; the
//! algorithms themselves are not restated here, their results are named.

use vstd::prelude::*;

use crate::id::{ObjectId, ID_LEN};

verus! {

/// The digest of the legacy hash family over a byte string.
pub uninterp spec fn sha1_of(s: Seq<u8>) -> Seq<u8>;

/// The CRC32 checksum of a byte string.
pub uninterp spec fn crc32_of(s: Seq<u8>) -> u32;

/// Relies on sha1::Sha1 (through the digest traits): the 20-byte digest
/// of the input, depending on the input bytes alone.
#[verifier::external_body]
pub fn sha1_digest(data: &[u8]) -> (r: Vec<u8>)
    ensures
        r@ == sha1_of(data@),
        r@.len() == ID_LEN,
{
    let mut h = <sha1::Sha1 as sha1::Digest>::new();
    sha1::Digest::update(&mut h, data);
    sha1::Digest::finalize(h).to_vec()
}

/// Relies on crc32fast::hash: the CRC32 of the bytes in `[from, to)`,
/// depending on those bytes alone.
#[verifier::external_body]
pub fn crc32(data: &[u8], from: usize, to: usize) -> (r: u32)
    requires
        from <= to <= data@.len(),
    ensures
        r == crc32_of(data@.subrange(from as int, to as int)),
{
    crc32fast::hash(&data[from..to])
}

/// The digest of a framed object: the header for `(kind, len)` followed
/// by the content. This is the sole identity of every object.
pub open spec fn object_id_of(k: crate::kind::Kind, data: Seq<u8>) -> Seq<u8> {
    sha1_of(crate::header::header_bytes(k, data.len()) + data)
}

/// Compute the identifier of an object from its kind and content.
pub fn compute_object_id(k: crate::kind::Kind, data: &[u8]) -> (r: ObjectId)
    requires
        data@.len() <= u64::MAX,
    ensures
        r.bytes@ == object_id_of(k, data@),
        r.wf(),
{
    let mut framed = crate::header::encode_header(k, data.len() as u64);
    crate::bytes::push_all(&mut framed, data);
    let digest = sha1_digest(framed.as_slice());
    ObjectId::from_bytes(digest)
}

} // verus!
