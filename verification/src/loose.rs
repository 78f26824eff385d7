//! The loose object store logic: hash-derived paths, file encoding and
//! file decoding. A loose file is one zlib stream holding the object
//! frame and the content; the identifier itself is the checksum.

use vstd::prelude::*;

use crate::bytes::{copy_range, push_all};
use crate::header::{
    decode_header, encode_header, header_bytes, parse_header, HeaderError,
    lemma_parse_header_round_trip,
};
use crate::id::{hex_of, ObjectId};
use crate::kind::Kind;
use crate::zlib::{deflate, inflate_from, inflate_of};

verus! {

/// Compressed-byte budget for peeking a loose file's header before
/// committing to full decompression.
pub const HEADER_READ_COMPRESSED_BYTES: usize = 512;

/// Decompressed-byte budget for the same peek.
pub const HEADER_READ_UNCOMPRESSED_BYTES: usize = 1024;

/// Peek a loose file's frame from bounded compressed and decompressed
/// windows: learn the kind and the declared content size without
/// committing to full decompression. Wherever the peek answers, the
/// answer agrees with what a full decode of the file says; it may
/// decline on files whose frame does not fit the budgets.
pub fn loose_header(file: &[u8]) -> (r: Option<(Kind, u64)>)
    ensures
        r matches Some((k, n)) ==> (match parse_loose(file@) {
            Some((k2, c)) => k2 == k && n == c.len(),
            None => true,
        }),
{
    let prefix = match crate::zlib::inflate_prefix(
        file,
        0,
        HEADER_READ_COMPRESSED_BYTES,
        HEADER_READ_UNCOMPRESSED_BYTES,
    ) {
        Some(p) => p,
        None => {
            return None;
        }
    };
    let (kind, n, _hlen) = match decode_header(prefix.as_slice()) {
        Ok(t) => t,
        Err(_) => {
            return None;
        }
    };
    proof {
        assert(file@.skip(0) =~= file@);
        match inflate_of(file@) {
            Some((d, _used)) => {
                let m = if HEADER_READ_UNCOMPRESSED_BYTES <= d.len() {
                    HEADER_READ_UNCOMPRESSED_BYTES as int
                } else {
                    d.len() as int
                };
                assert(prefix@ == d.take(m));
                crate::header::lemma_parse_header_prefix(d, m);
            }
            None => {
            }
        }
    }
    Some((kind, n))
}

/// The two-level path of a loose object: the first two hex digits name
/// the directory, the remaining digits name the file.
pub fn loose_path(id: &ObjectId) -> (r: (Vec<u8>, Vec<u8>))
    requires
        id.wf(),
    ensures
        r.0@ == hex_of(id.bytes@).take(2),
        r.1@ == hex_of(id.bytes@).skip(2),
{
    let hex = id.to_hex();
    let dir = copy_range(hex.as_slice(), 0, 2);
    let name = copy_range(hex.as_slice(), 2, hex.len());
    proof {
        assert(dir@ =~= hex_of(id.bytes@).take(2));
        assert(name@ =~= hex_of(id.bytes@).skip(2));
    }
    (dir, name)
}

/// What decoding a loose file yields: the kind and content of the one
/// object it holds, where the file is a zlib stream of a well-formed
/// frame whose declared size matches the content.
pub open spec fn parse_loose(file: Seq<u8>) -> Option<(Kind, Seq<u8>)> {
    match inflate_of(file) {
        None => None,
        Some((buf, _used)) => match parse_header(buf) {
            None => None,
            Some((k, n, hl)) => if n != buf.len() - hl {
                None
            } else {
                Some((k, buf.subrange(hl, buf.len() as int)))
            },
        },
    }
}

/// Why reading a loose file failed.
#[derive(Clone, Copy, Debug, PartialEq, Eq, Structural)]
pub enum LooseError {
    /// The file is not one well-formed zlib stream.
    Compression,
    /// The decompressed bytes do not open with a well-formed frame.
    Header(HeaderError),
    /// The declared size differs from the content's length.
    SizeMismatch,
}

/// Encode an object as the bytes of its loose file. Decoding the file
/// gives the object back, so a read-back verification always passes.
pub fn loose_encode(kind: Kind, data: &[u8]) -> (r: Vec<u8>)
    requires
        data@.len() <= u64::MAX,
    ensures
        r@ == crate::zlib::deflate_of(header_bytes(kind, data@.len()) + data@),
        parse_loose(r@) == Some((kind, data@)),
{
    let mut framed = encode_header(kind, data.len() as u64);
    push_all(&mut framed, data);
    let out = deflate(framed.as_slice());
    proof {
        lemma_parse_header_round_trip(kind, data@.len(), data@);
        let hb = header_bytes(kind, data@.len());
        assert((hb + data@).subrange(hb.len() as int, (hb + data@).len() as int) =~= data@);
    }
    out
}

/// Decode a loose file into the kind and content of its object.
/// Succeeds exactly where the file holds one well-formed loose object.
pub fn loose_decode(file: &[u8]) -> (r: Result<(Kind, Vec<u8>), LooseError>)
    ensures
        match r {
            Ok((k, c)) => parse_loose(file@) == Some((k, c@)),
            Err(_) => parse_loose(file@) is None,
        },
{
    proof {
        assert(file@.skip(0) =~= file@);
    }
    let (buf, _used) = match inflate_from(file, 0) {
        Some(p) => p,
        None => {
            return Err(LooseError::Compression);
        }
    };
    let blen: usize = buf.len();
    let (kind, n, hlen) = match decode_header(buf.as_slice()) {
        Ok(t) => t,
        Err(HeaderError::SizeOverflow) => {
            proof {
                crate::header::lemma_parse_header_bounds(buf@);
                assert(blen <= u64::MAX);
            }
            return Err(LooseError::SizeMismatch);
        }
        Err(other) => {
            return Err(LooseError::Header(other));
        }
    };
    if n != (blen - hlen) as u64 {
        return Err(LooseError::SizeMismatch);
    }
    let content = copy_range(buf.as_slice(), hlen, blen);
    Ok((kind, content))
}

} // verus!
