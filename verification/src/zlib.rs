//! Trusted access to zlib compression and decompression. A zlib stream
//! is self-terminating, so inflating a byte string yields the decoded
//! bytes together with the exact number of compressed bytes consumed;
//! both are functions of the input bytes alone.

use vstd::prelude::*;

verus! {

/// What inflating the zlib stream at the head of a byte string yields:
/// the decoded bytes and the count of compressed bytes consumed, or
/// nothing where no well-formed stream opens the input.
pub uninterp spec fn inflate_of(s: Seq<u8>) -> Option<(Seq<u8>, nat)>;

/// The zlib encoding of a byte string at this library's fixed
/// compression setting.
pub uninterp spec fn deflate_of(s: Seq<u8>) -> Seq<u8>;

/// Relies on flate2::bufread::ZlibDecoder: decodes the stream opening
/// `data[from..]` and reports the compressed bytes consumed.
#[verifier::external_body]
pub fn inflate_from(data: &[u8], from: usize) -> (r: Option<(Vec<u8>, usize)>)
    requires
        from <= data@.len(),
    ensures
        match r {
            Some((out, used)) => inflate_of(data@.skip(from as int)) == Some(
                (out@, used as nat),
            ) && from + used <= data@.len(),
            None => inflate_of(data@.skip(from as int)) is None,
        },
{
    let mut dec = flate2::bufread::ZlibDecoder::new(&data[from..]);
    let mut out = Vec::new();
    match std::io::Read::read_to_end(&mut dec, &mut out) {
        Ok(_) => {
            let used = dec.total_in() as usize;
            Some((out, used))
        }
        Err(_) => None,
    }
}

/// Relies on flate2::bufread::ZlibEncoder: encodes the input as one zlib
/// stream; decoding that stream gives the input back and consumes the
/// whole stream.
#[verifier::external_body]
pub fn deflate(data: &[u8]) -> (r: Vec<u8>)
    ensures
        r@ == deflate_of(data@),
        inflate_of(r@) == Some((data@, r@.len())),
{
    let mut enc = flate2::bufread::ZlibEncoder::new(data, flate2::Compression::default());
    let mut out = Vec::new();
    std::io::Read::read_to_end(&mut enc, &mut out).expect("compressing in-memory bytes");
    out
}


/// Relies on flate2::bufread::ZlibDecoder over bounded input and output
/// windows: decode at most `max_out` bytes from at most `max_in`
/// compressed bytes at `from`. Where it succeeds on a well-formed
/// stream, it hands out exactly the head of the decoded bytes.
#[verifier::external_body]
pub fn inflate_prefix(data: &[u8], from: usize, max_in: usize, max_out: usize) -> (r: Option<
    Vec<u8>,
>)
    requires
        from <= data@.len(),
    ensures
        r matches Some(p) ==> p@.len() <= max_out && (match inflate_of(data@.skip(from as int)) {
            Some((d, _used)) => p@ == d.take(if max_out <= d.len() {
                max_out as int
            } else {
                d.len() as int
            }),
            None => true,
        }),
{
    let to = if data.len() - from < max_in {
        data.len()
    } else {
        from + max_in
    };
    let dec = flate2::bufread::ZlibDecoder::new(&data[from..to]);
    let mut out = Vec::new();
    match std::io::Read::read_to_end(&mut std::io::Read::take(dec, max_out as u64), &mut out) {
        Ok(_) => Some(out),
        Err(_) => None,
    }
}

} // verus!
