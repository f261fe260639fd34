//! Compression codecs.
//!
//! A blob is encoded under the bucket's configured algorithm before it is
//! persisted and decoded again on read. Selecting an algorithm that has no
//! implemented codec is a hard error at write and at read time, never a
//! silent fallback to uncompressed storage.

use vstd::prelude::*;

use crate::error::Error;

verus! {

/// The compression algorithm of a bucket.
///
/// `Zstd` and `Snappy` are accepted as configuration values but have no
/// implemented codec: using them fails with `UnsupportedCompression`.
#[derive(Clone, Copy, Debug, PartialEq, Eq, Structural)]
pub enum CompressionType {
    NoCompression,
    Gzip,
    Lz4,
    Zstd,
    Snappy,
}

impl Default for CompressionType {
    fn default() -> (r: Self)
        ensures
            r == CompressionType::NoCompression,
    {
        CompressionType::NoCompression
    }
}

/// Whether the algorithm has an implemented codec.
pub open spec fn supported(c: CompressionType) -> bool {
    match c {
        CompressionType::NoCompression => true,
        CompressionType::Gzip => true,
        CompressionType::Lz4 => true,
        CompressionType::Zstd => false,
        CompressionType::Snappy => false,
    }
}

/// What decoding a gzip stream yields: `Some` of the decompressed bytes, or
/// `None` when the stream is not a well-formed gzip stream. The result is a
/// function of the input bytes alone.
pub uninterp spec fn gunzip_of(bytes: Seq<u8>) -> Option<Seq<u8>>;

/// What decoding a size-prefixed lz4 block yields: `Some` of the
/// decompressed bytes, or `None` when the block is malformed. The result is
/// a function of the input bytes alone.
pub uninterp spec fn lz4_decode_of(bytes: Seq<u8>) -> Option<Seq<u8>>;

/// What decoding `bytes` under algorithm `c` yields.
pub open spec fn decode_of(c: CompressionType, bytes: Seq<u8>) -> Option<Seq<u8>>
    recommends
        supported(c),
{
    match c {
        CompressionType::NoCompression => Some(bytes),
        CompressionType::Gzip => gunzip_of(bytes),
        CompressionType::Lz4 => lz4_decode_of(bytes),
        CompressionType::Zstd => Option::None,
        CompressionType::Snappy => Option::None,
    }
}

/// Relies on flate2's `GzEncoder`/`GzDecoder` pair: decoding an encoded
/// stream yields the original bytes.
#[verifier::external_body]
fn compress_gzip(data: &[u8]) -> (r: Result<Vec<u8>, Error>)
    ensures
        r matches Ok(c) ==> gunzip_of(c@) == Some(data@),
        r matches Err(e) ==> e matches Error::Io(_),
{
    let mut encoder = flate2::write::GzEncoder::new(Vec::new(), flate2::Compression::default());
    if let Err(e) = std::io::Write::write_all(&mut encoder, data) {
        return Err(Error::Io(e.to_string()));
    }
    encoder.finish().map_err(|e| Error::Io(e.to_string()))
}

/// Relies on flate2's `GzDecoder`: decoding succeeds exactly on well-formed
/// gzip streams and depends on the input bytes alone.
#[verifier::external_body]
fn decompress_gzip(data: &[u8]) -> (r: Result<Vec<u8>, Error>)
    ensures
        r matches Ok(v) ==> gunzip_of(data@) == Some(v@),
        r is Err ==> gunzip_of(data@) is None,
        r matches Err(e) ==> e matches Error::Io(_),
{
    let mut decoder = flate2::read::GzDecoder::new(data);
    let mut out = Vec::new();
    match std::io::Read::read_to_end(&mut decoder, &mut out) {
        Ok(_) => Ok(out),
        Err(e) => Err(Error::Io(e.to_string())),
    }
}

/// Relies on lz4_flex's `compress_prepend_size`/`decompress_size_prepended`
/// pair: decoding an encoded block yields the original bytes. The length
/// prefix is a `u32`, so the input must fit one.
#[verifier::external_body]
fn compress_lz4(data: &[u8]) -> (r: Vec<u8>)
    requires
        data@.len() <= 0xFFFF_FFFF,
    ensures
        lz4_decode_of(r@) == Some(data@),
{
    lz4_flex::block::compress_prepend_size(data)
}

/// Relies on lz4_flex's `decompress_size_prepended`: decoding succeeds
/// exactly on well-formed size-prefixed blocks and depends on the input
/// bytes alone.
#[verifier::external_body]
fn decompress_lz4(data: &[u8]) -> (r: Result<Vec<u8>, Error>)
    ensures
        r matches Ok(v) ==> lz4_decode_of(data@) == Some(v@),
        r is Err ==> lz4_decode_of(data@) is None,
        r matches Err(e) ==> e matches Error::Io(_),
{
    match lz4_flex::block::decompress_size_prepended(data) {
        Ok(v) => Ok(v),
        Err(e) => Err(Error::Io(e.to_string())),
    }
}

/// Encodes `data` under algorithm `c`.
///
/// An unsupported algorithm fails with `UnsupportedCompression`; a supported
/// one yields bytes that decode back to `data`. Under `None` the call always
/// succeeds, under `Lz4` it succeeds whenever the input fits the codec's
/// `u32` length prefix; any other failure is a backend `Io` error carrying
/// the codec's message.
pub fn encode_data(c: CompressionType, data: &[u8]) -> (r: Result<Vec<u8>, Error>)
    ensures
        r matches Ok(enc) ==> supported(c) && decode_of(c, enc@) == Some(data@),
        r matches Err(e) ==> (if !supported(c) {
            e == Error::UnsupportedCompression
        } else {
            e matches Error::Io(_)
        }),
        c == CompressionType::NoCompression ==> r is Ok,
        c == CompressionType::Lz4 && data@.len() <= 0xFFFF_FFFF ==> r is Ok,
{
    match c {
        CompressionType::NoCompression => {
            let mut out: Vec<u8> = Vec::new();
            out.extend_from_slice(data);
            assert(out@ =~= data@);
            Ok(out)
        },
        CompressionType::Gzip => compress_gzip(data),
        CompressionType::Lz4 => {
            if data.len() > 0xFFFF_FFFFusize {
                Err(Error::Io(String::from_str("input too large for an lz4 length prefix")))
            } else {
                Ok(compress_lz4(data))
            }
        },
        CompressionType::Zstd => Err(Error::UnsupportedCompression),
        CompressionType::Snappy => Err(Error::UnsupportedCompression),
    }
}

/// Decodes `data` under algorithm `c`.
///
/// An unsupported algorithm fails with `UnsupportedCompression`. For a
/// supported one the call succeeds exactly when `data` is a well-formed
/// encoding, and then yields what `decode_of` says; a malformed encoding is
/// a backend `Io` error carrying the codec's message.
pub fn decode_data(c: CompressionType, data: &[u8]) -> (r: Result<Vec<u8>, Error>)
    ensures
        r matches Ok(v) ==> supported(c) && decode_of(c, data@) == Some(v@),
        supported(c) ==> (r is Ok <==> decode_of(c, data@) is Some),
        r matches Err(e) ==> (if !supported(c) {
            e == Error::UnsupportedCompression
        } else {
            e matches Error::Io(_)
        }),
{
    match c {
        CompressionType::NoCompression => {
            let mut out: Vec<u8> = Vec::new();
            out.extend_from_slice(data);
            assert(out@ =~= data@);
            Ok(out)
        },
        CompressionType::Gzip => decompress_gzip(data),
        CompressionType::Lz4 => decompress_lz4(data),
        CompressionType::Zstd => Err(Error::UnsupportedCompression),
        CompressionType::Snappy => Err(Error::UnsupportedCompression),
    }
}

} // verus!
