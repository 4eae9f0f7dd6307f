//! Pluggable compression: the codec identifiers of the on-disk format,
//! a trusted boundary around the zlib codec, and the per-block
//! compress-or-store rule every compressed region obeys.
use vstd::prelude::*;

use crate::error::SqfsError;
use std::io::Write;

verus! {

/// Compression codec identifiers of the on-disk format.
#[derive(Clone, Copy, Debug, PartialEq, Eq, Structural)]
pub enum Codec {
    NoCompression,
    Gzip,
    Lzma,
    Lzo,
    Xz,
    Zstd,
}

/// The identifier a superblock stores for each codec.
pub open spec fn spec_codec_id(c: Codec) -> u16 {
    match c {
        Codec::NoCompression => 0,
        Codec::Gzip => 1,
        Codec::Lzma => 2,
        Codec::Lzo => 3,
        Codec::Xz => 4,
        Codec::Zstd => 6,
    }
}

/// Only these codecs are compiled in; the rest decode as `Unsupported`.
pub open spec fn spec_codec_supported(c: Codec) -> bool {
    c == Codec::NoCompression || c == Codec::Gzip
}

impl Codec {
    /// The on-disk identifier of this codec.
    pub fn id(self) -> (r: u16)
        ensures
            r == spec_codec_id(self),
    {
        match self {
            Codec::NoCompression => 0,
            Codec::Gzip => 1,
            Codec::Lzma => 2,
            Codec::Lzo => 3,
            Codec::Xz => 4,
            Codec::Zstd => 6,
        }
    }

    /// The codec a superblock identifier denotes; unknown ids are `Corrupt`.
    pub fn from_id(id: u16) -> (r: Result<Codec, SqfsError>)
        ensures
            r is Ok ==> spec_codec_id(r.unwrap()) == id,
            r is Err <==> (id != 0 && id != 1 && id != 2 && id != 3 && id != 4 && id != 6),
            r is Err ==> r.unwrap_err() == SqfsError::Corrupt,
    {
        match id {
            0 => Ok(Codec::NoCompression),
            1 => Ok(Codec::Gzip),
            2 => Ok(Codec::Lzma),
            3 => Ok(Codec::Lzo),
            4 => Ok(Codec::Xz),
            6 => Ok(Codec::Zstd),
            _ => Err(SqfsError::Corrupt),
        }
    }

    /// Whether this codec is compiled in.
    pub fn supported(self) -> (r: bool)
        ensures
            r == spec_codec_supported(self),
    {
        match self {
            Codec::NoCompression => true,
            Codec::Gzip => true,
            _ => false,
        }
    }
}

/// The zlib stream the deflate codec emits for given input bytes.
pub uninterp spec fn deflate_of(b: Seq<u8>) -> Seq<u8>;

/// What the inflate codec returns for given input bytes: the decoded
/// stream, or nothing when it rejects the stream as corrupt.
pub uninterp spec fn inflate_of(b: Seq<u8>) -> Option<Seq<u8>>;

/// Relies on flate2's `ZlibEncoder`: compression into a `Vec` sink cannot
/// fail (a `Vec`'s writes never error and the encoder reports no data
/// errors), so the error arm below is unreachable; the output depends on
/// the input bytes alone, and `ZlibDecoder` restores the exact input from
/// it (zlib is lossless).
#[verifier::external_body]
fn zlib_compress(data: &Vec<u8>) -> (r: Vec<u8>)
    ensures
        r@ == deflate_of(data@),
        inflate_of(r@) == Some(data@),
{
    let mut enc = flate2::write::ZlibEncoder::new(Vec::new(), flate2::Compression::default());
    let _ = enc.write_all(data.as_slice());
    match enc.finish() {
        Ok(v) => v,
        Err(_) => Vec::new(),
    }
}

/// Relies on flate2's `ZlibDecoder`: decoding depends on the input bytes
/// alone; it returns whatever bytes the decoder produces, or an error
/// when the decoder rejects the stream. Nothing here promises that every
/// damaged stream is rejected: a truncated stream may decode to a prefix.
#[verifier::external_body]
fn zlib_decompress(data: &Vec<u8>) -> (r: Result<Vec<u8>, SqfsError>)
    ensures
        r is Ok <==> inflate_of(data@) is Some,
        r is Ok ==> Some(r.unwrap()@) == inflate_of(data@),
        r is Err ==> r.unwrap_err() == SqfsError::Corrupt,
{
    let mut dec = flate2::write::ZlibDecoder::new(Vec::new());
    match dec.write_all(data.as_slice()).and_then(|_| dec.finish()) {
        Ok(v) => Ok(v),
        Err(_) => Err(SqfsError::Corrupt),
    }
}

/// Whether a block of raw bytes is stored uncompressed: always under the
/// plain codec, and under a real codec whenever compression fails to
/// shrink the block (the anti-bloat rule).
pub open spec fn spec_block_raw(c: Codec, d: Seq<u8>) -> bool {
    c == Codec::NoCompression || deflate_of(d).len() >= d.len()
}

/// The stored payload of a block of raw bytes under the anti-bloat rule.
pub open spec fn spec_block_payload(c: Codec, d: Seq<u8>) -> Seq<u8> {
    if spec_block_raw(c, d) {
        d
    } else {
        deflate_of(d)
    }
}

/// What reading a stored payload back gives: the payload itself when the
/// raw flag is set (never run through the decompressor), else whatever
/// the codec decodes it to; no codec besides zlib is compiled in.
pub open spec fn spec_block_decode(c: Codec, payload: Seq<u8>, raw: bool) -> Option<Seq<u8>> {
    if raw {
        Some(payload)
    } else if c == Codec::Gzip {
        inflate_of(payload)
    } else {
        None
    }
}

/// Compress one block under the anti-bloat rule: the result is the stored
/// payload plus the raw flag, it never exceeds the input in size, and it
/// always decodes back to the input.
pub fn compress_block(data: &Vec<u8>, codec: Codec) -> (r: Result<(Vec<u8>, bool), SqfsError>)
    ensures
        r is Ok <==> spec_codec_supported(codec),
        r is Err ==> r.unwrap_err() == SqfsError::Unsupported,
        r is Ok ==> ({
            let (payload, raw) = r.unwrap();
            &&& payload@ == spec_block_payload(codec, data@)
            &&& raw == spec_block_raw(codec, data@)
            &&& payload@.len() <= data@.len()
            &&& spec_block_decode(codec, payload@, raw) == Some(data@)
        }),
{
    match codec {
        Codec::NoCompression => Ok((data.clone(), true)),
        Codec::Gzip => {
            let packed = zlib_compress(data);
            if packed.len() >= data.len() {
                Ok((data.clone(), true))
            } else {
                Ok((packed, false))
            }
        },
        _ => Err(SqfsError::Unsupported),
    }
}

/// Read one stored block back. A raw block is returned unmodified and is
/// never handed to the decompressor; a compressed block is decoded and
/// then held to the size bound `max`.
pub fn decompress_block(payload: &Vec<u8>, raw: bool, codec: Codec, max: usize) -> (r: Result<
    Vec<u8>,
    SqfsError,
>)
    requires
        raw ==> payload@.len() <= max,
    ensures
        r is Ok <==> (spec_block_decode(codec, payload@, raw) is Some && spec_block_decode(
            codec,
            payload@,
            raw,
        ).unwrap().len() <= max),
        r is Ok ==> spec_block_decode(codec, payload@, raw) == Some(r.unwrap()@),
        raw ==> r is Ok && r.unwrap()@ == payload@,
        !raw && codec != Codec::Gzip ==> r == Err::<Vec<u8>, SqfsError>(SqfsError::Unsupported),
        !raw && codec == Codec::Gzip && r is Err ==> r.unwrap_err() == SqfsError::Corrupt,
{
    if raw {
        Ok(payload.clone())
    } else {
        match codec {
            Codec::Gzip => {
                match zlib_decompress(payload) {
                    Ok(v) => {
                        if v.len() <= max {
                            Ok(v)
                        } else {
                            Err(SqfsError::Corrupt)
                        }
                    },
                    Err(e) => Err(e),
                }
            },
            _ => Err(SqfsError::Unsupported),
        }
    }
}

} // verus!
