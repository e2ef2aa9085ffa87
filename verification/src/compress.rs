//! The optional compression stage between the stored bytes and the binary
//! layout of the index.
//!
//! Which codecs are applied is fixed when a program is built, and is not
//! recorded in the bytes: whoever reads must use the configuration that wrote.

use std::io::Read;
use vstd::prelude::*;
use vstd::slice::slice_to_vec;
use crate::error::Error;

verus! {

/// The codecs that wrap the stored bytes. With both, writing applies zlib and
/// then brotli, and reading undoes brotli and then zlib. With neither, the
/// bytes are stored as they are.
#[derive(Clone, Copy, Debug, PartialEq, Eq, Structural)]
pub struct Codec {
    pub zlib: bool,
    pub brotli: bool,
}

/// What flate2's zlib encoder, at its best level, makes of a byte string, or
/// `None` where it reports an error.
pub uninterp spec fn zlib_deflated(bytes: Seq<u8>) -> Option<Seq<u8>>;

/// What flate2's zlib decoder makes of a byte string, or `None` where it
/// refuses it.
pub uninterp spec fn zlib_inflated(bytes: Seq<u8>) -> Option<Seq<u8>>;

/// What `brotli::BrotliCompress` with default parameters makes of a byte
/// string, or `None` where it reports an error.
pub uninterp spec fn brotli_packed(bytes: Seq<u8>) -> Option<Seq<u8>>;

/// What `brotli::BrotliDecompress` makes of a byte string, or `None` where it
/// refuses it.
pub uninterp spec fn brotli_unpacked(bytes: Seq<u8>) -> Option<Seq<u8>>;

/// The bytes of an optional vector.
pub open spec fn bytes_view(v: Option<Vec<u8>>) -> Option<Seq<u8>> {
    match v {
        Some(b) => Some(b@),
        None => None,
    }
}

/// What writing with `codec` makes of a byte string.
pub open spec fn compressed(codec: Codec, bytes: Seq<u8>) -> Option<Seq<u8>> {
    let inner = if codec.zlib {
        zlib_deflated(bytes)
    } else {
        Some(bytes)
    };
    match inner {
        Some(z) => if codec.brotli {
            brotli_packed(z)
        } else {
            Some(z)
        },
        None => None,
    }
}

/// What reading with `codec` makes of a byte string.
pub open spec fn decompressed(codec: Codec, bytes: Seq<u8>) -> Option<Seq<u8>> {
    let inner = if codec.brotli {
        brotli_unpacked(bytes)
    } else {
        Some(bytes)
    };
    match inner {
        Some(z) => if codec.zlib {
            zlib_inflated(z)
        } else {
            Some(z)
        },
        None => None,
    }
}

/// Reads `flate2::bufread::ZlibEncoder` at `Compression::best()` to its end.
/// Trusted: the output depends on the input bytes alone. Nothing is claimed
/// of what it holds.
#[verifier::external_body]
fn zlib_deflate(bytes: &[u8]) -> (out: Option<Vec<u8>>)
    ensures
        bytes_view(out) == zlib_deflated(bytes@),
{
    let mut packed = Vec::new();
    let level = flate2::Compression::best();
    match flate2::bufread::ZlibEncoder::new(bytes, level).read_to_end(&mut packed) {
        Ok(_) => Some(packed),
        Err(_) => None,
    }
}

/// Reads `flate2::bufread::ZlibDecoder` to its end. Trusted: the output
/// depends on the input bytes alone.
#[verifier::external_body]
fn zlib_inflate(bytes: &[u8]) -> (out: Option<Vec<u8>>)
    ensures
        bytes_view(out) == zlib_inflated(bytes@),
{
    let mut plain = Vec::new();
    match flate2::bufread::ZlibDecoder::new(bytes).read_to_end(&mut plain) {
        Ok(_) => Some(plain),
        Err(_) => None,
    }
}

/// Calls `brotli::BrotliCompress` with the default encoder parameters.
/// Trusted: the output depends on the input bytes alone. Nothing is claimed
/// of what it holds.
#[verifier::external_body]
fn brotli_pack(bytes: &[u8]) -> (out: Option<Vec<u8>>)
    ensures
        bytes_view(out) == brotli_packed(bytes@),
{
    let mut packed = Vec::new();
    let mut reader = bytes;
    let params = brotli::enc::BrotliEncoderParams::default();
    match brotli::BrotliCompress(&mut reader, &mut packed, &params) {
        Ok(_) => Some(packed),
        Err(_) => None,
    }
}

/// Calls `brotli::BrotliDecompress`. Trusted: the output depends on the input
/// bytes alone.
#[verifier::external_body]
fn brotli_unpack(bytes: &[u8]) -> (out: Option<Vec<u8>>)
    ensures
        bytes_view(out) == brotli_unpacked(bytes@),
{
    let mut plain = Vec::new();
    let mut reader = bytes;
    match brotli::BrotliDecompress(&mut reader, &mut plain) {
        Ok(_) => Some(plain),
        Err(_) => None,
    }
}

/// Whether two byte strings are equal.
fn same_bytes(a: &[u8], b: &[u8]) -> (out: bool)
    ensures
        out == (a@ == b@),
{
    if a.len() != b.len() {
        return false;
    }
    let mut i: usize = 0;
    while i < a.len()
        invariant
            i <= a@.len(),
            a@.len() == b@.len(),
            forall|j: int| 0 <= j < i ==> a@[j] == b@[j],
        decreases a@.len() - i,
    {
        if a[i] != b[i] {
            return false;
        }
        i += 1;
    }
    assert(a@ =~= b@);
    true
}

/// Applies the codecs of `codec`, one after the other.
fn wrap(codec: Codec, bytes: &[u8]) -> (out: Option<Vec<u8>>)
    ensures
        bytes_view(out) == compressed(codec, bytes@),
{
    let inner: Vec<u8> = if codec.zlib {
        match zlib_deflate(bytes) {
            Some(z) => z,
            None => {
                return None;
            },
        }
    } else {
        slice_to_vec(bytes)
    };
    if codec.brotli {
        brotli_pack(inner.as_slice())
    } else {
        Some(inner)
    }
}

/// Undoes the codecs of `codec`, in the reverse order.
fn unwrap(codec: Codec, bytes: &[u8]) -> (out: Option<Vec<u8>>)
    ensures
        bytes_view(out) == decompressed(codec, bytes@),
{
    let inner: Vec<u8> = if codec.brotli {
        match brotli_unpack(bytes) {
            Some(z) => z,
            None => {
                return None;
            },
        }
    } else {
        slice_to_vec(bytes)
    };
    if codec.zlib {
        zlib_inflate(inner.as_slice())
    } else {
        Some(inner)
    }
}

/// What `compress` hands out: the wrapped bytes, where the codecs report no
/// error and unwrapping their output gives the input back.
pub open spec fn sealed(codec: Codec, bytes: Seq<u8>) -> Option<Seq<u8>> {
    match compressed(codec, bytes) {
        Some(c) => if decompressed(codec, c) == Some(bytes) {
            Some(c)
        } else {
            None
        },
        None => None,
    }
}

/// Wraps `bytes` with the codecs of `codec`. The wrapped bytes are unwrapped
/// again before they are handed out, and are handed out only if that gives
/// `bytes` back: so whatever comes out, `decompress` with the same `codec`
/// turns it into `bytes`, the empty byte string like any other, and this
/// rests on nothing about the codecs but that each computes a function of
/// its input. Without a codec the bytes come back as they are.
pub fn compress(codec: Codec, bytes: &[u8]) -> (out: Result<Vec<u8>, Error>)
    ensures
        match sealed(codec, bytes@) {
            Some(c) => out matches Ok(v) && v@ == c,
            None => out matches Err(e) && e == Error::CompressionFailure,
        },
        out matches Ok(v) ==> decompressed(codec, v@) == Some(bytes@),
        !codec.zlib && !codec.brotli ==> (out matches Ok(v) && v@ == bytes@),
{
    let packed = match wrap(codec, bytes) {
        Some(c) => c,
        None => {
            return Err(Error::CompressionFailure);
        },
    };
    match unwrap(codec, packed.as_slice()) {
        Some(back) => {
            if same_bytes(back.as_slice(), bytes) {
                Ok(packed)
            } else {
                Err(Error::CompressionFailure)
            }
        },
        None => Err(Error::CompressionFailure),
    }
}

/// Unwraps bytes that `compress` made with the same `codec`. Bytes that the
/// codec refuses are a `DecompressionFailure`.
pub fn decompress(codec: Codec, bytes: &[u8]) -> (out: Result<Vec<u8>, Error>)
    ensures
        match decompressed(codec, bytes@) {
            Some(d) => out matches Ok(v) && v@ == d,
            None => out matches Err(e) && e == Error::DecompressionFailure,
        },
{
    match unwrap(codec, bytes) {
        Some(d) => Ok(d),
        None => Err(Error::DecompressionFailure),
    }
}

} // verus!
