//! Decoding one sub-record: its codec byte, then the tag tree in the
//! decompressed payload.
use vstd::prelude::*;
use quartz_nbt::io::{Flavor, NbtIoError};
use quartz_nbt::NbtCompound;
use std::io::Read;
use crate::shape::{tree_ok, tree_shape_ok};

verus! {

#[verifier::external_type_specification]
#[verifier::external_body]
pub struct ExNbtCompound(NbtCompound);

#[verifier::external_type_specification]
#[verifier::external_body]
pub struct ExNbtIoError(NbtIoError);

/// How a sub-record's payload is compressed.
#[derive(Debug, Clone, Copy, PartialEq, Eq)]
pub enum Codec {
    Uncompressed,
    Gzip,
    Zlib,
}

/// The codec a discriminant byte names: 0 raw, 1 gzip, 2 zlib.
pub open spec fn codec_spec(b: u8) -> Option<Codec> {
    if b == 0 {
        Some(Codec::Uncompressed)
    } else if b == 1 {
        Some(Codec::Gzip)
    } else if b == 2 {
        Some(Codec::Zlib)
    } else {
        None
    }
}

/// Reads a codec discriminant byte.
pub fn codec_of(b: u8) -> (r: Option<Codec>)
    ensures
        r == codec_spec(b),
{
    if b == 0 {
        Some(Codec::Uncompressed)
    } else if b == 1 {
        Some(Codec::Gzip)
    } else if b == 2 {
        Some(Codec::Zlib)
    } else {
        None
    }
}

/// Why a sub-record could not be decoded.
#[derive(Debug)]
pub enum ChunkError {
    /// The codec byte names no known codec.
    InvalidCompressionType(u8),
    /// The sub-record holds no codec byte.
    Truncated,
    /// The payload does not decompress under its codec.
    Decompress,
    /// The decompressed bytes are no well-formed tag tree: an unknown tag
    /// type, a negative length, a length past the end, or nesting deeper
    /// than the limit.
    Malformed,
    /// The tree decoder refused the bytes.
    NbtIo(NbtIoError),
}

/// The bytes that a gzip stream decompresses to, if it is valid.
pub uninterp spec fn gunzipped(payload: Seq<u8>) -> Option<Seq<u8>>;

/// The bytes that a zlib stream decompresses to, if it is valid.
pub uninterp spec fn zlib_inflated(payload: Seq<u8>) -> Option<Seq<u8>>;

/// Whether the tree decoder accepts a well-formed uncompressed tree (it
/// may still refuse, for instance, a name that is not valid CESU-8).
pub uninterp spec fn nbt_decodes(bytes: Seq<u8>) -> bool;

/// Relies on `flate2::read::GzDecoder` read to the end: the decompressed
/// bytes, or `None` where the stream is invalid.
#[verifier::external_body]
fn gunzip(payload: &[u8]) -> (r: Option<Vec<u8>>)
    ensures
        match r {
            Some(v) => gunzipped(payload@) == Some(v@),
            None => gunzipped(payload@) is None,
        },
{
    let mut out = Vec::new();
    flate2::read::GzDecoder::new(payload).read_to_end(&mut out).ok().map(|_| out)
}

/// Relies on `flate2::read::ZlibDecoder` read to the end: the decompressed
/// bytes, or `None` where the stream is invalid.
#[verifier::external_body]
fn zlib_inflate(payload: &[u8]) -> (r: Option<Vec<u8>>)
    ensures
        match r {
            Some(v) => zlib_inflated(payload@) == Some(v@),
            None => zlib_inflated(payload@) is None,
        },
{
    let mut out = Vec::new();
    flate2::read::ZlibDecoder::new(payload).read_to_end(&mut out).ok().map(|_| out)
}

/// Relies on `quartz_nbt::io::read_nbt` with the uncompressed flavor; the
/// root name is dropped. On a well-formed tree every length it allocates
/// for is non-negative and within the bytes and its recursion is bounded,
/// so it returns without panicking.
#[verifier::external_body]
fn decode_tree(bytes: &[u8]) -> (r: Result<NbtCompound, NbtIoError>)
    requires
        tree_ok(bytes@),
    ensures
        r is Ok <==> nbt_decodes(bytes@),
{
    let mut reader = bytes;
    quartz_nbt::io::read_nbt(&mut reader, Flavor::Uncompressed).map(|(root, _name)| root)
}

/// The uncompressed tree bytes of a payload under codec byte `codec`.
pub open spec fn inflated(codec: u8, payload: Seq<u8>) -> Option<Seq<u8>> {
    if codec == 0 {
        Some(payload)
    } else if codec == 1 {
        gunzipped(payload)
    } else {
        zlib_inflated(payload)
    }
}

/// Decompresses a payload under a codec.
fn inflate(payload: &[u8], codec: Codec, byte: Ghost<u8>) -> (r: Option<Vec<u8>>)
    requires
        codec_spec(byte@) == Some(codec),
    ensures
        match r {
            Some(v) => inflated(byte@, payload@) == Some(v@),
            None => inflated(byte@, payload@) is None,
        },
{
    match codec {
        Codec::Uncompressed => Some(vstd::slice::slice_to_vec(payload)),
        Codec::Gzip => gunzip(payload),
        Codec::Zlib => zlib_inflate(payload),
    }
}

/// Decodes one sub-record: the codec byte, then the compressed tag tree
/// after it. An unknown codec byte is refused before any decoding, and the
/// decompressed bytes are checked to be a well-formed tree before the
/// decoder sees them.
pub fn read_chunk(buf: &[u8]) -> (r: Result<NbtCompound, ChunkError>)
    ensures
        buf@.len() == 0 <==> r matches Err(ChunkError::Truncated),
        buf@.len() > 0 && codec_spec(buf@[0]) is None <==> r matches Err(
            ChunkError::InvalidCompressionType(_),
        ),
        r matches Err(ChunkError::InvalidCompressionType(t)) ==> t == buf@[0],
        buf@.len() > 0 && codec_spec(buf@[0]) is Some ==> {
            let tree = inflated(buf@[0], buf@.subrange(1, buf@.len() as int));
            &&& (tree is None <==> (r is Err && r->Err_0 is Decompress))
            &&& (tree is Some && !tree_ok(tree->0) <==> (r is Err && r->Err_0 is Malformed))
            &&& (tree is Some && tree_ok(tree->0) ==> (r is Ok <==> nbt_decodes(tree->0)))
            &&& (tree is Some && tree_ok(tree->0) && !nbt_decodes(tree->0) ==> (r is Err
                && r->Err_0 is NbtIo))
        },
{
    if buf.len() == 0 {
        return Err(ChunkError::Truncated);
    }
    let codec = match codec_of(buf[0]) {
        Some(c) => c,
        None => return Err(ChunkError::InvalidCompressionType(buf[0])),
    };
    let payload = vstd::slice::slice_subrange(buf, 1, buf.len());
    let bytes = match inflate(payload, codec, Ghost(buf@[0])) {
        Some(v) => v,
        None => return Err(ChunkError::Decompress),
    };
    if !tree_shape_ok(bytes.as_slice()) {
        return Err(ChunkError::Malformed);
    }
    match decode_tree(bytes.as_slice()) {
        Ok(root) => Ok(root),
        Err(e) => Err(ChunkError::NbtIo(e)),
    }
}

} // verus!
