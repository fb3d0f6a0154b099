//! Byte codec: zstd framing with a legacy pass-through, and content keys.
use vstd::prelude::*;

verus! {

/// The frame that the zstd compressor at level 1, with the content size
/// recorded, writes for the given bytes.
pub uninterp spec fn zstd_frame(data: Seq<u8>) -> Seq<u8>;

/// What `zstd_safe::get_frame_content_size` reports for the given bytes:
/// `None` where no frame header can be read, `Some(None)` where the header
/// does not hold the size, `Some(Some(n))` where it does.
pub uninterp spec fn frame_content_size(data: Seq<u8>) -> Option<Option<u64>>;

/// What `zstd::bulk::decompress` returns for the given frame and capacity.
pub uninterp spec fn zstd_decoded(data: Seq<u8>, capacity: usize) -> Option<Seq<u8>>;

/// The BLAKE3 digest of the given bytes.
pub uninterp spec fn blake3_digest(data: Seq<u8>) -> Seq<u8>;

/// The four bytes that open a zstd frame, a frame of one of the legacy
/// formats (v0.1 to v0.7), or a skippable frame.
pub open spec fn has_frame_magic(data: Seq<u8>) -> bool {
    data.len() >= 4 && (
        (0x1Eu8 <= data[0] <= 0x28u8 && data[1] == 0xB5u8 && data[2] == 0x2Fu8 && data[3] == 0xFDu8)
        || (data[0] == 0xFDu8 && data[1] == 0x2Fu8 && data[2] == 0xB5u8 && data[3] == 0x1Eu8)
        || (0x50u8 <= data[0] <= 0x5Fu8 && data[1] == 0x2Au8 && data[2] == 0x4Du8
            && data[3] == 0x18u8)
    )
}

/// The largest content size that a frame may claim: no allocation can be
/// larger than `isize::MAX` bytes.
pub const MAX_CONTENT: u64 = 0x7FFF_FFFF_FFFF_FFFF;

/// Length of a content key.
pub const KEY_LEN: usize = 32;

#[derive(Debug, Clone, Copy, PartialEq, Eq, Structural)]
pub enum CodecError {
    /// The frame header does not say how large the content is.
    UnknownSize,
    /// The frame claims more content than this machine can address.
    TooLarge,
    /// The frame could not be decoded.
    Corrupt,
}

/// What `decompress` yields for the given bytes.
pub open spec fn decompressed(data: Seq<u8>) -> Result<Seq<u8>, CodecError> {
    match frame_content_size(data) {
        None => Ok(data),
        Some(None) => Err(CodecError::UnknownSize),
        Some(Some(n)) => if n > MAX_CONTENT || n > usize::MAX {
            Err(CodecError::TooLarge)
        } else {
            match zstd_decoded(data, n as usize) {
                Some(out) => Ok(out),
                None => Err(CodecError::Corrupt),
            }
        },
    }
}

/// Relies on `zstd::bulk::Compressor` at level 1 with `ContentSizeFlag(true)`:
/// the frame it writes records the content size, and `zstd::bulk::decompress`
/// with that size as capacity gives the content back. It fails only where
/// zstd cannot allocate its context or output buffer.
#[verifier::external_body]
fn zstd_compress(data: &[u8]) -> (r: Option<Vec<u8>>)
    ensures
        r is Some,
        r is Some ==> r.unwrap()@ == zstd_frame(data@),
        r is Some ==> frame_content_size(r.unwrap()@) == Some(Some(data@.len() as u64)),
        r is Some ==> zstd_decoded(r.unwrap()@, data@.len() as usize) == Some(data@),
{
    let mut z = zstd::bulk::Compressor::new(1).ok()?;
    z.set_parameter(zstd::zstd_safe::CParameter::ContentSizeFlag(true)).ok()?;
    z.compress(data).ok()
}

/// Relies on `zstd_safe::get_frame_content_size`, which reads no header from
/// input that does not open with a frame magic number.
#[verifier::external_body]
fn frame_size(data: &[u8]) -> (r: Option<Option<u64>>)
    ensures
        r == frame_content_size(data@),
        !has_frame_magic(data@) ==> r is None,
{
    zstd::zstd_safe::get_frame_content_size(data).ok()
}

/// Relies on `zstd::bulk::decompress`, which first allocates `capacity`
/// bytes (and panics on more than `isize::MAX`).
#[verifier::external_body]
fn zstd_decompress(data: &[u8], capacity: usize) -> (r: Option<Vec<u8>>)
    requires
        capacity <= MAX_CONTENT,
    ensures
        r is Some <==> zstd_decoded(data@, capacity) is Some,
        r is Some ==> r.unwrap()@ == zstd_decoded(data@, capacity).unwrap(),
{
    zstd::bulk::decompress(data, capacity).ok()
}

/// Relies on `blake3::hash`: a 32-byte digest of the input.
#[verifier::external_body]
fn blake3_hash(data: &[u8]) -> (r: Vec<u8>)
    ensures
        r@ == blake3_digest(data@),
        r@.len() == KEY_LEN,
{
    blake3::hash(data).as_bytes().to_vec()
}

/// Compresses `data` into a zstd frame that records its own content size;
/// decompressing the frame gives `data` back.
pub fn compress(data: &[u8]) -> (r: Vec<u8>)
    requires
        data@.len() <= MAX_CONTENT,
    ensures
        r@ == zstd_frame(data@),
        frame_content_size(r@) == Some(Some(data@.len() as u64)),
        decompressed(r@) == Ok::<Seq<u8>, CodecError>(data@),
{
    let len = data.len();
    match zstd_compress(data) {
        Some(out) => {
            assert(((len as u64) as usize) == len);
            assert(frame_content_size(out@) == Some(Some(len as u64)));
            assert(zstd_decoded(out@, len) == Some(data@));
            out
        },
        None => Vec::new(),
    }
}

/// Decompresses a frame written by `compress`; bytes without a frame header
/// were stored before compression was introduced and come back unchanged.
pub fn decompress(data: &[u8]) -> (r: Result<Vec<u8>, CodecError>)
    ensures
        match (r, decompressed(data@)) {
            (Ok(out), Ok(want)) => out@ == want,
            (Err(e), Err(want)) => e == want,
            _ => false,
        },
        !has_frame_magic(data@) ==> (r matches Ok(out) && out@ == data@),
{
    match frame_size(data) {
        None => Ok(vstd::slice::slice_to_vec(data)),
        Some(None) => Err(CodecError::UnknownSize),
        Some(Some(n)) => {
            if n > MAX_CONTENT || n > usize::MAX as u64 {
                Err(CodecError::TooLarge)
            } else {
                match zstd_decompress(data, n as usize) {
                    Some(out) => Ok(out),
                    None => Err(CodecError::Corrupt),
                }
            }
        },
    }
}

/// The content key of `data`: its BLAKE3 digest.
pub fn content_hash(data: &[u8]) -> (r: Vec<u8>)
    ensures
        r@ == blake3_digest(data@),
        r@.len() == KEY_LEN,
{
    blake3_hash(data)
}

} // verus!
