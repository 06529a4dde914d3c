use lz4_flex::block::DecompressError;
use vstd::prelude::*;

verus! {

/// The protocol's limit on the payload of one frame: 8 MiB. A peer never
/// allocates more than this for a frame it receives, and every frame that
/// carries at most this much fits in `MAX_FRAME`.
pub const MAX_PAYLOAD: u32 = 0x0080_0000;

/// The largest frame that is decoded: 12 MiB, room for any compressed
/// payload of `MAX_PAYLOAD` bytes. The decoder sums length bytes into a
/// `u32`, which no frame this short can overflow.
pub const MAX_FRAME: usize = 0x00c0_0000;

/// What decoding a frame gives: the bytes that the LZ4 block after the
/// length in front stands for, if it is a block that fits that length.
pub uninterp spec fn lz4_unframed(frame: Seq<u8>) -> Option<Seq<u8>>;

/// The little-endian number in the first four bytes.
pub open spec fn le_u32(b: Seq<u8>) -> int {
    b[0] as int + 0x100 * (b[1] as int) + 0x1_0000 * (b[2] as int) + 0x100_0000 * (b[3] as int)
}

/// Relies on lz4_flex::block::compress_prepend_size: the payload's length
/// as a little-endian u32, then its LZ4 block, at most
/// `get_maximum_output_size` bytes; the block decodes to the payload.
#[verifier::external_body]
fn compress_prepend_size(payload: &[u8]) -> (r: Vec<u8>)
    requires
        payload@.len() <= MAX_PAYLOAD,
    ensures
        lz4_unframed(r@) == Some(payload@),
        r@.len() >= 4,
        le_u32(r@) == payload@.len(),
        r@.len() <= 24 + payload@.len() * 110 / 100,
{
    lz4_flex::block::compress_prepend_size(payload)
}

#[verifier::external_type_specification]
#[verifier::external_body]
pub struct ExDecompressError(DecompressError);

/// Relies on lz4_flex::block::decompress_size_prepended: it reads the
/// length in front, makes a buffer of that size and decodes the block after
/// it into the buffer, with an error for a block that does not fit or does
/// not decode.
#[verifier::external_body]
fn decompress_size_prepended(frame: &[u8]) -> (r: Result<Vec<u8>, DecompressError>)
    requires
        4 <= frame@.len() <= MAX_FRAME,
        le_u32(frame@) <= MAX_PAYLOAD,
    ensures
        r is Ok <==> lz4_unframed(frame@) is Some,
        r is Ok ==> lz4_unframed(frame@) == Some(r->Ok_0@),
        r is Ok ==> r->Ok_0@.len() <= le_u32(frame@),
{
    lz4_flex::block::decompress_size_prepended(frame)
}

/// Why a received frame gave no payload.
#[derive(Clone, Copy, Debug, PartialEq, Eq, Structural)]
pub enum FrameError {
    /// Shorter than the four bytes of its length.
    Truncated,
    /// Declares a payload over `MAX_PAYLOAD`, or is longer than `MAX_FRAME`.
    TooLarge,
    /// The compressed block does not decode, or decodes to more bytes than
    /// the frame declares.
    Malformed,
}

/// The frame sent for a payload: the payload's length, then the payload
/// compressed.
pub fn encode_frame(payload: &Vec<u8>) -> (r: Vec<u8>)
    requires
        payload@.len() <= MAX_PAYLOAD,
    ensures
        lz4_unframed(r@) == Some(payload@),
        4 <= r@.len() <= MAX_FRAME,
        le_u32(r@) == payload@.len(),
{
    compress_prepend_size(payload.as_slice())
}

/// The length that a frame declares for its payload.
pub fn declared_len(frame: &Vec<u8>) -> (r: u32)
    requires
        frame@.len() >= 4,
    ensures
        r == le_u32(frame@),
{
    frame[0] as u32 + 0x100 * (frame[1] as u32) + 0x1_0000 * (frame[2] as u32) + 0x100_0000 * (
    frame[3] as u32)
}

/// Whether a frame is refused for its size before decoding.
pub open spec fn too_large(frame: Seq<u8>) -> bool {
    frame.len() >= 4 && (le_u32(frame) > MAX_PAYLOAD || frame.len() > MAX_FRAME)
}

/// The payload of a received frame. A frame too short to hold its length,
/// declaring more than `MAX_PAYLOAD` or longer than `MAX_FRAME` is refused
/// before decoding; any other frame gives what it decodes to, so a frame
/// that `encode_frame` made gives its payload back.
pub fn decode_frame(frame: &Vec<u8>) -> (r: Result<Vec<u8>, FrameError>)
    ensures
        r == Err::<Vec<u8>, FrameError>(FrameError::Truncated) <==> frame@.len() < 4,
        r == Err::<Vec<u8>, FrameError>(FrameError::TooLarge) <==> too_large(frame@),
        frame@.len() >= 4 && !too_large(frame@) ==> {
            &&& r is Ok <==> lz4_unframed(frame@) is Some
            &&& r is Ok ==> lz4_unframed(frame@) == Some(r->Ok_0@)
            &&& r is Err ==> r == Err::<Vec<u8>, FrameError>(FrameError::Malformed)
        },
        r is Ok ==> r->Ok_0@.len() <= le_u32(frame@),
{
    if frame.len() < 4 {
        return Err(FrameError::Truncated);
    }
    if declared_len(frame) > MAX_PAYLOAD || frame.len() > MAX_FRAME {
        return Err(FrameError::TooLarge);
    }
    match decompress_size_prepended(frame.as_slice()) {
        Ok(v) => Ok(v),
        Err(_) => Err(FrameError::Malformed),
    }
}

/// A frame made by `encode_frame` passes the size checks of `decode_frame`
/// and decodes to its payload.
pub proof fn lemma_frame_round_trip(payload: Seq<u8>, frame: Seq<u8>)
    requires
        payload.len() <= MAX_PAYLOAD,
        lz4_unframed(frame) == Some(payload),
        4 <= frame.len() <= MAX_FRAME,
        le_u32(frame) == payload.len(),
    ensures
        !too_large(frame),
        lz4_unframed(frame) == Some(payload),
{
}

} // verus!
