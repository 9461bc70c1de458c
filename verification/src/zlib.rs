//! The deflate unit: one independent run of the coder for each row group,
//! and the fixed bytes that frame the runs as one zlib stream.

use vstd::prelude::*;
use miniz_oxide::deflate;
use crate::options::CompressionLevel;

verus! {

/// What a fresh coder makes of `data` at the given level and strategy
/// when it is flushed to a byte boundary and not finished: the deflate
/// blocks that it writes, none of them marked as the last and the last of
/// them an empty stored block; or `None` if the coder gives up.
pub uninterp spec fn deflate_blocks(data: Seq<u8>, level: u8, strategy: u8) -> Option<Seq<u8>>;

/// Appends a part of the coder's output to what was kept so far, and
/// says that the coder may go on.
pub(crate) fn keep_part(kept: &mut Vec<u8>, part: &[u8]) -> (go_on: bool)
    ensures
        go_on,
        final(kept)@ == old(kept)@ + part@,
{
    kept.extend_from_slice(part);
    true
}

/// Compresses `data` with a coder of its own, which has seen nothing
/// before, and flushes it without ending the stream.
///
/// Makes a `CompressorOxide` from the flags that
/// `create_comp_flags_from_zip_params` gives for a raw stream, and calls
/// `compress_to_output` once with `TDEFLFlush::Sync`, keeping the parts
/// that the coder hands out in the order in which it hands them out. The
/// result is `None` when the coder reports anything but `Okay`. The coder
/// keeps no state outside itself and draws on no clock or chance, so both
/// whether it gives up and what it writes are functions of the three
/// arguments.
#[verifier::external_body]
pub(crate) fn deflate_sync(data: &[u8], level: u8, strategy: u8) -> (out: Option<Vec<u8>>)
    ensures
        out is Some <==> deflate_blocks(data@, level, strategy) is Some,
        out matches Some(bytes) ==> deflate_blocks(data@, level, strategy) == Some(bytes@),
{
    let flags = deflate::core::create_comp_flags_from_zip_params(
        level.into(),
        0,
        strategy.into(),
    );
    let mut coder = deflate::core::CompressorOxide::new(flags);
    let mut bytes: Vec<u8> = Vec::new();
    let sync = deflate::core::TDEFLFlush::Sync;
    let (status, _) = deflate::core::compress_to_output(&mut coder, data, sync, |part: &[u8]| {
        keep_part(&mut bytes, part)
    });
    match status {
        deflate::core::TDEFLStatus::Okay => Some(bytes),
        _ => None,
    }
}

/// The two bits by which a zlib header tells how hard the coder tried.
pub open spec fn zlib_level_bits(level: CompressionLevel) -> int {
    match level {
        CompressionLevel::Fast => 0,
        CompressionLevel::Default => 2,
        CompressionLevel::High => 3,
    }
}

/// The second byte of a zlib header: the level bits on top, no preset
/// dictionary, and the check bits that make the two header bytes, read as
/// one number, a multiple of 31.
pub open spec fn zlib_flag(level: CompressionLevel) -> u8 {
    let top = zlib_level_bits(level) * 64;
    (top + (31 - (0x7800 + top) % 31) % 31) as u8
}

/// The header of a zlib stream: deflate with a 32 KiB window, then the
/// flag byte.
pub open spec fn zlib_header(level: CompressionLevel) -> Seq<u8> {
    seq![0x78u8, zlib_flag(level)]
}

/// An empty stored block marked as the last of a deflate stream.
pub open spec fn final_block() -> Seq<u8> {
    seq![0x01u8, 0x00u8, 0x00u8, 0xffu8, 0xffu8]
}

/// The zlib header is well formed for every level.
pub proof fn lemma_zlib_header_checks(level: CompressionLevel)
    ensures
        (0x78 * 256 + zlib_flag(level)) % 31 == 0,
        zlib_flag(level) / 64 == zlib_level_bits(level),
        (zlib_flag(level) / 32) % 2 == 0,
{
}

/// The two header bytes of a zlib stream made at `level`.
pub fn zlib_header_bytes(level: CompressionLevel) -> (bytes: [u8; 2])
    ensures
        bytes@ == zlib_header(level),
{
    let flag: u8 = match level {
        CompressionLevel::Fast => 0x01,
        CompressionLevel::Default => 0x9c,
        CompressionLevel::High => 0xda,
    };
    let bytes: [u8; 2] = [0x78, flag];
    assert(bytes@ =~= zlib_header(level));
    bytes
}

/// The five bytes of an empty stored block that ends a deflate stream.
pub fn final_block_bytes() -> (bytes: [u8; 5])
    ensures
        bytes@ == final_block(),
{
    let bytes: [u8; 5] = [0x01, 0x00, 0x00, 0xff, 0xff];
    assert(bytes@ =~= final_block());
    bytes
}

} // verus!
