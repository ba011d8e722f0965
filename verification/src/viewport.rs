//! Viewport readback: a rendered RGBA8 frame is copied into a buffer whose
//! rows are padded to the copy alignment; the frame handed out holds the
//! rows without their padding, and the BLAKE3 digest of those pixels in
//! lower-case hex.

use vstd::prelude::*;
use crate::content::{blake3_digest, blake3_hash, hex_of, to_hex};

verus! {

/// Identifies the owner of a render view.
#[derive(Copy, Clone, Debug, PartialEq, Eq, Structural)]
pub enum RenderViewMode {
    /// The gameplay camera.
    Game,
    /// The editor-only camera.
    Editor,
    /// An asset preview camera.
    Preview,
}

/// Row alignment, in bytes, of a texture-to-buffer copy.
pub const COPY_BYTES_PER_ROW_ALIGNMENT: u32 = 256;

/// Bytes per RGBA8 pixel.
pub const BYTES_PER_PIXEL: u32 = 4;

/// The least multiple of `alignment` that is at least `value`.
pub open spec fn aligned_up(value: int, alignment: int) -> int {
    ((value + alignment - 1) / alignment) * alignment
}

/// Rounds `value` up to a multiple of `alignment`.
pub fn align_to(value: u32, alignment: u32) -> (r: u32)
    requires
        alignment > 0,
        value + alignment - 1 <= u32::MAX,
    ensures
        r == aligned_up(value as int, alignment as int),
        r % alignment == 0,
        value <= r < value + alignment,
{
    let q = (value + (alignment - 1)) / alignment;
    assert(q * alignment <= value + alignment - 1) by (nonlinear_arith)
        requires
            alignment > 0,
            q == (value + alignment - 1) / (alignment as int),
    ;
    assert(q * alignment >= value) by (nonlinear_arith)
        requires
            alignment > 0,
            q == (value + alignment - 1) / (alignment as int),
    ;
    assert((q * alignment) % (alignment as int) == 0) by (nonlinear_arith)
        requires
            alignment > 0,
    ;
    q * alignment
}

/// The first `rows` rows of a padded buffer, each cut to `row_bytes`.
pub open spec fn unpadded(mapped: Seq<u8>, row_bytes: int, padded: int, rows: nat) -> Seq<u8>
    decreases rows,
{
    if rows == 0 {
        Seq::empty()
    } else {
        let start = (rows - 1) * padded;
        unpadded(mapped, row_bytes, padded, (rows - 1) as nat) + mapped.subrange(start, start + row_bytes)
    }
}

/// The padded row stride of a frame `width` pixels wide.
pub open spec fn padded_row_bytes(width: int) -> int {
    aligned_up(width * 4, COPY_BYTES_PER_ROW_ALIGNMENT as int)
}

/// CPU-visible RGBA8 frame produced by an offscreen render.
#[derive(Clone, Debug, PartialEq, Eq)]
pub struct ViewportFrame {
    /// Frame width in pixels.
    pub width: u32,
    /// Frame height in pixels.
    pub height: u32,
    /// Render revision assigned by the caller.
    pub revision: u64,
    /// Unpadded row-major RGBA8 pixels.
    pub pixels: Vec<u8>,
    /// Lower-case hex BLAKE3 digest of `pixels`.
    pub hash: String,
}

proof fn lemma_row_in_bounds(r: int, h: int, row: int, padded: int)
    requires
        0 <= r < h,
        0 <= row <= padded,
    ensures
        0 <= r * padded,
        r * padded + row <= (r + 1) * padded,
        (r + 1) * padded <= h * padded,
{
    assert(0 <= r * padded) by (nonlinear_arith)
        requires
            0 <= r,
            0 <= padded,
    ;
    assert((r + 1) * padded == r * padded + padded) by (nonlinear_arith);
    assert((r + 1) * padded <= h * padded) by (nonlinear_arith)
        requires
            r + 1 <= h,
            0 <= padded,
    ;
}

/// Strips the row padding from a mapped readback buffer of a frame
/// `width` by `height` pixels.
pub fn unpad_rows(mapped: &[u8], width: u32, height: u32) -> (r: Vec<u8>)
    requires
        width * 4 + COPY_BYTES_PER_ROW_ALIGNMENT <= u32::MAX,
        padded_row_bytes(width as int) * height <= u32::MAX,
        mapped@.len() >= padded_row_bytes(width as int) * height,
    ensures
        r@ == unpadded(mapped@, width * 4, padded_row_bytes(width as int), height as nat),
        r@.len() == width * height * 4,
{
    let row_bytes: u32 = width * BYTES_PER_PIXEL;
    let padded: u32 = align_to(row_bytes, COPY_BYTES_PER_ROW_ALIGNMENT);
    let mut pixels: Vec<u8> = Vec::new();
    let mut row: u32 = 0;
    while row < height
        invariant
            row <= height,
            row_bytes == width * 4,
            padded == padded_row_bytes(width as int),
            row_bytes <= padded,
            padded * height <= u32::MAX,
            mapped@.len() >= padded * height,
            pixels@ == unpadded(mapped@, row_bytes as int, padded as int, row as nat),
            pixels@.len() == row * row_bytes,
        decreases height - row,
    {
        proof {
            lemma_row_in_bounds(row as int, height as int, row_bytes as int, padded as int);
        }
        let start: usize = (row as usize) * (padded as usize);
        let ghost before = pixels@;
        let mut i: usize = 0;
        while i < row_bytes as usize
            invariant
                i <= row_bytes,
                start + row_bytes <= mapped@.len(),
                start + row_bytes <= u32::MAX,
                pixels@ == before + mapped@.subrange(start as int, start + i),
            decreases row_bytes - i,
        {
            pixels.push(mapped[start + i]);
            proof {
                assert(mapped@.subrange(start as int, start + i + 1) =~= mapped@.subrange(start as int, start + i).push(
                    mapped@[start + i],
                ));
            }
            i = i + 1;
        }
        proof {
            assert((row + 1) * row_bytes == row * row_bytes + row_bytes) by (nonlinear_arith);
        }
        row = row + 1;
    }
    proof {
        assert(height * row_bytes == width * height * 4) by (nonlinear_arith)
            requires
                row_bytes == width * 4,
        ;
    }
    pixels
}

/// Assembles the frame read back from a padded buffer: its pixels without
/// row padding, and their digest in lower-case hex.
pub fn readback_frame(width: u32, height: u32, revision: u64, mapped: &[u8]) -> (r: ViewportFrame)
    requires
        width * 4 + COPY_BYTES_PER_ROW_ALIGNMENT <= u32::MAX,
        padded_row_bytes(width as int) * height <= u32::MAX,
        mapped@.len() >= padded_row_bytes(width as int) * height,
    ensures
        r.width == width,
        r.height == height,
        r.revision == revision,
        r.pixels@ == unpadded(mapped@, width * 4, padded_row_bytes(width as int), height as nat),
        r.pixels@.len() == width * height * 4,
        r.hash@ == hex_of(blake3_digest(r.pixels@)),
{
    let pixels = unpad_rows(mapped, width, height);
    let digest = blake3_hash(pixels.as_slice());
    let hash = to_hex(&digest);
    ViewportFrame { width, height, revision, pixels, hash }
}

} // verus!
