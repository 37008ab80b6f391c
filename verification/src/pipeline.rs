//! The per-tick frame pipeline: dim, color-correct, and place each pixel
//! through the transposition table, producing a complete output buffer that
//! is only then handed to the device sink.

use vstd::prelude::*;
use crate::color::{Correction, Pixel, dim_pixel, dimmed_pixel};
use crate::geometry::is_permutation;

verus! {

/// A failure while producing one frame.
#[derive(Clone, Copy, PartialEq, Eq, Structural, Debug)]
pub enum PipeError {
    /// The input ended mid-frame: fewer bytes than one full frame.
    ShortRead,
}

/// The `i`-th RGB triple of a raw byte stream.
pub open spec fn pixel_at(raw: Seq<u8>, i: int) -> Pixel {
    Pixel { r: raw[3 * i], g: raw[3 * i + 1], b: raw[3 * i + 2] }
}

/// What the pipeline stores for logical pixel `i`: the input pixel dimmed,
/// then color-corrected.
pub open spec fn processed_pixel(raw: Seq<u8>, i: int, correction: Correction, dim: u8) -> Pixel {
    correction.correct_spec(dimmed_pixel(pixel_at(raw, i), dim))
}

/// Run one frame through the pipeline. For each logical pixel index `i`,
/// read the `i`-th RGB triple from `raw`, scale each channel by `dim / 255`,
/// apply the color correction, and store the result at `transposition[i]` in
/// the output buffer. Fails with a short-read error if and only if `raw`
/// holds fewer bytes than one full frame; on success the buffer is complete
/// and fully determined by the contract, never partial.
pub fn pipe_frame(
    raw: &Vec<u8>,
    num_pixels: usize,
    transposition: &Vec<usize>,
    correction: &Correction,
    dim: u8,
) -> (r: Result<Vec<Pixel>, PipeError>)
    requires
        is_permutation(transposition@, num_pixels as int),
        num_pixels * 3 <= usize::MAX,
    ensures
        match r {
            Ok(buffer) => {
                &&& raw@.len() >= 3 * num_pixels
                &&& buffer@.len() == num_pixels
                &&& forall|i: int| 0 <= i < num_pixels
                    ==> buffer@[transposition@[i] as int]
                        == #[trigger] processed_pixel(raw@, i, *correction, dim)
            },
            Err(e) => {
                &&& raw@.len() < 3 * num_pixels
                &&& e == PipeError::ShortRead
            },
        },
{
    if raw.len() / 3 < num_pixels {
        proof {
            assert(raw@.len() < 3 * num_pixels) by (nonlinear_arith)
                requires raw@.len() / 3 < num_pixels as int;
        }
        return Err(PipeError::ShortRead);
    }
    proof {
        assert(raw@.len() >= 3 * num_pixels) by (nonlinear_arith)
            requires raw@.len() / 3 >= num_pixels as int;
    }
    let mut buffer: Vec<Pixel> = Vec::new();
    let mut j: usize = 0;
    while j < num_pixels
        invariant
            j <= num_pixels,
            buffer@.len() == j,
            forall|m: int| 0 <= m < j ==> #[trigger] buffer@[m] == (Pixel { r: 0, g: 0, b: 0 }),
        decreases num_pixels - j,
    {
        buffer.push(Pixel { r: 0, g: 0, b: 0 });
        j = j + 1;
    }
    let mut i: usize = 0;
    while i < num_pixels
        invariant
            is_permutation(transposition@, num_pixels as int),
            num_pixels * 3 <= usize::MAX,
            raw@.len() >= 3 * num_pixels,
            i <= num_pixels,
            buffer@.len() == num_pixels,
            forall|m: int| 0 <= m < i
                ==> buffer@[transposition@[m] as int]
                    == #[trigger] processed_pixel(raw@, m, *correction, dim),
        decreases num_pixels - i,
    {
        let pix_in = Pixel { r: raw[3 * i], g: raw[3 * i + 1], b: raw[3 * i + 2] };
        let pix_dimmed = dim_pixel(pix_in, dim);
        let pix_corrected = correction.correct(pix_dimmed);
        let dest = transposition[i];
        buffer.set(dest, pix_corrected);
        proof {
            assert(forall|m: int| 0 <= m < i
                ==> transposition@[m] != transposition@[i as int]);
        }
        i = i + 1;
    }
    Ok(buffer)
}

}
