//! Geometric transform: 90-degree clockwise rotation. Pure reindexing of the
//! pixel records; no channel value changes. The caller is responsible for
//! reinterpreting width and height as swapped afterwards.

use crate::ImgError;
use crate::pixel::{Pixel, bytes_of, get_pixels, get_raw, pixels_of};
use vstd::arithmetic::div_mod::{lemma_fundamental_div_mod, lemma_fundamental_div_mod_converse_div,
    lemma_fundamental_div_mod_converse_mod};
use vstd::prelude::*;

verus! {

/// The pixel order after a 90-degree clockwise rotation of a `w`-wide,
/// `h`-high image: position `j` of the result holds the source pixel at row
/// `h - 1 - j % h`, column `j / h`.
pub open spec fn rotate_pixels(pix: Seq<Pixel>, w: int, h: int) -> Seq<Pixel> {
    Seq::new(pix.len(), |j: int| pix[(h - 1 - j % h) * w + j / h])
}

/// Rotates the image 90 degrees clockwise: the pixel at `(row, col)` moves
/// to `(col, height - 1 - row)` of the rotated (height-wide) ordering.
/// Rejects a zero width, a buffer whose length is not a multiple of four,
/// and a width that does not divide the pixel count.
pub fn rotate_right(data: &mut Vec<u8>, width: usize) -> (r: Result<(), ImgError>)
    ensures
        r is Ok <==> old(data)@.len() % 4 == 0 && width >= 1 && (old(data)@.len() as int / 4) % (
        width as int) == 0,
        r is Ok ==> final(data)@ == bytes_of(rotate_pixels(pixels_of(old(data)@), width as int, (
        old(data)@.len() as int / 4) / (width as int))),
        r is Err ==> final(data)@ == old(data)@ && r == Err::<(), ImgError>(
            ImgError::InvalidInput),
{
    if data.len() % 4 != 0 || width == 0 || (data.len() / 4) % width != 0 {
        return Err(ImgError::InvalidInput);
    }
    let pixels = get_pixels(data);
    let n = pixels.len();
    let height = n / width;
    let ghost target = rotate_pixels(pixels_of(old(data)@), width as int, height as int);
    proof {
        lemma_fundamental_div_mod(old(data)@.len() as int, 4);
        lemma_fundamental_div_mod(n as int, width as int);
        assert(target.len() == n);
    }
    let mut temp: Vec<Pixel> = Vec::new();
    let mut col: usize = 0;
    while col < width
        invariant
            col <= width,
            width >= 1,
            n == pixels@.len(),
            n == width * height,
            pixels@ == pixels_of(old(data)@),
            target == rotate_pixels(pixels_of(old(data)@), width as int, height as int),
            target.len() == n,
            temp@.len() == col * height,
            forall|j: int| 0 <= j < col * height ==> temp@[j] == target[j],
        decreases width - col,
    {
        let mut t: usize = 0;
        while t < height
            invariant
                t <= height,
                col < width,
                width >= 1,
                n == pixels@.len(),
                n == width * height,
                pixels@ == pixels_of(old(data)@),
                target == rotate_pixels(pixels_of(old(data)@), width as int, height as int),
                target.len() == n,
                temp@.len() == col * height + t,
                forall|j: int| 0 <= j < col * height + t ==> temp@[j] == target[j],
            decreases height - t,
        {
            let row = height - 1 - t;
            proof {
                assert(row * width + col < width * height && row * width <= (height - 1) * width
                    && col * height + t < width * height) by (nonlinear_arith)
                    requires
                        0 <= col < width,
                        0 <= t < height,
                        row == height - 1 - t,
                ;
                lemma_fundamental_div_mod_converse_div(col as int * height as int + t as int,
                    height as int, col as int, t as int);
                lemma_fundamental_div_mod_converse_mod(col as int * height as int + t as int,
                    height as int, col as int, t as int);
            }
            temp.push(pixels[row * width + col]);
            t = t + 1;
        }
        proof {
            assert(col as int * height as int + height as int == (col + 1) as int * height as int)
                by (nonlinear_arith);
        }
        col = col + 1;
    }
    proof {
        assert(temp@ =~= target);
    }
    let bytes = get_raw(&temp);
    *data = bytes;
    Ok(())
}

} // verus!
