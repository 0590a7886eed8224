//! Region extraction: copying a rectangular sub-image into the prefix of the
//! buffer. The first origin coordinate indexes rows and the second columns,
//! mirroring the extraction order of the row-major source.

use crate::ImgError;
use crate::pixel::{Pixel, bytes_of, get_pixels, get_raw, pixels_of};
use vstd::arithmetic::div_mod::{lemma_fundamental_div_mod, lemma_fundamental_div_mod_converse_div,
    lemma_fundamental_div_mod_converse_mod};
use vstd::prelude::*;

verus! {

/// The `width x height` rectangle of pixels whose top-left corner sits at row
/// `x0`, column `y0` of a `image_w`-wide source, in row-major order.
pub open spec fn crop_pixels(pix: Seq<Pixel>, image_w: int, x0: int, y0: int, width: int,
    height: int) -> Seq<Pixel> {
    Seq::new((width * height) as nat, |j: int| pix[(x0 + j / width) * image_w + y0 + j % width])
}

/// Whether every cell of the requested rectangle lies inside the source
/// image; an empty rectangle has no cell and is always in range.
pub open spec fn crop_in_range(image_w: int, image_h: int, x0: int, y0: int, width: int,
    height: int) -> bool {
    width == 0 || height == 0 || (x0 + height <= image_h && y0 + width <= image_w)
}

/// Cropping the full image (origin `(0, 0)`, the image's own width and
/// height) reproduces the pixel sequence exactly.
pub proof fn lemma_crop_full_image(pix: Seq<Pixel>, w: int, h: int)
    requires
        w >= 1,
        h >= 1,
        pix.len() == w * h,
    ensures
        crop_pixels(pix, w, 0, 0, w, h) == pix,
{
    assert forall|j: int| 0 <= j < w * h implies crop_pixels(pix, w, 0, 0, w, h)[j] == pix[j] by {
        lemma_fundamental_div_mod(j, w);
        assert((j / w) * w == w * (j / w)) by (nonlinear_arith);
    }
    assert(crop_pixels(pix, w, 0, 0, w, h) =~= pix);
}

/// The pixels of the `width x height` rectangle with top-left corner at row
/// `given_x`, column `given_y`, in row-major order of the new rectangle.
fn extract_subarray(pixels: &Vec<Pixel>, image_width: usize, image_height: usize, given_x: usize,
    given_y: usize, width: usize, height: usize) -> (extracted: Vec<Pixel>)
    requires
        pixels@.len() == image_width * image_height,
        pixels@.len() <= usize::MAX,
        crop_in_range(image_width as int, image_height as int, given_x as int, given_y as int,
            width as int, height as int),
    ensures
        extracted@ == crop_pixels(pixels@, image_width as int, given_x as int, given_y as int,
            width as int, height as int),
{
    let ghost target = crop_pixels(pixels@, image_width as int, given_x as int, given_y as int,
        width as int, height as int);
    let mut extracted: Vec<Pixel> = Vec::new();
    let mut row: usize = 0;
    if width != 0 && height != 0 {
        proof {
            assert(width * height <= image_width * image_height) by (nonlinear_arith)
                requires
                    0 < width <= image_width,
                    0 < height <= image_height,
            ;
        }
        while row < height
            invariant
                row <= height,
                0 < width <= image_width,
                0 < height <= image_height,
                given_x + height <= image_height,
                given_y + width <= image_width,
                pixels@.len() == image_width * image_height,
                pixels@.len() <= usize::MAX,
                target == crop_pixels(pixels@, image_width as int, given_x as int,
                    given_y as int, width as int, height as int),
                target.len() == width * height,
                extracted@.len() == row * width,
                row * width <= width * height,
                forall|j: int| 0 <= j < row * width ==> extracted@[j] == target[j],
            decreases height - row,
        {
            let mut c: usize = 0;
            proof {
                assert(row * width + width <= height * width && height * width == width * height)
                    by (nonlinear_arith)
                    requires
                        0 <= row < height,
                        0 < width,
                ;
            }
            while c < width
                invariant
                    c <= width,
                    row < height,
                    0 < width <= image_width,
                    0 < height <= image_height,
                    given_x + height <= image_height,
                    given_y + width <= image_width,
                    pixels@.len() == image_width * image_height,
                    pixels@.len() <= usize::MAX,
                    target == crop_pixels(pixels@, image_width as int, given_x as int,
                        given_y as int, width as int, height as int),
                    target.len() == width * height,
                    extracted@.len() == row * width + c,
                    row * width + width <= width * height,
                    forall|j: int| 0 <= j < row * width + c ==> extracted@[j] == target[j],
                decreases width - c,
            {
                let src_row = given_x + row;
                let src_col = given_y + c;
                proof {
                    assert(src_row * image_width + src_col < image_width * image_height
                        && src_row * image_width <= (image_height - 1) * image_width)
                        by (nonlinear_arith)
                        requires
                            0 <= src_row < image_height,
                            0 <= src_col < image_width,
                    ;
                    lemma_fundamental_div_mod_converse_div(row as int * width as int + c as int,
                        width as int, row as int, c as int);
                    lemma_fundamental_div_mod_converse_mod(row as int * width as int + c as int,
                        width as int, row as int, c as int);
                }
                extracted.push(pixels[src_row * image_width + src_col]);
                c = c + 1;
            }
            proof {
                assert(row as int * width as int + width as int == (row + 1) as int
                    * width as int) by (nonlinear_arith);
            }
            row = row + 1;
        }
    } else {
        proof {
            assert(width as int * height as int == 0) by (nonlinear_arith)
                requires
                    width == 0 || height == 0,
            ;
        }
    }
    proof {
        assert(height as int * width as int == width as int * height as int) by (nonlinear_arith);
        assert(extracted@ =~= target);
    }
    extracted
}

/// Copies the `width x height` rectangle with top-left corner at row
/// `given_x`, column `given_y` of the `image_width x image_height` source
/// into the front of the buffer, in row-major order; bytes beyond
/// `width*height*4` are left untouched. Rejects (without touching a byte) a
/// buffer whose length is not a multiple of four or does not match the
/// stated image shape, and signals an out-of-range error when any requested
/// cell lies outside the source image. A rectangle that is in range never
/// overruns the buffer: its byte size is at most the validated image size.
pub fn apply_crop(data: &mut Vec<u8>, width: usize, height: usize, given_x: usize, given_y: usize,
    image_width: usize, image_height: usize) -> (r: Result<(), ImgError>)
    ensures
        r is Ok <==> old(data)@.len() % 4 == 0 && image_width * image_height * 4 == old(
            data,
        )@.len() && crop_in_range(image_width as int, image_height as int, given_x as int,
            given_y as int, width as int, height as int),
        r is Ok ==> final(data)@ == bytes_of(crop_pixels(pixels_of(old(data)@),
            image_width as int, given_x as int, given_y as int, width as int, height as int))
            + old(data)@.skip(4 * (width as int) * (height as int)),
        r is Err ==> final(data)@ == old(data)@,
        r == Err::<(), ImgError>(ImgError::InvalidInput) <==> !(old(data)@.len() % 4 == 0
            && image_width * image_height * 4 == old(data)@.len()),
        r == Err::<(), ImgError>(ImgError::OutOfRange) <==> old(data)@.len() % 4 == 0
            && image_width * image_height * 4 == old(data)@.len() && !crop_in_range(
            image_width as int, image_height as int, given_x as int, given_y as int, width as int,
            height as int),
{
    let n = data.len() / 4;
    proof {
        lemma_fundamental_div_mod(old(data)@.len() as int, 4);
    }
    // shape consistency: image_width * image_height * 4 == data.len(),
    // checked without overflowing (n == image_width * image_height).
    let shape_ok: bool = data.len() % 4 == 0 && (if image_width == 0 {
        n == 0
    } else {
        n % image_width == 0 && n / image_width == image_height
    });
    proof {
        if data@.len() % 4 == 0 {
            if image_width != 0 && n as int % (image_width as int) == 0 && n as int / (
            image_width as int) == image_height {
                lemma_fundamental_div_mod(n as int, image_width as int);
                assert(image_width * image_height == n);
            }
            if image_width != 0 && image_width * image_height == n {
                assert(image_width as int * image_height as int == image_height as int
                    * image_width as int) by (nonlinear_arith);
                lemma_fundamental_div_mod_converse_div(n as int, image_width as int,
                    image_height as int, 0);
                lemma_fundamental_div_mod_converse_mod(n as int, image_width as int,
                    image_height as int, 0);
            }
            if image_width == 0 {
                assert(image_width as int * image_height as int == 0) by (nonlinear_arith)
                    requires
                        image_width == 0,
                ;
            }
        }
        assert(shape_ok <==> old(data)@.len() % 4 == 0 && image_width * image_height * 4 == old(
            data,
        )@.len());
    }
    if !shape_ok {
        return Err(ImgError::InvalidInput);
    }
    if width != 0 && height != 0 && (given_x > image_height || height > image_height - given_x
        || given_y > image_width || width > image_width - given_y) {
        return Err(ImgError::OutOfRange);
    }
    let pixels = get_pixels(data);
    let ghost target = crop_pixels(pixels_of(old(data)@), image_width as int, given_x as int,
        given_y as int, width as int, height as int);
    let extracted = extract_subarray(&pixels, image_width, image_height, given_x, given_y, width,
        height);
    proof {
        if width != 0 && height != 0 {
            assert(width * height <= image_width * image_height) by (nonlinear_arith)
                requires
                    0 < width <= image_width,
                    0 < height <= image_height,
            ;
        } else {
            assert(width as int * height as int == 0) by (nonlinear_arith)
                requires
                    width == 0 || height == 0,
            ;
        }
    }
    let bytes = get_raw(&extracted);
    let m = bytes.len();
    proof {
        assert(bytes@.len() == 4 * (width as int) * (height as int)
            && 4 * (width as int) * (height as int) <= 4 * (image_width as int)
            * (image_height as int)) by (nonlinear_arith)
            requires
                bytes@.len() == target.len() * 4,
                target.len() == width as int * height as int,
                width as int * height as int <= image_width as int * image_height as int,
        ;
        let ghost len0 = old(data)@.len() as int;
        assert(4 * (image_width as int) * (image_height as int) == len0) by (nonlinear_arith)
            requires
                image_width as int * image_height as int * 4 == len0,
        ;
    }
    let mut i: usize = 0;
    while i < m
        invariant
            i <= m,
            m == bytes@.len(),
            m <= data@.len(),
            data@.len() == old(data)@.len(),
            forall|j: int| 0 <= j < i ==> data@[j] == bytes@[j],
            forall|j: int| i <= j < data@.len() ==> data@[j] == old(data)@[j],
        decreases m - i,
    {
        data[i] = bytes[i];
        i = i + 1;
    }
    proof {
        assert(data@ =~= bytes@ + old(data)@.skip(m as int));
    }
    Ok(())
}

} // verus!
