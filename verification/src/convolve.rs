//! Neighborhood convolution: the variable-radius box blur and the fixed 3x3
//! sharpen kernel. Both clip their window to the image bounds: the blur
//! divides by the count of neighbors actually summed, and the sharpen simply
//! takes no contribution from out-of-bounds neighbors, so edge pixels are
//! asymmetric by construction.

use crate::ImgError;
use crate::pixel::{Pixel, bytes_of, get_pixels, get_raw, pixel_chan, pixels_of};
use vstd::arithmetic::div_mod::{lemma_div_is_ordered, lemma_div_multiples_vanish,
    lemma_fundamental_div_mod, lemma_mod_division_less_than_divisor};
use vstd::prelude::*;

verus! {

/// The sum of channel `k` over `nc` pixels of row `r` starting at column
/// `c0` of a `w`-wide pixel sequence.
pub open spec fn chan_sum_row(pix: Seq<Pixel>, w: int, r: int, c0: int, nc: int, k: int) -> int
    decreases nc,
{
    if nc <= 0 {
        0
    } else {
        chan_sum_row(pix, w, r, c0, nc - 1, k) + pixel_chan(pix[r * w + c0 + (nc - 1)], k) as int
    }
}

/// The sum of channel `k` over the `nr x nc` rectangle of pixels whose
/// top-left corner is `(r0, c0)`.
pub open spec fn chan_sum_rect(pix: Seq<Pixel>, w: int, r0: int, c0: int, nr: int, nc: int,
    k: int) -> int
    decreases nr,
{
    if nr <= 0 {
        0
    } else {
        chan_sum_rect(pix, w, r0, c0, nr - 1, nc, k) + chan_sum_row(pix, w, r0 + nr - 1, c0, nc, k)
    }
}

/// A row sum of channel bytes lies between 0 and `255 * nc`.
pub proof fn lemma_row_sum_bounds(pix: Seq<Pixel>, w: int, r: int, c0: int, nc: int, k: int)
    ensures
        0 <= chan_sum_row(pix, w, r, c0, nc, k) <= 255 * (if nc <= 0 { 0 } else { nc }),
    decreases nc,
{
    if nc > 0 {
        lemma_row_sum_bounds(pix, w, r, c0, nc - 1, k);
    }
}

/// A rectangle sum of channel bytes lies between 0 and `255 * nr * nc`.
pub proof fn lemma_rect_sum_bounds(pix: Seq<Pixel>, w: int, r0: int, c0: int, nr: int, nc: int,
    k: int)
    requires
        nc >= 0,
    ensures
        0 <= chan_sum_rect(pix, w, r0, c0, nr, nc, k) <= 255 * (if nr <= 0 { 0 } else { nr })
            * nc,
    decreases nr,
{
    if nr <= 0 {
    } else {
        lemma_rect_sum_bounds(pix, w, r0, c0, nr - 1, nc, k);
        lemma_row_sum_bounds(pix, w, r0 + nr - 1, c0, nc, k);
        assert(255 * (if nr - 1 <= 0 { 0 } else { nr - 1 }) * nc + 255 * nc == 255 * nr * nc)
            by (nonlinear_arith)
            requires
                nr >= 1,
                nc >= 0,
        ;
    }
}

/// The pixel the box blur of radius `rad` writes at `(r, c)`: every channel
/// (alpha included) averaged, truncating, over the window clipped to the
/// image; the divisor is the count of in-bounds neighbors actually summed.
pub open spec fn blur_pixel(pix: Seq<Pixel>, w: int, h: int, rad: int, r: int, c: int) -> Pixel {
    let r0 = if r - rad < 0 { 0 } else { r - rad };
    let r1 = if r + rad > h - 1 { h - 1 } else { r + rad };
    let c0 = if c - rad < 0 { 0 } else { c - rad };
    let c1 = if c + rad > w - 1 { w - 1 } else { c + rad };
    let nr = r1 - r0 + 1;
    let nc = c1 - c0 + 1;
    let cnt = nr * nc;
    Pixel {
        r: (chan_sum_rect(pix, w, r0, c0, nr, nc, 0) / cnt) as u8,
        g: (chan_sum_rect(pix, w, r0, c0, nr, nc, 1) / cnt) as u8,
        b: (chan_sum_rect(pix, w, r0, c0, nr, nc, 2) / cnt) as u8,
        alpha: (chan_sum_rect(pix, w, r0, c0, nr, nc, 3) / cnt) as u8,
    }
}

/// The whole image box-blurred: pixel `p` of a `w`-wide image sits at row
/// `p / w`, column `p % w`.
pub open spec fn blur_pixels(pix: Seq<Pixel>, w: int, h: int, rad: int) -> Seq<Pixel> {
    Seq::new(pix.len(), |p: int| blur_pixel(pix, w, h, rad, p / w, p % w))
}

/// A blur of radius zero is the identity transform: the window is the pixel
/// itself and the divisor is one.
pub proof fn lemma_blur_radius_zero(pix: Seq<Pixel>, w: int, h: int)
    requires
        w >= 1,
        h >= 1,
        pix.len() == w * h,
    ensures
        blur_pixels(pix, w, h, 0) == pix,
{
    assert forall|p: int| 0 <= p < pix.len() implies blur_pixels(pix, w, h, 0)[p] == pix[p] by {
        let r = p / w;
        let c = p % w;
        lemma_fundamental_div_mod(p, w);
        lemma_mod_division_less_than_divisor(p, w);
        assert(0 <= r && r <= h - 1) by (nonlinear_arith)
            requires
                p == w * r + c,
                0 <= c && c < w,
                0 <= p && p < w * h,
                w >= 1,
        ;
        assert(r * w == w * r) by (nonlinear_arith);
        assert(r * w + c == p);
        reveal_with_fuel(chan_sum_rect, 2);
        reveal_with_fuel(chan_sum_row, 2);
        assert(chan_sum_rect(pix, w, r, c, 1, 1, 0) == pixel_chan(pix[p], 0) as int);
        assert(chan_sum_rect(pix, w, r, c, 1, 1, 1) == pixel_chan(pix[p], 1) as int);
        assert(chan_sum_rect(pix, w, r, c, 1, 1, 2) == pixel_chan(pix[p], 2) as int);
        assert(chan_sum_rect(pix, w, r, c, 1, 1, 3) == pixel_chan(pix[p], 3) as int);
        // the clipped window is the single pixel, so its count, a product of
        // two one-valued terms, is one
        assert(forall|x: int, y: int| x == 1 && y == 1 ==> #[trigger] (x * y) == 1)
            by (nonlinear_arith);
        assert(blur_pixel(pix, w, h, 0, r, c) == pix[p]);
    }
    assert(blur_pixels(pix, w, h, 0) =~= pix);
}

/// The sum of channel `k` over the given pixel rectangle, by row-major
/// walk. `k` selects the channel as `pixel_chan` does.
fn rect_sum(pixels: &Vec<Pixel>, w: usize, h: usize, r0: usize, c0: usize, nr: usize, nc: usize,
    k: u8) -> (s: u128)
    requires
        pixels@.len() == (w as int) * (h as int),
        pixels@.len() <= usize::MAX,
        r0 + nr <= h,
        c0 + nc <= w,
        (nr as int) * (nc as int) <= pixels@.len(),
    ensures
        s == chan_sum_rect(pixels@, w as int, r0 as int, c0 as int, nr as int, nc as int,
            k as int),
{
    let mut s: u128 = 0;
    let mut ir: usize = 0;
    while ir < nr
        invariant
            ir <= nr,
            pixels@.len() == (w as int) * (h as int),
            pixels@.len() <= usize::MAX,
            r0 + nr <= h,
            c0 + nc <= w,
            (nr as int) * (nc as int) <= pixels@.len(),
            s == chan_sum_rect(pixels@, w as int, r0 as int, c0 as int, ir as int, nc as int,
                k as int),
            s <= 255 * ((ir as int) * (nc as int)),
        decreases nr - ir,
    {
        let r = r0 + ir;
        let mut ic: usize = 0;
        let row_base = s;
        while ic < nc
            invariant
                ic <= nc,
                ir < nr,
                r == r0 + ir,
                pixels@.len() == (w as int) * (h as int),
                pixels@.len() <= usize::MAX,
                r0 + nr <= h,
                c0 + nc <= w,
                (nr as int) * (nc as int) <= pixels@.len(),
                row_base == chan_sum_rect(pixels@, w as int, r0 as int, c0 as int, ir as int,
                    nc as int, k as int),
                row_base <= 255 * ((ir as int) * (nc as int)),
                s == row_base + chan_sum_row(pixels@, w as int, r as int, c0 as int, ic as int,
                    k as int),
                s <= 255 * ((ir as int) * (nc as int)) + 255 * (ic as int),
            decreases nc - ic,
        {
            let c = c0 + ic;
            proof {
                assert((r as int) * (w as int) + (c as int) < (w as int) * (h as int) && (
                r as int) * (w as int) <= ((h as int) - 1) * (w as int)) by (nonlinear_arith)
                    requires
                        0 <= r as int && (r as int) < h as int,
                        0 <= c as int && (c as int) < w as int,
                ;
                assert((ir as int) * (nc as int) + (ic as int) < (nr as int) * (nc as int))
                    by (nonlinear_arith)
                    requires
                        0 <= ir as int && (ir as int) < nr as int,
                        0 <= ic as int && (ic as int) < nc as int,
                ;
            }
            let p = pixels[r * w + c];
            let v: u8 = if k == 0 {
                p.r
            } else if k == 1 {
                p.g
            } else if k == 2 {
                p.b
            } else {
                p.alpha
            };
            s = s + (v as u128);
            ic = ic + 1;
        }
        proof {
            assert(255 * ((ir as int) * (nc as int)) + 255 * (nc as int) == 255 * (((ir as int)
                + 1) * (nc as int))) by (nonlinear_arith);
        }
        ir = ir + 1;
    }
    s
}

/// Box-blurs the image in place: every channel of every pixel (alpha
/// included) becomes the truncating average of that channel over all
/// in-bounds pixels within `blur_radius` rows and columns. Rejects a zero
/// width, a buffer whose length is not a multiple of four, and a width that
/// does not divide the pixel count.
#[verifier::rlimit(100)]
#[verifier::spinoff_prover]
pub fn blur_image(data: &mut Vec<u8>, image_width: usize, blur_radius: usize) -> (res: Result<(),
    ImgError>)
    ensures
        res is Ok <==> old(data)@.len() % 4 == 0 && image_width >= 1 && (old(data)@.len() as int
            / 4) % (image_width as int) == 0,
        res is Ok ==> final(data)@ == bytes_of(blur_pixels(pixels_of(old(data)@),
            image_width as int, (old(data)@.len() as int / 4) / (image_width as int),
            blur_radius as int)),
        res is Err ==> final(data)@ == old(data)@ && res == Err::<(), ImgError>(
            ImgError::InvalidInput),
{
    if data.len() % 4 != 0 || image_width == 0 || (data.len() / 4) % image_width != 0 {
        return Err(ImgError::InvalidInput);
    }
    let pixels = get_pixels(data);
    let n = pixels.len();
    let image_height = n / image_width;
    let ghost target = blur_pixels(pixels_of(old(data)@), image_width as int,
        image_height as int, blur_radius as int);
    proof {
        lemma_fundamental_div_mod(old(data)@.len() as int, 4);
        lemma_fundamental_div_mod(n as int, image_width as int);
    }
    let w = image_width;
    let h = image_height;
    let rad = blur_radius;
    let mut out: Vec<Pixel> = Vec::new();
    let mut p: usize = 0;
    while p < n
        invariant
            p <= n,
            w >= 1,
            n == pixels@.len(),
            n == (w as int) * (h as int),
            pixels@ == pixels_of(old(data)@),
            target == blur_pixels(pixels_of(old(data)@), w as int, h as int, rad as int),
            target.len() == n,
            out@.len() == p,
            forall|j: int| 0 <= j < p ==> out@[j] == target[j],
        decreases n - p,
    {
        let row = p / w;
        let col = p % w;
        proof {
            lemma_fundamental_div_mod(p as int, w as int);
            lemma_mod_division_less_than_divisor(p as int, w as int);
            assert(0 <= row as int && (row as int) < h as int) by (nonlinear_arith)
                requires
                    p as int == (w as int) * (row as int) + (col as int),
                    0 <= col as int && (col as int) < w as int,
                    0 <= p as int && (p as int) < (w as int) * (h as int),
                    w >= 1,
                    row as int >= 0,
            ;
        }
        let r0 = if row < rad {
            0
        } else {
            row - rad
        };
        let r1 = if h - 1 - row <= rad {
            h - 1
        } else {
            row + rad
        };
        let c0 = if col < rad {
            0
        } else {
            col - rad
        };
        let c1 = if w - 1 - col <= rad {
            w - 1
        } else {
            col + rad
        };
        let nr = r1 - r0 + 1;
        let nc = c1 - c0 + 1;
        proof {
            assert((nr as int) * (nc as int) <= (h as int) * (w as int) && 1 <= (nr as int) * (
            nc as int)) by (nonlinear_arith)
                requires
                    1 <= nr as int && (nr as int) <= h as int,
                    1 <= nc as int && (nc as int) <= w as int,
            ;
            assert((h as int) * (w as int) == (w as int) * (h as int)) by (nonlinear_arith);
        }
        let cnt: u128 = (nr as u128) * (nc as u128);
        let sr = rect_sum(&pixels, w, h, r0, c0, nr, nc, 0);
        let sg = rect_sum(&pixels, w, h, r0, c0, nr, nc, 1);
        let sb = rect_sum(&pixels, w, h, r0, c0, nr, nc, 2);
        let sa = rect_sum(&pixels, w, h, r0, c0, nr, nc, 3);
        proof {
            lemma_rect_sum_bounds(pixels@, w as int, r0 as int, c0 as int, nr as int, nc as int,
                0);
            lemma_rect_sum_bounds(pixels@, w as int, r0 as int, c0 as int, nr as int, nc as int,
                1);
            lemma_rect_sum_bounds(pixels@, w as int, r0 as int, c0 as int, nr as int, nc as int,
                2);
            lemma_rect_sum_bounds(pixels@, w as int, r0 as int, c0 as int, nr as int, nc as int,
                3);
            assert(255 * (nr as int) * (nc as int) == 255 * ((nr as int) * (nc as int)))
                by (nonlinear_arith);
            lemma_div_bound_255(sr as int, cnt as int);
            lemma_div_bound_255(sg as int, cnt as int);
            lemma_div_bound_255(sb as int, cnt as int);
            lemma_div_bound_255(sa as int, cnt as int);
        }
        out.push(Pixel {
            r: (sr / cnt) as u8,
            g: (sg / cnt) as u8,
            b: (sb / cnt) as u8,
            alpha: (sa / cnt) as u8,
        });
        p = p + 1;
    }
    proof {
        assert(out@ =~= target);
    }
    let bytes = get_raw(&out);
    *data = bytes;
    Ok(())
}

/// Division of a sum of at most `255 * cnt` by `cnt` stays within the
/// channel range.
proof fn lemma_div_bound_255(s: int, cnt: int)
    requires
        cnt >= 1,
        0 <= s <= 255 * cnt,
    ensures
        0 <= s / cnt <= 255,
{
    lemma_div_is_ordered(s, 255 * cnt, cnt);
    lemma_div_multiples_vanish(255, cnt);
    assert(cnt * 255 == 255 * cnt) by (nonlinear_arith);
}

/// The pixel the sharpen kernel writes at `(r, c)`: the weighted 3x3 sum
/// (center 5, in-bounds neighbors -1, which equals six times the center
/// minus the clipped window sum) scaled by the rational `num / den`,
/// truncated toward zero and clamped to `[0, 255]`; alpha is copied from
/// the source pixel.
pub open spec fn sharp_pixel(pix: Seq<Pixel>, w: int, h: int, num: int, den: int, r: int,
    c: int) -> Pixel {
    Pixel {
        r: sharp_chan(pix, w, h, num, den, r, c, 0) as u8,
        g: sharp_chan(pix, w, h, num, den, r, c, 1) as u8,
        b: sharp_chan(pix, w, h, num, den, r, c, 2) as u8,
        alpha: pixel_chan(pix[r * w + c], 3),
    }
}

pub open spec fn sharp_chan(pix: Seq<Pixel>, w: int, h: int, num: int, den: int, r: int, c: int,
    k: int) -> int {
    let r0 = if r - 1 < 0 { 0 } else { r - 1 };
    let r1 = if r + 1 > h - 1 { h - 1 } else { r + 1 };
    let c0 = if c - 1 < 0 { 0 } else { c - 1 };
    let c1 = if c + 1 > w - 1 { w - 1 } else { c + 1 };
    let s = 6 * (pixel_chan(pix[r * w + c], k) as int) - chan_sum_rect(pix, w, r0, c0, r1 - r0
        + 1, c1 - c0 + 1, k);
    let t = s * num;
    if t <= 0 {
        0
    } else if t / den >= 255 {
        255
    } else {
        t / den
    }
}

/// The whole image sharpened with strength `num / den`.
pub open spec fn sharp_pixels(pix: Seq<Pixel>, w: int, h: int, num: int, den: int) -> Seq<Pixel> {
    Seq::new(pix.len(), |p: int| sharp_pixel(pix, w, h, num, den, p / w, p % w))
}

/// One sharpened pixel at `(row, col)`: clips the 3x3 window, sums the
/// channels, and applies the kernel and the rational strength.
#[verifier::rlimit(100)]
#[verifier::spinoff_prover]
fn sharp_pixel_at(pixels: &Vec<Pixel>, w: usize, h: usize, num: u32, den: u32, row: usize,
    col: usize) -> (px: Pixel)
    requires
        pixels@.len() == (w as int) * (h as int),
        pixels@.len() <= usize::MAX,
        row < h,
        col < w,
        w >= 1,
        den >= 1,
    ensures
        px == sharp_pixel(pixels@, w as int, h as int, num as int, den as int, row as int,
            col as int),
{
    let r0 = if row < 1 {
        0
    } else {
        row - 1
    };
    let r1 = if h - 1 - row <= 1 {
        h - 1
    } else {
        row + 1
    };
    let c0 = if col < 1 {
        0
    } else {
        col - 1
    };
    let c1 = if w - 1 - col <= 1 {
        w - 1
    } else {
        col + 1
    };
    let nr = r1 - r0 + 1;
    let nc = c1 - c0 + 1;
    proof {
        assert((nr as int) * (nc as int) <= (h as int) * (w as int) && (nr as int) * (
        nc as int) <= 9 && 1 <= (nr as int) * (nc as int)) by (nonlinear_arith)
            requires
                1 <= nr as int && (nr as int) <= h as int && nr <= 3,
                1 <= nc as int && (nc as int) <= w as int && nc <= 3,
        ;
        assert((h as int) * (w as int) == (w as int) * (h as int)) by (nonlinear_arith);
        assert((row as int) * (w as int) + (col as int) < (w as int) * (h as int))
            by (nonlinear_arith)
            requires
                0 <= row as int && (row as int) < h as int,
                0 <= col as int && (col as int) < w as int,
        ;
    }
    let sr = rect_sum(&pixels, w, h, r0, c0, nr, nc, 0);
    let sg = rect_sum(&pixels, w, h, r0, c0, nr, nc, 1);
    let sb = rect_sum(&pixels, w, h, r0, c0, nr, nc, 2);
    proof {
        lemma_rect_sum_bounds(pixels@, w as int, r0 as int, c0 as int, nr as int, nc as int,
            0);
        lemma_rect_sum_bounds(pixels@, w as int, r0 as int, c0 as int, nr as int, nc as int,
            1);
        lemma_rect_sum_bounds(pixels@, w as int, r0 as int, c0 as int, nr as int, nc as int,
            2);
        assert(255 * (nr as int) * (nc as int) <= 2295 && 255 * (nr as int) * (nc as int)
            == 255 * ((nr as int) * (nc as int))) by (nonlinear_arith)
            requires
                1 <= (nr as int) * (nc as int) <= 9,
        ;
    }
    let center = pixels[row * w + col];
    let fr = sharp_channel(center.r, sr as i64, num, den);
    let fg = sharp_channel(center.g, sg as i64, num, den);
    let fb = sharp_channel(center.b, sb as i64, num, den);
    let px = Pixel { r: fr, g: fg, b: fb, alpha: center.alpha };
    px
}

/// Sharpens the image in place with the 3x3 kernel (center weight 5, every
/// in-bounds neighbor -1); each R, G, B result is scaled by the rational
/// strength `amount_num / amount_den`, truncated toward zero and clamped to
/// `[0, 255]`, and alpha is copied unchanged. Rejects a zero width or
/// denominator, a buffer whose length is not a multiple of four, and a
/// width that does not divide the pixel count.
#[verifier::rlimit(100)]
#[verifier::spinoff_prover]
pub fn sharpen_image(data: &mut Vec<u8>, image_width: usize, amount_num: u32, amount_den: u32)
    -> (res: Result<(), ImgError>)
    ensures
        res is Ok <==> old(data)@.len() % 4 == 0 && image_width >= 1 && (old(data)@.len() as int
            / 4) % (image_width as int) == 0 && amount_den >= 1,
        res is Ok ==> final(data)@ == bytes_of(sharp_pixels(pixels_of(old(data)@),
            image_width as int, (old(data)@.len() as int / 4) / (image_width as int),
            amount_num as int, amount_den as int)),
        res is Err ==> final(data)@ == old(data)@ && res == Err::<(), ImgError>(
            ImgError::InvalidInput),
{
    if data.len() % 4 != 0 || image_width == 0 || (data.len() / 4) % image_width != 0
        || amount_den == 0 {
        return Err(ImgError::InvalidInput);
    }
    let pixels = get_pixels(data);
    let n = pixels.len();
    let image_height = n / image_width;
    let ghost target = sharp_pixels(pixels_of(old(data)@), image_width as int,
        image_height as int, amount_num as int, amount_den as int);
    proof {
        lemma_fundamental_div_mod(old(data)@.len() as int, 4);
        lemma_fundamental_div_mod(n as int, image_width as int);
    }
    let w = image_width;
    let h = image_height;
    let mut out: Vec<Pixel> = Vec::new();
    let mut p: usize = 0;
    while p < n
        invariant
            p <= n,
            w >= 1,
            amount_den >= 1,
            n == pixels@.len(),
            n == (w as int) * (h as int),
            pixels@ == pixels_of(old(data)@),
            target == sharp_pixels(pixels_of(old(data)@), w as int, h as int, amount_num as int,
                amount_den as int),
            target.len() == n,
            out@.len() == p,
            forall|j: int| 0 <= j < p ==> out@[j] == target[j],
        decreases n - p,
    {
        let row = p / w;
        let col = p % w;
        proof {
            lemma_fundamental_div_mod(p as int, w as int);
            lemma_mod_division_less_than_divisor(p as int, w as int);
            assert(0 <= row as int && (row as int) < h as int) by (nonlinear_arith)
                requires
                    p as int == (w as int) * (row as int) + (col as int),
                    0 <= col as int && (col as int) < w as int,
                    0 <= p as int && (p as int) < (w as int) * (h as int),
                    w >= 1,
                    row as int >= 0,
            ;
        }
        let r0 = if row < 1 {
            0
        } else {
            row - 1
        };
        let r1 = if h - 1 - row <= 1 {
            h - 1
        } else {
            row + 1
        };
        let c0 = if col < 1 {
            0
        } else {
            col - 1
        };
        let c1 = if w - 1 - col <= 1 {
            w - 1
        } else {
            col + 1
        };
        let nr = r1 - r0 + 1;
        let nc = c1 - c0 + 1;
        proof {
            assert((nr as int) * (nc as int) <= (h as int) * (w as int) && (nr as int) * (
            nc as int) <= 9 && 1 <= (nr as int) * (nc as int)) by (nonlinear_arith)
                requires
                    1 <= nr as int && (nr as int) <= h as int && nr <= 3,
                    1 <= nc as int && (nc as int) <= w as int && nc <= 3,
            ;
            assert((h as int) * (w as int) == (w as int) * (h as int)) by (nonlinear_arith);
            assert((row as int) * (w as int) + (col as int) < (w as int) * (h as int))
                by (nonlinear_arith)
                requires
                    0 <= row as int && (row as int) < h as int,
                    0 <= col as int && (col as int) < w as int,
            ;
        }
        let sr = rect_sum(&pixels, w, h, r0, c0, nr, nc, 0);
        let sg = rect_sum(&pixels, w, h, r0, c0, nr, nc, 1);
        let sb = rect_sum(&pixels, w, h, r0, c0, nr, nc, 2);
        proof {
            lemma_rect_sum_bounds(pixels@, w as int, r0 as int, c0 as int, nr as int, nc as int,
                0);
            lemma_rect_sum_bounds(pixels@, w as int, r0 as int, c0 as int, nr as int, nc as int,
                1);
            lemma_rect_sum_bounds(pixels@, w as int, r0 as int, c0 as int, nr as int, nc as int,
                2);
            assert(255 * (nr as int) * (nc as int) <= 2295 && 255 * (nr as int) * (nc as int)
                == 255 * ((nr as int) * (nc as int))) by (nonlinear_arith)
                requires
                    1 <= (nr as int) * (nc as int) <= 9,
            ;
        }
        let center = pixels[row * w + col];
        let fr = sharp_channel(center.r, sr as i64, amount_num, amount_den);
        let fg = sharp_channel(center.g, sg as i64, amount_num, amount_den);
        let fb = sharp_channel(center.b, sb as i64, amount_num, amount_den);
        out.push(Pixel { r: fr, g: fg, b: fb, alpha: center.alpha });
        p = p + 1;
    }
    proof {
        assert(out@ =~= target);
    }
    let bytes = get_raw(&out);
    *data = bytes;
    Ok(())
}

/// One sharpened channel from the center value and the clipped window sum:
/// `clamp(trunc((6*center - window) * num / den), 0, 255)`.
fn sharp_channel(center: u8, window: i64, num: u32, den: u32) -> (r: u8)
    requires
        den >= 1,
        0 <= window <= 2295,
    ensures
        ({
            let s = 6 * (center as int) - window;
            let t = s * (num as int);
            r as int == if t <= 0 {
                0
            } else if t / (den as int) >= 255 {
                255
            } else {
                t / (den as int)
            }
        }),
{
    let s: i64 = 6 * (center as i64) - window;
    proof {
        assert(-2295 * 0x1_0000_0000 <= (s as int) * (num as int) && (s as int) * (num as int)
            <= 1530 * 0x1_0000_0000) by (nonlinear_arith)
            requires
                -2295 <= s as int && (s as int) <= 1530,
                0 <= num as int && (num as int) < 0x1_0000_0000,
        ;
    }
    let t: i64 = s * (num as i64);
    if t <= 0 {
        0
    } else {
        let q = (t as u64) / (den as u64);
        if q >= 255 {
            255
        } else {
            q as u8
        }
    }
}

} // verus!
