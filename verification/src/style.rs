//! Stylistic composites: vintage tint, color-pop saturation boost, and the
//! radial vignette. The vignette factor `max(1 - d/D, 1/5)` involves the
//! Euclidean distances `d` (pixel to image center) and `D` (center to
//! corner); all arithmetic here is exact over the squared distances, so the
//! truncated channel values equal the real-valued formula exactly.

use crate::ImgError;
use crate::pixel::{Pixel, bytes_of, get_pixels, get_raw, pixels_of};
use vstd::arithmetic::div_mod::{lemma_fundamental_div_mod, lemma_fundamental_div_mod_converse_div,
    lemma_fundamental_div_mod_converse_mod};
use vstd::prelude::*;

verus! {

/// One vintage channel: red shrinks to 9/10, green to 3/4, blue to 1/2,
/// each truncated to an integer.
pub open spec fn vintage_pixel(p: Pixel) -> Pixel {
    Pixel {
        r: ((p.r as int * 9) / 10) as u8,
        g: ((p.g as int * 3) / 4) as u8,
        b: ((p.b as int) / 2) as u8,
        alpha: p.alpha,
    }
}

pub open spec fn vintage_pixels(s: Seq<Pixel>) -> Seq<Pixel> {
    Seq::new(s.len(), |i: int| vintage_pixel(s[i]))
}

/// One color-pop channel: the value scaled by 6/5, truncated to an integer
/// and clamped to 255.
pub open spec fn pop_chan(v: int) -> int {
    if (v * 6) / 5 > 255 {
        255
    } else {
        (v * 6) / 5
    }
}

pub open spec fn pop_pixel(p: Pixel) -> Pixel {
    Pixel {
        r: pop_chan(p.r as int) as u8,
        g: pop_chan(p.g as int) as u8,
        b: pop_chan(p.b as int) as u8,
        alpha: p.alpha,
    }
}

pub open spec fn pop_pixels(s: Seq<Pixel>) -> Seq<Pixel> {
    Seq::new(s.len(), |i: int| pop_pixel(s[i]))
}

/// Four times the squared distance of pixel `(x, y)` from the image center
/// `(w/2, h/2)`: `(2x-w)^2 + (2y-h)^2`.
pub open spec fn vig_a(x: int, y: int, w: int, h: int) -> int {
    (2 * x - w) * (2 * x - w) + (2 * y - h) * (2 * y - h)
}

/// Four times the squared distance of the image corner from the center:
/// `w^2 + h^2`.
pub open spec fn vig_b(w: int, h: int) -> int {
    w * w + h * h
}

/// Whether `k` is still below the scaled distance: `k^2 * b < v^2 * a`.
pub open spec fn sq_below(k: int, v: int, a: int, b: int) -> bool {
    k * k * b < v * v * a
}

/// The least `m` at or above `lo` (capped at `v`) with `m^2 * b >= v^2 * a`;
/// this is the ceiling of `v * sqrt(a/b)`, the amount the vignette subtracts
/// from a channel of value `v`.
pub open spec fn vig_m_from(v: int, a: int, b: int, m: int) -> int
    decreases v - m when 0 <= m <= v
{
    if m >= v || !sq_below(m, v, a, b) {
        m
    } else {
        vig_m_from(v, a, b, m + 1)
    }
}

pub open spec fn vig_m(v: int, a: int, b: int) -> int {
    vig_m_from(v, a, b, 0)
}

/// One vignette channel: `trunc(v * factor)` with
/// `factor = max(1 - sqrt(a)/sqrt(b), 1/5)`. When the distance ratio reaches
/// 4/5 (that is, `16b <= 25a`) the floor 1/5 applies; otherwise the exact
/// truncation is `v` minus the ceiling of `v * sqrt(a/b)`.
pub open spec fn vig_chan(v: int, a: int, b: int) -> int {
    if 16 * b <= 25 * a {
        v / 5
    } else {
        v - vig_m(v, a, b)
    }
}

pub open spec fn vig_pixel(p: Pixel, a: int, b: int) -> Pixel {
    Pixel {
        r: vig_chan(p.r as int, a, b) as u8,
        g: vig_chan(p.g as int, a, b) as u8,
        b: vig_chan(p.b as int, a, b) as u8,
        alpha: p.alpha,
    }
}

/// The vignette over a `w`-wide, `h`-high pixel sequence: pixel `i` sits at
/// column `i % w`, row `i / w`.
pub open spec fn vignette_pixels(s: Seq<Pixel>, w: int, h: int) -> Seq<Pixel> {
    Seq::new(s.len(), |i: int| vig_pixel(s[i], vig_a(i % w, i / w, w, h), vig_b(w, h)))
}

/// `vig_m_from` lands on the least admissible `m`: it is at most `v`, its
/// square clears `v^2 * a / b`, and every smaller candidate from `lo` up
/// falls short.
proof fn lemma_vig_m_from_props(v: int, a: int, b: int, lo: int)
    requires
        0 <= lo <= v,
        0 <= a <= b,
    ensures
        lo <= vig_m_from(v, a, b, lo) <= v,
        !sq_below(vig_m_from(v, a, b, lo), v, a, b),
        forall|k: int| lo <= k < vig_m_from(v, a, b, lo) ==> sq_below(k, v, a, b),
    decreases v - lo,
{
    if lo >= v {
        assert(v * v * b >= v * v * a) by (nonlinear_arith)
            requires
                0 <= a <= b,
                v >= 0,
        ;
    } else if !sq_below(lo, v, a, b) {
    } else {
        lemma_vig_m_from_props(v, a, b, lo + 1);
    }
}

/// The vignette never takes a channel below a fifth of its value (the
/// factor floor 0.2), never raises it, and leaves the exact center pixel
/// (squared distance zero) unchanged.
pub proof fn lemma_vig_chan_bounds(v: int, a: int, b: int)
    requires
        0 <= v <= 255,
        0 <= a <= b,
        b >= 1,
    ensures
        v / 5 <= vig_chan(v, a, b) <= v,
        a == 0 ==> vig_chan(v, a, b) == v,
{
    lemma_vig_m_from_props(v, a, b, 0);
    let m = vig_m(v, a, b);
    if 16 * b <= 25 * a {
        assert(v / 5 <= v);
    } else {
        // m <= v - v/5: the candidate u = v - v/5 already clears the bound,
        // so the least admissible m cannot exceed it.
        let u = v - v / 5;
        assert(5 * (v / 5) <= v && v / 5 >= 0);
        assert(5 * u >= 4 * v);
        assert(u * u * 25 >= v * v * 16) by (nonlinear_arith)
            requires
                5 * u >= 4 * v,
                u >= 0,
                v >= 0,
        ;
        assert(u * u * b * 25 >= v * v * a * 25) by (nonlinear_arith)
            requires
                u * u * 25 >= v * v * 16,
                25 * a <= 16 * b,
                b >= 0,
                v * v >= 0,
                u * u >= 0,
        ;
        assert(!sq_below(u, v, a, b)) by (nonlinear_arith)
            requires
                u * u * b * 25 >= v * v * a * 25,
        ;
        if m > u {
            assert(sq_below(u, v, a, b));
        }
        assert(m <= u);
        if a == 0 {
            assert(!sq_below(0, v, a, b)) by (nonlinear_arith)
                requires
                    a == 0,
            ;
            assert(m == 0);
        }
    }
}

/// The vignette law over a whole image: every R, G and B channel of the
/// output pixel keeps at least a fifth of its value (truncating) and never
/// grows, alpha is untouched, and a pixel sitting exactly on the image
/// center is unchanged.
pub proof fn lemma_vignette_floor(s: Seq<Pixel>, w: int, h: int, i: int)
    requires
        w >= 1,
        h >= 1,
        s.len() == w * h,
        0 <= i < s.len(),
    ensures
        ({
            let p0 = s[i];
            let p1 = vignette_pixels(s, w, h)[i];
            &&& (p0.r as int) / 5 <= p1.r as int <= p0.r as int
            &&& (p0.g as int) / 5 <= p1.g as int <= p0.g as int
            &&& (p0.b as int) / 5 <= p1.b as int <= p0.b as int
            &&& p1.alpha == p0.alpha
            &&& vig_a(i % w, i / w, w, h) == 0 ==> p1 == p0
        }),
{
    let x = i % w;
    let y = i / w;
    lemma_fundamental_div_mod(i, w);
    vstd::arithmetic::div_mod::lemma_mod_division_less_than_divisor(i, w);
    assert(0 <= y && y < h) by (nonlinear_arith)
        requires
            i == w * y + x,
            0 <= x && x < w,
            0 <= i && i < w * h,
            w >= 1,
    ;
    let a = vig_a(x, y, w, h);
    let b = vig_b(w, h);
    assert(0 <= a && a <= b && 1 <= b) by (nonlinear_arith)
        requires
            0 <= x && x < w,
            0 <= y && y < h,
            a == (2 * x - w) * (2 * x - w) + (2 * y - h) * (2 * y - h),
            b == w * w + h * h,
            w >= 1,
            h >= 1,
    ;
    lemma_vig_chan_bounds(s[i].r as int, a, b);
    lemma_vig_chan_bounds(s[i].g as int, a, b);
    lemma_vig_chan_bounds(s[i].b as int, a, b);
}

/// Exact comparison `a * x <= b * y` for small `a`, `b` and up-to-126-bit
/// `x`, `y`: each product is formed as a 192-bit value split at 2^64, and
/// the two splits are compared lexicographically.
fn mul_le(a: u64, x: u128, b: u64, y: u128) -> (r: bool)
    requires
        a <= 0x20000,
        b <= 0x20000,
        x < 0x4000_0000_0000_0000_0000_0000_0000_0000,
        y < 0x4000_0000_0000_0000_0000_0000_0000_0000,
    ensures
        r <==> (a as int) * (x as int) <= (b as int) * (y as int),
{
    let t: u128 = 0x1_0000_0000_0000_0000;
    let xh = x / t;
    let xl = x % t;
    let yh = y / t;
    let yl = y % t;
    proof {
        lemma_fundamental_div_mod(x as int, t as int);
        lemma_fundamental_div_mod(y as int, t as int);
        assert(xh < 0x4000_0000_0000_0000 && yh < 0x4000_0000_0000_0000);
        assert((a as int) * (xl as int) < 0x20000 * 0x1_0000_0000_0000_0000) by (nonlinear_arith)
            requires
                a <= 0x20000,
                0 <= (xl as int) < 0x1_0000_0000_0000_0000,
        ;
        assert((b as int) * (yl as int) < 0x20000 * 0x1_0000_0000_0000_0000) by (nonlinear_arith)
            requires
                b <= 0x20000,
                0 <= (yl as int) < 0x1_0000_0000_0000_0000,
        ;
        assert((a as int) * (xh as int) <= 0x20000 * 0x4000_0000_0000_0000) by (nonlinear_arith)
            requires
                a <= 0x20000,
                0 <= (xh as int) < 0x4000_0000_0000_0000,
        ;
        assert((b as int) * (yh as int) <= 0x20000 * 0x4000_0000_0000_0000) by (nonlinear_arith)
            requires
                b <= 0x20000,
                0 <= (yh as int) < 0x4000_0000_0000_0000,
        ;
    }
    let axl = (a as u128) * xl;
    let byl = (b as u128) * yl;
    let ah = (a as u128) * xh + axl / t;
    let al = axl % t;
    let bh = (b as u128) * yh + byl / t;
    let bl = byl % t;
    proof {
        lemma_fundamental_div_mod(axl as int, t as int);
        lemma_fundamental_div_mod(byl as int, t as int);
        lemma_split_scaled(a as int, x as int);
        lemma_split_scaled(b as int, y as int);
        assert((a as int) * (x as int) == (ah as int) * 0x1_0000_0000_0000_0000 + al as int);
        assert((b as int) * (y as int) == (bh as int) * 0x1_0000_0000_0000_0000 + bl as int);
    }
    if ah < bh {
        true
    } else if ah == bh {
        al <= bl
    } else {
        false
    }
}

/// The split of `a * x` at 2^64 used by `mul_le`: scaling the two halves of
/// `x` by `a` and carrying the low overflow reproduces `a * x` exactly.
proof fn lemma_split_scaled(a: int, x: int)
    requires
        a >= 0,
        x >= 0,
    ensures
        a * x == (a * (x / 0x1_0000_0000_0000_0000) + (a * (x % 0x1_0000_0000_0000_0000))
            / 0x1_0000_0000_0000_0000) * 0x1_0000_0000_0000_0000 + (a * (x
            % 0x1_0000_0000_0000_0000)) % 0x1_0000_0000_0000_0000,
{
    let t: int = 0x1_0000_0000_0000_0000;
    let q = x / t;
    let rr = x % t;
    lemma_fundamental_div_mod(x, t);
    assert(a * x == (a * q) * t + a * rr) by (nonlinear_arith)
        requires
            x == t * q + rr,
    ;
    let p = a * rr;
    lemma_fundamental_div_mod(p, t);
    assert((a * q) * t + p == (a * q + p / t) * t + p % t) by (nonlinear_arith)
        requires
            p == t * (p / t) + p % t,
    ;
}

/// One vignette channel, computed exactly: either the 1/5 floor, or `v`
/// minus the least `m` whose square clears `v^2 * a / b`, found by search
/// (at most 256 candidates).
fn vig_channel(v: u8, a: u128, b: u128) -> (r: u8)
    requires
        a <= b,
        1 <= b < 0x4000_0000_0000_0000_0000_0000_0000_0000,
    ensures
        r as int == vig_chan(v as int, a as int, b as int),
{
    if mul_le(16, b, 25, a) {
        v / 5
    } else {
        proof {
            assert((v as int) * (v as int) <= 0x20000) by (nonlinear_arith)
                requires
                    v <= 255,
            ;
        }
        let vv: u64 = (v as u64) * (v as u64);
        let mut m: u64 = 0;
        let mut done = mul_le(vv, a, 0, b);
        proof {
            if !done {
                assert(v > 0) by (nonlinear_arith)
                    requires
                        (vv as int) * (a as int) > 0 * (b as int),
                        vv == (v as int) * (v as int),
                ;
            }
        }
        while !done
            invariant
                0 <= m <= v,
                vv == (v as int) * (v as int),
                a <= b,
                1 <= b < 0x4000_0000_0000_0000_0000_0000_0000_0000,
                done <==> (vv as int) * (a as int) <= ((m * m) as int) * (b as int),
                !done ==> m < v,
                forall|k: int| 0 <= k < m ==> sq_below(k, v as int, a as int, b as int),
            decreases v - m,
        {
            proof {
                assert(sq_below(m as int, v as int, a as int, b as int)) by (nonlinear_arith)
                    requires
                        (vv as int) * (a as int) > ((m * m) as int) * (b as int),
                        vv == (v as int) * (v as int),
                        (m * m) as int == (m as int) * (m as int),
                ;
            }
            m = m + 1;
            proof {
                assert((m as int) * (m as int) <= 0x20000) by (nonlinear_arith)
                    requires
                        m <= 255,
                ;
                assert((v as int) * (v as int) <= 0x20000) by (nonlinear_arith)
                    requires
                        v <= 255,
                ;
            }
            done = mul_le(vv, a, m * m, b);
            proof {
                if !done && m == v {
                    assert((vv as int) * (a as int) <= ((m * m) as int) * (b as int))
                        by (nonlinear_arith)
                        requires
                            a <= b,
                            vv == (m * m) as int,
                            (vv as int) >= 0,
                    ;
                }
            }
        }
        proof {
            lemma_vig_m_from_props(v as int, a as int, b as int, 0);
            let ms = vig_m(v as int, a as int, b as int);
            assert(!sq_below(m as int, v as int, a as int, b as int)) by (nonlinear_arith)
                requires
                    (vv as int) * (a as int) <= ((m * m) as int) * (b as int),
                    vv == (v as int) * (v as int),
                    (m * m) as int == (m as int) * (m as int),
            ;
            if (m as int) < ms {
                assert(sq_below(m as int, v as int, a as int, b as int));
            }
            if ms < m as int {
                assert(sq_below(ms, v as int, a as int, b as int));
                assert(!sq_below(ms, v as int, a as int, b as int));
            }
            assert(m as int == ms);
        }
        v - (m as u8)
    }
}

/// Applies the vintage tint to every pixel: R scaled to 9/10, G to 3/4, B
/// to 1/2, truncating; alpha untouched.
fn vintage(pixels: &mut Vec<Pixel>)
    ensures
        final(pixels)@ == vintage_pixels(old(pixels)@),
{
    let n = pixels.len();
    let mut i: usize = 0;
    while i < n
        invariant
            i <= n,
            n == pixels@.len(),
            pixels@.len() == old(pixels)@.len(),
            forall|j: int| 0 <= j < i ==> pixels@[j] == vintage_pixels(old(pixels)@)[j],
            forall|j: int| i <= j < n ==> pixels@[j] == old(pixels)@[j],
        decreases n - i,
    {
        let p = pixels[i];
        let r = ((p.r as u32 * 9) / 10) as u8;
        let g = ((p.g as u32 * 3) / 4) as u8;
        let b = (p.b / 2) as u8;
        pixels[i] = Pixel { r, g, b, alpha: p.alpha };
        i = i + 1;
    }
    proof {
        assert(pixels@ =~= vintage_pixels(old(pixels)@));
    }
}

/// Applies the color pop to every pixel: R, G, B scaled by 6/5, truncated
/// and clamped to 255; alpha untouched.
fn color_pop(pixels: &mut Vec<Pixel>)
    ensures
        final(pixels)@ == pop_pixels(old(pixels)@),
{
    let n = pixels.len();
    let mut i: usize = 0;
    while i < n
        invariant
            i <= n,
            n == pixels@.len(),
            pixels@.len() == old(pixels)@.len(),
            forall|j: int| 0 <= j < i ==> pixels@[j] == pop_pixels(old(pixels)@)[j],
            forall|j: int| i <= j < n ==> pixels@[j] == old(pixels)@[j],
        decreases n - i,
    {
        let p = pixels[i];
        let r0 = (p.r as u32 * 6) / 5;
        let g0 = (p.g as u32 * 6) / 5;
        let b0 = (p.b as u32 * 6) / 5;
        let r = if r0 > 255 { 255 } else { r0 as u8 };
        let g = if g0 > 255 { 255 } else { g0 as u8 };
        let b = if b0 > 255 { 255 } else { b0 as u8 };
        pixels[i] = Pixel { r, g, b, alpha: p.alpha };
        i = i + 1;
    }
    proof {
        assert(pixels@ =~= pop_pixels(old(pixels)@));
    }
}

/// Applies the vintage tint to the whole buffer. Rejects a buffer whose
/// length is not a multiple of four.
pub fn apply_vintage(data: &mut Vec<u8>) -> (r: Result<(), ImgError>)
    ensures
        r is Ok <==> old(data)@.len() % 4 == 0,
        r is Ok ==> final(data)@ == bytes_of(vintage_pixels(pixels_of(old(data)@))),
        r is Err ==> final(data)@ == old(data)@ && r == Err::<(), ImgError>(
            ImgError::InvalidInput),
{
    if data.len() % 4 != 0 {
        return Err(ImgError::InvalidInput);
    }
    let mut pixels = get_pixels(data);
    vintage(&mut pixels);
    let bytes = get_raw(&pixels);
    proof {
        lemma_fundamental_div_mod(old(data)@.len() as int, 4);
    }
    *data = bytes;
    Ok(())
}

/// Applies the color pop to the whole buffer. Rejects a buffer whose length
/// is not a multiple of four.
pub fn apply_color_pop(data: &mut Vec<u8>) -> (r: Result<(), ImgError>)
    ensures
        r is Ok <==> old(data)@.len() % 4 == 0,
        r is Ok ==> final(data)@ == bytes_of(pop_pixels(pixels_of(old(data)@))),
        r is Err ==> final(data)@ == old(data)@ && r == Err::<(), ImgError>(
            ImgError::InvalidInput),
{
    if data.len() % 4 != 0 {
        return Err(ImgError::InvalidInput);
    }
    let mut pixels = get_pixels(data);
    color_pop(&mut pixels);
    let bytes = get_raw(&pixels);
    *data = bytes;
    Ok(())
}

/// Darkens every pixel radially toward the image edge: each R, G, B channel
/// is scaled by `max(1 - d/D, 0.2)` (distance to center over center-corner
/// distance) and truncated, exactly as in real arithmetic; alpha untouched.
/// The floor 0.2 means no channel drops below a fifth of its value, and the
/// exact center pixel keeps its value. Rejects a buffer whose length is not
/// a multiple of four or does not equal `width * height * 4`.
pub fn apply_vignette(data: &mut Vec<u8>, width: usize, height: usize) -> (r: Result<(),
    ImgError>)
    ensures
        r is Ok <==> old(data)@.len() % 4 == 0 && width * height * 4 == old(data)@.len(),
        r is Ok ==> final(data)@ == bytes_of(vignette_pixels(pixels_of(old(data)@), width as int,
            height as int)),
        r is Err ==> final(data)@ == old(data)@ && r == Err::<(), ImgError>(
            ImgError::InvalidInput),
{
    let n = data.len() / 4;
    proof {
        lemma_fundamental_div_mod(old(data)@.len() as int, 4);
    }
    let shape_ok: bool = data.len() % 4 == 0 && (if width == 0 {
        n == 0
    } else {
        n % width == 0 && n / width == height
    });
    proof {
        if data@.len() % 4 == 0 {
            if width != 0 && n as int % (width as int) == 0 && n as int / (width as int)
                == height {
                lemma_fundamental_div_mod(n as int, width as int);
            }
            if width != 0 && width * height == n {
                assert(width as int * height as int == height as int * width as int)
                    by (nonlinear_arith);
                lemma_fundamental_div_mod_converse_div(n as int, width as int, height as int, 0);
                lemma_fundamental_div_mod_converse_mod(n as int, width as int, height as int, 0);
            }
            if width == 0 {
                assert(width as int * height as int == 0) by (nonlinear_arith)
                    requires
                        width == 0,
                ;
            }
        }
        assert(shape_ok <==> old(data)@.len() % 4 == 0 && width * height * 4 == old(data)@.len());
    }
    if !shape_ok {
        return Err(ImgError::InvalidInput);
    }
    let mut pixels = get_pixels(data);
    let ghost target = vignette_pixels(pixels_of(old(data)@), width as int, height as int);
    if pixels.len() > 0 {
        proof {
            assert(width >= 1 && height >= 1) by (nonlinear_arith)
                requires
                    width as int * height as int == n,
                    n >= 1,
                    width >= 0,
                    height >= 0,
            ;
            assert(width as int <= n && height as int <= n) by (nonlinear_arith)
                requires
                    width as int * height as int == n,
                    width >= 1,
                    height >= 1,
            ;
            assert(1 <= (width as int) * (width as int)
                <= 0x1000_0000_0000_0000_0000_0000_0000_0000 && (height as int) * (height as int)
                <= 0x1000_0000_0000_0000_0000_0000_0000_0000) by (nonlinear_arith)
                requires
                    1 <= width as int <= 0x4000_0000_0000_0000,
                    1 <= height as int <= 0x4000_0000_0000_0000,
            ;
        }
        let wq: u128 = width as u128;
        let hq: u128 = height as u128;
        let b: u128 = wq * wq + hq * hq;
        let mut i: usize = 0;
        while i < pixels.len()
            invariant
                i <= pixels@.len(),
                1 <= width,
                1 <= height,
                pixels@.len() == old(data)@.len() / 4,
                width as int * height as int == pixels@.len(),
                width as int <= 0x4000_0000_0000_0000,
                height as int <= 0x4000_0000_0000_0000,
                wq == width as int,
                hq == height as int,
                b == vig_b(width as int, height as int),
                1 <= b < 0x4000_0000_0000_0000_0000_0000_0000_0000,
                target == vignette_pixels(pixels_of(old(data)@), width as int, height as int),
                target.len() == pixels@.len(),
                forall|j: int| 0 <= j < i ==> pixels@[j] == target[j],
                forall|j: int| i <= j < pixels@.len() ==> pixels@[j] == pixels_of(old(
                    data,
                )@)[j],
            decreases pixels@.len() - i,
        {
            let x = i % width;
            let y = i / width;
            proof {
                lemma_fundamental_div_mod(i as int, width as int);
                assert((y as int) < (height as int)) by (nonlinear_arith)
                    requires
                        i as int == (width as int) * (y as int) + (x as int),
                        0 <= x as int && (x as int) < width as int,
                        (i as int) < (width as int) * (height as int),
                        width as int >= 1,
                        y as int >= 0,
                ;
            }
            let x2: u128 = 2 * (x as u128);
            let y2: u128 = 2 * (y as u128);
            let dx: u128 = if x2 >= wq { x2 - wq } else { wq - x2 };
            let dy: u128 = if y2 >= hq { y2 - hq } else { hq - y2 };
            proof {
                assert(dx as int <= width as int && (dx as int) * (dx as int) == (2 * (x as int)
                    - width as int) * (2 * (x as int) - width as int)) by (nonlinear_arith)
                    requires
                        0 <= x as int && (x as int) < width as int,
                        dx as int == if 2 * (x as int) >= width as int { 2 * (x as int)
                            - width as int } else { width as int - 2 * (x as int) },
                ;
                assert(dy as int <= height as int && (dy as int) * (dy as int) == (2 * (y as int)
                    - height as int) * (2 * (y as int) - height as int)) by (nonlinear_arith)
                    requires
                        0 <= y as int && (y as int) < height as int,
                        dy as int == if 2 * (y as int) >= height as int { 2 * (y as int)
                            - height as int } else { height as int - 2 * (y as int) },
                ;
                assert((dx as int) * (dx as int) <= (width as int) * (width as int) && (dy as int)
                    * (dy as int) <= (height as int) * (height as int)) by (nonlinear_arith)
                    requires
                        0 <= dx as int <= width as int,
                        0 <= dy as int <= height as int,
                ;
                assert((width as int) * (width as int)
                    <= 0x1000_0000_0000_0000_0000_0000_0000_0000 && (height as int) * (
                height as int) <= 0x1000_0000_0000_0000_0000_0000_0000_0000) by (nonlinear_arith)
                    requires
                        1 <= width as int <= 0x4000_0000_0000_0000,
                        1 <= height as int <= 0x4000_0000_0000_0000,
                ;
            }
            let a: u128 = dx * dx + dy * dy;
            let p = pixels[i];
            let nr = vig_channel(p.r, a, b);
            let ng = vig_channel(p.g, a, b);
            let nb = vig_channel(p.b, a, b);
            pixels[i] = Pixel { r: nr, g: ng, b: nb, alpha: p.alpha };
            i = i + 1;
        }
    }
    proof {
        assert(pixels@ =~= target);
    }
    let bytes = get_raw(&pixels);
    *data = bytes;
    Ok(())
}

} // verus!
