//! Channel arithmetic: saturating per-channel addition, independent RGB
//! offsets, brightness, contrast remapping, and the combined develop step.

use crate::ImgError;
use vstd::prelude::*;

verus! {

/// `v + d` saturated to the channel range `[0, 255]`; never wraps.
pub open spec fn clamp_add(v: int, d: int) -> int {
    if v + d < 0 {
        0
    } else if v + d > 255 {
        255
    } else {
        v + d
    }
}

/// The buffer after adding `dr`, `dg`, `db` (saturating) to the red, green
/// and blue channel of every pixel; alpha bytes are untouched.
pub open spec fn adjust_seq(s: Seq<u8>, dr: int, dg: int, db: int) -> Seq<u8> {
    Seq::new(s.len(), |i: int|
        if i % 4 == 0 {
            clamp_add(s[i] as int, dr) as u8
        } else if i % 4 == 1 {
            clamp_add(s[i] as int, dg) as u8
        } else if i % 4 == 2 {
            clamp_add(s[i] as int, db) as u8
        } else {
            s[i]
        })
}

/// Saturating add of a signed delta to a channel value: widens so the sum
/// cannot wrap, then clamps to `[0, 255]`.
pub fn ranged_add(target: u8, value: i8) -> (r: u8)
    ensures
        r as int == clamp_add(target as int, value as int),
{
    let val: i16 = target as i16 + value as i16;
    if val < 0 {
        0
    } else if val > 255 {
        u8::MAX
    } else {
        val as u8
    }
}

/// Adding a zero delta leaves every channel value exactly as it was.
pub proof fn lemma_clamp_add_zero(v: u8)
    ensures
        clamp_add(v as int, 0) == v as int,
{
}

/// The saturated sum always stays inside the channel range.
pub proof fn lemma_clamp_add_in_range(v: int, d: int)
    ensures
        0 <= clamp_add(v, d) <= 255,
{
}

/// With all three deltas zero the adjustment leaves the buffer unchanged:
/// the buffer-level face of the zero-delta law.
pub proof fn lemma_adjust_zero_identity(s: Seq<u8>)
    ensures
        adjust_seq(s, 0, 0, 0) == s,
{
    assert forall|i: int| 0 <= i < s.len() implies adjust_seq(s, 0, 0, 0)[i] == s[i] by {
    }
    assert(adjust_seq(s, 0, 0, 0) =~= s);
}

/// Applies `ranged_add` with the three deltas to the R, G, B channels of
/// every pixel; alpha untouched. The length must already have been checked.
fn adjust_channels(data: &mut Vec<u8>, red_value: i8, green_value: i8, blue_value: i8)
    requires
        old(data)@.len() % 4 == 0,
    ensures
        final(data)@ == adjust_seq(old(data)@, red_value as int, green_value as int,
            blue_value as int),
{
    let ghost target = adjust_seq(old(data)@, red_value as int, green_value as int,
        blue_value as int);
    let n = data.len() / 4;
    let mut p: usize = 0;
    proof {
        vstd::arithmetic::div_mod::lemma_fundamental_div_mod(old(data)@.len() as int, 4);
    }
    while p < n
        invariant
            p <= n,
            data@.len() == old(data)@.len(),
            n == old(data)@.len() / 4,
            4 * n == old(data)@.len(),
            old(data)@.len() <= usize::MAX,
            target == adjust_seq(old(data)@, red_value as int, green_value as int,
                blue_value as int),
            forall|i: int| 0 <= i < 4 * p ==> data@[i] == target[i],
            forall|i: int| 4 * p <= i < data@.len() ==> data@[i] == old(data)@[i],
        decreases n - p,
    {
        let base = 4 * p;
        proof {
            crate::pixel::lemma_chunk_index(p as int, 0);
            crate::pixel::lemma_chunk_index(p as int, 1);
            crate::pixel::lemma_chunk_index(p as int, 2);
            crate::pixel::lemma_chunk_index(p as int, 3);
        }
        let r0 = data[base];
        let g0 = data[base + 1];
        let b0 = data[base + 2];
        data[base] = ranged_add(r0, red_value);
        data[base + 1] = ranged_add(g0, green_value);
        data[base + 2] = ranged_add(b0, blue_value);
        p = p + 1;
    }
    proof {
        assert(data@ =~= target);
    }
}

/// Adds `value` (saturating) to the R, G and B channel of every pixel.
/// Rejects a buffer whose length is not a multiple of four.
pub fn handle_brightness(data: &mut Vec<u8>, value: i8) -> (r: Result<(), ImgError>)
    ensures
        r is Ok <==> old(data)@.len() % 4 == 0,
        r is Ok ==> final(data)@ == adjust_seq(old(data)@, value as int, value as int,
            value as int),
        r is Err ==> final(data)@ == old(data)@ && r == Err::<(), ImgError>(
            ImgError::InvalidInput),
{
    if data.len() % 4 != 0 {
        return Err(ImgError::InvalidInput);
    }
    adjust_channels(data, value, value, value);
    Ok(())
}

/// Adds the three independent deltas (saturating) to the R, G and B channels
/// of every pixel. Rejects a buffer whose length is not a multiple of four.
pub fn handle_rgb(data: &mut Vec<u8>, red_value: i8, green_value: i8, blue_value: i8) -> (r:
    Result<(), ImgError>)
    ensures
        r is Ok <==> old(data)@.len() % 4 == 0,
        r is Ok ==> final(data)@ == adjust_seq(old(data)@, red_value as int, green_value as int,
            blue_value as int),
        r is Err ==> final(data)@ == old(data)@ && r == Err::<(), ImgError>(
            ImgError::InvalidInput),
{
    if data.len() % 4 != 0 {
        return Err(ImgError::InvalidInput);
    }
    adjust_channels(data, red_value, green_value, blue_value);
    Ok(())
}

/// The denominator of the contrast factor `259*(c+255) / (255*(259-c))`;
/// positive on the accepted range `-255 <= c <= 255`.
pub open spec fn contrast_den(c: int) -> int {
    255 * (259 - c)
}

/// One channel value remapped by the contrast factor: the exact rational
/// `128 + (v-128)*259*(c+255)/(255*(259-c))`, clamped to `[0, 255]` and
/// truncated toward zero.
pub open spec fn contrast_chan(v: int, c: int) -> int {
    let t = 128 * contrast_den(c) + (v - 128) * 259 * (c + 255);
    if t <= 0 {
        0
    } else if t / contrast_den(c) >= 255 {
        255
    } else {
        t / contrast_den(c)
    }
}

/// The buffer after remapping the R, G and B channel of every pixel by the
/// contrast factor for level `c`; alpha bytes are untouched.
pub open spec fn contrast_seq(s: Seq<u8>, c: int) -> Seq<u8> {
    Seq::new(s.len(), |i: int|
        if i % 4 == 3 {
            s[i]
        } else {
            contrast_chan(s[i] as int, c) as u8
        })
}

/// One channel remapped by the contrast factor for level `contrast`,
/// computed in exact integer arithmetic.
fn adjust_contrast(value: u8, contrast: i32) -> (r: u8)
    requires
        -255 <= contrast <= 255,
    ensures
        r as int == contrast_chan(value as int, contrast as int),
{
    let den: i64 = 255 * (259 - contrast as i64);
    let dv: i64 = value as i64 - 128;
    let f: i64 = 259 * (contrast as i64 + 255);
    assert(-128 * 132090 <= dv * f <= 128 * 132090) by (nonlinear_arith)
        requires
            -128 <= dv <= 127,
            0 <= f <= 132090,
    ;
    let t: i64 = 128 * den + dv * f;
    proof {
        assert(dv * f == (value as int - 128) * 259 * (contrast as int + 255))
            by (nonlinear_arith)
            requires
                dv == value as int - 128,
                f == 259 * (contrast as int + 255),
        ;
    }
    if t <= 0 {
        0
    } else {
        let q = (t as u64) / (den as u64);
        if q >= 255 {
            255
        } else {
            q as u8
        }
    }
}

/// Remaps the R, G and B channel of every pixel around the midpoint 128 by
/// the factor `259*(c+255) / (255*(259-c))`, clamping to `[0, 255]` and
/// truncating toward zero. Rejects a buffer whose length is not a multiple
/// of four, and any level outside `[-255, 255]` (at 259 the factor's
/// denominator would vanish).
pub fn handle_contrast(data: &mut Vec<u8>, contrast: i32) -> (r: Result<(), ImgError>)
    ensures
        r is Ok <==> old(data)@.len() % 4 == 0 && -255 <= contrast <= 255,
        r is Ok ==> final(data)@ == contrast_seq(old(data)@, contrast as int),
        r is Err ==> final(data)@ == old(data)@ && r == Err::<(), ImgError>(
            ImgError::InvalidInput),
{
    if data.len() % 4 != 0 || contrast < -255 || contrast > 255 {
        return Err(ImgError::InvalidInput);
    }
    let ghost target = contrast_seq(old(data)@, contrast as int);
    let n = data.len() / 4;
    let mut p: usize = 0;
    proof {
        vstd::arithmetic::div_mod::lemma_fundamental_div_mod(old(data)@.len() as int, 4);
    }
    while p < n
        invariant
            p <= n,
            -255 <= contrast <= 255,
            data@.len() == old(data)@.len(),
            n == old(data)@.len() / 4,
            4 * n == old(data)@.len(),
            old(data)@.len() <= usize::MAX,
            target == contrast_seq(old(data)@, contrast as int),
            forall|i: int| 0 <= i < 4 * p ==> data@[i] == target[i],
            forall|i: int| 4 * p <= i < data@.len() ==> data@[i] == old(data)@[i],
        decreases n - p,
    {
        let base = 4 * p;
        proof {
            crate::pixel::lemma_chunk_index(p as int, 0);
            crate::pixel::lemma_chunk_index(p as int, 1);
            crate::pixel::lemma_chunk_index(p as int, 2);
            crate::pixel::lemma_chunk_index(p as int, 3);
        }
        let r0 = data[base];
        let g0 = data[base + 1];
        let b0 = data[base + 2];
        data[base] = adjust_contrast(r0, contrast);
        data[base + 1] = adjust_contrast(g0, contrast);
        data[base + 2] = adjust_contrast(b0, contrast);
        p = p + 1;
    }
    proof {
        assert(data@ =~= target);
    }
    Ok(())
}

/// The develop step: RGB adjustment, then brightness, then contrast, in that
/// fixed order. All inputs are validated before the first byte changes, so a
/// rejected call leaves the buffer untouched.
pub fn update_img(data: &mut Vec<u8>, brightness: i8, contrast: i32, red: i8, green: i8, blue: i8)
    -> (r: Result<(), ImgError>)
    ensures
        r is Ok <==> old(data)@.len() % 4 == 0 && -255 <= contrast <= 255,
        r is Ok ==> final(data)@ == contrast_seq(adjust_seq(adjust_seq(old(data)@, red as int,
            green as int, blue as int), brightness as int, brightness as int, brightness as int),
            contrast as int),
        r is Err ==> final(data)@ == old(data)@ && r == Err::<(), ImgError>(
            ImgError::InvalidInput),
{
    if data.len() % 4 != 0 || contrast < -255 || contrast > 255 {
        return Err(ImgError::InvalidInput);
    }
    let step_rgb = handle_rgb(data, red, green, blue);
    let step_brightness = handle_brightness(data, brightness);
    let step_contrast = handle_contrast(data, contrast);
    proof {
        assert(step_rgb is Ok && step_brightness is Ok && step_contrast is Ok);
    }
    Ok(())
}

} // verus!
