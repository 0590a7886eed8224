//! Global color transforms computed independently per pixel: greyscale,
//! sepia and invert. Alpha bytes are preserved by all three.

use crate::ImgError;
use crate::pixel::lemma_chunk_index;
use vstd::prelude::*;

verus! {

/// The luma of a pixel: `0.299*R + 0.587*G + 0.114*B` truncated to an
/// integer, computed as the exact rational `(299R + 587G + 114B) / 1000`.
pub open spec fn luma(r: int, g: int, b: int) -> int {
    (299 * r + 587 * g + 114 * b) / 1000
}

/// The buffer after replacing the R, G and B channel of every pixel by the
/// pixel's luma; alpha bytes are untouched.
pub open spec fn grey_seq(s: Seq<u8>) -> Seq<u8> {
    Seq::new(s.len(), |i: int|
        if i % 4 == 3 {
            s[i]
        } else {
            let base = i - i % 4;
            luma(s[base] as int, s[base + 1] as int, s[base + 2] as int) as u8
        })
}

/// `x` clamped from above to the channel maximum 255.
pub open spec fn min255(x: int) -> int {
    if x > 255 {
        255
    } else {
        x
    }
}

/// One channel of the classic sepia matrix, truncated to an integer and
/// clamped to 255 (the matrix can exceed 255 for bright, saturated inputs).
pub open spec fn sepia_chan(k: int, r: int, g: int, b: int) -> int {
    if k == 0 {
        min255((393 * r + 769 * g + 189 * b) / 1000)
    } else if k == 1 {
        min255((349 * r + 686 * g + 168 * b) / 1000)
    } else {
        min255((272 * r + 534 * g + 131 * b) / 1000)
    }
}

/// The buffer after the sepia recolor of every pixel; alpha untouched.
pub open spec fn sepia_seq(s: Seq<u8>) -> Seq<u8> {
    Seq::new(s.len(), |i: int|
        if i % 4 == 3 {
            s[i]
        } else {
            let base = i - i % 4;
            sepia_chan(i % 4, s[base] as int, s[base + 1] as int, s[base + 2] as int) as u8
        })
}

/// The buffer after replacing every R, G and B channel value `v` by
/// `255 - v`; alpha bytes are untouched.
pub open spec fn invert_seq(s: Seq<u8>) -> Seq<u8> {
    Seq::new(s.len(), |i: int|
        if i % 4 == 3 {
            s[i]
        } else {
            (255 - s[i]) as u8
        })
}

/// Inverting twice restores every buffer exactly.
pub proof fn lemma_invert_involution(s: Seq<u8>)
    ensures
        invert_seq(invert_seq(s)) == s,
{
    assert forall|i: int| 0 <= i < s.len() implies invert_seq(invert_seq(s))[i] == s[i] by {
    }
    assert(invert_seq(invert_seq(s)) =~= s);
}

/// Replaces R, G and B of every pixel by the pixel's luma, the weighted
/// brightness `(299R + 587G + 114B) / 1000` truncated to an integer.
/// Rejects a buffer whose length is not a multiple of four.
pub fn greyscale(data: &mut Vec<u8>) -> (r: Result<(), ImgError>)
    ensures
        r is Ok <==> old(data)@.len() % 4 == 0,
        r is Ok ==> final(data)@ == grey_seq(old(data)@),
        r is Err ==> final(data)@ == old(data)@ && r == Err::<(), ImgError>(
            ImgError::InvalidInput),
{
    if data.len() % 4 != 0 {
        return Err(ImgError::InvalidInput);
    }
    let ghost target = grey_seq(old(data)@);
    let n = data.len() / 4;
    let mut p: usize = 0;
    proof {
        vstd::arithmetic::div_mod::lemma_fundamental_div_mod(old(data)@.len() as int, 4);
    }
    while p < n
        invariant
            p <= n,
            data@.len() == old(data)@.len(),
            n == old(data)@.len() / 4,
            4 * n == old(data)@.len(),
            old(data)@.len() <= usize::MAX,
            target == grey_seq(old(data)@),
            forall|i: int| 0 <= i < 4 * p ==> data@[i] == target[i],
            forall|i: int| 4 * p <= i < data@.len() ==> data@[i] == old(data)@[i],
        decreases n - p,
    {
        let base = 4 * p;
        proof {
            lemma_chunk_index(p as int, 0);
            lemma_chunk_index(p as int, 1);
            lemma_chunk_index(p as int, 2);
            lemma_chunk_index(p as int, 3);
        }
        let r0 = data[base] as u32;
        let g0 = data[base + 1] as u32;
        let b0 = data[base + 2] as u32;
        let avg = ((299 * r0 + 587 * g0 + 114 * b0) / 1000) as u8;
        data[base] = avg;
        data[base + 1] = avg;
        data[base + 2] = avg;
        p = p + 1;
    }
    proof {
        assert(data@ =~= target);
    }
    Ok(())
}

/// Recolors every pixel with the classic sepia matrix (coefficients
/// 0.393/0.769/0.189, 0.349/0.686/0.168, 0.272/0.534/0.131), truncating each
/// channel to an integer and clamping it to 255. Rejects a buffer whose
/// length is not a multiple of four.
pub fn sepia(data: &mut Vec<u8>) -> (r: Result<(), ImgError>)
    ensures
        r is Ok <==> old(data)@.len() % 4 == 0,
        r is Ok ==> final(data)@ == sepia_seq(old(data)@),
        r is Err ==> final(data)@ == old(data)@ && r == Err::<(), ImgError>(
            ImgError::InvalidInput),
{
    if data.len() % 4 != 0 {
        return Err(ImgError::InvalidInput);
    }
    let ghost target = sepia_seq(old(data)@);
    let n = data.len() / 4;
    let mut p: usize = 0;
    proof {
        vstd::arithmetic::div_mod::lemma_fundamental_div_mod(old(data)@.len() as int, 4);
    }
    while p < n
        invariant
            p <= n,
            data@.len() == old(data)@.len(),
            n == old(data)@.len() / 4,
            4 * n == old(data)@.len(),
            old(data)@.len() <= usize::MAX,
            target == sepia_seq(old(data)@),
            forall|i: int| 0 <= i < 4 * p ==> data@[i] == target[i],
            forall|i: int| 4 * p <= i < data@.len() ==> data@[i] == old(data)@[i],
        decreases n - p,
    {
        let base = 4 * p;
        proof {
            lemma_chunk_index(p as int, 0);
            lemma_chunk_index(p as int, 1);
            lemma_chunk_index(p as int, 2);
            lemma_chunk_index(p as int, 3);
        }
        let r0 = data[base] as u32;
        let g0 = data[base + 1] as u32;
        let b0 = data[base + 2] as u32;
        let sr = (393 * r0 + 769 * g0 + 189 * b0) / 1000;
        let sg = (349 * r0 + 686 * g0 + 168 * b0) / 1000;
        let sb = (272 * r0 + 534 * g0 + 131 * b0) / 1000;
        data[base] = if sr > 255 { 255 } else { sr as u8 };
        data[base + 1] = if sg > 255 { 255 } else { sg as u8 };
        data[base + 2] = if sb > 255 { 255 } else { sb as u8 };
        p = p + 1;
    }
    proof {
        assert(data@ =~= target);
    }
    Ok(())
}

/// Replaces every R, G and B channel value `v` by `255 - v`; alpha bytes are
/// untouched. Rejects a buffer whose length is not a multiple of four.
pub fn invert(data: &mut Vec<u8>) -> (r: Result<(), ImgError>)
    ensures
        r is Ok <==> old(data)@.len() % 4 == 0,
        r is Ok ==> final(data)@ == invert_seq(old(data)@),
        r is Err ==> final(data)@ == old(data)@ && r == Err::<(), ImgError>(
            ImgError::InvalidInput),
{
    if data.len() % 4 != 0 {
        return Err(ImgError::InvalidInput);
    }
    let ghost target = invert_seq(old(data)@);
    let n = data.len() / 4;
    let mut p: usize = 0;
    proof {
        vstd::arithmetic::div_mod::lemma_fundamental_div_mod(old(data)@.len() as int, 4);
    }
    while p < n
        invariant
            p <= n,
            data@.len() == old(data)@.len(),
            n == old(data)@.len() / 4,
            4 * n == old(data)@.len(),
            old(data)@.len() <= usize::MAX,
            target == invert_seq(old(data)@),
            forall|i: int| 0 <= i < 4 * p ==> data@[i] == target[i],
            forall|i: int| 4 * p <= i < data@.len() ==> data@[i] == old(data)@[i],
        decreases n - p,
    {
        let base = 4 * p;
        proof {
            lemma_chunk_index(p as int, 0);
            lemma_chunk_index(p as int, 1);
            lemma_chunk_index(p as int, 2);
            lemma_chunk_index(p as int, 3);
        }
        data[base] = 255 - data[base];
        data[base + 1] = 255 - data[base + 1];
        data[base + 2] = 255 - data[base + 2];
        p = p + 1;
    }
    proof {
        assert(data@ =~= target);
    }
    Ok(())
}

} // verus!
