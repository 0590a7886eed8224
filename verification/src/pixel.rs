//! The pixel view: reshaping the flat byte buffer into a row-major sequence
//! of four-channel pixel records and back. Pure data movement, no value is
//! changed in either direction.

use vstd::arithmetic::div_mod::{lemma_fundamental_div_mod, lemma_fundamental_div_mod_converse_div,
    lemma_fundamental_div_mod_converse_mod};
use vstd::prelude::*;

verus! {

/// One pixel record: four consecutive buffer bytes in `[R, G, B, A]` order.
#[derive(Clone, Copy, Debug, PartialEq, Eq, Structural)]
pub struct Pixel {
    pub r: u8,
    pub g: u8,
    pub b: u8,
    pub alpha: u8,
}

impl Pixel {
    pub fn new(r: u8, g: u8, b: u8, alpha: u8) -> (p: Pixel)
        ensures
            p == (Pixel { r, g, b, alpha }),
    {
        Pixel { r, g, b, alpha }
    }
}

/// The channel of `p` selected by `k`: 0 is red, 1 green, 2 blue, and any
/// other value the alpha channel.
pub open spec fn pixel_chan(p: Pixel, k: int) -> u8 {
    if k == 0 {
        p.r
    } else if k == 1 {
        p.g
    } else if k == 2 {
        p.b
    } else {
        p.alpha
    }
}

/// The pixel sequence read off a byte sequence: every four consecutive bytes
/// become one record, in buffer order; a trailing fragment shorter than four
/// bytes is ignored.
pub open spec fn pixels_of(s: Seq<u8>) -> Seq<Pixel> {
    Seq::new((s.len() / 4) as nat, |i: int| Pixel {
        r: s[4 * i],
        g: s[4 * i + 1],
        b: s[4 * i + 2],
        alpha: s[4 * i + 3],
    })
}

/// The byte sequence written from a pixel sequence: each record contributes
/// its `r`, `g`, `b`, `alpha` bytes in order.
pub open spec fn bytes_of(p: Seq<Pixel>) -> Seq<u8> {
    Seq::new((p.len() * 4) as nat, |i: int| pixel_chan(p[i / 4], i % 4))
}

/// Writing the pixel view back produces the original buffer: the two
/// conversions are exact inverses on every buffer whose length is a multiple
/// of four.
pub proof fn lemma_bytes_pixels_roundtrip(s: Seq<u8>)
    requires
        s.len() % 4 == 0,
    ensures
        bytes_of(pixels_of(s)) == s,
{
    lemma_fundamental_div_mod(s.len() as int, 4);
    assert(bytes_of(pixels_of(s)).len() == s.len());
    assert forall|i: int| 0 <= i < s.len() implies bytes_of(pixels_of(s))[i] == s[i] by {
        lemma_fundamental_div_mod(i, 4);
        assert(4 * (i / 4) + i % 4 == i);
    }
    assert(bytes_of(pixels_of(s)) =~= s);
}

/// Reading the byte form back produces the original pixel sequence.
pub proof fn lemma_pixels_bytes_roundtrip(p: Seq<Pixel>)
    ensures
        pixels_of(bytes_of(p)) == p,
{
    assert(bytes_of(p).len() == p.len() * 4);
    assert((p.len() * 4) as int % 4 == 0 && (p.len() * 4) as int / 4 == p.len()) by {
        lemma_fundamental_div_mod_converse_div((p.len() * 4) as int, 4, p.len() as int, 0);
        lemma_fundamental_div_mod_converse_mod((p.len() * 4) as int, 4, p.len() as int, 0);
    }
    assert forall|i: int| 0 <= i < p.len() implies pixels_of(bytes_of(p))[i] == p[i] by {
        lemma_chunk_index(i, 0);
        lemma_chunk_index(i, 1);
        lemma_chunk_index(i, 2);
        lemma_chunk_index(i, 3);
    }
    assert(pixels_of(bytes_of(p)) =~= p);
}

/// Division facts for the byte at offset `k` of pixel `p`: the byte index
/// `4 * p + k` belongs to pixel `p` and channel `k`.
pub proof fn lemma_chunk_index(p: int, k: int)
    requires
        0 <= k < 4,
    ensures
        (4 * p + k) / 4 == p,
        (4 * p + k) % 4 == k,
{
    lemma_fundamental_div_mod_converse_div(4 * p + k, 4, p, k);
    lemma_fundamental_div_mod_converse_mod(4 * p + k, 4, p, k);
}

/// Groups every four bytes of `data` into a pixel record, in buffer order.
pub fn get_pixels(data: &Vec<u8>) -> (pixels: Vec<Pixel>)
    ensures
        pixels@ == pixels_of(data@),
{
    let n = data.len() / 4;
    let mut pixels: Vec<Pixel> = Vec::new();
    let mut i: usize = 0;
    proof {
        lemma_fundamental_div_mod(data@.len() as int, 4);
    }
    while i < n
        invariant
            i <= n,
            n == data@.len() / 4,
            4 * n <= data@.len(),
            data@.len() <= usize::MAX,
            pixels@.len() == i,
            forall|j: int| 0 <= j < i ==> pixels@[j] == pixels_of(data@)[j],
        decreases n - i,
    {
        let base = 4 * i;
        pixels.push(Pixel { r: data[base], g: data[base + 1], b: data[base + 2], alpha: data[base
            + 3] });
        i = i + 1;
    }
    proof {
        assert(pixels@ =~= pixels_of(data@));
    }
    pixels
}

/// Concatenates the `r`, `g`, `b`, `alpha` bytes of every record, in order.
pub fn get_raw(pixels: &Vec<Pixel>) -> (result: Vec<u8>)
    ensures
        result@ == bytes_of(pixels@),
{
    let mut result: Vec<u8> = Vec::new();
    let mut i: usize = 0;
    while i < pixels.len()
        invariant
            i <= pixels@.len(),
            result@.len() == 4 * i,
            forall|j: int| 0 <= j < 4 * i ==> result@[j] == bytes_of(pixels@)[j],
        decreases pixels@.len() - i,
    {
        proof {
            lemma_chunk_index(i as int, 0);
            lemma_chunk_index(i as int, 1);
            lemma_chunk_index(i as int, 2);
            lemma_chunk_index(i as int, 3);
        }
        let p = pixels[i];
        result.push(p.r);
        result.push(p.g);
        result.push(p.b);
        result.push(p.alpha);
        i = i + 1;
    }
    proof {
        assert(result@ =~= bytes_of(pixels@));
    }
    result
}

} // verus!
