//! Shading of escape counts into the flat pixel buffer.
//!
//! The escape-time evaluation itself is floating-point work done by the
//! caller; it hands this module, per band, one escape result for every pixel
//! in row-major order.  Everything from there to the finished byte buffer is
//! verified: a pixel whose point never diverged within the iteration budget
//! is black (`0`), and a pixel that diverged after `k` iterations has
//! intensity `255 - k`.

use vstd::prelude::*;

use crate::geometry::Bounds;

verus! {

/// Intensity of one pixel from its escape result: `0` for a point that never
/// diverged, `255 - k` for one that diverged after `k` iterations.
pub open spec fn shade_spec(esc: Option<u8>) -> u8 {
    match esc {
        None => 0u8,
        Some(k) => (255 - k) as u8,
    }
}

/// The whole buffer, shaded elementwise.
pub open spec fn shaded(counts: Seq<Option<u8>>) -> Seq<u8> {
    counts.map(|i: int, c: Option<u8>| shade_spec(c))
}

/// Escape result to pixel intensity.
pub fn shade(esc: Option<u8>) -> (r: u8)
    ensures
        r == shade_spec(esc),
{
    match esc {
        None => 0,
        Some(k) => 255 - k,
    }
}

/// Fills one band of the image: takes the band's escape results in row-major
/// order and produces the band's pixel bytes, walking the band row by row and
/// column by column exactly as the buffer is laid out.
pub fn render_band(bounds: &Bounds, counts: &Vec<Option<u8>>) -> (pixels: Vec<u8>)
    requires
        bounds.wf(),
        counts@.len() == bounds.width * bounds.height,
    ensures
        pixels@ == shaded(counts@),
        pixels@.len() == bounds.width * bounds.height,
{
    let mut pixels: Vec<u8> = Vec::new();
    let mut row: usize = 0;
    while row < bounds.height
        invariant
            bounds.wf(),
            counts@.len() == bounds.width * bounds.height,
            row <= bounds.height,
            pixels@.len() == row * bounds.width,
            forall|i: int| 0 <= i < pixels@.len() ==> pixels@[i] == shade_spec(counts@[i]),
        decreases bounds.height - row,
    {
        let mut col: usize = 0;
        while col < bounds.width
            invariant
                bounds.wf(),
                counts@.len() == bounds.width * bounds.height,
                row < bounds.height,
                col <= bounds.width,
                pixels@.len() == row * bounds.width + col,
                forall|i: int| 0 <= i < pixels@.len() ==> pixels@[i] == shade_spec(counts@[i]),
            decreases bounds.width - col,
        {
            proof {
                assert(row * bounds.width + col < bounds.width * bounds.height)
                    by (nonlinear_arith)
                    requires
                        row < bounds.height,
                        col < bounds.width,
                        bounds.width >= 0,
                ;
            }
            let idx: usize = row * bounds.width + col;
            pixels.push(shade(counts[idx]));
            col = col + 1;
        }
        proof {
            assert((row + 1) * bounds.width == row * bounds.width + bounds.width)
                by (nonlinear_arith);
        }
        row = row + 1;
    }
    proof {
        assert(bounds.height * bounds.width == bounds.width * bounds.height)
            by (nonlinear_arith);
        assert(pixels@ =~= shaded(counts@));
    }
    pixels
}

/// Shading a buffer split in two and concatenating the parts gives the same
/// bytes as shading the whole buffer.
pub proof fn lemma_shaded_concat(a: Seq<Option<u8>>, b: Seq<Option<u8>>)
    ensures
        shaded(a + b) == shaded(a) + shaded(b),
{
    assert(shaded(a + b) =~= shaded(a) + shaded(b));
}

/// Shading band by band and reassembling the bands in order gives exactly the
/// bytes of shading the whole image at once: the parallel orchestration
/// cannot change the rendered buffer.
pub proof fn lemma_shaded_flatten(parts: Seq<Seq<Option<u8>>>)
    ensures
        shaded(parts.flatten()) == parts.map(|i: int, p: Seq<Option<u8>>| shaded(p)).flatten(),
    decreases parts.len(),
{
    let shaded_parts = parts.map(|i: int, p: Seq<Option<u8>>| shaded(p));
    if parts.len() == 0 {
        assert(parts.flatten() =~= Seq::<Option<u8>>::empty());
        assert(shaded_parts.flatten() =~= Seq::<u8>::empty());
        assert(shaded(parts.flatten()) =~= Seq::<u8>::empty());
    } else {
        let rest = parts.drop_first();
        lemma_shaded_flatten(rest);
        assert(rest.map(|i: int, p: Seq<Option<u8>>| shaded(p)) =~= shaded_parts.drop_first());
        lemma_shaded_concat(parts.first(), rest.flatten());
        assert(parts.flatten() == parts.first() + rest.flatten());
        assert(shaded_parts.flatten() == shaded_parts.first() + shaded_parts.drop_first().flatten());
        assert(shaded(parts.flatten()) =~= shaded_parts.flatten());
    }
}

} // verus!
