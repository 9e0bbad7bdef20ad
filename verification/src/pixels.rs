//! Conversion of rendered RGBA pixels into the compositor's ARGB8888 buffer,
//! whose bytes are stored little-endian as B, G, R, A.

use vstd::prelude::*;

verus! {

/// Which source byte of an RGBA pixel lands at position `m` (0..4) of a
/// BGRA pixel: red and blue change places, green and alpha stay.
pub open spec fn swapped_channel(m: int) -> int {
    if m == 0 {
        2
    } else if m == 2 {
        0
    } else {
        m
    }
}

/// Whether byte `k` of the target lies in a pixel that is written: a whole
/// source pixel exists for it and the whole target pixel fits.
pub open spec fn pixel_written(src_len: nat, dst_len: nat, k: int) -> bool {
    &&& (k / 4) < src_len / 4
    &&& 4 * (k / 4) + 3 < dst_len
}

/// The target buffer after the conversion: every written pixel holds the
/// source pixel with red and blue swapped, every other byte is unchanged.
pub open spec fn spec_rgba_to_bgra(src: Seq<u8>, dst: Seq<u8>) -> Seq<u8> {
    Seq::new(
        dst.len(),
        |k: int|
            if pixel_written(src.len(), dst.len(), k) {
                src[4 * (k / 4) + swapped_channel(k % 4)]
            } else {
                dst[k]
            },
    )
}

/// Copies the whole RGBA pixels of `pixels` into `canvas` as BGRA, pixel
/// by pixel from the start; a pixel that does not fit in `canvas` entirely
/// is not written, and a trailing partial pixel of `pixels` is ignored.
pub fn rgba_to_bgra(pixels: &[u8], canvas: &mut [u8])
    ensures
        final(canvas)@ == spec_rgba_to_bgra(pixels@, old(canvas)@),
{
    let plen: usize = pixels.len();
    let n: usize = plen / 4;
    let clen: usize = canvas.len();
    let ghost old_c = canvas@;
    let mut i: usize = 0;
    while i < n
        invariant
            plen == pixels@.len(),
            n == plen / 4,
            clen == canvas@.len(),
            clen == old_c.len(),
            i <= n,
            forall|k: int|
                0 <= k < clen ==> #[trigger] canvas@[k] == (if k / 4 < i && pixel_written(
                    pixels@.len(),
                    clen as nat,
                    k,
                ) {
                    pixels@[4 * (k / 4) + swapped_channel(k % 4)]
                } else {
                    old_c[k]
                }),
        decreases n - i,
    {
        assert(i * 4 + 4 <= pixels@.len()) by (nonlinear_arith)
            requires
                i < n,
                n == plen / 4,
                plen == pixels@.len(),
        ;
        let idx: usize = i * 4;
        if idx + 3 < clen {
            let r: u8 = pixels[idx];
            let g: u8 = pixels[idx + 1];
            let b: u8 = pixels[idx + 2];
            let a: u8 = pixels[idx + 3];
            canvas[idx] = b;
            canvas[idx + 1] = g;
            canvas[idx + 2] = r;
            canvas[idx + 3] = a;
        }
        i = i + 1;
    }
    assert(canvas@ =~= spec_rgba_to_bgra(pixels@, old_c));
}

/// Converting twice gives the pixels back: when source and target have the
/// same length, a whole number of pixels, every pixel is written, and
/// swapping red and blue a second time undoes the first swap.
pub proof fn lemma_conversion_is_involution(src: Seq<u8>, dst1: Seq<u8>, dst2: Seq<u8>)
    requires
        src.len() % 4 == 0,
        dst1.len() == src.len(),
        dst2.len() == src.len(),
    ensures
        spec_rgba_to_bgra(spec_rgba_to_bgra(src, dst1), dst2) == src,
{
    let once = spec_rgba_to_bgra(src, dst1);
    let twice = spec_rgba_to_bgra(once, dst2);
    assert forall|k: int| 0 <= k < src.len() implies #[trigger] twice[k] == src[k] by {
        let q: int = k / 4;
        let m: int = k % 4;
        let j: int = 4 * q + swapped_channel(m);
        assert(k == 4 * q + m);
        assert(pixel_written(src.len(), src.len(), k));
        assert(j / 4 == q && j % 4 == swapped_channel(m));
        assert(0 <= j < src.len());
        assert(pixel_written(src.len(), src.len(), j));
        assert(swapped_channel(swapped_channel(m)) == m);
    }
    assert(twice =~= src);
}

/// Every byte outside the written pixels keeps its value.
pub proof fn lemma_unwritten_bytes_kept(src: Seq<u8>, dst: Seq<u8>, k: int)
    requires
        0 <= k < dst.len(),
        !pixel_written(src.len(), dst.len(), k),
    ensures
        spec_rgba_to_bgra(src, dst)[k] == dst[k],
{
}

/// Each whole source pixel `i` that fits in the target is written with its
/// bytes at fixed places, whatever their values: blue, green, red, alpha
/// taken from source bytes 2, 1, 0, 3; the target keeps its length.
pub proof fn lemma_written_pixel_bytes(src: Seq<u8>, dst: Seq<u8>, i: int)
    requires
        0 <= i,
        4 * i + 4 <= src.len(),
        4 * i + 3 < dst.len(),
    ensures
        spec_rgba_to_bgra(src, dst).len() == dst.len(),
        spec_rgba_to_bgra(src, dst)[4 * i] == src[4 * i + 2],
        spec_rgba_to_bgra(src, dst)[4 * i + 1] == src[4 * i + 1],
        spec_rgba_to_bgra(src, dst)[4 * i + 2] == src[4 * i],
        spec_rgba_to_bgra(src, dst)[4 * i + 3] == src[4 * i + 3],
{
    assert((4 * i) / 4 == i && (4 * i) % 4 == 0);
    assert((4 * i + 1) / 4 == i && (4 * i + 1) % 4 == 1);
    assert((4 * i + 2) / 4 == i && (4 * i + 2) % 4 == 2);
    assert((4 * i + 3) / 4 == i && (4 * i + 3) % 4 == 3);
    assert(i < src.len() / 4);
    assert(pixel_written(src.len(), dst.len(), 4 * i));
    assert(pixel_written(src.len(), dst.len(), 4 * i + 1));
    assert(pixel_written(src.len(), dst.len(), 4 * i + 2));
    assert(pixel_written(src.len(), dst.len(), 4 * i + 3));
}

/// A target byte whose pixel has no whole source pixel, or does not fit in
/// the target whole, keeps its value.
pub proof fn lemma_bytes_outside_whole_pixels_kept(src: Seq<u8>, dst: Seq<u8>, k: int)
    requires
        0 <= k < dst.len(),
        4 * (k / 4) + 4 > src.len() || 4 * (k / 4) + 3 >= dst.len(),
    ensures
        spec_rgba_to_bgra(src, dst)[k] == dst[k],
{
    if (k / 4) < src.len() / 4 {
        assert(4 * (k / 4) + 4 <= src.len());
    }
}

} // verus!
