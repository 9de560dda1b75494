//! The frame-buffer blit used by the image viewer: an image's pixels copied
//! into a flat RGBA byte buffer.

use vstd::prelude::*;
use crate::image::Image;

verus! {

/// Copies `img` into `frame`, four bytes per pixel — red, green, blue,
/// alpha — in row-major order. The buffer's length is kept; bytes after its
/// last whole quadruple are untouched. The image must hold at least one
/// pixel per quadruple of the buffer.
pub fn draw(frame: &mut Vec<u8>, img: &Image)
    requires
        old(frame)@.len() / 4 <= img.data@.len(),
    ensures
        final(frame)@.len() == old(frame)@.len(),
        forall|k: int|
            0 <= k < old(frame)@.len() / 4 ==> final(frame)@[4 * k] == img.data@[k].r
                && final(frame)@[4 * k + 1] == img.data@[k].g && final(frame)@[4 * k + 2]
                == img.data@[k].b && final(frame)@[4 * k + 3] == img.data@[k].a,
        forall|i: int|
            4 * (old(frame)@.len() / 4) <= i < old(frame)@.len() ==> final(frame)@[i] == old(
                frame,
            )@[i],
{
    let m = frame.len();
    let n = m / 4;
    let mut k: usize = 0;
    while k < n
        invariant
            k <= n,
            m == old(frame)@.len(),
            n == old(frame)@.len() / 4,
            n <= img.data@.len(),
            frame@.len() == old(frame)@.len(),
            forall|j: int|
                0 <= j < k ==> frame@[4 * j] == img.data@[j].r && frame@[4 * j + 1]
                    == img.data@[j].g && frame@[4 * j + 2] == img.data@[j].b && frame@[4 * j + 3]
                    == img.data@[j].a,
            forall|i: int| 4 * k <= i < frame@.len() ==> frame@[i] == old(frame)@[i],
        decreases n - k,
    {
        proof {
            assert(4 * k + 3 < m);
        }
        let px = img.get_pixel(k);
        frame[4 * k] = px.r;
        frame[4 * k + 1] = px.g;
        frame[4 * k + 2] = px.b;
        frame[4 * k + 3] = px.a;
        k = k + 1;
    }
}

} // verus!
