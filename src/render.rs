use crate::bands::PixelBounds;
use vstd::prelude::*;

verus! {

/// Grayscale intensity of a pixel from its escape result: black for a point
/// that did not escape, and brighter the earlier a point escaped.
pub open spec fn intensity_of(escape: Option<u8>) -> u8 {
    match escape {
        None => 0,
        Some(count) => (255 - count) as u8,
    }
}

/// Grayscale intensity of a pixel from its escape result.
pub fn intensity(escape: Option<u8>) -> (r: u8)
    ensures
        r == intensity_of(escape),
{
    match escape {
        None => 0,
        Some(count) => 255 - count,
    }
}

/// Byte `i` of a raster `width` wide holds the intensity of a result that
/// `escape` may return for the pixel of that byte.
pub open spec fn rendered<F: Fn(usize, usize) -> Option<u8>>(escape: F, width: int, i: int, byte: u8) -> bool {
    exists|e: Option<u8>|
        #![trigger escape.ensures(((i % width) as usize, (i / width) as usize), e)]
        escape.ensures(((i % width) as usize, (i / width) as usize), e) && byte == intensity_of(e)
}

/// Fills a row-major raster of `bounds`, one byte per pixel: the byte of the
/// pixel at column `col` and row `row` becomes the intensity of what
/// `escape(col, row)` returns. Each byte is written once.
pub fn render<F: Fn(usize, usize) -> Option<u8>>(pixels: &mut [u8], bounds: PixelBounds, escape: &F)
    requires
        bounds.wf(),
        old(pixels)@.len() == bounds.byte_len(),
        forall|col: usize, row: usize|
            col < bounds.width && row < bounds.height ==> #[trigger] escape.requires((col, row)),
    ensures
        final(pixels)@.len() == old(pixels)@.len(),
        forall|i: int|
            0 <= i < final(pixels)@.len() ==> rendered(*escape, bounds.width as int, i, #[trigger] final(pixels)@[i]),
{
    let ghost w = bounds.width as int;
    let mut row: usize = 0;
    while row < bounds.height
        invariant
            bounds.wf(),
            w == bounds.width,
            row <= bounds.height,
            pixels@.len() == bounds.byte_len(),
            forall|col: usize, row: usize|
                col < bounds.width && row < bounds.height ==> #[trigger] escape.requires((col, row)),
            forall|i: int| 0 <= i < row * w ==> rendered(*escape, w, i, #[trigger] pixels@[i]),
        decreases bounds.height - row,
    {
        let mut col: usize = 0;
        while col < bounds.width
            invariant
                bounds.wf(),
                w == bounds.width,
                row < bounds.height,
                col <= bounds.width,
                pixels@.len() == bounds.byte_len(),
                forall|col: usize, row: usize|
                    col < bounds.width && row < bounds.height ==> #[trigger] escape.requires((col, row)),
                forall|i: int| 0 <= i < row * w + col ==> rendered(*escape, w, i, #[trigger] pixels@[i]),
            decreases bounds.width - col,
        {
            proof {
                assert(row * w + col < bounds.byte_len()) by (nonlinear_arith)
                    requires
                        row < bounds.height,
                        col < w,
                        w == bounds.width,
                ;
                lemma_pixel_index(row as int, col as int, w);
            }
            let e = escape(col, row);
            let index = row * bounds.width + col;
            pixels[index] = intensity(e);
            proof {
                assert(((index as int % w) as usize, (index as int / w) as usize) == (col, row));
                assert(escape.ensures(((index as int % w) as usize, (index as int / w) as usize), e));
                assert(rendered(*escape, w, index as int, pixels@[index as int]));
            }
            col = col + 1;
        }
        proof {
            assert((row + 1) * w == row * w + w) by (nonlinear_arith);
        }
        row = row + 1;
    }
    proof {
        assert(row * w == bounds.byte_len()) by (nonlinear_arith)
            requires
                row == bounds.height,
                w == bounds.width,
        ;
    }
}

/// The byte at `row * w + col` of a raster `w` wide has column `col` and row `row`.
proof fn lemma_pixel_index(row: int, col: int, w: int)
    requires
        0 <= row,
        0 <= col < w,
    ensures
        (row * w + col) % w == col,
        (row * w + col) / w == row,
{
    vstd::arithmetic::div_mod::lemma_fundamental_div_mod_converse(row * w + col, w, row, col);
}

} // verus!
