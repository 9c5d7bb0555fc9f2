use vstd::prelude::*;
use vstd::arithmetic::mul::lemma_mul_inequality;

verus! {

/// Index of channel `c` of pixel (px, py) in a row-major RGBA buffer whose
/// rows are `width` pixels long.
pub open spec fn pixel_byte(width: int, px: int, py: int, c: int) -> int {
    (py * width + px) * 4 + c
}

/// Distinct channels of distinct pixels lie at distinct indices.
pub proof fn lemma_pixel_byte_unique(width: int, px: int, py: int, c: int, qx: int, qy: int, d: int)
    requires
        0 <= px < width,
        0 <= qx < width,
        0 <= py,
        0 <= qy,
        0 <= c < 4,
        0 <= d < 4,
        pixel_byte(width, px, py, c) == pixel_byte(width, qx, qy, d),
    ensures
        px == qx,
        py == qy,
        c == d,
{
    assert(py * width + px == qy * width + qx);
    if py < qy {
        lemma_mul_inequality(py + 1, qy, width);
        assert((py + 1) * width == py * width + width) by (nonlinear_arith);
    } else if qy < py {
        lemma_mul_inequality(qy + 1, py, width);
        assert((qy + 1) * width == qy * width + width) by (nonlinear_arith);
    }
}

/// Every channel of a pixel inside a `width` by `height` image lies inside
/// its `width * height * 4` byte buffer.
pub proof fn lemma_pixel_byte_bound(width: int, height: int, px: int, py: int, c: int)
    requires
        0 <= px < width,
        0 <= py < height,
        0 <= c < 4,
    ensures
        0 <= py * width + px < width * height,
        0 <= pixel_byte(width, px, py, c) < width * height * 4,
{
    lemma_mul_inequality(py + 1, height, width);
    assert((py + 1) * width == py * width + width) by (nonlinear_arith);
    assert(0 <= py * width) by (nonlinear_arith)
        requires
            0 <= py,
            0 <= width,
    ;
    assert(height * width == width * height) by (nonlinear_arith);
}

/// What a sampler reads at pixel (ix, iy): red, green, blue, and whether the
/// alpha byte is above 127. Pixels outside the image, or whose bytes the
/// buffer does not hold, read as `(0, 0, 0, false)`.
pub open spec fn texel(data: Seq<u8>, width: int, height: int, ix: int, iy: int) -> (u8, u8, u8, bool) {
    if ix >= width || iy >= height {
        (0, 0, 0, false)
    } else {
        let idx = pixel_byte(width, ix, iy, 0);
        if idx + 3 >= data.len() {
            (0, 0, 0, false)
        } else {
            (data[idx], data[idx + 1], data[idx + 2], data[idx + 3] > 127)
        }
    }
}

/// Reads pixel (ix, iy) of a `width` by `height` RGBA image.
pub fn read_texel(data: &Vec<u8>, width: u32, height: u32, ix: u32, iy: u32) -> (r: (u8, u8, u8, bool))
    requires
        width * height * 4 <= u32::MAX,
    ensures
        r == texel(data@, width as int, height as int, ix as int, iy as int),
{
    if ix >= width || iy >= height {
        return (0, 0, 0, false);
    }
    proof {
        lemma_pixel_byte_bound(width as int, height as int, ix as int, iy as int, 0);
    }
    let idx = ((iy * width + ix) * 4) as usize;
    if idx + 3 >= data.len() {
        return (0, 0, 0, false);
    }
    (data[idx], data[idx + 1], data[idx + 2], data[idx + 3] > 127)
}

/// The red and green bytes of the four pixels around (x0, y0) used for
/// bilinear sampling: (x0, y0), (x1, y0), (x0, y1), (x1, y1), where x1 and
/// y1 are the next column and row, held inside the image. `None` unless all
/// four read as valid.
pub open spec fn corner_texels(data: Seq<u8>, width: int, height: int, x0: int, y0: int) -> Option<
    ((u8, u8), (u8, u8), (u8, u8), (u8, u8)),
> {
    let x1 = if x0 + 1 < width - 1 { x0 + 1 } else { width - 1 };
    let y1 = if y0 + 1 < height - 1 { y0 + 1 } else { height - 1 };
    let t00 = texel(data, width, height, x0, y0);
    let t10 = texel(data, width, height, x1, y0);
    let t01 = texel(data, width, height, x0, y1);
    let t11 = texel(data, width, height, x1, y1);
    if t00.3 && t10.3 && t01.3 && t11.3 {
        Some(((t00.0, t00.1), (t10.0, t10.1), (t01.0, t01.1), (t11.0, t11.1)))
    } else {
        None
    }
}

/// Reads the four pixels around (x0, y0) for bilinear sampling; see
/// `corner_texels`.
pub fn read_corners(data: &Vec<u8>, width: u32, height: u32, x0: u32, y0: u32) -> (r: Option<
    ((u8, u8), (u8, u8), (u8, u8), (u8, u8)),
>)
    requires
        width * height * 4 <= u32::MAX,
        width > 0,
        height > 0,
        x0 < u32::MAX,
        y0 < u32::MAX,
    ensures
        r == corner_texels(data@, width as int, height as int, x0 as int, y0 as int),
{
    let x1 = if x0 + 1 < width - 1 {
        x0 + 1
    } else {
        width - 1
    };
    let y1 = if y0 + 1 < height - 1 {
        y0 + 1
    } else {
        height - 1
    };
    let t00 = read_texel(data, width, height, x0, y0);
    let t10 = read_texel(data, width, height, x1, y0);
    let t01 = read_texel(data, width, height, x0, y1);
    let t11 = read_texel(data, width, height, x1, y1);
    if t00.3 && t10.3 && t01.3 && t11.3 {
        Some(((t00.0, t00.1), (t10.0, t10.1), (t01.0, t01.1), (t11.0, t11.1)))
    } else {
        None
    }
}

/// A pixel inside a `width` by `height` image whose buffer holds every
/// pixel reads as its red, green and blue bytes, valid exactly when its
/// alpha byte is above 127; a pixel outside the image is never valid.
pub proof fn law_texel(data: Seq<u8>, width: int, height: int, ix: int, iy: int)
    requires
        width > 0,
        height > 0,
        0 <= ix,
        0 <= iy,
        data.len() == width * height * 4,
    ensures
        ix < width && iy < height ==> texel(data, width, height, ix, iy) == (
            data[(iy * width + ix) * 4],
            data[(iy * width + ix) * 4 + 1],
            data[(iy * width + ix) * 4 + 2],
            data[(iy * width + ix) * 4 + 3] > 127,
        ),
        !(ix < width && iy < height) ==> !texel(data, width, height, ix, iy).3,
{
    if ix < width && iy < height {
        lemma_pixel_byte_bound(width, height, ix, iy, 3);
    }
}

/// The corners read for bilinear sampling at (x0, y0) of a `width` by
/// `height` image whose buffer holds every pixel: the red and green bytes of
/// pixel (x0, y0), of the next pixel to the right, of the pixel below, and of
/// the pixel below and to the right, where "next" stops at the last column
/// and the last row. The row below depends on y0 and the height alone, the
/// column to the right on x0 and the width alone. The corners are read
/// exactly when all four alpha bytes are above 127.
pub proof fn law_corner_texels(data: Seq<u8>, width: int, height: int, x0: int, y0: int)
    requires
        width > 0,
        height > 0,
        0 <= x0 < width,
        0 <= y0 < height,
        data.len() == width * height * 4,
    ensures
        ({
            let x1 = if x0 + 1 < width { x0 + 1 } else { x0 };
            let y1 = if y0 + 1 < height { y0 + 1 } else { y0 };
            let i00 = (y0 * width + x0) * 4;
            let i10 = (y0 * width + x1) * 4;
            let i01 = (y1 * width + x0) * 4;
            let i11 = (y1 * width + x1) * 4;
            &&& (corner_texels(data, width, height, x0, y0) is Some) <==> (data[i00 + 3] > 127 && data[i10 + 3] > 127
                && data[i01 + 3] > 127 && data[i11 + 3] > 127)
            &&& corner_texels(data, width, height, x0, y0) is Some ==> corner_texels(data, width, height, x0, y0)
                == Some(
                (
                    (data[i00], data[i00 + 1]),
                    (data[i10], data[i10 + 1]),
                    (data[i01], data[i01 + 1]),
                    (data[i11], data[i11 + 1]),
                ),
            )
        }),
{
    let x1 = if x0 + 1 < width { x0 + 1 } else { x0 };
    let y1 = if y0 + 1 < height { y0 + 1 } else { y0 };
    law_texel(data, width, height, x0, y0);
    law_texel(data, width, height, x1, y0);
    law_texel(data, width, height, x0, y1);
    law_texel(data, width, height, x1, y1);
}

/// The four channels of pixel (px, py) are equal in two buffers.
pub open spec fn same_pixel(a: Seq<u8>, b: Seq<u8>, width: int, px: int, py: int) -> bool {
    forall|c: int| 0 <= c < 4 ==> #[trigger] a[pixel_byte(width, px, py, c)] == b[pixel_byte(width, px, py, c)]
}

/// Overwrites the four channels of one pixel; every other pixel keeps its
/// bytes.
pub fn write_pixel(data: &mut Vec<u8>, width: u32, height: u32, px: u32, py: u32, rgba: [u8; 4])
    requires
        old(data)@.len() == width * height * 4,
        width * height * 4 <= u32::MAX,
        px < width,
        py < height,
    ensures
        final(data)@.len() == old(data)@.len(),
        forall|c: int| 0 <= c < 4 ==> #[trigger] final(data)@[pixel_byte(width as int, px as int, py as int, c)] == rgba@[c],
        forall|qx: int, qy: int|
            0 <= qx < width && 0 <= qy < height && !(qx == px && qy == py) ==> #[trigger] same_pixel(
                final(data)@,
                old(data)@,
                width as int,
                qx,
                qy,
            ),
{
    proof {
        lemma_pixel_byte_bound(width as int, height as int, px as int, py as int, 0);
        lemma_pixel_byte_bound(width as int, height as int, px as int, py as int, 3);
    }
    let idx = ((py * width + px) * 4) as usize;
    data.set(idx, rgba[0]);
    data.set(idx + 1, rgba[1]);
    data.set(idx + 2, rgba[2]);
    data.set(idx + 3, rgba[3]);
    proof {
        assert forall|c: int| 0 <= c < 4 implies #[trigger] data@[pixel_byte(width as int, px as int, py as int, c)] == rgba@[c] by {
        }
        assert forall|qx: int, qy: int|
            0 <= qx < width && 0 <= qy < height && !(qx == px && qy == py) implies #[trigger] same_pixel(
                data@,
                old(data)@,
                width as int,
                qx,
                qy,
            ) by {
            assert forall|c: int| 0 <= c < 4 implies #[trigger] data@[pixel_byte(width as int, qx, qy, c)]
                == old(data)@[pixel_byte(width as int, qx, qy, c)] by {
                lemma_pixel_byte_bound(width as int, height as int, qx, qy, c);
                let b = pixel_byte(width as int, qx, qy, c);
                let b0 = pixel_byte(width as int, px as int, py as int, 0);
                if b0 <= b < b0 + 4 {
                    lemma_pixel_byte_unique(width as int, qx, qy, c, px as int, py as int, b - b0);
                }
            }
        }
    }
}

} // verus!
