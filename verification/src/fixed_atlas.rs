use vstd::prelude::*;
use crate::atlas::{zeroed, TILE_SIZE};
use crate::grid::{pixel_byte, same_pixel, corner_texels, read_corners, write_pixel, lemma_pixel_byte_bound};

verus! {

/// Pixel storage of an atlas of fixed size: panning and zooming only move
/// its world bounds (kept by the caller), never its size, and tiles are
/// resampled into it. A dirty flag records that the pixels or the bounds
/// changed since the last upload.
pub struct FixedAtlas {
    data: Vec<u8>,
    width: u32,
    height: u32,
    tile_zoom: u32,
    dirty: bool,
}

impl FixedAtlas {
    /// The buffer holds every pixel of the image.
    pub open spec fn wf(&self) -> bool {
        &&& self.spec_data().len() == self.spec_width() * self.spec_height() * 4
        &&& self.spec_width() * self.spec_height() * 4 <= u32::MAX
    }

    pub closed spec fn spec_data(&self) -> Seq<u8> {
        self.data@
    }

    pub closed spec fn spec_width(&self) -> u32 {
        self.width
    }

    pub closed spec fn spec_height(&self) -> u32 {
        self.height
    }

    pub closed spec fn spec_tile_zoom(&self) -> u32 {
        self.tile_zoom
    }

    pub closed spec fn spec_dirty(&self) -> bool {
        self.dirty
    }

    /// A `width` by `height` atlas of zero pixels at zoom 0, marked dirty.
    pub fn new(width: u32, height: u32) -> (a: Self)
        requires
            width * height * 4 <= u32::MAX,
        ensures
            a.wf(),
            a.spec_width() == width,
            a.spec_height() == height,
            a.spec_tile_zoom() == 0,
            a.spec_dirty(),
            forall|i: int| 0 <= i < a.spec_data().len() ==> #[trigger] a.spec_data()[i] == 0,
    {
        FixedAtlas { data: zeroed((width * height * 4) as usize), width, height, tile_zoom: 0, dirty: true }
    }

    /// Records a move of the bounds to zoom level `zoom`; the pixels stay,
    /// and the atlas becomes dirty when the bounds changed.
    pub fn update_view(&mut self, bounds_changed: bool, zoom: u32)
        ensures
            final(self).spec_data() == old(self).spec_data(),
            final(self).spec_width() == old(self).spec_width(),
            final(self).spec_height() == old(self).spec_height(),
            final(self).spec_tile_zoom() == zoom,
            final(self).spec_dirty() == (old(self).spec_dirty() || bounds_changed),
    {
        if bounds_changed {
            self.dirty = true;
        }
        self.tile_zoom = zoom;
    }

    /// Overwrites pixel (px, py); every other pixel stays.
    pub fn write_pixel(&mut self, px: u32, py: u32, rgba: [u8; 4])
        requires
            old(self).wf(),
            px < old(self).spec_width(),
            py < old(self).spec_height(),
        ensures
            final(self).wf(),
            final(self).spec_width() == old(self).spec_width(),
            final(self).spec_height() == old(self).spec_height(),
            final(self).spec_tile_zoom() == old(self).spec_tile_zoom(),
            final(self).spec_dirty() == old(self).spec_dirty(),
            final(self).spec_data().len() == old(self).spec_data().len(),
            forall|c: int| 0 <= c < 4 ==> #[trigger] final(self).spec_data()[pixel_byte(old(self).spec_width() as int, px as int, py as int, c)] == rgba@[c],
            forall|qx: int, qy: int|
                0 <= qx < old(self).spec_width() && 0 <= qy < old(self).spec_height() && !(qx == px && qy == py)
                    ==> #[trigger] same_pixel(final(self).spec_data(), old(self).spec_data(), old(self).spec_width() as int, qx, qy),
    {
        write_pixel(&mut self.data, self.width, self.height, px, py, rgba);
    }

    /// Sets every byte to zero and marks the atlas dirty.
    pub fn clear(&mut self)
        requires
            old(self).wf(),
        ensures
            final(self).wf(),
            final(self).spec_width() == old(self).spec_width(),
            final(self).spec_height() == old(self).spec_height(),
            final(self).spec_tile_zoom() == old(self).spec_tile_zoom(),
            final(self).spec_dirty(),
            final(self).spec_data().len() == old(self).spec_data().len(),
            forall|i: int| 0 <= i < final(self).spec_data().len() ==> #[trigger] final(self).spec_data()[i] == 0,
    {
        let n = self.data.len();
        let mut i: usize = 0;
        while i < n
            invariant
                i <= n,
                n == self.data@.len(),
                self.width == old(self).width,
                self.height == old(self).height,
                self.tile_zoom == old(self).tile_zoom,
                self.data@.len() == old(self).data@.len(),
                forall|j: int| 0 <= j < i ==> #[trigger] self.data@[j] == 0,
            decreases n - i,
        {
            self.data.set(i, 0);
            i = i + 1;
        }
        self.dirty = true;
    }

    /// Fills the pixels of the rectangle `x_start..x_end` by
    /// `y_start..y_end`, clipped to the atlas, with what `pixel` gives for
    /// them, row by row; a pixel for which it gives `None` is left as it
    /// was, and so is every pixel outside the rectangle. The atlas becomes
    /// dirty.
    pub fn fill_rect_with<F>(&mut self, x_start: u32, x_end: u32, y_start: u32, y_end: u32, pixel: F)
        where
            F: Fn(u32, u32) -> Option<[u8; 4]>,
        requires
            old(self).wf(),
            forall|px: u32, py: u32| #[trigger] pixel.requires((px, py)),
        ensures
            final(self).wf(),
            final(self).spec_width() == old(self).spec_width(),
            final(self).spec_height() == old(self).spec_height(),
            final(self).spec_tile_zoom() == old(self).spec_tile_zoom(),
            final(self).spec_dirty(),
            final(self).spec_data().len() == old(self).spec_data().len(),
            forall|px: int, py: int|
                0 <= px < old(self).spec_width() && 0 <= py < old(self).spec_height() ==> #[trigger] filled(
                    final(self).spec_data(),
                    old(self).spec_data(),
                    old(self).spec_width() as int,
                    clip(x_start, old(self).spec_width()),
                    clip(x_end, old(self).spec_width()),
                    clip(y_start, old(self).spec_height()),
                    clip(y_end, old(self).spec_height()),
                    pixel,
                    px,
                    py,
                ),
    {
        let xs = if x_start < self.width {
            x_start
        } else {
            self.width
        };
        let xe = if x_end < self.width {
            x_end
        } else {
            self.width
        };
        let ys = if y_start < self.height {
            y_start
        } else {
            self.height
        };
        let ye = if y_end < self.height {
            y_end
        } else {
            self.height
        };
        let ghost w = self.width as int;
        let ghost h = self.height as int;
        let mut py = ys;
        while py < ye
            invariant
                self.wf(),
                self.width == old(self).width,
                self.height == old(self).height,
                self.tile_zoom == old(self).tile_zoom,
                w == self.width,
                h == self.height,
                xs <= w,
                xe <= w,
                ys <= py,
                ys <= h,
                ye <= h,
                py <= ye || py == ys,
                ys <= ye ==> py <= ye,
                forall|px: u32, py: u32| #[trigger] pixel.requires((px, py)),
                forall|qx: int, qy: int|
                    0 <= qx < w && 0 <= qy < h ==> #[trigger] filled(
                        self.data@,
                        old(self).data@,
                        w,
                        xs as int,
                        xe as int,
                        ys as int,
                        py as int,
                        pixel,
                        qx,
                        qy,
                    ),
            decreases ye - py,
        {
            proof {
                assert forall|qx: int, qy: int| 0 <= qx < w && 0 <= qy < h implies #[trigger] filled_partial(
                    self.data@,
                    old(self).data@,
                    w,
                    xs as int,
                    xe as int,
                    ys as int,
                    py as int,
                    xs as int,
                    pixel,
                    qx,
                    qy,
                ) by {
                    assert(filled(self.data@, old(self).data@, w, xs as int, xe as int, ys as int, py as int, pixel, qx, qy));
                }
            }
            let mut px = xs;
            while px < xe
                invariant
                    self.wf(),
                    self.width == old(self).width,
                    self.height == old(self).height,
                    self.tile_zoom == old(self).tile_zoom,
                    w == self.width,
                    h == self.height,
                    xs <= px,
                    px <= xe || px == xs,
                    xs <= xe ==> px <= xe,
                    xe <= w,
                    ys <= py < ye,
                    ye <= h,
                    forall|px: u32, py: u32| #[trigger] pixel.requires((px, py)),
                    forall|qx: int, qy: int|
                        0 <= qx < w && 0 <= qy < h ==> #[trigger] filled_partial(
                            self.data@,
                            old(self).data@,
                            w,
                            xs as int,
                            xe as int,
                            ys as int,
                            py as int,
                            px as int,
                            pixel,
                            qx,
                            qy,
                        ),
                decreases xe - px,
            {
                let out = pixel(px, py);
                let ghost before = self.data@;
                match out {
                    Some(rgba) => {
                        write_pixel(&mut self.data, self.width, self.height, px, py, rgba);
                    },
                    None => {},
                }
                proof {
                    assert forall|qx: int, qy: int| 0 <= qx < w && 0 <= qy < h implies #[trigger] filled_partial(
                        self.data@,
                        old(self).data@,
                        w,
                        xs as int,
                        xe as int,
                        ys as int,
                        py as int,
                        px + 1,
                        pixel,
                        qx,
                        qy,
                    ) by {
                        assert(filled_partial(before, old(self).data@, w, xs as int, xe as int, ys as int, py as int, px as int, pixel, qx, qy));
                        if qx == px && qy == py {
                            assert(same_pixel(before, old(self).data@, w, qx, qy));
                            if out is None {
                                assert(same_pixel(self.data@, old(self).data@, w, qx, qy));
                            }
                            assert(pixel_is(self.data@, old(self).data@, w, qx, qy, out));
                        } else {
                            assert(same_pixel(self.data@, before, w, qx, qy));
                            if (xs <= qx < xe && ys <= qy < py) || (qy == py && xs <= qx < px) {
                                let o = choose|o: Option<[u8; 4]>| #[trigger] pixel.ensures((qx as u32, qy as u32), o) && pixel_is(before, old(self).data@, w, qx, qy, o);
                                lemma_pixel_transfer(self.data@, before, old(self).data@, w, qx, qy, o);
                            } else {
                                lemma_pixel_transfer(self.data@, before, old(self).data@, w, qx, qy, None);
                            }
                        }
                    }
                }
                px = px + 1;
            }
            proof {
                assert forall|qx: int, qy: int| 0 <= qx < w && 0 <= qy < h implies #[trigger] filled(
                    self.data@,
                    old(self).data@,
                    w,
                    xs as int,
                    xe as int,
                    ys as int,
                    py + 1,
                    pixel,
                    qx,
                    qy,
                ) by {
                    assert(filled_partial(self.data@, old(self).data@, w, xs as int, xe as int, ys as int, py as int, px as int, pixel, qx, qy));
                }
            }
            py = py + 1;
        }
        proof {
            assert forall|qx: int, qy: int| 0 <= qx < w && 0 <= qy < h implies #[trigger] filled(
                self.data@,
                old(self).data@,
                w,
                xs as int,
                xe as int,
                ys as int,
                ye as int,
                pixel,
                qx,
                qy,
            ) by {
                assert(filled(self.data@, old(self).data@, w, xs as int, xe as int, ys as int, py as int, pixel, qx, qy));
            }
        }
        self.dirty = true;
    }

    /// Whether a tile at zoom `z` with `len` bytes can be placed: it must be
    /// of the atlas zoom level and hold 256 by 256 RGBA pixels.
    pub fn accepts_tile(&self, z: u32, len: usize) -> (r: bool)
        ensures
            r == (z == self.spec_tile_zoom() && len == 256 * 256 * 4),
    {
        z == self.tile_zoom && len == 262144
    }

    /// Whether the atlas has no pixels (zero width or height).
    pub fn is_empty(&self) -> (r: bool)
        ensures
            r == (self.spec_width() == 0 || self.spec_height() == 0),
    {
        self.width == 0 || self.height == 0
    }

    pub fn get_data_len(&self) -> (r: usize)
        ensures
            r == self.spec_data().len(),
    {
        self.data.len()
    }

    /// A copy of the pixel buffer.
    pub fn get_data_copy(&self) -> (r: Vec<u8>)
        ensures
            r@ == self.spec_data(),
    {
        self.data.clone()
    }

    /// The pixel buffer, row-major RGBA.
    pub fn data(&self) -> (r: &Vec<u8>)
        ensures
            r@ == self.spec_data(),
    {
        &self.data
    }

    pub fn get_width(&self) -> (r: u32)
        ensures
            r == self.spec_width(),
    {
        self.width
    }

    pub fn get_height(&self) -> (r: u32)
        ensures
            r == self.spec_height(),
    {
        self.height
    }

    pub fn get_tile_zoom(&self) -> (r: u32)
        ensures
            r == self.spec_tile_zoom(),
    {
        self.tile_zoom
    }

    pub fn is_dirty(&self) -> (r: bool)
        ensures
            r == self.spec_dirty(),
    {
        self.dirty
    }

    /// Marks the atlas clean (after an upload); nothing else changes.
    pub fn clear_dirty(&mut self)
        ensures
            final(self).spec_data() == old(self).spec_data(),
            final(self).spec_width() == old(self).spec_width(),
            final(self).spec_height() == old(self).spec_height(),
            final(self).spec_tile_zoom() == old(self).spec_tile_zoom(),
            !final(self).spec_dirty(),
    {
        self.dirty = false;
    }

    /// The red and green bytes of the four pixels around (x0, y0) used for
    /// bilinear sampling, or `None` unless all four are valid.
    pub fn sample_corners(&self, x0: u32, y0: u32) -> (r: Option<((u8, u8), (u8, u8), (u8, u8), (u8, u8))>)
        requires
            self.wf(),
            self.spec_width() > 0,
            self.spec_height() > 0,
            x0 < u32::MAX,
            y0 < u32::MAX,
        ensures
            r == corner_texels(self.spec_data(), self.spec_width() as int, self.spec_height() as int, x0 as int, y0 as int),
    {
        read_corners(&self.data, self.width, self.height, x0, y0)
    }
}

/// `v` held inside `0..=limit`.
pub open spec fn clip(v: u32, limit: u32) -> int {
    if v < limit { v as int } else { limit as int }
}

/// Pixel (px, py) of `new` is what `pixel` gives for it, when it lies in
/// the rectangle `x_lo..x_hi` by `y_lo..y_hi` and `pixel` gives a value,
/// and is the pixel of `old` otherwise.
pub open spec fn filled<F: Fn(u32, u32) -> Option<[u8; 4]>>(
    new: Seq<u8>,
    old: Seq<u8>,
    width: int,
    x_lo: int,
    x_hi: int,
    y_lo: int,
    y_hi: int,
    pixel: F,
    px: int,
    py: int,
) -> bool {
    if x_lo <= px < x_hi && y_lo <= py < y_hi {
        exists|out: Option<[u8; 4]>|
            #[trigger] pixel.ensures((px as u32, py as u32), out) && pixel_is(new, old, width, px, py, out)
    } else {
        same_pixel(new, old, width, px, py)
    }
}

/// Like `filled` for rows `y_lo..y_row` plus row `y_row` up to column
/// `x_cur`.
pub open spec fn filled_partial<F: Fn(u32, u32) -> Option<[u8; 4]>>(
    new: Seq<u8>,
    old: Seq<u8>,
    width: int,
    x_lo: int,
    x_hi: int,
    y_lo: int,
    y_row: int,
    x_cur: int,
    pixel: F,
    px: int,
    py: int,
) -> bool {
    if (x_lo <= px < x_hi && y_lo <= py < y_row) || (py == y_row && x_lo <= px < x_cur) {
        exists|out: Option<[u8; 4]>|
            #[trigger] pixel.ensures((px as u32, py as u32), out) && pixel_is(new, old, width, px, py, out)
    } else {
        same_pixel(new, old, width, px, py)
    }
}

/// Pixel (px, py) of `new` holds `out` when it is a value, and is the
/// pixel of `old` when it is `None`.
pub open spec fn pixel_is(new: Seq<u8>, old: Seq<u8>, width: int, px: int, py: int, out: Option<[u8; 4]>) -> bool {
    match out {
        Some(rgba) => forall|c: int| 0 <= c < 4 ==> #[trigger] new[pixel_byte(width, px, py, c)] == rgba@[c],
        None => same_pixel(new, old, width, px, py),
    }
}

/// What holds of a pixel of `mid` holds of it in `new` when the two agree
/// on that pixel.
proof fn lemma_pixel_transfer(new: Seq<u8>, mid: Seq<u8>, old: Seq<u8>, width: int, px: int, py: int, out: Option<[u8; 4]>)
    requires
        same_pixel(new, mid, width, px, py),
    ensures
        pixel_is(mid, old, width, px, py, out) ==> pixel_is(new, old, width, px, py, out),
        same_pixel(mid, old, width, px, py) ==> same_pixel(new, old, width, px, py),
{
    assert forall|c: int| 0 <= c < 4 implies #[trigger] new[pixel_byte(width, px, py, c)] == mid[pixel_byte(width, px, py, c)] by {
    }
}

/// Pixel (x, y) of a 256 by 256 RGBA tile, or four zero bytes when the
/// tile data is too short to hold it.
pub open spec fn tile_pixel(tile: Seq<u8>, x: int, y: int) -> Seq<u8> {
    let idx = pixel_byte(256, x, y, 0);
    if idx + 3 < tile.len() {
        seq![tile[idx], tile[idx + 1], tile[idx + 2], tile[idx + 3]]
    } else {
        seq![0u8, 0u8, 0u8, 0u8]
    }
}

/// The four tile pixels around (x0, y0) used for bilinear resampling:
/// (x0, y0), (x1, y0), (x0, y1), (x1, y1), with x1 and y1 the next column
/// and row held inside the tile. `None` when any of them has alpha 0.
pub open spec fn tile_corners(tile: Seq<u8>, x0: int, y0: int) -> Option<(Seq<u8>, Seq<u8>, Seq<u8>, Seq<u8>)> {
    let x1 = if x0 + 1 < 255 { x0 + 1 } else { 255 };
    let y1 = if y0 + 1 < 255 { y0 + 1 } else { 255 };
    let p00 = tile_pixel(tile, x0, y0);
    let p10 = tile_pixel(tile, x1, y0);
    let p01 = tile_pixel(tile, x0, y1);
    let p11 = tile_pixel(tile, x1, y1);
    if p00[3] == 0 || p10[3] == 0 || p01[3] == 0 || p11[3] == 0 {
        None
    } else {
        Some((p00, p10, p01, p11))
    }
}

/// The four pixels read for resampling a 256 by 256 tile at (x0, y0): pixel
/// (x0, y0), the next pixel to the right, the pixel below, and the pixel
/// below and to the right, where "next" stops at column and row 255. The
/// row below depends on y0 alone, the column to the right on x0 alone. They
/// are read exactly when none of the four has alpha 0.
pub proof fn law_tile_corners(tile: Seq<u8>, x0: int, y0: int)
    requires
        0 <= x0 < 256,
        0 <= y0 < 256,
        tile.len() == 256 * 256 * 4,
    ensures
        ({
            let x1 = if x0 < 255 { x0 + 1 } else { x0 };
            let y1 = if y0 < 255 { y0 + 1 } else { y0 };
            let i00 = (y0 * 256 + x0) * 4;
            let i10 = (y0 * 256 + x1) * 4;
            let i01 = (y1 * 256 + x0) * 4;
            let i11 = (y1 * 256 + x1) * 4;
            &&& (tile_corners(tile, x0, y0) is Some) <==> (tile[i00 + 3] != 0 && tile[i10 + 3] != 0 && tile[i01 + 3]
                != 0 && tile[i11 + 3] != 0)
            &&& tile_corners(tile, x0, y0) is Some ==> tile_corners(tile, x0, y0) == Some(
                (
                    tile.subrange(i00, i00 + 4),
                    tile.subrange(i10, i10 + 4),
                    tile.subrange(i01, i01 + 4),
                    tile.subrange(i11, i11 + 4),
                ),
            )
        }),
{
    let x1 = if x0 < 255 { x0 + 1 } else { x0 };
    let y1 = if y0 < 255 { y0 + 1 } else { y0 };
    lemma_pixel_byte_bound(256, 256, x0, y0, 3);
    lemma_pixel_byte_bound(256, 256, x1, y0, 3);
    lemma_pixel_byte_bound(256, 256, x0, y1, 3);
    lemma_pixel_byte_bound(256, 256, x1, y1, 3);
    let i00 = (y0 * 256 + x0) * 4;
    let i10 = (y0 * 256 + x1) * 4;
    let i01 = (y1 * 256 + x0) * 4;
    let i11 = (y1 * 256 + x1) * 4;
    assert(tile_pixel(tile, x0, y0) =~= tile.subrange(i00, i00 + 4));
    assert(tile_pixel(tile, x1, y0) =~= tile.subrange(i10, i10 + 4));
    assert(tile_pixel(tile, x0, y1) =~= tile.subrange(i01, i01 + 4));
    assert(tile_pixel(tile, x1, y1) =~= tile.subrange(i11, i11 + 4));
}

fn read_tile_pixel(tile: &[u8], x: u32, y: u32) -> (r: [u8; 4])
    requires
        x < 256,
        y < 256,
    ensures
        r@ == tile_pixel(tile@, x as int, y as int),
{
    proof {
        lemma_pixel_byte_bound(256, 256, x as int, y as int, 0);
    }
    let idx = ((y * TILE_SIZE + x) * 4) as usize;
    if idx + 3 < tile.len() {
        let r = [tile[idx], tile[idx + 1], tile[idx + 2], tile[idx + 3]];
        assert(r@ =~= tile_pixel(tile@, x as int, y as int));
        r
    } else {
        let r = [0u8, 0u8, 0u8, 0u8];
        assert(r@ =~= tile_pixel(tile@, x as int, y as int));
        r
    }
}

/// Reads the four tile pixels around (x0, y0); see `tile_corners`.
pub fn read_tile_corners(tile: &[u8], x0: u32, y0: u32) -> (r: Option<([u8; 4], [u8; 4], [u8; 4], [u8; 4])>)
    requires
        x0 < 256,
        y0 < 256,
    ensures
        match r {
            Some((a, b, c, d)) => tile_corners(tile@, x0 as int, y0 as int) == Some((a@, b@, c@, d@)),
            None => tile_corners(tile@, x0 as int, y0 as int) is None,
        },
{
    let x1 = if x0 + 1 < TILE_SIZE - 1 {
        x0 + 1
    } else {
        TILE_SIZE - 1
    };
    let y1 = if y0 + 1 < TILE_SIZE - 1 {
        y0 + 1
    } else {
        TILE_SIZE - 1
    };
    let p00 = read_tile_pixel(tile, x0, y0);
    let p10 = read_tile_pixel(tile, x1, y0);
    let p01 = read_tile_pixel(tile, x0, y1);
    let p11 = read_tile_pixel(tile, x1, y1);
    if p00[3] == 0 || p10[3] == 0 || p01[3] == 0 || p11[3] == 0 {
        None
    } else {
        Some((p00, p10, p01, p11))
    }
}

} // verus!
