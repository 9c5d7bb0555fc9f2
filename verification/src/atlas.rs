use vstd::prelude::*;
use vstd::arithmetic::mul::lemma_mul_inequality;
use crate::grid::{pixel_byte, same_pixel, lemma_pixel_byte_bound, write_pixel, corner_texels, read_corners};

verus! {

/// A map tile: zoom level z, column x, row y.
#[derive(Clone, Copy, Debug, PartialEq, Eq, Structural, Hash)]
pub struct TileCoord {
    pub z: u32,
    pub x: u32,
    pub y: u32,
}

impl TileCoord {
    pub fn new(z: u32, x: u32, y: u32) -> (t: Self)
        ensures
            t == (TileCoord { z, x, y }),
    {
        TileCoord { z, x, y }
    }
}

/// Number of tiles along each axis at a zoom level, as a 32-bit signed
/// count: 2^zoom, saturated at `i32::MAX` for zoom 31.
pub open spec fn tiles_per_side(zoom: u32) -> int {
    if zoom <= 30 { vstd::arithmetic::power2::pow2(zoom as nat) as int } else { i32::MAX as int }
}

/// The first and last index of a tile range `lo..=hi` after clipping it to
/// the grid `0..n`.
pub open spec fn clip_lo(lo: int) -> int {
    if lo < 0 { 0 } else { lo }
}

pub open spec fn clip_hi(hi: int, n: int) -> int {
    if hi < n - 1 { hi } else { n - 1 }
}

/// Number of indices in `lo..=hi`.
pub open spec fn span(lo: int, hi: int) -> int {
    if lo <= hi { hi - lo + 1 } else { 0 }
}

fn side_count(zoom: u32) -> (n: i32)
    requires
        zoom < 32,
    ensures
        n == tiles_per_side(zoom),
        n >= 1,
{
    if zoom <= 30 {
        proof {
            vstd::arithmetic::power2::lemma_pow2(zoom as nat);
            vstd::arithmetic::power2::lemma2_to64();
            vstd::arithmetic::power2::lemma_pow2_strictly_increases(zoom as nat, 31);
            vstd::arithmetic::power2::lemma_pow2_pos(zoom as nat);
        }
        let n: u32 = 1u32 << zoom;
        proof {
            vstd::bits::lemma_u32_shl_is_mul(1, zoom);
        }
        n as i32
    } else {
        i32::MAX
    }
}

/// Row-major position `row * cols + col` comes before every position of a
/// later row, and before later columns of the same row.
pub(crate) proof fn lemma_row_major_lt(cols: int, row: int, col: int, rows_done: int, cols_done: int)
    requires
        0 <= col < cols,
        0 <= row,
        0 <= cols_done,
        row < rows_done || (row == rows_done && col < cols_done),
    ensures
        0 <= row * cols + col < rows_done * cols + cols_done,
{
    assert(0 <= row * cols) by (nonlinear_arith)
        requires
            0 <= row,
            0 <= cols,
    ;
    if row < rows_done {
        lemma_mul_inequality(row + 1, rows_done, cols);
        assert((row + 1) * cols == row * cols + cols) by (nonlinear_arith);
    }
}

/// Whether entry (row, col) of a row-major tile list is the tile at column
/// `x_lo + col`, row `y_lo + row`.
pub open spec fn grid_entry(tiles: Seq<TileCoord>, zoom: u32, x_lo: int, y_lo: int, cols: int, row: int, col: int) -> bool {
    tiles[row * cols + col] == (TileCoord { z: zoom, x: (x_lo + col) as u32, y: (y_lo + row) as u32 })
}

/// The tiles of zoom level `zoom` with column in `x_min..=x_max` and row in
/// `y_min..=y_max`, both ranges clipped to the grid, row after row.
pub fn tiles_in_range(zoom: u32, x_min: i32, x_max: i32, y_min: i32, y_max: i32) -> (r: Vec<TileCoord>)
    requires
        zoom < 32,
    ensures
        ({
            let n = tiles_per_side(zoom);
            let x_lo = clip_lo(x_min as int);
            let y_lo = clip_lo(y_min as int);
            let cols = span(x_lo, clip_hi(x_max as int, n));
            let rows = span(y_lo, clip_hi(y_max as int, n));
            &&& r@.len() == rows * cols
            &&& forall|row: int, col: int|
                0 <= row < rows && 0 <= col < cols ==> #[trigger] grid_entry(r@, zoom, x_lo, y_lo, cols, row, col)
        }),
{
    let n = side_count(zoom);
    let x_lo: i32 = if x_min < 0 {
        0
    } else {
        x_min
    };
    let x_hi: i32 = if x_max < n - 1 {
        x_max
    } else {
        n - 1
    };
    let y_lo: i32 = if y_min < 0 {
        0
    } else {
        y_min
    };
    let y_hi: i32 = if y_max < n - 1 {
        y_max
    } else {
        n - 1
    };
    let ghost cols = span(x_lo as int, x_hi as int);
    let ghost rows = span(y_lo as int, y_hi as int);
    let mut tiles: Vec<TileCoord> = Vec::new();
    let mut y = y_lo;
    while y <= y_hi
        invariant
            0 <= x_lo,
            0 <= y_lo <= y,
            x_hi < i32::MAX,
            y_hi < i32::MAX,
            y <= y_hi + 1 || y == y_lo,
            cols == span(x_lo as int, x_hi as int),
            rows == span(y_lo as int, y_hi as int),
            tiles@.len() == (y - y_lo) * cols,
            forall|row: int, col: int|
                0 <= row < y - y_lo && 0 <= col < cols ==> #[trigger] grid_entry(tiles@, zoom, x_lo as int, y_lo as int, cols, row, col),
        decreases y_hi + 1 - y,
    {
        let mut x = x_lo;
        let ghost row_now = y - y_lo;
        while x <= x_hi
            invariant
                0 <= x_lo <= x,
                x_hi < i32::MAX,
                x <= x_hi + 1 || x == x_lo,
                0 <= y_lo <= y <= y_hi,
                row_now == y - y_lo,
                cols == span(x_lo as int, x_hi as int),
                tiles@.len() == row_now * cols + (x - x_lo),
                forall|row: int, col: int|
                    0 <= col < cols && (0 <= row < row_now || (row == row_now && col < x - x_lo)) ==> #[trigger] grid_entry(
                        tiles@,
                        zoom,
                        x_lo as int,
                        y_lo as int,
                        cols,
                        row,
                        col,
                    ),
            decreases x_hi + 1 - x,
        {
            let ghost before = tiles@;
            tiles.push(TileCoord::new(zoom, x as u32, y as u32));
            proof {
                assert forall|row: int, col: int|
                    0 <= col < cols && (0 <= row < row_now || (row == row_now && col < x + 1 - x_lo)) implies #[trigger] grid_entry(
                        tiles@,
                        zoom,
                        x_lo as int,
                        y_lo as int,
                        cols,
                        row,
                        col,
                    ) by {
                    if row == row_now && col == x - x_lo {
                    } else {
                        lemma_row_major_lt(cols, row, col, row_now, x - x_lo);
                        assert(grid_entry(before, zoom, x_lo as int, y_lo as int, cols, row, col));
                    }
                }
            }
            x = x + 1;
        }
        proof {
            if x_lo > x_hi {
                assert(cols == 0);
            }
            assert(x - x_lo == cols);
            assert(row_now * cols + cols == (row_now + 1) * cols) by (nonlinear_arith);
        }
        y = y + 1;
    }
    proof {
        if y_lo > y_hi {
            assert(rows == 0);
            assert(tiles@.len() == 0);
        }
    }
    tiles
}

/// Side of a tile in pixels.
pub const TILE_SIZE: u32 = 256;

/// A buffer of `n` zero bytes.
pub(crate) fn zeroed(n: usize) -> (v: Vec<u8>)
    ensures
        v@.len() == n,
        forall|i: int| 0 <= i < n ==> #[trigger] v@[i] == 0,
{
    let mut v: Vec<u8> = Vec::new();
    let mut i: usize = 0;
    while i < n
        invariant
            i <= n,
            v@.len() == i,
            forall|j: int| 0 <= j < i ==> #[trigger] v@[j] == 0,
        decreases n - i,
    {
        v.push(0);
        i = i + 1;
    }
    v
}

/// Whether the tile (z, x, y) has a place in an atlas whose grid starts at
/// tile (min_x, min_y), spans `cols` by `rows` tiles at zoom `zoom`, for a
/// tile of `len` bytes.
pub open spec fn tile_fits(zoom: u32, min_x: u32, min_y: u32, cols: u32, rows: u32, z: u32, x: u32, y: u32, len: int) -> bool {
    &&& z == zoom
    &&& len == TILE_SIZE * TILE_SIZE * 4
    &&& x >= min_x
    &&& y >= min_y
    &&& x - min_x < cols
    &&& y - min_y < rows
}


/// Smallest number of a non-empty sequence (0 for the empty one).
pub open spec fn seq_min(s: Seq<u32>) -> u32
    decreases s.len(),
{
    if s.len() == 0 {
        0
    } else if s.len() == 1 {
        s[0]
    } else {
        let m = seq_min(s.drop_last());
        if s.last() < m { s.last() } else { m }
    }
}

/// Largest number of a non-empty sequence (0 for the empty one).
pub open spec fn seq_max(s: Seq<u32>) -> u32
    decreases s.len(),
{
    if s.len() == 0 {
        0
    } else if s.len() == 1 {
        s[0]
    } else {
        let m = seq_max(s.drop_last());
        if s.last() > m { s.last() } else { m }
    }
}

pub open spec fn columns_of(tiles: Seq<TileCoord>) -> Seq<u32> {
    tiles.map_values(|t: TileCoord| t.x)
}

pub open spec fn rows_of(tiles: Seq<TileCoord>) -> Seq<u32> {
    tiles.map_values(|t: TileCoord| t.y)
}

/// The tiles written out as `[z, x, y, z, x, y, ...]`.
pub open spec fn flatten_tiles(tiles: Seq<TileCoord>) -> Seq<u32>
    decreases tiles.len(),
{
    if tiles.len() == 0 {
        Seq::empty()
    } else {
        flatten_tiles(tiles.drop_last()) + seq![tiles.last().z, tiles.last().x, tiles.last().y]
    }
}

/// Number of tile columns and rows of the smallest grid that holds the tiles.
pub open spec fn grid_span(tiles: Seq<TileCoord>) -> (int, int) {
    (
        seq_max(columns_of(tiles)) - seq_min(columns_of(tiles)) + 1,
        seq_max(rows_of(tiles)) - seq_min(rows_of(tiles)) + 1,
    )
}

/// Smallest and largest column and row of a non-empty tile list.
pub fn tile_extent(tiles: &Vec<TileCoord>) -> (r: (u32, u32, u32, u32))
    requires
        tiles@.len() > 0,
    ensures
        r == (
            seq_min(columns_of(tiles@)),
            seq_max(columns_of(tiles@)),
            seq_min(rows_of(tiles@)),
            seq_max(rows_of(tiles@)),
        ),
        r.0 <= r.1,
        r.2 <= r.3,
{
    let mut min_x = tiles[0].x;
    let mut max_x = tiles[0].x;
    let mut min_y = tiles[0].y;
    let mut max_y = tiles[0].y;
    let mut i: usize = 1;
    proof {
        assert(columns_of(tiles@).take(1) =~= seq![tiles@[0].x]);
        assert(rows_of(tiles@).take(1) =~= seq![tiles@[0].y]);
    }
    while i < tiles.len()
        invariant
            1 <= i <= tiles@.len(),
            min_x == seq_min(columns_of(tiles@).take(i as int)),
            max_x == seq_max(columns_of(tiles@).take(i as int)),
            min_y == seq_min(rows_of(tiles@).take(i as int)),
            max_y == seq_max(rows_of(tiles@).take(i as int)),
            min_x <= max_x,
            min_y <= max_y,
        decreases tiles@.len() - i,
    {
        let t = tiles[i];
        if t.x < min_x {
            min_x = t.x;
        }
        if t.x > max_x {
            max_x = t.x;
        }
        if t.y < min_y {
            min_y = t.y;
        }
        if t.y > max_y {
            max_y = t.y;
        }
        proof {
            assert(columns_of(tiles@).take(i + 1).drop_last() =~= columns_of(tiles@).take(i as int));
            assert(rows_of(tiles@).take(i + 1).drop_last() =~= rows_of(tiles@).take(i as int));
        }
        i = i + 1;
    }
    proof {
        assert(columns_of(tiles@).take(tiles@.len() as int) =~= columns_of(tiles@));
        assert(rows_of(tiles@).take(tiles@.len() as int) =~= rows_of(tiles@));
    }
    (min_x, max_x, min_y, max_y)
}

/// The tiles written out as `[z, x, y, z, x, y, ...]`.
pub fn flatten_tile_list(tiles: &Vec<TileCoord>) -> (r: Vec<u32>)
    ensures
        r@ == flatten_tiles(tiles@),
{
    let mut out: Vec<u32> = Vec::new();
    let mut i: usize = 0;
    while i < tiles.len()
        invariant
            i <= tiles@.len(),
            out@ == flatten_tiles(tiles@.take(i as int)),
        decreases tiles@.len() - i,
    {
        let t = tiles[i];
        out.push(t.z);
        out.push(t.x);
        out.push(t.y);
        proof {
            assert(tiles@.take(i + 1).drop_last() =~= tiles@.take(i as int));
        }
        i = i + 1;
    }
    proof {
        assert(tiles@.take(tiles@.len() as int) =~= tiles@);
    }
    out
}

/// Pixel storage of an atlas that covers a rectangular grid of tiles of one
/// zoom level; each tile takes 256 by 256 RGBA pixels, placed row-major.
/// The map bounds that give the pixels their geographic meaning are kept
/// by the caller.
pub struct DynamicAtlas {
    data: Vec<u8>,
    width: u32,
    height: u32,
    tile_zoom: u32,
    tiles_min_x: u32,
    tiles_min_y: u32,
    tiles_cols: u32,
    tiles_rows: u32,
}

impl DynamicAtlas {
    /// The buffer holds every pixel of a `width` by `height` image, which is
    /// the tile grid at 256 pixels per tile.
    pub open spec fn wf(&self) -> bool {
        &&& self.spec_data().len() == self.spec_width() * self.spec_height() * 4
        &&& self.spec_width() * self.spec_height() * 4 <= u32::MAX
        &&& self.spec_width() == self.spec_grid().2 * TILE_SIZE
        &&& self.spec_height() == self.spec_grid().3 * TILE_SIZE
    }

    pub closed spec fn spec_data(&self) -> Seq<u8> {
        self.data@
    }

    pub closed spec fn spec_width(&self) -> u32 {
        self.width
    }

    pub closed spec fn spec_height(&self) -> u32 {
        self.height
    }

    /// The image size in bytes fits in 32 bits, and the buffer holds it.
    pub proof fn lemma_size_bound(&self)
        requires
            self.wf(),
        ensures
            self.spec_width() * self.spec_height() * 4 <= u32::MAX,
            self.spec_data().len() == self.spec_width() * self.spec_height() * 4,
    {
    }

    pub closed spec fn spec_tile_zoom(&self) -> u32 {
        self.tile_zoom
    }

    /// The first column, first row, number of columns and number of rows of
    /// the tile grid.
    pub closed spec fn spec_grid(&self) -> (u32, u32, u32, u32) {
        (self.tiles_min_x, self.tiles_min_y, self.tiles_cols, self.tiles_rows)
    }

    /// An empty atlas: no pixels, zoom 0, an empty grid at (0, 0).
    pub fn new() -> (a: Self)
        ensures
            a.wf(),
            a.spec_data() == Seq::<u8>::empty(),
            a.spec_width() == 0,
            a.spec_height() == 0,
            a.spec_tile_zoom() == 0,
            a.spec_grid() == (0u32, 0u32, 0u32, 0u32),
    {
        DynamicAtlas {
            data: Vec::new(),
            width: 0,
            height: 0,
            tile_zoom: 0,
            tiles_min_x: 0,
            tiles_min_y: 0,
            tiles_cols: 0,
            tiles_rows: 0,
        }
    }

    pub fn get_width(&self) -> (r: u32)
        ensures
            r == self.spec_width(),
    {
        self.width
    }

    pub fn get_height(&self) -> (r: u32)
        ensures
            r == self.spec_height(),
    {
        self.height
    }

    pub fn get_tile_zoom(&self) -> (r: u32)
        ensures
            r == self.spec_tile_zoom(),
    {
        self.tile_zoom
    }

    pub fn get_data_len(&self) -> (r: usize)
        ensures
            r == self.spec_data().len(),
    {
        self.data.len()
    }

    /// Whether the atlas has no pixels (zero width or height).
    pub fn is_empty(&self) -> (r: bool)
        ensures
            r == (self.spec_width() == 0 || self.spec_height() == 0),
    {
        self.width == 0 || self.height == 0
    }

    /// The tile grid: first column, first row, number of columns, number of
    /// rows.
    pub fn get_grid(&self) -> (r: (u32, u32, u32, u32))
        ensures
            r == self.spec_grid(),
    {
        (self.tiles_min_x, self.tiles_min_y, self.tiles_cols, self.tiles_rows)
    }

    /// The pixel buffer, row-major RGBA.
    pub fn data(&self) -> (r: &Vec<u8>)
        ensures
            r@ == self.spec_data(),
    {
        &self.data
    }

    /// Copies a 256 by 256 RGBA tile into its place in the atlas. A tile of
    /// another zoom level, of another size, or outside the grid is ignored.
    pub fn set_tile(&mut self, z: u32, x: u32, y: u32, data: &[u8])
        requires
            old(self).wf(),
        ensures
            final(self).wf(),
            final(self).spec_width() == old(self).spec_width(),
            final(self).spec_height() == old(self).spec_height(),
            final(self).spec_tile_zoom() == old(self).spec_tile_zoom(),
            final(self).spec_grid() == old(self).spec_grid(),
            final(self).spec_data().len() == old(self).spec_data().len(),
            ({
                let (min_x, min_y, cols, rows) = old(self).spec_grid();
                let w = old(self).spec_width() as int;
                let h = old(self).spec_height() as int;
                let off_x = (x - min_x) * 256;
                let off_y = (y - min_y) * 256;
                if tile_fits(old(self).spec_tile_zoom(), min_x, min_y, cols, rows, z, x, y, data@.len() as int) {
                    &&& forall|tx: int, ty: int, c: int|
                        0 <= tx < 256 && 0 <= ty < 256 && 0 <= c < 4 ==> #[trigger] final(self).spec_data()[pixel_byte(
                            w,
                            off_x + tx,
                            off_y + ty,
                            c,
                        )] == data@[pixel_byte(256, tx, ty, c)]
                    &&& forall|px: int, py: int|
                        0 <= px < w && 0 <= py < h && !(off_x <= px < off_x + 256 && off_y <= py < off_y + 256)
                            ==> #[trigger] same_pixel(final(self).spec_data(), old(self).spec_data(), w, px, py)
                } else {
                    final(self).spec_data() == old(self).spec_data()
                }
            }),
    {
        if z != self.tile_zoom {
            return;
        }
        if data.len() != (TILE_SIZE * TILE_SIZE * 4) as usize {
            return;
        }
        if x < self.tiles_min_x || y < self.tiles_min_y {
            return;
        }
        let col = x - self.tiles_min_x;
        let row = y - self.tiles_min_y;
        if col >= self.tiles_cols || row >= self.tiles_rows {
            return;
        }
        let ghost w = self.width as int;
        let ghost h = self.height as int;
        proof {
            assert((col + 1) * 256 <= self.tiles_cols * 256) by (nonlinear_arith)
                requires
                    col < self.tiles_cols,
            ;
            assert((row + 1) * 256 <= self.tiles_rows * 256) by (nonlinear_arith)
                requires
                    row < self.tiles_rows,
            ;
        }
        let offset_x = col * TILE_SIZE;
        let offset_y = row * TILE_SIZE;
        let mut ty: u32 = 0;
        while ty < TILE_SIZE
            invariant
                self.wf(),
                self.width == old(self).width,
                self.height == old(self).height,
                self.tile_zoom == old(self).tile_zoom,
                self.tiles_min_x == old(self).tiles_min_x,
                self.tiles_min_y == old(self).tiles_min_y,
                self.tiles_cols == old(self).tiles_cols,
                self.tiles_rows == old(self).tiles_rows,
                w == self.width,
                h == self.height,
                data@.len() == 256 * 256 * 4,
                offset_x + 256 <= w,
                offset_y + 256 <= h,
                ty <= 256,
                forall|tx: int, ty2: int| 0 <= tx < 256 && 0 <= ty2 < ty ==> #[trigger] copied(self.data@, data@, w, offset_x as int, offset_y as int, tx, ty2),
                forall|px: int, py: int|
                    0 <= px < w && 0 <= py < h && !(offset_x <= px < offset_x + 256 && offset_y <= py < offset_y + ty)
                        ==> #[trigger] same_pixel(self.data@, old(self).data@, w, px, py),
            decreases 256 - ty,
        {
            let mut tx: u32 = 0;
            while tx < TILE_SIZE
                invariant
                    self.wf(),
                    self.width == old(self).width,
                    self.height == old(self).height,
                    self.tile_zoom == old(self).tile_zoom,
                    self.tiles_min_x == old(self).tiles_min_x,
                    self.tiles_min_y == old(self).tiles_min_y,
                    self.tiles_cols == old(self).tiles_cols,
                    self.tiles_rows == old(self).tiles_rows,
                    w == self.width,
                    h == self.height,
                    data@.len() == 256 * 256 * 4,
                    offset_x + 256 <= w,
                    offset_y + 256 <= h,
                    ty < 256,
                    tx <= 256,
                    forall|tx2: int, ty2: int|
                        0 <= tx2 < 256 && 0 <= ty2 < 256 && (ty2 < ty || (ty2 == ty && tx2 < tx)) ==> #[trigger] copied(
                            self.data@,
                            data@,
                            w,
                            offset_x as int,
                            offset_y as int,
                            tx2,
                            ty2,
                        ),
                    forall|px: int, py: int|
                        0 <= px < w && 0 <= py < h && !(offset_x <= px < offset_x + 256 && offset_y <= py < offset_y + ty)
                            && !(py == offset_y + ty && offset_x <= px < offset_x + tx) ==> #[trigger] same_pixel(
                            self.data@,
                            old(self).data@,
                            w,
                            px,
                            py,
                        ),
                decreases 256 - tx,
            {
                proof {
                    lemma_pixel_byte_bound(256, 256, tx as int, ty as int, 0);
                    lemma_pixel_byte_bound(256, 256, tx as int, ty as int, 3);
                }
                let src_idx = ((ty * TILE_SIZE + tx) * 4) as usize;
                let rgba = [data[src_idx], data[src_idx + 1], data[src_idx + 2], data[src_idx + 3]];
                let ghost before = self.data@;
                write_pixel(&mut self.data, self.width, self.height, offset_x + tx, offset_y + ty, rgba);
                proof {
                    assert forall|tx2: int, ty2: int|
                        0 <= tx2 < 256 && 0 <= ty2 < 256 && (ty2 < ty || (ty2 == ty && tx2 < tx + 1)) implies #[trigger] copied(
                            self.data@,
                            data@,
                            w,
                            offset_x as int,
                            offset_y as int,
                            tx2,
                            ty2,
                        ) by {
                        if tx2 == tx && ty2 == ty {
                            assert forall|c: int| 0 <= c < 4 implies #[trigger] self.data@[pixel_byte(w, offset_x + tx2, offset_y + ty2, c)]
                                == data@[pixel_byte(256, tx2, ty2, c)] by {
                                assert(rgba@[c] == data@[pixel_byte(256, tx2, ty2, c)]);
                            }
                        } else {
                            assert(copied(before, data@, w, offset_x as int, offset_y as int, tx2, ty2));
                            assert(same_pixel(self.data@, before, w, offset_x + tx2, offset_y + ty2));
                        }
                    }
                    assert forall|px: int, py: int|
                        0 <= px < w && 0 <= py < h && !(offset_x <= px < offset_x + 256 && offset_y <= py < offset_y + ty)
                            && !(py == offset_y + ty && offset_x <= px < offset_x + tx + 1) implies #[trigger] same_pixel(
                            self.data@,
                            old(self).data@,
                            w,
                            px,
                            py,
                        ) by {
                        assert(same_pixel(before, old(self).data@, w, px, py));
                        assert(same_pixel(self.data@, before, w, px, py));
                    }
                }
                tx = tx + 1;
            }
            ty = ty + 1;
        }
        proof {
            assert forall|tx: int, ty: int, c: int|
                0 <= tx < 256 && 0 <= ty < 256 && 0 <= c < 4 implies #[trigger] self.data@[pixel_byte(
                    w,
                    offset_x + tx,
                    offset_y + ty,
                    c,
                )] == data@[pixel_byte(256, tx, ty, c)] by {
                assert(copied(self.data@, data@, w, offset_x as int, offset_y as int, tx, ty));
            }
        }
    }


    /// Fits the atlas to a list of tiles at zoom `data_zoom`: the grid
    /// becomes the smallest one that holds them, at 256 pixels per tile.
    /// When the grid (its origin or its size) or the zoom level changes, the
    /// pixels are cleared so that every tile is placed again relative to the
    /// new grid; when both stay, the pixels already placed are kept. Returns
    /// the tiles as `[z, x, y, ...]`; an empty list changes nothing.
    pub fn update_grid(&mut self, tiles: &Vec<TileCoord>, data_zoom: u32) -> (r: Vec<u32>)
        requires
            old(self).wf(),
            tiles@.len() > 0 ==> grid_span(tiles@).0 * 256 * grid_span(tiles@).1 * 256 * 4 <= u32::MAX,
        ensures
            final(self).wf(),
            tiles@.len() == 0 ==> r@ == Seq::<u32>::empty() && *final(self) == *old(self),
            tiles@.len() > 0 ==> r@ == flatten_tiles(tiles@),
            tiles@.len() > 0 ==> ({
                let (cols, rows) = grid_span(tiles@);
                let w = cols * 256;
                let h = rows * 256;
                let grid = (seq_min(columns_of(tiles@)), seq_min(rows_of(tiles@)), cols as u32, rows as u32);
                &&& final(self).spec_grid() == grid
                &&& final(self).spec_tile_zoom() == data_zoom
                &&& final(self).spec_width() == w
                &&& final(self).spec_height() == h
                &&& if grid != old(self).spec_grid() || data_zoom != old(self).spec_tile_zoom() {
                    &&& final(self).spec_data().len() == w * h * 4
                    &&& forall|i: int| 0 <= i < w * h * 4 ==> #[trigger] final(self).spec_data()[i] == 0
                } else {
                    *final(self) == *old(self)
                }
            }),
    {
        if tiles.len() == 0 {
            return Vec::new();
        }
        let (min_x, max_x, min_y, max_y) = tile_extent(tiles);
        let ghost cols_i = max_x - min_x + 1;
        let ghost rows_i = max_y - min_y + 1;
        proof {
            assert(cols_i * 256 <= cols_i * 256 * rows_i * 256 * 4) by (nonlinear_arith)
                requires
                    cols_i >= 1,
                    rows_i >= 1,
            ;
            assert(rows_i * 256 <= cols_i * 256 * rows_i * 256 * 4) by (nonlinear_arith)
                requires
                    cols_i >= 1,
                    rows_i >= 1,
            ;
        }
        let cols = max_x - min_x + 1;
        let rows = max_y - min_y + 1;
        let new_width = cols * TILE_SIZE;
        let new_height = rows * TILE_SIZE;
        proof {
            assert(new_width * new_height * 4 == cols_i * 256 * rows_i * 256 * 4) by (nonlinear_arith)
                requires
                    new_width == cols_i * 256,
                    new_height == rows_i * 256,
            ;
        }
        if min_x != self.tiles_min_x || min_y != self.tiles_min_y || cols != self.tiles_cols || rows != self.tiles_rows
            || data_zoom != self.tile_zoom {
            self.width = new_width;
            self.height = new_height;
            self.data = zeroed((new_width * new_height * 4) as usize);
            self.tile_zoom = data_zoom;
            self.tiles_min_x = min_x;
            self.tiles_min_y = min_y;
            self.tiles_cols = cols;
            self.tiles_rows = rows;
        }
        flatten_tile_list(tiles)
    }

    /// The red and green bytes of the four pixels around (x0, y0) used for
    /// bilinear sampling, or `None` unless all four are valid.
    pub fn sample_corners(&self, x0: u32, y0: u32) -> (r: Option<((u8, u8), (u8, u8), (u8, u8), (u8, u8))>)
        requires
            self.wf(),
            self.spec_width() > 0,
            self.spec_height() > 0,
            x0 < u32::MAX,
            y0 < u32::MAX,
        ensures
            r == corner_texels(self.spec_data(), self.spec_width() as int, self.spec_height() as int, x0 as int, y0 as int),
    {
        read_corners(&self.data, self.width, self.height, x0, y0)
    }
}

/// Pixel (tx, ty) of a 256 by 256 tile has been copied to pixel
/// (off_x + tx, off_y + ty) of the atlas.
pub open spec fn copied(atlas: Seq<u8>, tile: Seq<u8>, width: int, off_x: int, off_y: int, tx: int, ty: int) -> bool {
    forall|c: int| 0 <= c < 4 ==> #[trigger] atlas[pixel_byte(width, off_x + tx, off_y + ty, c)] == tile[pixel_byte(256, tx, ty, c)]
}

/// An atlas always measures whole tiles: its width and height are its
/// grid's columns and rows times 256.
pub proof fn law_size_is_whole_tiles(atlas: &DynamicAtlas)
    requires
        atlas.wf(),
    ensures
        atlas.spec_width() == atlas.spec_grid().2 * 256,
        atlas.spec_height() == atlas.spec_grid().3 * 256,
        atlas.spec_width() % 256 == 0,
        atlas.spec_height() % 256 == 0,
        atlas.spec_data().len() == atlas.spec_width() * atlas.spec_height() * 4,
{
}

/// Every tile of a range lies at the requested zoom level, inside the grid
/// of that level.
pub proof fn law_range_tiles_in_grid(tiles: Seq<TileCoord>, zoom: u32, x_min: i32, x_max: i32, y_min: i32, y_max: i32, row: int, col: int)
    requires
        zoom < 32,
        ({
            let n = tiles_per_side(zoom);
            let x_lo = clip_lo(x_min as int);
            let y_lo = clip_lo(y_min as int);
            let cols = span(x_lo, clip_hi(x_max as int, n));
            let rows = span(y_lo, clip_hi(y_max as int, n));
            &&& 0 <= row < rows
            &&& 0 <= col < cols
            &&& grid_entry(tiles, zoom, x_lo, y_lo, cols, row, col)
        }),
    ensures
        ({
            let cols = span(clip_lo(x_min as int), clip_hi(x_max as int, tiles_per_side(zoom)));
            let t = tiles[row * cols + col];
            &&& t.z == zoom
            &&& t.x < tiles_per_side(zoom)
            &&& t.y < tiles_per_side(zoom)
            &&& x_min <= t.x <= x_max
            &&& y_min <= t.y <= y_max
        }),
{
}

/// A tile has a place in the atlas exactly when it is of the atlas zoom
/// level, holds 256 by 256 RGBA pixels, and its column and row lie in the
/// grid's columns and rows.
pub proof fn law_tile_fits(zoom: u32, min_x: u32, min_y: u32, cols: u32, rows: u32, z: u32, x: u32, y: u32, len: int)
    ensures
        tile_fits(zoom, min_x, min_y, cols, rows, z, x, y, len) <==> (z == zoom && len == 262144 && min_x <= x
            < min_x + cols && min_y <= y < min_y + rows),
{
}

/// Every number of a non-empty sequence lies between its smallest and its
/// largest.
pub proof fn lemma_seq_min_max(s: Seq<u32>, i: int)
    requires
        0 <= i < s.len(),
    ensures
        seq_min(s) <= s[i] <= seq_max(s),
    decreases s.len(),
{
    if s.len() > 1 && i < s.len() - 1 {
        lemma_seq_min_max(s.drop_last(), i);
    }
}

/// After the atlas is fitted to a tile list, every tile of the list at the
/// atlas zoom has its place in the grid: `set_tile` writes it at
/// ((x - first column) * 256, (y - first row) * 256), inside the image.
pub proof fn law_fitted_tiles_fit(atlas: &DynamicAtlas, tiles: Seq<TileCoord>, i: int)
    requires
        atlas.wf(),
        0 <= i < tiles.len(),
        tiles[i].z == atlas.spec_tile_zoom(),
        grid_span(tiles).0 * 256 * grid_span(tiles).1 * 256 * 4 <= u32::MAX,
        atlas.spec_grid() == (
            seq_min(columns_of(tiles)),
            seq_min(rows_of(tiles)),
            grid_span(tiles).0 as u32,
            grid_span(tiles).1 as u32,
        ),
    ensures
        ({
            let (min_x, min_y, cols, rows) = atlas.spec_grid();
            let t = tiles[i];
            &&& tile_fits(atlas.spec_tile_zoom(), min_x, min_y, cols, rows, t.z, t.x, t.y, 256 * 256 * 4int)
            &&& (t.x - min_x) * 256 + 256 <= atlas.spec_width()
            &&& (t.y - min_y) * 256 + 256 <= atlas.spec_height()
        }),
{
    lemma_seq_min_max(columns_of(tiles), i);
    lemma_seq_min_max(rows_of(tiles), i);
    let (cols, rows) = grid_span(tiles);
    assert(cols >= 1 && rows >= 1);
    assert(cols <= cols * 256 * rows * 256 * 4) by (nonlinear_arith)
        requires
            cols >= 1,
            rows >= 1,
    ;
    assert(rows <= cols * 256 * rows * 256 * 4) by (nonlinear_arith)
        requires
            cols >= 1,
            rows >= 1,
    ;
}

} // verus!
