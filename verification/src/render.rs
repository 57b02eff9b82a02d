//! CPU raster of a board rectangle into RGBA8 texels, one texel per cell, rows from the top
//! (largest `y`) down.

use vstd::prelude::*;
use crate::board_raster::raster_bounds_ok;
use crate::grid::OccupancyGrid;
use crate::spiral::{spiral_index, xy_to_index};
use crate::viewport::{grid_texture_size, GridBounds};

verus! {

/// How occupied cells are coloured on the board texture.
#[derive(Clone, Copy, Debug, Default, PartialEq, Eq, Structural)]
pub enum BoardColourMode {
    /// Each cell in its piece's colour.
    #[default]
    Piece,
}

/// Colour of cell `(x, y)`: its piece's colour, or `empty` when the cell is empty or its piece
/// has no colour.
pub open spec fn cell_color(colors: Seq<[u8; 4]>, occ: OccupancyGrid, empty: [u8; 4], x: int, y: int) -> [u8; 4] {
    match occ.spec_piece_at(spiral_index(x, y)) {
        Some(p) => if p < colors.len() { colors[p as int] } else { empty },
        None => empty,
    }
}

/// Byte `j` of the texture of `b`, `width` texels per row: a channel of the colour of its cell.
pub open spec fn texel_byte(b: GridBounds, width: int, colors: Seq<[u8; 4]>, occ: OccupancyGrid, empty: [u8; 4], j: int) -> u8 {
    let q = j / 4;
    cell_color(colors, occ, empty, b.min_x + q % width, b.max_y - q / width)[j % 4]
}

/// The texture of `b` is `width × height` texels: one per cell, and it fits in memory.
pub open spec fn texture_matches(b: GridBounds, width: u32, height: u32) -> bool {
    &&& raster_bounds_ok(b)
    &&& width == b.max_x - b.min_x + 1
    &&& height == b.max_y - b.min_y + 1
    &&& width * height * 4 <= usize::MAX
}

/// Fill every texel of `data` with `pixel`.
fn fill_rgba_buffer_u32(data: &mut Vec<u8>, pixel: [u8; 4])
    requires
        old(data)@.len() % 4 == 0,
    ensures
        final(data)@.len() == old(data)@.len(),
        forall|j: int| 0 <= j < final(data)@.len() ==> #[trigger] final(data)@[j] == pixel[j % 4],
{
    let n = data.len();
    let mut j: usize = 0;
    while j < n
        invariant
            n == data@.len(),
            j <= n,
            forall|i: int| 0 <= i < j ==> #[trigger] data@[i] == pixel[i % 4],
        decreases n - j,
    {
        data.set(j, pixel[j % 4]);
        j += 1;
    }
}

/// `q == row * width + col` with `col < width` splits back into its row and column.
proof fn lemma_texel_row_col(q: int, row: int, col: int, width: int)
    requires
        width > 0,
        0 <= row,
        0 <= col < width,
        q == row * width + col,
    ensures
        q / width == row,
        q % width == col,
{
    vstd::arithmetic::div_mod::lemma_fundamental_div_mod_converse(q, width, row, col);
}

/// Paint the occupied cells of grid row `y` that have a colour.
fn raster_one_row(y: i32, bounds: GridBounds, width: u32, height: u32, occupancy: &OccupancyGrid, piece_colors: &[[u8; 4]], empty: [u8; 4], data: &mut Vec<u8>)
    requires
        texture_matches(bounds, width, height),
        bounds.min_y <= y <= bounds.max_y,
        old(data)@.len() == width * height * 4,
        forall|j: int| 0 <= j < old(data)@.len() ==> #[trigger] old(data)@[j] == if bounds.max_y - (j / 4) / (width as int) < y {
            texel_byte(bounds, width as int, piece_colors@, *occupancy, empty, j)
        } else {
            empty[j % 4]
        },
    ensures
        final(data)@.len() == old(data)@.len(),
        forall|j: int| 0 <= j < final(data)@.len() ==> #[trigger] final(data)@[j] == if bounds.max_y - (j / 4) / (width as int) <= y {
            texel_byte(bounds, width as int, piece_colors@, *occupancy, empty, j)
        } else {
            empty[j % 4]
        },
{
    let py = (bounds.max_y as i64 - y as i64) as u32;
    let ghost w = width as int;
    let ghost h = height as int;
    proof {
        assert(py < h);
        assert(py * w + w <= h * w) by (nonlinear_arith)
            requires py < h, w > 0;
        assert(h * w * 4 == w * h * 4) by (nonlinear_arith);
    }
    let row_base: usize = (py as usize) * (width as usize);
    let mut col: u32 = 0;
    let ghost before = data@;
    while col < width
        invariant
            texture_matches(bounds, width, height),
            bounds.min_y <= y <= bounds.max_y,
            w == width,
            h == height,
            w > 0,
            py == bounds.max_y - y,
            py < h,
            row_base == py * w,
            row_base + w <= h * w,
            h * w * 4 == w * h * 4,
            data@.len() == width * height * 4,
            col <= width,
            forall|j: int| 0 <= j < data@.len() ==> #[trigger] data@[j] == if bounds.max_y - (j / 4) / w < y || (row_base * 4 <= j < (row_base + col) * 4) {
                texel_byte(bounds, w, piece_colors@, *occupancy, empty, j)
            } else {
                empty[j % 4]
            },
        decreases width - col,
    {
        let x = (bounds.min_x as i64 + col as i64) as i32;
        assert(raster_bounds_ok(bounds));
        assert(crate::spiral::xy_in_u32_domain(x as int, y as int));
        let index = xy_to_index(x, y);
        let q: usize = row_base + col as usize;
        let ghost cell = cell_color(piece_colors@, *occupancy, empty, x as int, y as int);
        proof {
            lemma_texel_row_col(q as int, py as int, col as int, w);
        }
        match occupancy.piece_id_at(index) {
            Some(p) => {
                if p < piece_colors.len() {
                    let c = piece_colors[p];
                    assert(c == cell);
                    let base = q * 4;
                    data.set(base, c[0]);
                    data.set(base + 1, c[1]);
                    data.set(base + 2, c[2]);
                    data.set(base + 3, c[3]);
                } else {
                    assert(cell == empty);
                }
            },
            None => {
                assert(cell == empty);
            },
        }
        proof {
            assert forall|j: int| 0 <= j < data@.len() implies #[trigger] data@[j] == if bounds.max_y - (j / 4) / w < y || (row_base * 4 <= j < (row_base + col + 1) * 4) {
                texel_byte(bounds, w, piece_colors@, *occupancy, empty, j)
            } else {
                empty[j % 4]
            } by {
                if q * 4 <= j < q * 4 + 4 {
                    assert(j / 4 == q);
                    assert(j % 4 == j - q * 4);
                    assert((j / 4) / w == py);
                }
            }
        }
        col += 1;
    }
    proof {
        assert forall|j: int| 0 <= j < data@.len() implies #[trigger] data@[j] == if bounds.max_y - (j / 4) / w <= y {
            texel_byte(bounds, w, piece_colors@, *occupancy, empty, j)
        } else {
            empty[j % 4]
        } by {
            let q = j / 4;
            let r = q / w;
            assert(q >= 0);
            if row_base <= q < row_base + w {
                lemma_texel_row_col(q, py as int, q - row_base, w);
                assert(row_base * 4 <= j < (row_base + w) * 4);
            } else {
                assert(!(row_base * 4 <= j < (row_base + w) * 4));
                if r == py {
                    assert(row_base <= q < row_base + w) by (nonlinear_arith)
                        requires r == q / w, r == py, row_base == py * w, w > 0, q >= 0,
                    {
                        vstd::arithmetic::div_mod::lemma_fundamental_div_mod(q, w);
                    }
                }
            }
        }
    }
}

/// Raster the cells of `bounds` into `data`, `width × height` texels (`width` and `height` are
/// the rectangle's size): first every texel `empty`, then each occupied cell whose piece has a
/// colour in that colour.
pub fn raster_spiral_grid_into(bounds: GridBounds, width: u32, height: u32, occupancy: &OccupancyGrid, piece_colors: &[[u8; 4]], empty: [u8; 4], colour_mode: BoardColourMode, data: &mut Vec<u8>)
    requires
        texture_matches(bounds, width, height),
        old(data)@.len() == width * height * 4,
    ensures
        final(data)@.len() == old(data)@.len(),
        forall|j: int| 0 <= j < final(data)@.len() ==> #[trigger] final(data)@[j] == texel_byte(bounds, width as int, piece_colors@, *occupancy, empty, j),
{
    proof {
        assert((width * height * 4) % 4 == 0) by (nonlinear_arith);
    }
    fill_rgba_buffer_u32(data, empty);
    match colour_mode {
        BoardColourMode::Piece => {
            let mut y = bounds.min_y;
            proof {
                assert forall|j: int| 0 <= j < data@.len() implies #[trigger] data@[j] == if bounds.max_y - (j / 4) / (width as int) < y {
                    texel_byte(bounds, width as int, piece_colors@, *occupancy, empty, j)
                } else {
                    empty[j % 4]
                } by {
                    let q = j / 4;
                    assert(0 <= q < (width as int) * (height as int));
                    assert(q / (width as int) < height) by (nonlinear_arith)
                        requires 0 <= q < (width as int) * (height as int), width > 0,
                    {
                        vstd::arithmetic::div_mod::lemma_fundamental_div_mod(q, width as int);
                    }
                }
            }
            loop
                invariant_except_break
                    forall|j: int| 0 <= j < data@.len() ==> #[trigger] data@[j] == if bounds.max_y - (j / 4) / (width as int) < y {
                        texel_byte(bounds, width as int, piece_colors@, *occupancy, empty, j)
                    } else {
                        empty[j % 4]
                    },
                invariant
                    texture_matches(bounds, width, height),
                    bounds.min_y <= y <= bounds.max_y,
                    data@.len() == width * height * 4,
                ensures
                    data@.len() == width * height * 4,
                    forall|j: int| 0 <= j < data@.len() ==> #[trigger] data@[j] == texel_byte(bounds, width as int, piece_colors@, *occupancy, empty, j),
                decreases bounds.max_y - y,
            {
                raster_one_row(y, bounds, width, height, occupancy, piece_colors, empty, data);
                if y == bounds.max_y {
                    proof {
                        assert forall|j: int| 0 <= j < data@.len() implies #[trigger] data@[j] == texel_byte(bounds, width as int, piece_colors@, *occupancy, empty, j) by {
                            let q = j / 4;
                            assert(q / (width as int) >= 0) by (nonlinear_arith)
                                requires q >= 0, width > 0;
                        }
                    }
                    break;
                }
                y = y + 1;
            }
        },
    }
}

/// A fresh `width × height` texture of `bounds` (see [`raster_spiral_grid_into`]).
pub fn raster_spiral_grid(bounds: GridBounds, width: u32, height: u32, occupancy: &OccupancyGrid, piece_colors: &[[u8; 4]], empty: [u8; 4], colour_mode: BoardColourMode) -> (data: Vec<u8>)
    requires
        texture_matches(bounds, width, height),
    ensures
        data@.len() == width * height * 4,
        forall|j: int| 0 <= j < data@.len() ==> #[trigger] data@[j] == texel_byte(bounds, width as int, piece_colors@, *occupancy, empty, j),
{
    let len = (width as usize) * (height as usize) * 4;
    let mut data: Vec<u8> = vec![0u8; len];
    raster_spiral_grid_into(bounds, width, height, occupancy, piece_colors, empty, colour_mode, &mut data);
    data
}

/// FNV-style checksum of bytes.
pub open spec fn spec_raster_checksum(data: Seq<u8>) -> u64
    decreases data.len(),
{
    if data.len() == 0 {
        0xcbf2_9ce4_8422_2325u64
    } else {
        let h = spec_raster_checksum(data.drop_last());
        vstd::wrapping::u64_specs::wrapping_mul(h ^ (data.last() as u64), 0x0000_0100_0000_01b3)
    }
}

/// FNV-style checksum for raster regression checks.
pub fn raster_checksum(data: &[u8]) -> (hash: u64)
    ensures
        hash == spec_raster_checksum(data@),
{
    let mut hash = 0xcbf2_9ce4_8422_2325u64;
    let mut i: usize = 0;
    while i < data.len()
        invariant
            i <= data@.len(),
            hash == spec_raster_checksum(data@.take(i as int)),
        decreases data.len() - i,
    {
        proof {
            assert(data@.take(i + 1).drop_last() == data@.take(i as int));
        }
        hash = hash ^ (data[i] as u64);
        hash = hash.wrapping_mul(0x0000_0100_0000_01b3);
        i += 1;
    }
    assert(data@.take(data@.len() as int) == data@);
    hash
}


/// Largest texture side, in cells, that the board is drawn at; a larger view is not redrawn.
pub const GPU_TEXTURE_DIMENSION_LIMIT: u32 = 16_000;

/// What the board texture was last drawn from, and the buffer it is drawn into.
pub struct RenderCache {
    pub rendered_bounds: Option<GridBounds>,
    pub colour_mode: BoardColourMode,
    /// The texels of the last drawing, rows from the top down; reused between redraws.
    pub scratch_rgba: Vec<u8>,
}

/// A redraw is skipped: no piece colours, no view, a view wider or taller than the texture
/// limit, or nothing changed since the last drawing.
pub open spec fn redraw_skipped(
    rendered_bounds: Option<GridBounds>,
    rendered_mode: BoardColourMode,
    bounds: Option<GridBounds>,
    render_dirty: bool,
    n_colors: nat,
    colour_mode: BoardColourMode,
) -> bool {
    match bounds {
        None => true,
        Some(b) => {
            ||| n_colors == 0
            ||| b.spec_width() > GPU_TEXTURE_DIMENSION_LIMIT
            ||| b.spec_height() > GPU_TEXTURE_DIMENSION_LIMIT
            ||| (!render_dirty && rendered_bounds == bounds && rendered_mode == colour_mode)
        },
    }
}

impl RenderCache {
    /// Nothing drawn yet.
    pub fn new() -> (cache: Self)
        ensures
            cache.rendered_bounds is None,
            cache.colour_mode == BoardColourMode::Piece,
            cache.scratch_rgba@.len() == 0,
    {
        RenderCache { rendered_bounds: None, colour_mode: BoardColourMode::Piece, scratch_rgba: Vec::new() }
    }

    /// Redraw the board texture of `bounds` unless [`redraw_skipped`] says otherwise. On a
    /// redraw the buffer holds the raster of `bounds` (see [`raster_spiral_grid_into`]), the
    /// cache remembers `bounds` and `colour_mode`, and the texture's size in cells is returned;
    /// the caller then clears its dirty flag. A skipped redraw changes nothing.
    pub fn redraw(
        &mut self,
        bounds: Option<GridBounds>,
        render_dirty: bool,
        occupancy: &OccupancyGrid,
        piece_colors: &[[u8; 4]],
        empty: [u8; 4],
        colour_mode: BoardColourMode,
    ) -> (drawn: Option<(u32, u32)>)
        requires
            bounds matches Some(b) ==> b.size_fits() && raster_bounds_ok(b),
        ensures
            drawn is None <==> redraw_skipped(old(self).rendered_bounds, old(self).colour_mode, bounds, render_dirty, piece_colors@.len(), colour_mode),
            drawn is None ==> *final(self) == *old(self),
            drawn matches Some(size) ==> {
                let b = bounds->Some_0;
                &&& size.0 == b.spec_width()
                &&& size.1 == b.spec_height()
                &&& final(self).rendered_bounds == bounds
                &&& final(self).colour_mode == colour_mode
                &&& final(self).scratch_rgba@.len() == size.0 * size.1 * 4
                &&& forall|j: int| 0 <= j < final(self).scratch_rgba@.len() ==> #[trigger] final(self).scratch_rgba@[j]
                    == texel_byte(b, size.0 as int, piece_colors@, *occupancy, empty, j)
            },
    {
        if piece_colors.len() == 0 {
            return None;
        }
        let b = match bounds {
            None => { return None; },
            Some(b) => b,
        };
        let (width, height) = grid_texture_size(b);
        if width > GPU_TEXTURE_DIMENSION_LIMIT || height > GPU_TEXTURE_DIMENSION_LIMIT {
            return None;
        }
        let same_bounds = match self.rendered_bounds {
            Some(r) => r == b,
            None => false,
        };
        if !render_dirty && same_bounds && self.colour_mode == colour_mode {
            return None;
        }
        proof {
            assert(width * height <= 16_000 * 16_000) by (nonlinear_arith)
                requires width <= 16_000, height <= 16_000;
        }
        let byte_len = (width as usize) * (height as usize) * 4;
        if self.scratch_rgba.len() != byte_len {
            self.scratch_rgba.resize(byte_len, 0);
        }
        raster_spiral_grid_into(b, width, height, occupancy, piece_colors, empty, colour_mode, &mut self.scratch_rgba);
        self.rendered_bounds = Some(b);
        self.colour_mode = colour_mode;
        Some((width, height))
    }
}

} // verus!
