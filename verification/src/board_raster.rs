//! Board images: a rectangle of the board rastered row by row into RGBA pixels, each cell
//! painted in its piece's colour and scaled up by a whole number of pixels.

use vstd::prelude::*;
use crate::discover::{sanitize_cell_pixel_scale, MAX_CELL_PIXEL_SCALE};
use crate::grid::OccupancyGrid;
use crate::render::{raster_spiral_grid, texel_byte, BoardColourMode};
use crate::spiral::{chebyshev, lemma_ring_span, ring_start, xy_ring_offset, lemma_square_mono, lemma_xy_ring_offset_inverse, spiral_index, xy_in_u32_domain, xy_to_index};
use crate::viewport::{spec_min, GridBounds};

verus! {

/// `png::EncodingError`, the error the PNG encoder reports.
#[verifier::external_type_specification]
#[verifier::external_body]
pub struct ExEncodingError(png::EncodingError);

/// Bytes of the PNG file that the `png` crate writes for an 8-bit RGBA image of `width ×
/// height` pixels with the given row-major pixel bytes.
pub uninterp spec fn png_rgba8_file(data: Seq<u8>, width: u32, height: u32) -> Seq<u8>;

/// `png::Encoder` set to 8-bit RGBA, writing a header, the image data and the end into memory.
/// On success the bytes are named by [`png_rgba8_file`] of exactly these arguments. Writing into
/// a `Vec` cannot fail, so the encoder refuses only a zero width or height (`write_header`) or
/// data that is not `4 · width · height` bytes (`write_image_data`); those inputs succeed
/// otherwise. Nothing is stated of the error. `requires` keeps `write_image_data`'s row-length
/// products, computed in `usize` before its length test, from overflowing.
#[verifier::external_body]
fn png_bytes_from_rgba(data: &[u8], width: u32, height: u32) -> (r: Result<Vec<u8>, png::EncodingError>)
    requires
        4 * width + 1 <= usize::MAX,
        (4 * width + 1) * height <= usize::MAX,
    ensures
        r matches Ok(bytes) ==> bytes@ == png_rgba8_file(data@, width, height),
        width > 0 && height > 0 && data@.len() == 4 * width * height ==> r is Ok,
{
    let mut buf = Vec::new();
    let mut encoder = png::Encoder::new(std::io::Cursor::new(&mut buf), width, height);
    encoder.set_color(png::ColorType::Rgba);
    encoder.set_depth(png::BitDepth::Eight);
    let mut writer = encoder.write_header()?;
    writer.write_image_data(data)?;
    writer.finish()?;
    Ok(buf)
}

/// Why a board image could not be produced.
#[derive(Clone, Copy, Debug, PartialEq, Eq, Structural)]
pub enum BoardImageError {
    /// The PNG encoder refused the image.
    Encoding,
    /// The rectangle holds a cell without a visit index in `u32` (one left of or below `-32767`,
    /// or right of or above `32768`), or its image would not fit in memory.
    TooLarge,
}

/// Pixels that `image::imageops::resize` with `FilterType::Nearest` produces from the RGBA8
/// image of `width × height` pixels held at the start of `data`, resized to
/// `new_width × new_height`.
pub uninterp spec fn image_nearest_resize(data: Seq<u8>, width: u32, height: u32, new_width: u32, new_height: u32) -> Seq<u8>;

/// Bytes of the PNG file that `image` writes (`ImageFormat::Png`) for the RGBA8 image of
/// `width × height` pixels held at the start of `data`.
pub uninterp spec fn image_png_file(data: Seq<u8>, width: u32, height: u32) -> Seq<u8>;

/// `image::ImageBuffer::from_raw` of the RGBA8 pixels, then `image::imageops::resize` with
/// `FilterType::Nearest`, handing out the raw pixels of the result. `from_raw` refuses a buffer
/// shorter than `4 · width · height` bytes (`None`); otherwise the pixels are named by
/// [`image_nearest_resize`], and `resize` allocates them as `new_width × new_height` RGBA8
/// pixels. `requires` keeps the allocations of `resize` (the result, and an intermediate of
/// `width × new_height` pixels of four `f32`) within what a `Vec` can hold.
#[verifier::external_body]
fn resize_nearest_rgba8(data: Vec<u8>, width: u32, height: u32, new_width: u32, new_height: u32) -> (out: Option<Vec<u8>>)
    requires
        new_width * new_height * 4 <= isize::MAX,
        width * new_height * 16 <= isize::MAX,
    ensures
        out is Some <==> width * height * 4 <= data@.len(),
        out matches Some(pixels) ==> pixels@ == image_nearest_resize(data@, width, height, new_width, new_height)
            && pixels@.len() == new_width * new_height * 4,
{
    let image = image::RgbaImage::from_raw(width, height, data)?;
    Some(image::imageops::resize(&image, new_width, new_height, image::imageops::FilterType::Nearest).into_raw())
}

/// `image::ImageBuffer::from_raw` of the RGBA8 pixels, then `ImageBuffer::write_to` with
/// `ImageFormat::Png` into memory. A buffer shorter than `4 · width · height` bytes is refused
/// by `from_raw`; on success the bytes are named by [`image_png_file`]. `write_to` hands the
/// image's `4 · width · height` bytes to `image`'s PNG encoder, which over a `Vec` refuses only a
/// zero width or height, so a nonzero image of exactly that many bytes succeeds. Nothing is
/// stated of the error, which is handed out as text. `requires` keeps the encoder's row-length
/// products in `usize`.
#[verifier::external_body]
fn png_file_from_rgba8(data: Vec<u8>, width: u32, height: u32) -> (r: Result<Vec<u8>, String>)
    requires
        4 * width + 1 <= usize::MAX,
        (4 * width + 1) * height <= usize::MAX,
    ensures
        r is Ok ==> width * height * 4 <= data@.len(),
        r matches Ok(bytes) ==> bytes@ == image_png_file(data@, width, height),
        width > 0 && height > 0 && data@.len() == 4 * width * height ==> r is Ok,
{
    let Some(image) = image::RgbaImage::from_raw(width, height, data) else {
        return Err(String::from("pixel buffer smaller than the image"));
    };
    let mut bytes = Vec::new();
    image.write_to(&mut std::io::Cursor::new(&mut bytes), image::ImageFormat::Png).map_err(|e| e.to_string())?;
    Ok(bytes)
}

/// The board image of `b` at `s` pixels per cell fits: its edges in `u32`, and its pixels, and
/// the four-`f32` pixels of the intermediate the resize makes, in a `Vec`.
pub open spec fn board_image_fits(b: GridBounds, s: int) -> bool {
    let w = b.max_x - b.min_x + 1;
    let h = b.max_y - b.min_y + 1;
    &&& w * s <= u32::MAX
    &&& h * s <= u32::MAX
    &&& (w * s) * (h * s) * 16 <= isize::MAX
}

/// RGBA8 pixels of the board image of `b`, one texel per cell, rows from the top: the grid
/// texture of [`crate::render::raster_spiral_grid`] with [`EMPTY_RGBA`] for empty cells.
pub open spec fn board_texels(colors: Seq<[u8; 4]>, occ: OccupancyGrid, b: GridBounds) -> Seq<u8> {
    let w = b.max_x - b.min_x + 1;
    let h = b.max_y - b.min_y + 1;
    Seq::new((w * h * 4) as nat, |j: int| texel_byte(b, w, colors, occ, EMPTY_RGBA, j))
}

/// Pixels of the board image of `b` at `s` pixels per cell: the texels themselves at one pixel
/// per cell, otherwise the texels resized by `image` with the nearest filter.
pub open spec fn board_image_pixels(colors: Seq<[u8; 4]>, occ: OccupancyGrid, b: GridBounds, s: int) -> Seq<u8> {
    let w = b.max_x - b.min_x + 1;
    let h = b.max_y - b.min_y + 1;
    if s == 1 {
        board_texels(colors, occ, b)
    } else {
        image_nearest_resize(board_texels(colors, occ, b), w as u32, h as u32, (w * s) as u32, (h * s) as u32)
    }
}


/// Colour of an empty cell.
pub const EMPTY_RGBA: [u8; 4] = [31, 31, 41, 255];

/// Colour of cell `(x, y)`: its piece's colour, or [`EMPTY_RGBA`] when it is empty or its piece
/// has no colour.
pub open spec fn cell_rgba(colors: Seq<[u8; 4]>, occ: OccupancyGrid, x: int, y: int) -> [u8; 4] {
    match occ.spec_piece_at(spiral_index(x, y)) {
        Some(p) => if p < colors.len() { colors[p as int] } else { EMPTY_RGBA },
        None => EMPTY_RGBA,
    }
}

/// Pixels per cell after clamping a requested scale to `1..=32`.
pub open spec fn clamped_scale(scale: u32) -> int {
    if scale < 1 {
        1
    } else if scale > MAX_CELL_PIXEL_SCALE {
        MAX_CELL_PIXEL_SCALE as int
    } else {
        scale as int
    }
}

/// An image of `b` at `s` pixels per cell has rows of at most `u32::MAX` bytes, at most
/// `u32::MAX` rows, and at most `usize::MAX` bytes in all.
pub open spec fn raster_fits(b: GridBounds, s: int) -> bool {
    let w = b.max_x - b.min_x + 1;
    let h = b.max_y - b.min_y + 1;
    &&& w * s * 4 <= u32::MAX
    &&& h * s <= u32::MAX
    &&& (w * s) * (h * s) * 4 <= usize::MAX
}

/// Every cell of `b` has a visit index in `u32`, and `b` is not empty.
pub open spec fn raster_bounds_ok(b: GridBounds) -> bool {
    &&& b.min_x <= b.max_x
    &&& b.min_y <= b.max_y
    &&& forall|x: int, y: int| b.min_x <= x <= b.max_x && b.min_y <= y <= b.max_y ==> #[trigger] xy_in_u32_domain(x, y)
}

/// `b` is not empty and lies in `[-32767, 32768]` on both axes: the square of cells whose
/// visit indices fit in `u32` (every ring up to `32767`, and the east and north sides of ring
/// `32768` up to its last index `u32::MAX`).
pub open spec fn within_index_domain(b: GridBounds) -> bool {
    &&& -32767 <= b.min_x <= b.max_x <= 32768
    &&& -32767 <= b.min_y <= b.max_y <= 32768
}

/// A cell in `[-32767, 32768]` on both axes has a visit index in `u32`.
proof fn lemma_domain_cell(x: int, y: int)
    requires
        -32767 <= x <= 32768,
        -32767 <= y <= 32768,
    ensures
        xy_in_u32_domain(x, y),
{
    if !(x == 0 && y == 0) {
        lemma_xy_ring_offset_inverse(x, y);
        let r = chebyshev(x, y);
        if r <= 32767 {
            lemma_ring_span(r);
            lemma_square_mono(2 * r + 1, 65535);
            assert(65535 * 65535 < u32::MAX);
        } else {
            assert(r == 32768);
            assert(ring_start(r) == 65535 * 65535);
            assert(xy_ring_offset(x, y) <= 131070);
            assert(65535 * 65535 + 131070 == u32::MAX);
        }
    }
}

/// Rectangles in the index domain hold only cells with a visit index in `u32`.
proof fn lemma_index_domain_ok(b: GridBounds)
    requires
        within_index_domain(b),
    ensures
        raster_bounds_ok(b),
{
    assert forall|x: int, y: int| b.min_x <= x <= b.max_x && b.min_y <= y <= b.max_y implies #[trigger] xy_in_u32_domain(x, y) by {
        lemma_domain_cell(x, y);
    }
}

/// Incremental raster of a board rectangle, `cell_pixel_scale` pixels per cell, RGBA rows from
/// the top (largest `y`) down; grid rows are filled from the bottom up, a few per call.
pub struct BoardPngRaster {
    bounds: GridBounds,
    occupancy: OccupancyGrid,
    piece_colors: Vec<[u8; 4]>,
    cell_pixel_scale: u32,
    width: u32,
    height: u32,
    out_w: u32,
    out_h: u32,
    out_data: Vec<u8>,
    next_row: u32,
}

impl BoardPngRaster {
    pub closed spec fn spec_bounds(&self) -> GridBounds {
        self.bounds
    }

    pub closed spec fn spec_scale(&self) -> int {
        self.cell_pixel_scale as int
    }

    pub closed spec fn spec_height(&self) -> int {
        self.height as int
    }

    pub closed spec fn spec_out_w(&self) -> int {
        self.out_w as int
    }

    pub closed spec fn spec_out_h(&self) -> int {
        self.out_h as int
    }

    /// Grid rows rastered so far (from the bottom of the rectangle).
    pub closed spec fn spec_rows_done(&self) -> int {
        self.next_row as int
    }

    pub closed spec fn spec_data(&self) -> Seq<u8> {
        self.out_data@
    }

    pub closed spec fn spec_colors(&self) -> Seq<[u8; 4]> {
        self.piece_colors@
    }

    pub closed spec fn spec_occupancy(&self) -> OccupancyGrid {
        self.occupancy
    }

    /// Byte `j` of the image once the rows below `rows_done` are rastered: the colour channel of
    /// its cell, or zero in rows not yet rastered.
    pub open spec fn expected_byte(&self, j: int, rows_done: int) -> u8 {
        let q = j / 4;
        let oy = q / self.spec_out_w();
        let ox = q % self.spec_out_w();
        let gy = self.spec_height() - 1 - oy / self.spec_scale();
        if gy < rows_done {
            let b = self.spec_bounds();
            cell_rgba(self.spec_colors(), self.spec_occupancy(), b.min_x + ox / self.spec_scale(), b.max_y - oy / self.spec_scale())[j % 4]
        } else {
            0
        }
    }

    pub closed spec fn wf(&self) -> bool {
        &&& raster_bounds_ok(self.bounds)
        &&& 1 <= self.cell_pixel_scale <= MAX_CELL_PIXEL_SCALE
        &&& self.width == self.bounds.max_x - self.bounds.min_x + 1
        &&& self.height == self.bounds.max_y - self.bounds.min_y + 1
        &&& self.out_w == self.width * self.cell_pixel_scale
        &&& self.out_h == self.height * self.cell_pixel_scale
        &&& self.out_data@.len() == self.out_w * self.out_h * 4
        &&& self.out_w >= 1
        &&& self.out_h >= 1
        &&& self.out_w * 4 <= u32::MAX
        &&& self.out_w * self.out_h * 4 <= usize::MAX
        &&& self.next_row <= self.height
        &&& forall|j: int| 0 <= j < self.out_data@.len() ==> #[trigger] self.out_data@[j] == self.expected_byte(j, self.next_row as int)
    }

    /// Prepare a raster of `bounds`, `cell_pixel_scale` (clamped to `1..=32`) pixels per cell.
    pub fn new(piece_colors: Vec<[u8; 4]>, occupancy: &OccupancyGrid, bounds: GridBounds, cell_pixel_scale: u32) -> (r: Self)
        requires
            raster_bounds_ok(bounds),
            raster_fits(bounds, clamped_scale(cell_pixel_scale)),
        ensures
            r.wf(),
            r.spec_bounds() == bounds,
            r.spec_scale() == clamped_scale(cell_pixel_scale),
            r.spec_rows_done() == 0,
            r.spec_colors() == piece_colors@,
            r.spec_occupancy().spec_cells() == occupancy.spec_cells(),
    {
        let s = sanitize_cell_pixel_scale(cell_pixel_scale);
        let ghost w = bounds.max_x - bounds.min_x + 1;
        let ghost h = bounds.max_y - bounds.min_y + 1;
        proof {
            lemma_image_fits(w, h, s as int);
        }
        let width = (bounds.max_x as i64 - bounds.min_x as i64 + 1) as u32;
        let height = (bounds.max_y as i64 - bounds.min_y as i64 + 1) as u32;
        assert(width == w && height == h);
        let out_w = width * s;
        let out_h = height * s;
        let len = (out_w as usize) * (out_h as usize) * 4;
        let out_data: Vec<u8> = vec![0u8; len];
        let r = Self {
            bounds,
            occupancy: occupancy.snapshot(),
            piece_colors,
            cell_pixel_scale: s,
            width,
            height,
            out_w,
            out_h,
            out_data,
            next_row: 0,
        };
        proof {
            assert forall|j: int| 0 <= j < r.out_data@.len() implies #[trigger] r.out_data@[j] == r.expected_byte(j, 0) by {
                let q = j / 4;
                let ow = out_w as int;
                let oh = out_h as int;
                assert(0 <= q < ow * oh);
                let oy = q / ow;
                assert(0 <= oy < oh) by (nonlinear_arith)
                    requires 0 <= q < ow * oh, ow >= 1, oy == q / ow,
                {
                    vstd::arithmetic::div_mod::lemma_fundamental_div_mod(q, ow);
                }
                assert(0 <= oy / (s as int) < height) by (nonlinear_arith)
                    requires 0 <= oy < oh, oh == height * s, s >= 1,
                {
                    vstd::arithmetic::div_mod::lemma_fundamental_div_mod(oy, s as int);
                }
                assert(r.out_data@[j] == 0u8);
            }
        }
        r
    }

    /// [`Self::new`] for a rectangle in the index domain ([`within_index_domain`]) whose image
    /// fits ([`raster_fits`]); `None` for any other rectangle.
    pub fn try_new(piece_colors: Vec<[u8; 4]>, occupancy: &OccupancyGrid, bounds: GridBounds, cell_pixel_scale: u32) -> (r: Option<Self>)
        ensures
            r is Some <==> within_index_domain(bounds) && raster_fits(bounds, clamped_scale(cell_pixel_scale)),
            r matches Some(raster) ==> {
                &&& raster.wf()
                &&& raster.spec_bounds() == bounds
                &&& raster.spec_scale() == clamped_scale(cell_pixel_scale)
                &&& raster.spec_rows_done() == 0
                &&& raster.spec_colors() == piece_colors@
                &&& raster.spec_occupancy().spec_cells() == occupancy.spec_cells()
            },
    {
        if !(-32767 <= bounds.min_x && bounds.min_x <= bounds.max_x && bounds.max_x <= 32768
            && -32767 <= bounds.min_y && bounds.min_y <= bounds.max_y && bounds.max_y <= 32768) {
            return None;
        }
        let s = sanitize_cell_pixel_scale(cell_pixel_scale) as u64;
        let w = (bounds.max_x as i64 - bounds.min_x as i64 + 1) as u64;
        let h = (bounds.max_y as i64 - bounds.min_y as i64 + 1) as u64;
        proof {
            assert(w * s <= 65536 * 32 && h * s <= 65536 * 32) by (nonlinear_arith)
                requires w <= 65536, h <= 65536, s <= 32;
            assert((w * s) * (h * s) <= (65536 * 32) * (65536 * 32)) by (nonlinear_arith)
                requires 0 <= w * s <= 65536 * 32, 0 <= h * s <= 65536 * 32;
        }
        let row_bytes = w * s * 4;
        let rows = h * s;
        let total = (w * s) * (h * s) * 4;
        if row_bytes > u32::MAX as u64 || rows > u32::MAX as u64 || total > usize::MAX as u64 {
            return None;
        }
        proof {
            lemma_index_domain_ok(bounds);
        }
        Some(Self::new(piece_colors, occupancy, bounds, cell_pixel_scale))
    }

    /// Colour of the cell at column `px` of grid row `y`.
    fn color_at(&self, x: i32, y: i32) -> (c: [u8; 4])
        requires
            xy_in_u32_domain(x as int, y as int),
        ensures
            c == cell_rgba(self.spec_colors(), self.spec_occupancy(), x as int, y as int),
    {
        let index = xy_to_index(x, y);
        match self.occupancy.piece_id_at(index) {
            Some(p) => {
                if p < self.piece_colors.len() {
                    self.piece_colors[p]
                } else {
                    EMPTY_RGBA
                }
            },
            None => EMPTY_RGBA,
        }
    }

    /// Raster up to `max_grid_rows` more grid rows. Returns `true` when every row is done.
    pub fn advance(&mut self, max_grid_rows: u32) -> (done: bool)
        requires
            old(self).wf(),
        ensures
            final(self).wf(),
            final(self).spec_bounds() == old(self).spec_bounds(),
            final(self).spec_scale() == old(self).spec_scale(),
            final(self).spec_colors() == old(self).spec_colors(),
            final(self).spec_occupancy() == old(self).spec_occupancy(),
            final(self).spec_rows_done() == spec_min(old(self).spec_rows_done() + max_grid_rows, old(self).spec_height()),
            done == (final(self).spec_rows_done() == final(self).spec_height()),
    {
        let mut processed: u32 = 0;
        while self.next_row < self.height && processed < max_grid_rows
            invariant
                self.wf(),
                self.bounds == old(self).bounds,
                self.cell_pixel_scale == old(self).cell_pixel_scale,
                self.piece_colors@ == old(self).piece_colors@,
                self.occupancy == old(self).occupancy,
                self.height == old(self).height,
                processed <= max_grid_rows,
                self.next_row == old(self).next_row + processed,
            decreases self.height - self.next_row,
        {
            self.raster_row();
            processed = processed + 1;
        }
        self.next_row >= self.height
    }

    /// Raster grid row `next_row` into its band of output rows.
    fn raster_row(&mut self)
        requires
            old(self).wf(),
            old(self).next_row < old(self).height,
        ensures
            final(self).wf(),
            final(self).next_row == old(self).next_row + 1,
            final(self).bounds == old(self).bounds,
            final(self).cell_pixel_scale == old(self).cell_pixel_scale,
            final(self).piece_colors@ == old(self).piece_colors@,
            final(self).occupancy == old(self).occupancy,
            final(self).height == old(self).height,
            final(self).width == old(self).width,
            final(self).out_w == old(self).out_w,
            final(self).out_h == old(self).out_h,
    {
        let s = self.cell_pixel_scale;
        let gy = self.next_row;
        let y = (self.bounds.min_y as i64 + gy as i64) as i32;
        let py = self.height - 1 - gy;
        let out_w = self.out_w;
        let ghost rows = gy as int;
        proof {
            lemma_band(py as int, s as int, out_w as int, self.out_h as int, self.height as int);
        }
        proof {
            assert(py * s * out_w + s * out_w == (py * s + s) * out_w) by (nonlinear_arith);
            assert(self.out_h * out_w * 4 == out_w * self.out_h * 4) by (nonlinear_arith);
            assert(py * s + s <= self.out_h) by (nonlinear_arith)
                requires py < self.height, self.out_h == self.height * s, s >= 1;
            assert(s * out_w <= (py * s + s) * out_w) by (nonlinear_arith)
                requires py >= 0, s >= 1, out_w >= 1;
            assert(usize::MAX <= u64::MAX);
        }
        let lo: u64 = (py as u64) * (s as u64) * (out_w as u64);
        let hi: u64 = lo + (s as u64) * (out_w as u64);
        assert(hi * 4 <= self.out_data@.len());
        let mut q: u64 = lo;
        while q < hi
            invariant
                1 <= s <= MAX_CELL_PIXEL_SCALE,
                s == self.cell_pixel_scale,
                self.bounds == old(self).bounds,
                self.cell_pixel_scale == old(self).cell_pixel_scale,
                self.piece_colors@ == old(self).piece_colors@,
                self.occupancy == old(self).occupancy,
                self.height == old(self).height,
                self.width == old(self).width,
                self.out_w == old(self).out_w,
                self.out_h == old(self).out_h,
                self.out_w >= 1,
                self.out_h >= 1,
                self.out_w * 4 <= u32::MAX,
                self.out_w * self.out_h * 4 <= usize::MAX,
                out_w == self.out_w,
                out_w == self.width * s,
                self.out_h == self.height * s,
                self.width == self.bounds.max_x - self.bounds.min_x + 1,
                self.height == self.bounds.max_y - self.bounds.min_y + 1,
                raster_bounds_ok(self.bounds),
                self.out_data@.len() == out_w * self.out_h * 4,
                gy == self.next_row,
                gy < self.height,
                py == self.height - 1 - gy,
                y == self.bounds.min_y + gy,
                lo == py * s * out_w,
                hi == lo + s * out_w,
                hi * 4 <= self.out_data@.len(),
                lo <= q <= hi,
                forall|j: int| 0 <= j < self.out_data@.len() ==> #[trigger] self.out_data@[j] == if lo * 4 <= j < q * 4 {
                    self.expected_byte(j, gy + 1)
                } else {
                    self.expected_byte(j, gy as int)
                },
            decreases hi - q,
        {
            let ox = (q % (out_w as u64)) as u32;
            let px = ox / s;
            proof {
                lemma_pixel_in_band(q as int, py as int, s as int, out_w as int, self.width as int);
            }
            let x = (self.bounds.min_x as i64 + px as i64) as i32;
            let c = self.color_at(x, y);
            let base = (q * 4) as usize;
            let ghost before = self.out_data@;
            self.out_data.set(base, c[0]);
            self.out_data.set(base + 1, c[1]);
            self.out_data.set(base + 2, c[2]);
            self.out_data.set(base + 3, c[3]);
            proof {
                assert forall|j: int| 0 <= j < self.out_data@.len() implies #[trigger] self.out_data@[j] == if lo * 4 <= j < (q + 1) * 4 {
                    self.expected_byte(j, gy + 1)
                } else {
                    self.expected_byte(j, gy as int)
                } by {
                    if q * 4 <= j < q * 4 + 4 {
                        assert(j / 4 == q);
                        assert(j % 4 == j - q * 4);
                    } else {
                        assert(self.out_data@[j] == before[j]);
                    }
                }
            }
            q = q + 1;
        }
        self.next_row = gy + 1;
        proof {
            assert forall|j: int| 0 <= j < self.out_data@.len() implies #[trigger] self.out_data@[j] == self.expected_byte(j, gy + 1) by {
                if !(lo * 4 <= j < hi * 4) {
                    lemma_outside_band(j / 4, py as int, s as int, out_w as int, self.height as int);
                }
            }
        }
    }

    /// The finished image's bytes (rows not yet rastered are zero).
    pub fn pixels(&self) -> (data: &[u8])
        ensures
            data@ == self.spec_data(),
    {
        self.out_data.as_slice()
    }

    /// Output image size in pixels.
    pub fn image_size(&self) -> (size: (u32, u32))
        ensures
            size == (self.spec_out_w() as u32, self.spec_out_h() as u32),
    {
        (self.out_w, self.out_h)
    }

    /// The image as a PNG file. It is written whenever the image is nonempty and its buffer
    /// holds all its pixels, as every raster built by [`Self::new`] does; the encoder's row
    /// arithmetic must also fit `usize` (always so on 64-bit hosts), or the result is
    /// [`BoardImageError::Encoding`].
    pub fn encode_png(&self) -> (r: Result<Vec<u8>, BoardImageError>)
        ensures
            r matches Ok(bytes) ==> bytes@ == png_rgba8_file(self.spec_data(), self.spec_out_w() as u32, self.spec_out_h() as u32),
            r matches Err(e) ==> e == BoardImageError::Encoding,
            ({
                let w = self.spec_out_w();
                let h = self.spec_out_h();
                w > 0 && h > 0 && self.spec_data().len() == 4 * w * h && (4 * w + 1) * h <= usize::MAX ==> r is Ok
            }),
    {
        let row = 4 * (self.out_w as u64) + 1;
        proof {
            assert(row as int * self.out_h as int == (4 * self.spec_out_w() + 1) * self.spec_out_h());
            assert(usize::MAX <= u64::MAX);
            if self.out_h >= 1 {
                assert(row as int <= row as int * self.out_h as int) by (nonlinear_arith)
                    requires self.out_h >= 1, row >= 1;
            }
        }
        let fits = match row.checked_mul(self.out_h as u64) {
            Some(total) => total <= usize::MAX as u64,
            None => false,
        };
        if !fits || row > usize::MAX as u64 {
            return Err(BoardImageError::Encoding);
        }
        match png_bytes_from_rgba(self.out_data.as_slice(), self.out_w, self.out_h) {
            Ok(bytes) => Ok(bytes),
            Err(_) => Err(BoardImageError::Encoding),
        }
    }

    /// Grid rows rastered so far and in all.
    pub fn rows(&self) -> (rows: (u32, u32))
        ensures
            rows == (self.spec_rows_done() as u32, self.spec_height() as u32),
    {
        (self.next_row, self.height)
    }
}

/// The sizes that [`raster_fits`] bounds are positive and fit their integer types.
proof fn lemma_image_fits(w: int, h: int, s: int)
    requires
        1 <= w,
        1 <= h,
        1 <= s,
        w * s * 4 <= u32::MAX,
        h * s <= u32::MAX,
        (w * s) * (h * s) * 4 <= usize::MAX,
    ensures
        w <= w * s <= u32::MAX,
        h <= h * s <= u32::MAX,
{
    assert(w <= w * s && h <= h * s) by (nonlinear_arith)
        requires 1 <= w, 1 <= h, 1 <= s;
}

/// The band of grid row `py` (counted from the top) covers output rows `py * s .. py * s + s`.
proof fn lemma_band(py: int, s: int, out_w: int, out_h: int, height: int)
    requires
        0 <= py < height,
        1 <= s,
        0 < out_w,
        out_h == height * s,
    ensures
        (py * s + s) * out_w <= out_h * out_w,
        0 <= py * s * out_w,
{
    assert(py * s + s <= height * s) by (nonlinear_arith)
        requires py < height, 1 <= s;
    assert((py * s + s) * out_w <= out_h * out_w) by (nonlinear_arith)
        requires py * s + s <= out_h, 0 < out_w;
    assert(0 <= py * s * out_w) by (nonlinear_arith)
        requires 0 <= py, 1 <= s, 0 < out_w;
}

/// A pixel of the band of grid row `py` is in output row `py * s + k` for some `k < s`, hence
/// in grid row `py`, and its column lies within the rectangle.
proof fn lemma_pixel_in_band(q: int, py: int, s: int, out_w: int, width: int)
    requires
        1 <= s,
        0 < width,
        out_w == width * s,
        py * s * out_w <= q < py * s * out_w + s * out_w,
        0 <= py,
    ensures
        (q / out_w) / s == py,
        0 <= (q % out_w) / s < width,
{
    let oy = q / out_w;
    assert(py * s <= oy < py * s + s) by (nonlinear_arith)
        requires
            py * s * out_w <= q < py * s * out_w + s * out_w,
            oy == q / out_w,
            out_w > 0,
    {
        vstd::arithmetic::div_mod::lemma_fundamental_div_mod(q, out_w);
    }
    assert(oy / s == py) by (nonlinear_arith)
        requires
            py * s <= oy < py * s + s,
            s > 0,
    {
        vstd::arithmetic::div_mod::lemma_fundamental_div_mod(oy, s);
    }
    let ox = q % out_w;
    assert(0 <= ox < out_w) by {
        vstd::arithmetic::div_mod::lemma_mod_bound(q, out_w);
    }
    assert(0 <= ox / s < width) by (nonlinear_arith)
        requires
            0 <= ox < width * s,
            s > 0,
    {
        vstd::arithmetic::div_mod::lemma_fundamental_div_mod(ox, s);
    }
}

/// A pixel outside the band of grid row `py` belongs to another grid row.
proof fn lemma_outside_band(q: int, py: int, s: int, out_w: int, height: int)
    requires
        1 <= s,
        0 < out_w,
        0 <= q,
        0 <= py < height,
        !(py * s * out_w <= q < py * s * out_w + s * out_w),
    ensures
        (q / out_w) / s != py,
{
    let oy = q / out_w;
    if oy / s == py {
        assert(py * s <= oy < py * s + s) by (nonlinear_arith)
            requires
                oy / s == py,
                s > 0,
                oy >= 0,
        {
            vstd::arithmetic::div_mod::lemma_fundamental_div_mod(oy, s);
        }
        assert(py * s * out_w <= q < py * s * out_w + s * out_w) by (nonlinear_arith)
            requires
                py * s <= oy < py * s + s,
                oy == q / out_w,
                out_w > 0,
                q >= 0,
        {
            vstd::arithmetic::div_mod::lemma_fundamental_div_mod(q, out_w);
        }
    }
}

/// PNG of the board rectangle `bounds` at `cell_pixel_scale` (clamped to `1..=32`) pixels per
/// cell: the cells are rastered into texels, each its piece's colour or [`EMPTY_RGBA`], `image`
/// scales them up with the nearest filter and writes the PNG. [`BoardImageError::TooLarge`]
/// when the rectangle leaves the index domain ([`within_index_domain`]) or the image does not fit
/// ([`board_image_fits`]); every other rectangle gives its PNG.
pub fn encode_board_png(piece_colors: &[[u8; 4]], occupancy: &OccupancyGrid, bounds: GridBounds, cell_pixel_scale: u32) -> (r: Result<Vec<u8>, BoardImageError>)
    ensures
        ({
            let s = clamped_scale(cell_pixel_scale);
            let ok_size = within_index_domain(bounds) && board_image_fits(bounds, s);
            let w = bounds.max_x - bounds.min_x + 1;
            let h = bounds.max_y - bounds.min_y + 1;
            &&& !ok_size ==> (r matches Err(e) && e == BoardImageError::TooLarge)
            &&& r matches Err(e) ==> (e == BoardImageError::TooLarge) == !ok_size
            &&& ok_size ==> r is Ok
            &&& r matches Ok(bytes) ==> bytes@ == image_png_file(board_image_pixels(piece_colors@, *occupancy, bounds, s), (w * s) as u32, (h * s) as u32)
        }),
{
    if !(-32767 <= bounds.min_x && bounds.min_x <= bounds.max_x && bounds.max_x <= 32768
        && -32767 <= bounds.min_y && bounds.min_y <= bounds.max_y && bounds.max_y <= 32768) {
        return Err(BoardImageError::TooLarge);
    }
    let s = sanitize_cell_pixel_scale(cell_pixel_scale);
    let w = (bounds.max_x as i64 - bounds.min_x as i64 + 1) as u64;
    let h = (bounds.max_y as i64 - bounds.min_y as i64 + 1) as u64;
    let s64 = s as u64;
    proof {
        assert(w * s64 <= 65536 * 32 && h * s64 <= 65536 * 32) by (nonlinear_arith)
            requires w <= 65536, h <= 65536, s64 <= 32;
        assert((w * s64) * (h * s64) <= (65536 * 32) * (65536 * 32)) by (nonlinear_arith)
            requires 0 <= w * s64 <= 65536 * 32, 0 <= h * s64 <= 65536 * 32;
    }
    let ws = w * s64;
    let hs = h * s64;
    if ws > u32::MAX as u64 || hs > u32::MAX as u64 || ws * hs * 16 > isize::MAX as u64 {
        return Err(BoardImageError::TooLarge);
    }
    let width = w as u32;
    let height = h as u32;
    proof {
        lemma_index_domain_ok(bounds);
        assert(w * h <= ws * hs && w * hs <= ws * hs) by (nonlinear_arith)
            requires 1 <= w, 1 <= h, 1 <= s64, ws == w * s64, hs == h * s64;
    }
    let texels = raster_spiral_grid(bounds, width, height, occupancy, piece_colors, EMPTY_RGBA, BoardColourMode::Piece);
    assert(texels@ =~= board_texels(piece_colors@, *occupancy, bounds));
    let pixels = if s == 1 {
        texels
    } else {
        match resize_nearest_rgba8(texels, width, height, ws as u32, hs as u32) {
            Some(p) => p,
            None => {
                return Err(BoardImageError::Encoding);
            },
        }
    };
    proof {
        assert(1 <= ws && 1 <= hs) by (nonlinear_arith)
            requires 1 <= w, 1 <= h, 1 <= s64, ws == w * s64, hs == h * s64;
        assert((4 * ws + 1) * hs <= ws * hs * 16) by (nonlinear_arith)
            requires 1 <= ws, 1 <= hs;
        assert(4 * ws + 1 <= ws * hs * 16) by (nonlinear_arith)
            requires 1 <= ws, 1 <= hs;
        assert(ws * hs * 4 == 4 * ws * hs) by (nonlinear_arith);
        if s == 1 {
            assert(ws == w && hs == h) by (nonlinear_arith)
                requires s64 == 1, ws == w * s64, hs == h * s64;
        }
        assert(pixels@.len() == 4 * ws * hs);
    }
    match png_file_from_rgba8(pixels, ws as u32, hs as u32) {
        Ok(bytes) => Ok(bytes),
        Err(_) => Err(BoardImageError::Encoding),
    }
}

} // verus!
