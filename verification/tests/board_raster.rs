use red_black_knights::board_raster::{encode_board_png, BoardImageError, BoardPngRaster, EMPTY_RGBA};
use red_black_knights::grid::OccupancyGrid;
use red_black_knights::viewport::GridBounds;

const RED: [u8; 4] = [255, 0, 0, 255];
const BLUE: [u8; 4] = [0, 0, 255, 255];

fn three_by_three() -> GridBounds {
    GridBounds { min_x: -1, max_x: 1, min_y: -1, max_y: 1 }
}

fn pixel(data: &[u8], width: u32, x: u32, y: u32) -> [u8; 4] {
    let i = ((y * width + x) * 4) as usize;
    [data[i], data[i + 1], data[i + 2], data[i + 3]]
}

#[test]
fn raster_paints_occupied_cells_scaled() {
    let mut occ = OccupancyGrid::new();
    // index 0 is the origin; index 1 is (1, 0)
    assert!(occ.insert(0, 0));
    assert!(occ.insert(1, 1));
    let mut raster = BoardPngRaster::new(vec![RED, BLUE], &occ, three_by_three(), 2);
    assert_eq!(raster.image_size(), (6, 6));
    assert!(raster.advance(u32::MAX));
    assert_eq!(raster.rows(), (3, 3));
    let data = raster.pixels();
    assert_eq!(data.len(), 6 * 6 * 4);
    for y in 0..6u32 {
        for x in 0..6u32 {
            let cell = (x / 2, y / 2);
            let expected = match cell {
                (1, 1) => RED,
                (2, 1) => BLUE,
                _ => EMPTY_RGBA,
            };
            assert_eq!(pixel(data, 6, x, y), expected, "pixel ({x}, {y})");
        }
    }
}

#[test]
fn raster_advances_bottom_row_first() {
    let mut occ = OccupancyGrid::new();
    assert!(occ.insert(0, 0));
    let mut raster = BoardPngRaster::new(vec![RED], &occ, three_by_three(), 1);
    assert!(!raster.advance(1));
    assert_eq!(raster.rows(), (1, 3));
    let data = raster.pixels();
    // only the bottom output row is painted so far
    assert_eq!(pixel(data, 3, 0, 2), EMPTY_RGBA);
    assert_eq!(pixel(data, 3, 0, 0), [0, 0, 0, 0]);
    assert!(!raster.advance(1));
    assert_eq!(pixel(raster.pixels(), 3, 1, 1), RED);
    assert!(raster.advance(5));
    assert_eq!(raster.rows(), (3, 3));
    assert!(raster.advance(1));
}

#[test]
fn pieces_without_colour_paint_empty() {
    let mut occ = OccupancyGrid::new();
    assert!(occ.insert(0, 3));
    let mut raster = BoardPngRaster::new(vec![RED], &occ, three_by_three(), 1);
    assert!(raster.advance(u32::MAX));
    assert_eq!(pixel(raster.pixels(), 3, 1, 1), EMPTY_RGBA);
}

#[test]
fn scale_is_clamped() {
    let occ = OccupancyGrid::new();
    let raster = BoardPngRaster::new(vec![], &occ, three_by_three(), 0);
    assert_eq!(raster.image_size(), (3, 3));
    let raster = BoardPngRaster::new(vec![], &occ, three_by_three(), 100);
    assert_eq!(raster.image_size(), (96, 96));
}

#[test]
fn try_new_refuses_rectangles_out_of_range() {
    let occ = OccupancyGrid::new();
    let far = GridBounds { min_x: -40_000, max_x: 0, min_y: 0, max_y: 0 };
    assert!(BoardPngRaster::try_new(vec![], &occ, far, 1).is_none());
    let flipped = GridBounds { min_x: 1, max_x: 0, min_y: 0, max_y: 0 };
    assert!(BoardPngRaster::try_new(vec![], &occ, flipped, 1).is_none());
    assert!(BoardPngRaster::try_new(vec![], &occ, three_by_three(), 4).is_some());
}

#[test]
fn encode_png_writes_a_png_of_the_image_size() {
    let mut occ = OccupancyGrid::new();
    assert!(occ.insert(0, 0));
    let mut raster = BoardPngRaster::new(vec![RED], &occ, three_by_three(), 2);
    assert!(raster.advance(u32::MAX));
    let bytes = raster.encode_png().expect("encodes");
    assert_eq!(&bytes[..8], &[137, 80, 78, 71, 13, 10, 26, 10]);
    assert_eq!(&bytes[12..16], b"IHDR");
    assert_eq!(&bytes[16..20], &6u32.to_be_bytes());
    assert_eq!(&bytes[20..24], &6u32.to_be_bytes());
    // 8-bit RGBA
    assert_eq!(bytes[24], 8);
    assert_eq!(bytes[25], 6);
}

fn decode_rgba(bytes: &[u8]) -> (u32, u32, Vec<u8>) {
    let decoder = png::Decoder::new(bytes);
    let mut reader = decoder.read_info().expect("png header");
    let mut buf = vec![0; reader.output_buffer_size()];
    let info = reader.next_frame(&mut buf).expect("png frame");
    buf.truncate(info.buffer_size());
    assert_eq!(info.color_type, png::ColorType::Rgba);
    assert_eq!(info.bit_depth, png::BitDepth::Eight);
    (info.width, info.height, buf)
}

fn red_blue_board() -> OccupancyGrid {
    let mut occ = OccupancyGrid::new();
    assert!(occ.insert(0, 0)); // origin
    assert!(occ.insert(1, 1)); // (1, 0)
    occ
}

#[test]
fn board_png_scales_cells_by_nearest_neighbour() {
    let occ = red_blue_board();
    let bytes = encode_board_png(&[RED, BLUE], &occ, three_by_three(), 2).expect("png");
    let (w, h, data) = decode_rgba(&bytes);
    assert_eq!((w, h), (6, 6));
    for y in 0..6u32 {
        for x in 0..6u32 {
            let expected = match (x / 2, y / 2) {
                (1, 1) => RED,
                (2, 1) => BLUE,
                _ => EMPTY_RGBA,
            };
            assert_eq!(pixel(&data, 6, x, y), expected, "pixel ({x}, {y})");
        }
    }
}

#[test]
fn board_png_at_one_pixel_per_cell_is_the_grid() {
    let occ = red_blue_board();
    let bytes = encode_board_png(&[RED, BLUE], &occ, three_by_three(), 0).expect("png");
    let (w, h, data) = decode_rgba(&bytes);
    assert_eq!((w, h), (3, 3));
    assert_eq!(pixel(&data, 3, 1, 1), RED);
    assert_eq!(pixel(&data, 3, 2, 1), BLUE);
    assert_eq!(pixel(&data, 3, 0, 0), EMPTY_RGBA);
    // A piece without a colour paints nothing.
    let bytes = encode_board_png(&[RED], &occ, three_by_three(), 1).expect("png");
    let (_, _, data) = decode_rgba(&bytes);
    assert_eq!(pixel(&data, 3, 2, 1), EMPTY_RGBA);
}

#[test]
fn board_png_refuses_far_rectangles() {
    let occ = red_blue_board();
    let far = GridBounds { min_x: 0, max_x: 40_000, min_y: 0, max_y: 0 };
    assert_eq!(encode_board_png(&[RED], &occ, far, 1), Err(BoardImageError::TooLarge));
    let inverted = GridBounds { min_x: 2, max_x: 1, min_y: 0, max_y: 0 };
    assert_eq!(encode_board_png(&[RED], &occ, inverted, 1), Err(BoardImageError::TooLarge));
}

#[test]
fn board_png_reaches_the_last_cells_with_u32_indices() {
    let occ = red_blue_board();
    // The north-east corner of ring 32768 and the last index of the ring's north side.
    let corner = GridBounds { min_x: 32_768, max_x: 32_768, min_y: 32_768, max_y: 32_768 };
    assert!(encode_board_png(&[RED], &occ, corner, 1).is_ok());
    let last = GridBounds { min_x: -32_767, max_x: -32_767, min_y: 32_768, max_y: 32_768 };
    assert!(encode_board_png(&[RED], &occ, last, 1).is_ok());
    // One step further west or south leaves `u32`.
    let west = GridBounds { min_x: -32_768, max_x: -32_768, min_y: 32_768, max_y: 32_768 };
    assert_eq!(encode_board_png(&[RED], &occ, west, 1), Err(BoardImageError::TooLarge));
    let south = GridBounds { min_x: 0, max_x: 0, min_y: -32_768, max_y: -32_768 };
    assert_eq!(encode_board_png(&[RED], &occ, south, 1), Err(BoardImageError::TooLarge));
    assert!(BoardPngRaster::try_new(vec![RED], &occ, corner, 1).is_some());
    assert!(BoardPngRaster::try_new(vec![RED], &occ, west, 1).is_none());
}
