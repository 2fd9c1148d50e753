use image::{DynamicImage, Rgba, RgbaImage};
use tilegroup::{create_tiles, get_tile_dimensions, run, InputError, PixelColor};

fn opaque(buf: &mut RgbaImage, x: u32, y: u32, r: u8, g: u8, b: u8) {
    buf.put_pixel(x, y, Rgba([r, g, b, 255]));
}

fn fill_tile(buf: &mut RgbaImage, tx: u32, ty: u32, r: u8, g: u8, b: u8) {
    for dx in 0..16 {
        for dy in 0..16 {
            opaque(buf, tx * 16 + dx, ty * 16 + dy, r, g, b);
        }
    }
}

#[test]
fn grid_dimensions_require_alignment() {
    assert_eq!(get_tile_dimensions(32, 48), Ok((2, 3)));
    assert_eq!(get_tile_dimensions(0, 0), Ok((0, 0)));
    assert_eq!(get_tile_dimensions(33, 48), Err(InputError::UnalignedDimensions));
    assert_eq!(get_tile_dimensions(32, 40), Err(InputError::UnalignedDimensions));
}

#[test]
fn unaligned_image_is_rejected() {
    let img = DynamicImage::ImageRgba8(RgbaImage::new(20, 16));
    assert_eq!(create_tiles(&img).unwrap_err(), InputError::UnalignedDimensions);
}

#[test]
fn semitransparent_pixel_is_rejected() {
    let mut buf = RgbaImage::new(16, 16);
    buf.put_pixel(3, 5, Rgba([10, 20, 30, 128]));
    let img = DynamicImage::ImageRgba8(buf);
    assert_eq!(create_tiles(&img).unwrap_err(), InputError::SemitransparentPixel);
}

#[test]
fn over_budget_tile_is_rejected() {
    let mut buf = RgbaImage::new(16, 16);
    for n in 0..17u32 {
        opaque(&mut buf, n % 16, n / 16, n as u8, 0, 0);
    }
    let img = DynamicImage::ImageRgba8(buf);
    assert_eq!(create_tiles(&img).unwrap_err(), InputError::TooManyColors);
}

#[test]
fn blank_tiles_are_dropped_and_colors_read_back() {
    // a 32x16 image: the left tile is solid red, the right one stays blank
    let mut buf = RgbaImage::new(32, 16);
    fill_tile(&mut buf, 0, 0, 200, 0, 0);
    let img = DynamicImage::ImageRgba8(buf);
    let tiles = create_tiles(&img).unwrap();
    assert_eq!(tiles.len(), 1);
    assert_eq!(tiles[0].x, 0);
    assert_eq!(tiles[0].y, 0);
    assert_eq!(tiles[0].colors(), &vec![PixelColor::Full(200, 0, 0)]);
}

#[test]
fn fully_blank_image_yields_nothing() {
    let img = DynamicImage::ImageRgba8(RgbaImage::new(32, 32));
    let (tiles, groups) = run(&img).unwrap();
    assert_eq!(tiles.len(), 0);
    assert_eq!(groups.len(), 0);
}

#[test]
fn sharing_tiles_grouped_through_the_pipeline() {
    // left tile solid red; right tile red with one blue pixel: they share
    // red, their union is two colors, so the right joins the left's group
    let mut buf = RgbaImage::new(32, 16);
    fill_tile(&mut buf, 0, 0, 200, 0, 0);
    fill_tile(&mut buf, 1, 0, 200, 0, 0);
    opaque(&mut buf, 16, 0, 0, 0, 200);
    let img = DynamicImage::ImageRgba8(buf);
    let (tiles, groups) = run(&img).unwrap();
    assert_eq!(tiles.len(), 2);
    assert_eq!(tiles[0].compat(&tiles[1]), 1);
    assert_eq!(groups.len(), 1);
    assert_eq!(groups[0].iter(), &vec![0, 1]);
    assert_eq!(groups[0].color_count(), 2);
}

#[test]
fn column_major_tile_enumeration() {
    // tiles are enumerated column by column: (0,0), (0,1), (1,0), (1,1)
    let mut buf = RgbaImage::new(32, 32);
    fill_tile(&mut buf, 0, 0, 1, 0, 0);
    fill_tile(&mut buf, 0, 1, 2, 0, 0);
    fill_tile(&mut buf, 1, 0, 3, 0, 0);
    fill_tile(&mut buf, 1, 1, 4, 0, 0);
    let img = DynamicImage::ImageRgba8(buf);
    let tiles = create_tiles(&img).unwrap();
    let coords: Vec<(u32, u32)> = tiles.iter().map(|t| (t.x, t.y)).collect();
    assert_eq!(coords, vec![(0, 0), (0, 1), (1, 0), (1, 1)]);
}
