use typeset::buffer::PixelBuffer;
use typeset::style::Rgba;

fn white() -> Rgba {
    Rgba { r: 255, g: 255, b: 255, a: 255 }
}

fn black() -> Rgba {
    Rgba { r: 0, g: 0, b: 0, a: 255 }
}

#[test]
fn new_buffer_is_background_colored() {
    let b = PixelBuffer::new(3, 2, white());
    assert_eq!(b.width(), 3);
    assert_eq!(b.height(), 2);
    for y in 0..2 {
        for x in 0..3 {
            assert_eq!(b.pixel(x, y), white());
        }
    }
}

#[test]
fn full_coverage_opaque_blend_replaces_pixel() {
    let mut b = PixelBuffer::new(2, 2, white());
    b.blend_pixel(1, 0, black(), 255);
    assert_eq!(b.pixel(1, 0), black());
    assert_eq!(b.pixel(0, 0), white());
    assert_eq!(b.pixel(0, 1), white());
    assert_eq!(b.pixel(1, 1), white());
}

#[test]
fn zero_coverage_leaves_pixel_alone() {
    let mut b = PixelBuffer::new(1, 1, white());
    b.blend_pixel(0, 0, black(), 0);
    assert_eq!(b.pixel(0, 0), white());
}

#[test]
fn half_coverage_moves_channels_halfway() {
    let mut b = PixelBuffer::new(1, 1, white());
    b.blend_pixel(0, 0, black(), 128);
    // factor 128: every channel moves by (255 * 128) / 255 == 128 toward 0
    assert_eq!(b.pixel(0, 0), Rgba { r: 127, g: 127, b: 127, a: 255 });
}

#[test]
fn translucent_color_blends_by_its_alpha() {
    let mut b = PixelBuffer::new(1, 1, white());
    b.blend_pixel(0, 0, Rgba { r: 0, g: 0, b: 0, a: 128 }, 255);
    // factor (255 * 128) / 255 == 128
    assert_eq!(b.pixel(0, 0).r, 127);
}

#[test]
fn out_of_range_coordinates_are_ignored() {
    let mut b = PixelBuffer::new(2, 2, white());
    b.blend_pixel(-1, 0, black(), 255);
    b.blend_pixel(0, -7, black(), 255);
    b.blend_pixel(2, 0, black(), 255);
    b.blend_pixel(0, 2, black(), 255);
    for y in 0..2 {
        for x in 0..2 {
            assert_eq!(b.pixel(x, y), white());
        }
    }
}
