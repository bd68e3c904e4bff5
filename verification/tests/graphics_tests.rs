use kardos::graphics::put_pixel_checked;
use kardos::graphics::read_pixel;
use kardos::graphics::paint_rectangle;
use kardos::graphics::print_example;
use kardos::graphics::print_font;
use kardos::graphics::print_string;
use kardos::graphics::Font;
use kardos::FrameBuffer;
use kardos::MyPixelFormat;

fn make_fb(stride: u32, width: u32, height: u32, format: MyPixelFormat) -> FrameBuffer {
    FrameBuffer {
        frame_buffer: vec![0u8; (4 * stride * height) as usize],
        stride,
        resolution: (width, height),
        format,
    }
}

fn make_font(len: usize, pattern: [u16; 18]) -> Font {
    Font {
        glyphs: vec![pattern; len],
    }
}

#[test]
fn pixel_round_trip_rgb() {
    let mut fb = make_fb(4, 4, 4, MyPixelFormat::Rgb);
    assert!(put_pixel_checked(&mut fb, 1, 2, (10, 20, 30)));
    assert_eq!(read_pixel(&fb, 1, 2), (10, 20, 30));
}

#[test]
fn pixel_round_trip_bgr() {
    let mut fb = make_fb(4, 4, 4, MyPixelFormat::Bgr);
    assert!(put_pixel_checked(&mut fb, 1, 2, (10, 20, 30)));
    assert_eq!(read_pixel(&fb, 1, 2), (30, 20, 10));
}

#[test]
fn pixel_offset_respects_stride() {
    // stride 8 exceeds the visible width 4: pixel (0, 1) sits 32 bytes in.
    let mut fb = make_fb(8, 4, 2, MyPixelFormat::Rgb);
    assert!(put_pixel_checked(&mut fb, 0, 1, (1, 2, 3)));
    assert_eq!(&fb.frame_buffer[32..35], &[1, 2, 3]);
}

#[test]
fn put_pixel_checked_rejects_out_of_bounds() {
    let mut fb = make_fb(4, 4, 4, MyPixelFormat::Rgb);
    let before = fb.frame_buffer.clone();
    assert!(!put_pixel_checked(&mut fb, 4, 0, (9, 9, 9)));
    assert!(!put_pixel_checked(&mut fb, 0, 4, (9, 9, 9)));
    assert_eq!(fb.frame_buffer, before);
}

#[test]
fn blank_glyph_draws_no_pixels() {
    let mut fb = make_fb(16, 16, 32, MyPixelFormat::Rgb);
    let font = make_font(70, [0u16; 18]);
    print_font(&mut fb, 2, 3, (255, 255, 255), 'A', &font);
    assert!(fb.frame_buffer.iter().all(|&b| b == 0));
}

#[test]
fn full_glyph_draws_width_times_height_pixels() {
    let mut fb = make_fb(16, 16, 32, MyPixelFormat::Rgb);
    let font = make_font(70, [0xffffu16; 18]);
    print_font(&mut fb, 2, 3, (255, 255, 255), 'A', &font);
    let mut drawn = 0;
    for x in 0..16 {
        for y in 0..32 {
            let px = read_pixel(&fb, x, y);
            if px == (255, 255, 255) {
                drawn += 1;
                assert!(x >= 2 && x < 2 + 9 && y >= 3 && y < 3 + 18);
            } else {
                assert_eq!(px, (0, 0, 0));
            }
        }
    }
    assert_eq!(drawn, 9 * 18);
}

#[test]
fn glyph_pattern_maps_high_bits_left_to_right() {
    // Only the pattern's highest tested bit is set: one pixel per row, at
    // the leftmost glyph column.
    let mut fb = make_fb(16, 16, 32, MyPixelFormat::Rgb);
    let mut pattern = [0u16; 18];
    pattern[0] = 0b10_0000_0000;
    let font = make_font(70, pattern);
    print_font(&mut fb, 0, 0, (7, 8, 9), 'A', &font);
    assert_eq!(read_pixel(&fb, 0, 0), (7, 8, 9));
    assert_eq!(read_pixel(&fb, 1, 0), (0, 0, 0));
    assert_eq!(read_pixel(&fb, 0, 1), (0, 0, 0));
}

#[test]
fn paint_rectangle_fills_exactly_the_rect() {
    let mut fb = make_fb(10, 10, 10, MyPixelFormat::Bgr);
    paint_rectangle(&mut fb, 2, 3, 4, 5, (1, 2, 3));
    for x in 0..10 {
        for y in 0..10 {
            let expected = if x >= 2 && x < 6 && y >= 3 && y < 8 {
                (3, 2, 1)
            } else {
                (0, 0, 0)
            };
            assert_eq!(read_pixel(&fb, x, y), expected);
        }
    }
}

#[test]
fn print_example_paints_the_pattern() {
    let mut fb = make_fb(8, 8, 8, MyPixelFormat::Rgb);
    print_example(&mut fb);
    for x in 0..8u32 {
        for y in 0..8u32 {
            assert_eq!(read_pixel(&fb, x, y), (x as u8, y as u8, 255));
        }
    }
}

#[test]
fn print_string_advances_by_the_font_pitch() {
    let mut fb = make_fb(32, 32, 20, MyPixelFormat::Rgb);
    let font = make_font(126, [0xffffu16; 18]);
    print_string(&mut fb, 0, 0, (255, 0, 0), "ab", &font);
    // first glyph covers columns 0..9, the second 10..19; column 9 is the
    // inter-glyph gap
    assert_eq!(read_pixel(&fb, 0, 0), (255, 0, 0));
    assert_eq!(read_pixel(&fb, 8, 0), (255, 0, 0));
    assert_eq!(read_pixel(&fb, 9, 0), (0, 0, 0));
    assert_eq!(read_pixel(&fb, 10, 0), (255, 0, 0));
    assert_eq!(read_pixel(&fb, 18, 0), (255, 0, 0));
    assert_eq!(read_pixel(&fb, 19, 0), (0, 0, 0));
}
