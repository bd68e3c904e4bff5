//! Framebuffer rendering engine: pixel-format-polymorphic pixel writers,
//! rectangle fills, and the bitmap glyph rasterizer.
//!
//! A framebuffer is a byte buffer in which pixel `(x, y)` occupies the four
//! bytes starting at offset `4 * (stride * y + x)`; the first three bytes
//! hold the colour channels in the order given by the pixel format, the
//! fourth is padding.

use vstd::prelude::*;

verus! {

/// Byte order of the three colour channels within each 4-byte pixel.
#[derive(PartialEq, Eq, Structural, Clone, Copy, Debug)]
pub enum MyPixelFormat {
    Rgb,
    Bgr,
}

/// Description of the active framebuffer: the pixel bytes themselves, the
/// row stride in pixels (which may exceed the visible width), the visible
/// resolution `(width, height)`, and the channel order.
pub struct FrameBuffer {
    pub frame_buffer: Vec<u8>,
    pub stride: u32,
    pub resolution: (u32, u32),
    pub format: MyPixelFormat,
}

impl FrameBuffer {
    /// The byte buffer covers `height` full rows of `stride` pixels, and
    /// every visible pixel lies within its row.
    pub open spec fn wf(self) -> bool {
        &&& self.resolution.0 <= self.stride
        &&& self.frame_buffer.len() == 4 * (self.stride as int) * (self.resolution.1 as int)
    }

    pub open spec fn width(self) -> u32 {
        self.resolution.0
    }

    pub open spec fn height(self) -> u32 {
        self.resolution.1
    }
}

/// Byte offset of pixel (x, y) for a given row stride.
pub open spec fn pixel_offset(stride: u32, x: u32, y: u32) -> int {
    4 * ((stride as int) * (y as int) + (x as int))
}

/// The three bytes of pixel (x, y), in memory order.
pub open spec fn pixel_bytes(fb: FrameBuffer, x: u32, y: u32) -> (u8, u8, u8) {
    let off = pixel_offset(fb.stride, x, y);
    (fb.frame_buffer@[off], fb.frame_buffer@[off + 1], fb.frame_buffer@[off + 2])
}

/// How a semantic (red, green, blue) colour is laid out in memory under a
/// pixel format.
pub open spec fn format_bytes(format: MyPixelFormat, color: (u8, u8, u8)) -> (u8, u8, u8) {
    match format {
        MyPixelFormat::Rgb => (color.0, color.1, color.2),
        MyPixelFormat::Bgr => (color.2, color.1, color.0),
    }
}

/// Two framebuffers agree on everything except possibly the pixel contents.
pub open spec fn same_shape(a: FrameBuffer, b: FrameBuffer) -> bool {
    &&& b.stride == a.stride
    &&& b.resolution == a.resolution
    &&& b.format == a.format
    &&& b.frame_buffer.len() == a.frame_buffer.len()
}

/// `post` is `pre` with exactly the three channel bytes of pixel (x, y)
/// replaced by `bytes`.
pub open spec fn pixel_written(
    pre: FrameBuffer,
    post: FrameBuffer,
    x: u32,
    y: u32,
    bytes: (u8, u8, u8),
) -> bool {
    let off = pixel_offset(pre.stride, x, y);
    &&& same_shape(pre, post)
    &&& post.frame_buffer@ == pre.frame_buffer@.update(off, bytes.0).update(off + 1, bytes.1).update(
        off + 2,
        bytes.2,
    )
}

pub proof fn lemma_pixel_offset_in_bounds(fb: FrameBuffer, x: u32, y: u32)
    requires
        fb.wf(),
        x < fb.resolution.0,
        y < fb.resolution.1,
    ensures
        0 <= pixel_offset(fb.stride, x, y),
        pixel_offset(fb.stride, x, y) + 4 <= fb.frame_buffer.len(),
{
    let s = fb.stride as int;
    let h = fb.resolution.1 as int;
    assert(4 * (s * (y as int) + (x as int)) + 4 <= 4 * s * h) by (nonlinear_arith)
        requires
            (x as int) < s,
            (y as int) < h,
            0 <= (x as int),
            0 <= (y as int),
            0 <= s,
    ;
}

/// Distinct in-row pixels occupy disjoint 4-byte cells.
pub proof fn lemma_pixel_offset_injective(stride: u32, x1: u32, y1: u32, x2: u32, y2: u32)
    requires
        x1 < stride,
        x2 < stride,
        !(x1 == x2 && y1 == y2),
    ensures
        pixel_offset(stride, x1, y1) + 4 <= pixel_offset(stride, x2, y2) || pixel_offset(
            stride,
            x2,
            y2,
        ) + 4 <= pixel_offset(stride, x1, y1),
{
    let s = stride as int;
    assert(s * (y1 as int) + (x1 as int) + 1 <= s * (y2 as int) + (x2 as int) || s * (y2 as int) + (
    x2 as int) + 1 <= s * (y1 as int) + (x1 as int)) by (nonlinear_arith)
        requires
            0 <= (x1 as int) < s,
            0 <= (x2 as int) < s,
            0 <= (y1 as int),
            0 <= (y2 as int),
            !(x1 == x2 && y1 == y2),
    ;
}

/// After a write to pixel (x, y), reading that pixel gives the written bytes.
pub proof fn lemma_pixel_written_read(
    pre: FrameBuffer,
    post: FrameBuffer,
    x: u32,
    y: u32,
    bytes: (u8, u8, u8),
)
    requires
        pre.wf(),
        x < pre.resolution.0,
        y < pre.resolution.1,
        pixel_written(pre, post, x, y, bytes),
    ensures
        post.wf(),
        pixel_bytes(post, x, y) == bytes,
{
    lemma_pixel_offset_in_bounds(pre, x, y);
}

/// A write to pixel (x, y) leaves every other visible pixel unchanged.
pub proof fn lemma_pixel_written_frame(
    pre: FrameBuffer,
    post: FrameBuffer,
    x: u32,
    y: u32,
    bytes: (u8, u8, u8),
    px: u32,
    py: u32,
)
    requires
        pre.wf(),
        x < pre.resolution.0,
        y < pre.resolution.1,
        px < pre.resolution.0,
        py < pre.resolution.1,
        !(px == x && py == y),
        pixel_written(pre, post, x, y, bytes),
    ensures
        pixel_bytes(post, px, py) == pixel_bytes(pre, px, py),
{
    lemma_pixel_offset_in_bounds(pre, x, y);
    lemma_pixel_offset_in_bounds(pre, px, py);
    lemma_pixel_offset_injective(pre.stride, x, y, px, py);
}

/// Byte index of pixel (x, y), proved in bounds.
fn pixel_byte_index(fb: &FrameBuffer, x: u32, y: u32) -> (i: usize)
    requires
        fb.wf(),
        x < fb.resolution.0,
        y < fb.resolution.1,
    ensures
        i == pixel_offset(fb.stride, x, y),
        i + 4 <= fb.frame_buffer.len(),
{
    proof {
        lemma_pixel_offset_in_bounds(*fb, x, y);
    }
    4 * ((fb.stride as usize) * (y as usize) + (x as usize))
}

/// One variant per supported channel order; `channel_bytes` fixes how a
/// semantic (red, green, blue) colour maps to the three bytes in memory.
pub trait PixelWriter {
    spec fn channel_bytes(color: (u8, u8, u8)) -> (u8, u8, u8);

    /// Write one pixel's three colour bytes. The caller is responsible for
    /// clipping: this is the deliberately unchecked hot path.
    fn put_pixel(fb: &mut FrameBuffer, x: u32, y: u32, color: (u8, u8, u8))
        requires
            old(fb).wf(),
            x < old(fb).resolution.0,
            y < old(fb).resolution.1,
        ensures
            final(fb).wf(),
            pixel_written(*old(fb), *final(fb), x, y, Self::channel_bytes(color)),
    ;
}

pub struct RgbPixelWriter;

impl PixelWriter for RgbPixelWriter {
    open spec fn channel_bytes(color: (u8, u8, u8)) -> (u8, u8, u8) {
        (color.0, color.1, color.2)
    }

    fn put_pixel(fb: &mut FrameBuffer, x: u32, y: u32, color: (u8, u8, u8)) {
        let offset = pixel_byte_index(fb, x, y);
        fb.frame_buffer[offset] = color.0;
        fb.frame_buffer[offset + 1] = color.1;
        fb.frame_buffer[offset + 2] = color.2;
    }
}

pub struct BgrPixelWriter;

impl PixelWriter for BgrPixelWriter {
    open spec fn channel_bytes(color: (u8, u8, u8)) -> (u8, u8, u8) {
        (color.2, color.1, color.0)
    }

    fn put_pixel(fb: &mut FrameBuffer, x: u32, y: u32, color: (u8, u8, u8)) {
        let offset = pixel_byte_index(fb, x, y);
        fb.frame_buffer[offset] = color.2;
        fb.frame_buffer[offset + 1] = color.1;
        fb.frame_buffer[offset + 2] = color.0;
    }
}

/// Bounds-checked wrapper over the format-appropriate pixel writer, for
/// call sites outside tight rendering loops.
pub fn put_pixel_checked(fb: &mut FrameBuffer, x: u32, y: u32, color: (u8, u8, u8)) -> (ok: bool)
    requires
        old(fb).wf(),
    ensures
        final(fb).wf(),
        ok == (x < old(fb).resolution.0 && y < old(fb).resolution.1),
        ok ==> pixel_written(*old(fb), *final(fb), x, y, format_bytes(old(fb).format, color)),
        !ok ==> *final(fb) == *old(fb),
{
    if x < fb.resolution.0 && y < fb.resolution.1 {
        match fb.format {
            MyPixelFormat::Rgb => RgbPixelWriter::put_pixel(fb, x, y, color),
            MyPixelFormat::Bgr => BgrPixelWriter::put_pixel(fb, x, y, color),
        }
        true
    } else {
        false
    }
}

/// Reads back the three raw channel bytes of pixel (x, y).
pub fn read_pixel(fb: &FrameBuffer, x: u32, y: u32) -> (b: (u8, u8, u8))
    requires
        fb.wf(),
        x < fb.resolution.0,
        y < fb.resolution.1,
    ensures
        b == pixel_bytes(*fb, x, y),
{
    let i = pixel_byte_index(fb, x, y);
    (fb.frame_buffer[i], fb.frame_buffer[i + 1], fb.frame_buffer[i + 2])
}

/// Pixel writer round trip: after writing colour (r, g, b) under either
/// layout, the three raw bytes at the pixel's offset are that layout's
/// permutation of the colour.
pub proof fn lemma_pixel_round_trip(
    pre: FrameBuffer,
    post: FrameBuffer,
    x: u32,
    y: u32,
    color: (u8, u8, u8),
)
    requires
        pre.wf(),
        x < pre.resolution.0,
        y < pre.resolution.1,
        pixel_written(pre, post, x, y, format_bytes(pre.format, color)),
    ensures
        pre.format == MyPixelFormat::Rgb ==> pixel_bytes(post, x, y) == (color.0, color.1, color.2),
        pre.format == MyPixelFormat::Bgr ==> pixel_bytes(post, x, y) == (color.2, color.1, color.0),
{
    lemma_pixel_written_read(pre, post, x, y, format_bytes(pre.format, color));
}

/// Whether bit `dx` (counted from the left of the drawn glyph) is set in a
/// glyph row: the row's ten-bit pattern is tested by shifting left and
/// checking the high pattern bit.
pub open spec fn glyph_bit(row: u16, dx: u16) -> bool {
    ((row << dx) & 0x200) != 0
}

/// Whether pixel (px, py) is a set bit of the glyph drawn at (x, y).
pub open spec fn glyph_covers(pattern: Seq<u16>, x: int, y: int, px: int, py: int) -> bool {
    &&& x <= px < x + 9
    &&& y <= py < y + 18
    &&& glyph_bit(pattern[py - y], (px - x) as u16)
}

/// Like `glyph_covers`, restricted to the rows before `rows` plus the first
/// `cols` columns of row `rows`: the part a row-major scan has reached.
pub open spec fn glyph_covers_upto(
    pattern: Seq<u16>,
    x: int,
    y: int,
    px: int,
    py: int,
    rows: int,
    cols: int,
) -> bool {
    &&& glyph_covers(pattern, x, y, px, py)
    &&& (py - y < rows || (py - y == rows && px - x < cols))
}

/// Byte `k` is one of the three channel bytes the glyph drawn at (x, y)
/// may write: it belongs to a visible pixel that a set bit of the pattern
/// covers.
pub open spec fn glyph_writes_byte(
    stride: u32,
    resolution: (u32, u32),
    x: u32,
    y: u32,
    pattern: Seq<u16>,
    k: int,
) -> bool {
    exists|px: u32, py: u32|
        {
            &&& px < resolution.0
            &&& py < resolution.1
            &&& glyph_covers(pattern, x as int, y as int, px as int, py as int)
            &&& #[trigger] pixel_offset(stride, px, py) <= k
            &&& k < pixel_offset(stride, px, py) + 3
        }
}

/// `post` is `pre` with every set bit of the glyph pattern drawn in `bytes`
/// at (x, y); every other visible pixel, every pixel's fourth padding byte
/// and the stride padding beyond the visible width are unchanged.
pub open spec fn glyph_rendered(
    pre: FrameBuffer,
    post: FrameBuffer,
    x: u32,
    y: u32,
    bytes: (u8, u8, u8),
    pattern: Seq<u16>,
) -> bool {
    &&& same_shape(pre, post)
    &&& forall|px: u32, py: u32|
        px < pre.resolution.0 && py < pre.resolution.1 ==> #[trigger] pixel_bytes(post, px, py) == (
        if glyph_covers(pattern, x as int, y as int, px as int, py as int) {
            bytes
        } else {
            pixel_bytes(pre, px, py)
        })
    &&& forall|k: int|
        0 <= k < pre.frame_buffer@.len() && !glyph_writes_byte(
            pre.stride,
            pre.resolution,
            x,
            y,
            pattern,
            k,
        ) ==> post.frame_buffer@[k] == #[trigger] pre.frame_buffer@[k]
}

/// Draw one fixed-size bitmap glyph: bit-test each row of the pattern and
/// write one pixel per set bit.
pub fn render_font<W: PixelWriter>(
    fb: &mut FrameBuffer,
    x: u32,
    y: u32,
    color: (u8, u8, u8),
    font: &[u16; 18],
)
    requires
        old(fb).wf(),
        x + 9 <= old(fb).resolution.0,
        y + 18 <= old(fb).resolution.1,
    ensures
        final(fb).wf(),
        glyph_rendered(*old(fb), *final(fb), x, y, W::channel_bytes(color), font@),
{
    let ghost pre = *fb;
    let ghost bytes = W::channel_bytes(color);
    let ghost xi = x as int;
    let ghost yi = y as int;
    for dy in 0..18u16
        invariant
            fb.wf(),
            pre.wf(),
            same_shape(pre, *fb),
            x + 9 <= pre.resolution.0,
            y + 18 <= pre.resolution.1,
            bytes == W::channel_bytes(color),
            xi == x as int,
            yi == y as int,
            forall|px: u32, py: u32|
                px < pre.resolution.0 && py < pre.resolution.1 ==> #[trigger] pixel_bytes(
                    *fb,
                    px,
                    py,
                ) == (if glyph_covers_upto(font@, xi, yi, px as int, py as int, dy as int, 0) {
                    bytes
                } else {
                    pixel_bytes(pre, px, py)
                }),
            forall|k: int|
                0 <= k < pre.frame_buffer@.len() && !glyph_writes_byte(
                    pre.stride,
                    pre.resolution,
                    x,
                    y,
                    font@,
                    k,
                ) ==> fb.frame_buffer@[k] == #[trigger] pre.frame_buffer@[k],
    {
        for dx in 0..9u16
            invariant
                fb.wf(),
                pre.wf(),
                same_shape(pre, *fb),
                x + 9 <= pre.resolution.0,
                y + 18 <= pre.resolution.1,
                bytes == W::channel_bytes(color),
                xi == x as int,
                yi == y as int,
                dy < 18,
                forall|px: u32, py: u32|
                    px < pre.resolution.0 && py < pre.resolution.1 ==> #[trigger] pixel_bytes(
                        *fb,
                        px,
                        py,
                    ) == (if glyph_covers_upto(
                        font@,
                        xi,
                        yi,
                        px as int,
                        py as int,
                        dy as int,
                        dx as int,
                    ) {
                        bytes
                    } else {
                        pixel_bytes(pre, px, py)
                    }),
                forall|k: int|
                    0 <= k < pre.frame_buffer@.len() && !glyph_writes_byte(
                        pre.stride,
                        pre.resolution,
                        x,
                        y,
                        font@,
                        k,
                    ) ==> fb.frame_buffer@[k] == #[trigger] pre.frame_buffer@[k],
        {
            let cx = x + dx as u32;
            let cy = y + dy as u32;
            if (font[dy as usize] << dx) & 0b1000000000u16 != 0 {
                let ghost mid = *fb;
                W::put_pixel(fb, cx, cy, color);
                proof {
                    assert forall|px: u32, py: u32|
                        px < pre.resolution.0 && py < pre.resolution.1 implies #[trigger] pixel_bytes(
                        *fb,
                        px,
                        py,
                    ) == (if glyph_covers_upto(
                        font@,
                        xi,
                        yi,
                        px as int,
                        py as int,
                        dy as int,
                        dx as int + 1,
                    ) {
                        bytes
                    } else {
                        pixel_bytes(pre, px, py)
                    }) by {
                        if px == cx && py == cy {
                            lemma_pixel_written_read(mid, *fb, cx, cy, bytes);
                        } else {
                            lemma_pixel_written_frame(mid, *fb, cx, cy, bytes, px, py);
                        }
                    }
                    assert forall|k: int|
                        0 <= k < pre.frame_buffer@.len() && !glyph_writes_byte(
                            pre.stride,
                            pre.resolution,
                            x,
                            y,
                            font@,
                            k,
                        ) implies fb.frame_buffer@[k] == pre.frame_buffer@[k] by {
                        let off = pixel_offset(mid.stride, cx, cy);
                        lemma_pixel_offset_in_bounds(mid, cx, cy);
                        if off <= k < off + 3 {
                            assert(glyph_covers(font@, xi, yi, cx as int, cy as int));
                            assert(pixel_offset(pre.stride, cx, cy) == off);
                            assert(glyph_writes_byte(pre.stride, pre.resolution, x, y, font@, k));
                        } else {
                            assert(k != off && k != off + 1 && k != off + 2);
                            assert(mid.frame_buffer@.update(off, bytes.0).update(
                                off + 1,
                                bytes.1,
                            ).update(off + 2, bytes.2)[k] == mid.frame_buffer@[k]);
                            assert(fb.frame_buffer@[k] == mid.frame_buffer@[k]);
                        }
                    }
                }
            } else {
                proof {
                    assert forall|px: u32, py: u32|
                        px < pre.resolution.0 && py < pre.resolution.1 implies #[trigger] pixel_bytes(
                        *fb,
                        px,
                        py,
                    ) == (if glyph_covers_upto(
                        font@,
                        xi,
                        yi,
                        px as int,
                        py as int,
                        dy as int,
                        dx as int + 1,
                    ) {
                        bytes
                    } else {
                        pixel_bytes(pre, px, py)
                    }) by {
                        assert(glyph_covers_upto(
                            font@,
                            xi,
                            yi,
                            px as int,
                            py as int,
                            dy as int,
                            dx as int + 1,
                        ) == glyph_covers_upto(
                            font@,
                            xi,
                            yi,
                            px as int,
                            py as int,
                            dy as int,
                            dx as int,
                        ));
                    }
                }
            }
        }
        proof {
            assert forall|px: u32, py: u32|
                px < pre.resolution.0 && py < pre.resolution.1 implies #[trigger] pixel_bytes(
                *fb,
                px,
                py,
            ) == (if glyph_covers_upto(font@, xi, yi, px as int, py as int, dy as int + 1, 0) {
                bytes
            } else {
                pixel_bytes(pre, px, py)
            }) by {
                assert(glyph_covers_upto(font@, xi, yi, px as int, py as int, dy as int + 1, 0)
                    == glyph_covers_upto(font@, xi, yi, px as int, py as int, dy as int, 9));
            }
        }
    }
    proof {
        assert forall|px: u32, py: u32| px < pre.resolution.0 && py < pre.resolution.1 implies
            #[trigger] pixel_bytes(*fb, px, py) == (if glyph_covers(
            font@,
            xi,
            yi,
            px as int,
            py as int,
        ) {
            bytes
        } else {
            pixel_bytes(pre, px, py)
        }) by {
            assert(glyph_covers(font@, xi, yi, px as int, py as int) == glyph_covers_upto(
                font@,
                xi,
                yi,
                px as int,
                py as int,
                18,
                0,
            ));
        }
    }
}


/// Whether pixel (px, py) lies in the w-by-h rectangle at (x, y).
pub open spec fn rect_covers(x: int, y: int, w: int, h: int, px: int, py: int) -> bool {
    &&& x <= px < x + w
    &&& y <= py < y + h
}

/// Like `rect_covers`, restricted to the part a row-major scan has reached.
pub open spec fn rect_covers_upto(
    x: int,
    y: int,
    w: int,
    h: int,
    px: int,
    py: int,
    rows: int,
    cols: int,
) -> bool {
    &&& rect_covers(x, y, w, h, px, py)
    &&& (py - y < rows || (py - y == rows && px - x < cols))
}

/// Byte `k` is one of the three channel bytes the w-by-h rectangle fill
/// at (x, y) may write: it belongs to a visible pixel inside the
/// rectangle.
pub open spec fn rect_writes_byte(
    stride: u32,
    resolution: (u32, u32),
    x: u32,
    y: u32,
    w: u32,
    h: u32,
    k: int,
) -> bool {
    exists|px: u32, py: u32|
        {
            &&& px < resolution.0
            &&& py < resolution.1
            &&& rect_covers(x as int, y as int, w as int, h as int, px as int, py as int)
            &&& #[trigger] pixel_offset(stride, px, py) <= k
            &&& k < pixel_offset(stride, px, py) + 3
        }
}

/// `post` is `pre` with the w-by-h rectangle at (x, y) painted in `bytes`;
/// every other visible pixel, every pixel's fourth padding byte and the
/// stride padding beyond the visible width are unchanged.
pub open spec fn rect_filled(
    pre: FrameBuffer,
    post: FrameBuffer,
    x: u32,
    y: u32,
    w: u32,
    h: u32,
    bytes: (u8, u8, u8),
) -> bool {
    &&& same_shape(pre, post)
    &&& forall|px: u32, py: u32|
        px < pre.resolution.0 && py < pre.resolution.1 ==> #[trigger] pixel_bytes(post, px, py) == (
        if rect_covers(x as int, y as int, w as int, h as int, px as int, py as int) {
            bytes
        } else {
            pixel_bytes(pre, px, py)
        })
    &&& forall|k: int|
        0 <= k < pre.frame_buffer@.len() && !rect_writes_byte(
            pre.stride,
            pre.resolution,
            x,
            y,
            w,
            h,
            k,
        ) ==> post.frame_buffer@[k] == #[trigger] pre.frame_buffer@[k]
}

fn fill_rect<W: PixelWriter>(fb: &mut FrameBuffer, x: u32, y: u32, w: u32, h: u32, color: (u8, u8, u8))
    requires
        old(fb).wf(),
        x + w <= old(fb).resolution.0,
        y + h <= old(fb).resolution.1,
    ensures
        final(fb).wf(),
        rect_filled(*old(fb), *final(fb), x, y, w, h, W::channel_bytes(color)),
{
    let ghost pre = *fb;
    let ghost bytes = W::channel_bytes(color);
    let ghost xi = x as int;
    let ghost yi = y as int;
    for dy in 0..h
        invariant
            fb.wf(),
            pre.wf(),
            same_shape(pre, *fb),
            x + w <= pre.resolution.0,
            y + h <= pre.resolution.1,
            bytes == W::channel_bytes(color),
            xi == x as int,
            yi == y as int,
            forall|px: u32, py: u32|
                px < pre.resolution.0 && py < pre.resolution.1 ==> #[trigger] pixel_bytes(
                    *fb,
                    px,
                    py,
                ) == (if rect_covers_upto(xi, yi, w as int, h as int, px as int, py as int, dy as int, 0) {
                    bytes
                } else {
                    pixel_bytes(pre, px, py)
                }),
            forall|k: int|
                0 <= k < pre.frame_buffer@.len() && !rect_writes_byte(
                    pre.stride,
                    pre.resolution,
                    x,
                    y,
                    w,
                    h,
                    k,
                ) ==> fb.frame_buffer@[k] == #[trigger] pre.frame_buffer@[k],
    {
        for dx in 0..w
            invariant
                fb.wf(),
                pre.wf(),
                same_shape(pre, *fb),
                x + w <= pre.resolution.0,
                y + h <= pre.resolution.1,
                bytes == W::channel_bytes(color),
                xi == x as int,
                yi == y as int,
                dy < h,
                forall|px: u32, py: u32|
                    px < pre.resolution.0 && py < pre.resolution.1 ==> #[trigger] pixel_bytes(
                        *fb,
                        px,
                        py,
                    ) == (if rect_covers_upto(
                        xi,
                        yi,
                        w as int,
                        h as int,
                        px as int,
                        py as int,
                        dy as int,
                        dx as int,
                    ) {
                        bytes
                    } else {
                        pixel_bytes(pre, px, py)
                    }),
                forall|k: int|
                    0 <= k < pre.frame_buffer@.len() && !rect_writes_byte(
                        pre.stride,
                        pre.resolution,
                        x,
                        y,
                        w,
                        h,
                        k,
                    ) ==> fb.frame_buffer@[k] == #[trigger] pre.frame_buffer@[k],
        {
            let cx = x + dx;
            let cy = y + dy;
            let ghost mid = *fb;
            W::put_pixel(fb, cx, cy, color);
            proof {
                assert forall|px: u32, py: u32|
                    px < pre.resolution.0 && py < pre.resolution.1 implies #[trigger] pixel_bytes(
                    *fb,
                    px,
                    py,
                ) == (if rect_covers_upto(
                    xi,
                    yi,
                    w as int,
                    h as int,
                    px as int,
                    py as int,
                    dy as int,
                    dx as int + 1,
                ) {
                    bytes
                } else {
                    pixel_bytes(pre, px, py)
                }) by {
                    if px == cx && py == cy {
                        lemma_pixel_written_read(mid, *fb, cx, cy, bytes);
                    } else {
                        lemma_pixel_written_frame(mid, *fb, cx, cy, bytes, px, py);
                    }
                }
                assert forall|k: int|
                    0 <= k < pre.frame_buffer@.len() && !rect_writes_byte(
                        pre.stride,
                        pre.resolution,
                        x,
                        y,
                        w,
                        h,
                        k,
                    ) implies fb.frame_buffer@[k] == pre.frame_buffer@[k] by {
                    let off = pixel_offset(mid.stride, cx, cy);
                    lemma_pixel_offset_in_bounds(mid, cx, cy);
                    if off <= k < off + 3 {
                        assert(rect_covers(xi, yi, w as int, h as int, cx as int, cy as int));
                        assert(pixel_offset(pre.stride, cx, cy) == off);
                        assert(rect_writes_byte(pre.stride, pre.resolution, x, y, w, h, k));
                    } else {
                        assert(k != off && k != off + 1 && k != off + 2);
                        assert(mid.frame_buffer@.update(off, bytes.0).update(off + 1, bytes.1).update(
                            off + 2,
                            bytes.2,
                        )[k] == mid.frame_buffer@[k]);
                        assert(fb.frame_buffer@[k] == mid.frame_buffer@[k]);
                    }
                }
            }
        }
        proof {
            assert forall|px: u32, py: u32|
                px < pre.resolution.0 && py < pre.resolution.1 implies #[trigger] pixel_bytes(
                *fb,
                px,
                py,
            ) == (if rect_covers_upto(
                xi,
                yi,
                w as int,
                h as int,
                px as int,
                py as int,
                dy as int + 1,
                0,
            ) {
                bytes
            } else {
                pixel_bytes(pre, px, py)
            }) by {
                assert(rect_covers_upto(xi, yi, w as int, h as int, px as int, py as int, dy as int + 1, 0)
                    == rect_covers_upto(xi, yi, w as int, h as int, px as int, py as int, dy as int, w as int));
            }
        }
    }
    proof {
        assert forall|px: u32, py: u32| px < pre.resolution.0 && py < pre.resolution.1 implies
            #[trigger] pixel_bytes(*fb, px, py) == (if rect_covers(
            xi,
            yi,
            w as int,
            h as int,
            px as int,
            py as int,
        ) {
            bytes
        } else {
            pixel_bytes(pre, px, py)
        }) by {
            assert(rect_covers(xi, yi, w as int, h as int, px as int, py as int) == rect_covers_upto(
                xi,
                yi,
                w as int,
                h as int,
                px as int,
                py as int,
                h as int,
                0,
            ));
        }
    }
}

/// Paint a w-by-h rectangle at (x, y) in the given colour, through the
/// pixel writer matching the framebuffer's format.
pub fn paint_rectangle(fb: &mut FrameBuffer, x: u32, y: u32, w: u32, h: u32, color: (u8, u8, u8))
    requires
        old(fb).wf(),
        x + w <= old(fb).resolution.0,
        y + h <= old(fb).resolution.1,
    ensures
        final(fb).wf(),
        rect_filled(*old(fb), *final(fb), x, y, w, h, format_bytes(old(fb).format, color)),
{
    match fb.format {
        MyPixelFormat::Rgb => fill_rect::<RgbPixelWriter>(fb, x, y, w, h, color),
        MyPixelFormat::Bgr => fill_rect::<BgrPixelWriter>(fb, x, y, w, h, color),
    }
}

/// A fixed-height bitmap font: one 18-row pattern per glyph, indexed by
/// character code minus one (a convention inherited from the font asset).
pub struct Font {
    pub glyphs: Vec<[u16; 18]>,
}

/// The character has a glyph in the font table under the `code - 1`
/// indexing convention.
pub open spec fn char_in_font(c: char, font: Font) -> bool {
    1 <= (c as int) && (c as int) <= font.glyphs@.len()
}

/// The glyph pattern the font assigns to a character.
pub open spec fn glyph_of(font: Font, c: char) -> Seq<u16> {
    font.glyphs@[c as int - 1]@
}

/// Draw one character's glyph at pixel position (x, y).
pub fn print_font(fb: &mut FrameBuffer, x: u32, y: u32, color: (u8, u8, u8), c: char, font: &Font)
    requires
        old(fb).wf(),
        x + 9 <= old(fb).resolution.0,
        y + 18 <= old(fb).resolution.1,
        char_in_font(c, *font),
    ensures
        final(fb).wf(),
        glyph_rendered(
            *old(fb),
            *final(fb),
            x,
            y,
            format_bytes(old(fb).format, color),
            glyph_of(*font, c),
        ),
{
    let num = c as usize - 1;
    match fb.format {
        MyPixelFormat::Rgb => render_font::<RgbPixelWriter>(fb, x, y, color, &font.glyphs[num]),
        MyPixelFormat::Bgr => render_font::<BgrPixelWriter>(fb, x, y, color, &font.glyphs[num]),
    }
}

/// Whether pixel (px, py) is a set bit of the glyph cell of character `i`
/// when the string `s` is drawn at (x, y) with a horizontal pitch of ten.
pub open spec fn char_cell_covers(
    s: Seq<char>,
    font: Font,
    x: int,
    y: int,
    i: int,
    px: int,
    py: int,
) -> bool {
    glyph_covers(glyph_of(font, s[i]), x + 10 * i, y, px, py)
}

/// Whether pixel (px, py) is a set bit of any character of the string.
pub open spec fn string_covers(s: Seq<char>, font: Font, x: int, y: int, px: int, py: int) -> bool {
    exists|i: int| 0 <= i < s.len() && #[trigger] char_cell_covers(s, font, x, y, i, px, py)
}

/// Byte `k` is one of the three channel bytes drawing the string at
/// (x, y) may write: it belongs to a visible pixel some character's glyph
/// covers.
pub open spec fn string_writes_byte(
    stride: u32,
    resolution: (u32, u32),
    s: Seq<char>,
    font: Font,
    x: u32,
    y: u32,
    k: int,
) -> bool {
    exists|px: u32, py: u32|
        {
            &&& px < resolution.0
            &&& py < resolution.1
            &&& string_covers(s, font, x as int, y as int, px as int, py as int)
            &&& #[trigger] pixel_offset(stride, px, py) <= k
            &&& k < pixel_offset(stride, px, py) + 3
        }
}

/// `post` is `pre` with the string drawn at (x, y) in `color`; every
/// other visible pixel, every pixel's fourth padding byte and the stride
/// padding beyond the visible width are unchanged.
pub open spec fn string_rendered(
    pre: FrameBuffer,
    post: FrameBuffer,
    x: u32,
    y: u32,
    color: (u8, u8, u8),
    s: Seq<char>,
    font: Font,
) -> bool {
    &&& same_shape(pre, post)
    &&& forall|px: u32, py: u32|
        px < pre.resolution.0 && py < pre.resolution.1 ==> #[trigger] pixel_bytes(post, px, py) == (
        if string_covers(s, font, x as int, y as int, px as int, py as int) {
            format_bytes(pre.format, color)
        } else {
            pixel_bytes(pre, px, py)
        })
    &&& forall|k: int|
        0 <= k < pre.frame_buffer@.len() && !string_writes_byte(
            pre.stride,
            pre.resolution,
            s,
            font,
            x,
            y,
            k,
        ) ==> post.frame_buffer@[k] == #[trigger] pre.frame_buffer@[k]
}

/// Draw a string left to right from (x, y), advancing ten pixels per
/// character; no line wrapping at this layer.
pub fn print_string(
    fb: &mut FrameBuffer,
    x: u32,
    y: u32,
    color: (u8, u8, u8),
    string: &str,
    font: &Font,
)
    requires
        old(fb).wf(),
        y + 18 <= old(fb).resolution.1,
        x + 10 * string@.len() <= old(fb).resolution.0,
        forall|i: int| 0 <= i < string@.len() ==> char_in_font(#[trigger] string@[i], *font),
    ensures
        final(fb).wf(),
        string_rendered(*old(fb), *final(fb), x, y, color, string@, *font),
{
    let ghost pre = *fb;
    let ghost si = string@;
    let ghost xi = x as int;
    let ghost yi = y as int;
    let n = string.unicode_len();
    for i in 0..n
        invariant
            fb.wf(),
            pre.wf(),
            same_shape(pre, *fb),
            si == string@,
            xi == x as int,
            yi == y as int,
            n == si.len(),
            y + 18 <= pre.resolution.1,
            x + 10 * si.len() <= pre.resolution.0,
            forall|j: int| 0 <= j < si.len() ==> char_in_font(#[trigger] si[j], *font),
            forall|px: u32, py: u32|
                px < pre.resolution.0 && py < pre.resolution.1 ==> #[trigger] pixel_bytes(
                    *fb,
                    px,
                    py,
                ) == (if string_covers(si.take(i as int), *font, xi, yi, px as int, py as int) {
                    format_bytes(pre.format, color)
                } else {
                    pixel_bytes(pre, px, py)
                }),
            forall|k: int|
                0 <= k < pre.frame_buffer@.len() && !string_writes_byte(
                    pre.stride,
                    pre.resolution,
                    si.take(i as int),
                    *font,
                    x,
                    y,
                    k,
                ) ==> fb.frame_buffer@[k] == #[trigger] pre.frame_buffer@[k],
    {
        let c = string.get_char(i);
        let cx = x + (i as u32) * 10;
        let ghost mid = *fb;
        print_font(fb, cx, y, color, c, font);
        proof {
            let ghost bytes = format_bytes(pre.format, color);
            assert forall|px: u32, py: u32|
                px < pre.resolution.0 && py < pre.resolution.1 implies #[trigger] pixel_bytes(
                *fb,
                px,
                py,
            ) == (if string_covers(si.take(i as int + 1), *font, xi, yi, px as int, py as int) {
                bytes
            } else {
                pixel_bytes(pre, px, py)
            }) by {
                let pattern = glyph_of(*font, si[i as int]);
                if glyph_covers(pattern, cx as int, yi, px as int, py as int) {
                    assert(char_cell_covers(
                        si.take(i as int + 1),
                        *font,
                        xi,
                        yi,
                        i as int,
                        px as int,
                        py as int,
                    ));
                    assert(pixel_bytes(*fb, px, py) == bytes);
                } else {
                    assert(pixel_bytes(*fb, px, py) == pixel_bytes(mid, px, py));
                    if string_covers(si.take(i as int), *font, xi, yi, px as int, py as int) {
                        let j = choose|j: int|
                            0 <= j < i as int && #[trigger] char_cell_covers(
                                si.take(i as int),
                                *font,
                                xi,
                                yi,
                                j,
                                px as int,
                                py as int,
                            );
                        assert(char_cell_covers(
                            si.take(i as int + 1),
                            *font,
                            xi,
                            yi,
                            j,
                            px as int,
                            py as int,
                        ));
                    } else {
                        if string_covers(si.take(i as int + 1), *font, xi, yi, px as int, py as int) {
                            let j = choose|j: int|
                                0 <= j < i as int + 1 && #[trigger] char_cell_covers(
                                    si.take(i as int + 1),
                                    *font,
                                    xi,
                                    yi,
                                    j,
                                    px as int,
                                    py as int,
                                );
                            if j < i as int {
                                assert(char_cell_covers(
                                    si.take(i as int),
                                    *font,
                                    xi,
                                    yi,
                                    j,
                                    px as int,
                                    py as int,
                                ));
                            }
                            assert(false);
                        }
                    }
                }
            }
            assert forall|k: int|
                0 <= k < pre.frame_buffer@.len() && !string_writes_byte(
                    pre.stride,
                    pre.resolution,
                    si.take(i as int + 1),
                    *font,
                    x,
                    y,
                    k,
                ) implies fb.frame_buffer@[k] == pre.frame_buffer@[k] by {
                let pattern = glyph_of(*font, si[i as int]);
                assert(!glyph_writes_byte(pre.stride, pre.resolution, cx, y, pattern, k)) by {
                    if glyph_writes_byte(pre.stride, pre.resolution, cx, y, pattern, k) {
                        let (px, py) = choose|px: u32, py: u32|
                            {
                                &&& px < pre.resolution.0
                                &&& py < pre.resolution.1
                                &&& glyph_covers(pattern, cx as int, y as int, px as int, py as int)
                                &&& #[trigger] pixel_offset(pre.stride, px, py) <= k
                                &&& k < pixel_offset(pre.stride, px, py) + 3
                            };
                        assert(char_cell_covers(
                            si.take(i as int + 1),
                            *font,
                            xi,
                            yi,
                            i as int,
                            px as int,
                            py as int,
                        ));
                        assert(string_covers(
                            si.take(i as int + 1),
                            *font,
                            xi,
                            yi,
                            px as int,
                            py as int,
                        ));
                        assert(string_writes_byte(
                            pre.stride,
                            pre.resolution,
                            si.take(i as int + 1),
                            *font,
                            x,
                            y,
                            k,
                        ));
                    }
                }
                assert(fb.frame_buffer@[k] == mid.frame_buffer@[k]);
                assert(!string_writes_byte(
                    pre.stride,
                    pre.resolution,
                    si.take(i as int),
                    *font,
                    x,
                    y,
                    k,
                )) by {
                    if string_writes_byte(pre.stride, pre.resolution, si.take(i as int), *font, x, y, k) {
                        let (px, py) = choose|px: u32, py: u32|
                            {
                                &&& px < pre.resolution.0
                                &&& py < pre.resolution.1
                                &&& string_covers(si.take(i as int), *font, xi, yi, px as int, py as int)
                                &&& #[trigger] pixel_offset(pre.stride, px, py) <= k
                                &&& k < pixel_offset(pre.stride, px, py) + 3
                            };
                        let j = choose|j: int|
                            0 <= j < i as int && #[trigger] char_cell_covers(
                                si.take(i as int),
                                *font,
                                xi,
                                yi,
                                j,
                                px as int,
                                py as int,
                            );
                        assert(char_cell_covers(
                            si.take(i as int + 1),
                            *font,
                            xi,
                            yi,
                            j,
                            px as int,
                            py as int,
                        ));
                        assert(string_writes_byte(
                            pre.stride,
                            pre.resolution,
                            si.take(i as int + 1),
                            *font,
                            x,
                            y,
                            k,
                        ));
                    }
                }
            }
        }
    }
    proof {
        assert(si.take(n as int) =~= si);
    }
}

/// The demonstration pattern's colour for pixel (px, py).
pub open spec fn example_color(px: u32, py: u32) -> (u8, u8, u8) {
    ((px % 256) as u8, (py % 256) as u8, 255u8)
}

/// Byte `k` is one of the three channel bytes of some visible pixel.
pub open spec fn visible_writes_byte(stride: u32, resolution: (u32, u32), k: int) -> bool {
    exists|px: u32, py: u32|
        {
            &&& px < resolution.0
            &&& py < resolution.1
            &&& #[trigger] pixel_offset(stride, px, py) <= k
            &&& k < pixel_offset(stride, px, py) + 3
        }
}

/// Every visible pixel of `post` shows the demonstration pattern; every
/// pixel's fourth padding byte and the stride padding beyond the visible
/// width are unchanged.
pub open spec fn example_rendered(pre: FrameBuffer, post: FrameBuffer) -> bool {
    &&& same_shape(pre, post)
    &&& forall|px: u32, py: u32|
        px < pre.resolution.0 && py < pre.resolution.1 ==> #[trigger] pixel_bytes(post, px, py)
            == format_bytes(pre.format, example_color(px, py))
    &&& forall|k: int|
        0 <= k < pre.frame_buffer@.len() && !visible_writes_byte(pre.stride, pre.resolution, k)
            ==> post.frame_buffer@[k] == #[trigger] pre.frame_buffer@[k]
}

/// The part of the screen a column-major scan has reached.
pub open spec fn example_covers_upto(px: int, py: int, cols: int, rows: int) -> bool {
    px < cols || (px == cols && py < rows)
}

fn render_example<W: PixelWriter>(fb: &mut FrameBuffer)
    requires
        old(fb).wf(),
    ensures
        final(fb).wf(),
        same_shape(*old(fb), *final(fb)),
        forall|px: u32, py: u32|
            px < old(fb).resolution.0 && py < old(fb).resolution.1 ==> #[trigger] pixel_bytes(
                *final(fb),
                px,
                py,
            ) == W::channel_bytes(example_color(px, py)),
        forall|k: int|
            0 <= k < old(fb).frame_buffer@.len() && !visible_writes_byte(
                old(fb).stride,
                old(fb).resolution,
                k,
            ) ==> final(fb).frame_buffer@[k] == #[trigger] old(fb).frame_buffer@[k],
{
    let ghost pre = *fb;
    let w = fb.resolution.0;
    let h = fb.resolution.1;
    for x in 0..w
        invariant
            fb.wf(),
            pre.wf(),
            same_shape(pre, *fb),
            w == pre.resolution.0,
            h == pre.resolution.1,
            forall|px: u32, py: u32|
                px < pre.resolution.0 && py < pre.resolution.1 ==> #[trigger] pixel_bytes(
                    *fb,
                    px,
                    py,
                ) == (if example_covers_upto(px as int, py as int, x as int, 0) {
                    W::channel_bytes(example_color(px, py))
                } else {
                    pixel_bytes(pre, px, py)
                }),
            forall|k: int|
                0 <= k < pre.frame_buffer@.len() && !visible_writes_byte(
                    pre.stride,
                    pre.resolution,
                    k,
                ) ==> fb.frame_buffer@[k] == #[trigger] pre.frame_buffer@[k],
    {
        for y in 0..h
            invariant
                fb.wf(),
                pre.wf(),
                same_shape(pre, *fb),
                w == pre.resolution.0,
                h == pre.resolution.1,
                x < w,
                forall|px: u32, py: u32|
                    px < pre.resolution.0 && py < pre.resolution.1 ==> #[trigger] pixel_bytes(
                        *fb,
                        px,
                        py,
                    ) == (if example_covers_upto(px as int, py as int, x as int, y as int) {
                        W::channel_bytes(example_color(px, py))
                    } else {
                        pixel_bytes(pre, px, py)
                    }),
                forall|k: int|
                    0 <= k < pre.frame_buffer@.len() && !visible_writes_byte(
                        pre.stride,
                        pre.resolution,
                        k,
                    ) ==> fb.frame_buffer@[k] == #[trigger] pre.frame_buffer@[k],
        {
            let ghost mid = *fb;
            W::put_pixel(fb, x, y, ((x % 256) as u8, (y % 256) as u8, 255));
            proof {
                assert forall|px: u32, py: u32|
                    px < pre.resolution.0 && py < pre.resolution.1 implies #[trigger] pixel_bytes(
                    *fb,
                    px,
                    py,
                ) == (if example_covers_upto(px as int, py as int, x as int, y as int + 1) {
                    W::channel_bytes(example_color(px, py))
                } else {
                    pixel_bytes(pre, px, py)
                }) by {
                    if px == x && py == y {
                        lemma_pixel_written_read(mid, *fb, x, y, W::channel_bytes(example_color(x, y)));
                    } else {
                        lemma_pixel_written_frame(
                            mid,
                            *fb,
                            x,
                            y,
                            W::channel_bytes(example_color(x, y)),
                            px,
                            py,
                        );
                    }
                }
                assert forall|k: int|
                    0 <= k < pre.frame_buffer@.len() && !visible_writes_byte(
                        pre.stride,
                        pre.resolution,
                        k,
                    ) implies fb.frame_buffer@[k] == pre.frame_buffer@[k] by {
                    let off = pixel_offset(mid.stride, x, y);
                    let ghost eb = W::channel_bytes(example_color(x, y));
                    lemma_pixel_offset_in_bounds(mid, x, y);
                    if off <= k < off + 3 {
                        assert(pixel_offset(pre.stride, x, y) == off);
                        assert(visible_writes_byte(pre.stride, pre.resolution, k));
                    } else {
                        assert(k != off && k != off + 1 && k != off + 2);
                        assert(mid.frame_buffer@.update(off, eb.0).update(off + 1, eb.1).update(
                            off + 2,
                            eb.2,
                        )[k] == mid.frame_buffer@[k]);
                        assert(fb.frame_buffer@[k] == mid.frame_buffer@[k]);
                    }
                }
            }
        }
        proof {
            assert forall|px: u32, py: u32|
                px < pre.resolution.0 && py < pre.resolution.1 implies #[trigger] pixel_bytes(
                *fb,
                px,
                py,
            ) == (if example_covers_upto(px as int, py as int, x as int + 1, 0) {
                W::channel_bytes(example_color(px, py))
            } else {
                pixel_bytes(pre, px, py)
            }) by {
                assert(example_covers_upto(px as int, py as int, x as int + 1, 0)
                    == example_covers_upto(px as int, py as int, x as int, h as int) || !(py < h));
            }
        }
    }
}

/// Fill the whole screen with the demonstration pattern, through the pixel
/// writer matching the framebuffer's format.
pub fn print_example(fb: &mut FrameBuffer)
    requires
        old(fb).wf(),
    ensures
        final(fb).wf(),
        example_rendered(*old(fb), *final(fb)),
{
    match fb.format {
        MyPixelFormat::Rgb => render_example::<RgbPixelWriter>(fb),
        MyPixelFormat::Bgr => render_example::<BgrPixelWriter>(fb),
    }
}

/// A glyph whose every row pattern is all-zero draws no pixels: the
/// framebuffer's bytes are completely unchanged.
pub proof fn lemma_blank_glyph_draws_nothing(
    pre: FrameBuffer,
    post: FrameBuffer,
    x: u32,
    y: u32,
    bytes: (u8, u8, u8),
    pattern: Seq<u16>,
)
    requires
        glyph_rendered(pre, post, x, y, bytes, pattern),
        pattern.len() == 18,
        forall|r: int| 0 <= r < pattern.len() ==> pattern[r] == 0u16,
    ensures
        forall|px: u32, py: u32|
            px < pre.resolution.0 && py < pre.resolution.1 ==> #[trigger] pixel_bytes(post, px, py)
                == pixel_bytes(pre, px, py),
        post.frame_buffer@ == pre.frame_buffer@,
{
    assert(forall|dx: u16| #[trigger] ((0u16 << dx) & 0x200) == 0) by (bit_vector);
    assert forall|px: u32, py: u32|
        px < pre.resolution.0 && py < pre.resolution.1 implies #[trigger] pixel_bytes(post, px, py)
        == pixel_bytes(pre, px, py) by {
        if glyph_covers(pattern, x as int, y as int, px as int, py as int) {
            assert(pattern[py - y] == 0u16);
            assert(false);
        }
    }
    assert forall|k: int| 0 <= k < pre.frame_buffer@.len() implies post.frame_buffer@[k]
        == pre.frame_buffer@[k] by {
        assert(!glyph_writes_byte(pre.stride, pre.resolution, x, y, pattern, k)) by {
            if glyph_writes_byte(pre.stride, pre.resolution, x, y, pattern, k) {
                let (px, py) = choose|px: u32, py: u32|
                    {
                        &&& px < pre.resolution.0
                        &&& py < pre.resolution.1
                        &&& glyph_covers(pattern, x as int, y as int, px as int, py as int)
                        &&& #[trigger] pixel_offset(pre.stride, px, py) <= k
                        &&& k < pixel_offset(pre.stride, px, py) + 3
                    };
                assert(pattern[py - y] == 0u16);
                assert(false);
            }
        }
    }
    assert(post.frame_buffer@ =~= pre.frame_buffer@);
}

/// A glyph whose every row pattern is fully set draws its whole cell:
/// all nine-by-eighteen pixels take the given bytes, and nothing else
/// changes.
pub proof fn lemma_full_glyph_draws_cell(
    pre: FrameBuffer,
    post: FrameBuffer,
    x: u32,
    y: u32,
    bytes: (u8, u8, u8),
    pattern: Seq<u16>,
)
    requires
        glyph_rendered(pre, post, x, y, bytes, pattern),
        pattern.len() == 18,
        forall|r: int| 0 <= r < pattern.len() ==> pattern[r] == 0xffffu16,
    ensures
        forall|px: u32, py: u32|
            px < pre.resolution.0 && py < pre.resolution.1 ==> #[trigger] pixel_bytes(post, px, py)
                == (if x <= px < x + 9 && y <= py < y + 18 {
                    bytes
                } else {
                    pixel_bytes(pre, px, py)
                }),
{
    assert(forall|dx: u16| dx < 9 ==> #[trigger] ((0xffffu16 << dx) & 0x200) != 0) by (bit_vector);
    assert forall|px: u32, py: u32|
        px < pre.resolution.0 && py < pre.resolution.1 implies #[trigger] pixel_bytes(post, px, py)
        == (if x <= px < x + 9 && y <= py < y + 18 {
            bytes
        } else {
            pixel_bytes(pre, px, py)
        }) by {
        if x <= px < x + 9 && y <= py < y + 18 {
            assert(pattern[py as int - y as int] == 0xffffu16);
            assert((((px as int) - (x as int)) as u16) < 9);
            assert(glyph_covers(pattern, x as int, y as int, px as int, py as int));
        }
    }
}
} // verus!



