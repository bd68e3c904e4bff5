//! The handoff assembler: translate the device-reported pixel layout into
//! the two-variant enum the rendering engine implements, and package it
//! with the framebuffer's geometry into the descriptor that crosses the
//! loader-to-kernel boundary.

use vstd::prelude::*;

use crate::graphics::FrameBuffer;
use crate::graphics::MyPixelFormat;

verus! {

/// Pixel layout as the graphics device reports it.
#[derive(PartialEq, Eq, Structural, Clone, Copy, Debug)]
pub enum DevicePixelFormat {
    Rgb,
    Bgr,
    Bitmask,
    BltOnly,
}

/// A fatal error at handoff assembly.
#[derive(PartialEq, Eq, Structural, Clone, Copy, Debug)]
pub enum HandoffError {
    /// The device reports a pixel layout the rendering engine does not
    /// implement.
    UnsupportedPixelFormat,
}

/// The rendering engine implements exactly the RGB and BGR layouts.
pub open spec fn supported_format(f: DevicePixelFormat) -> bool {
    f == DevicePixelFormat::Rgb || f == DevicePixelFormat::Bgr
}

/// The engine-side layout a supported device layout maps to.
pub open spec fn translated_format(f: DevicePixelFormat) -> MyPixelFormat {
    match f {
        DevicePixelFormat::Rgb => MyPixelFormat::Rgb,
        _ => MyPixelFormat::Bgr,
    }
}

/// Translate the device-reported pixel layout; a layout other than RGB or
/// BGR is a fatal unsupported-format error.
pub fn translate_pixel_format(f: DevicePixelFormat) -> (r: Result<MyPixelFormat, HandoffError>)
    ensures
        supported_format(f) ==> r == Ok::<MyPixelFormat, HandoffError>(translated_format(f)),
        !supported_format(f) ==> r == Err::<MyPixelFormat, HandoffError>(
            HandoffError::UnsupportedPixelFormat,
        ),
{
    match f {
        DevicePixelFormat::Rgb => Ok(MyPixelFormat::Rgb),
        DevicePixelFormat::Bgr => Ok(MyPixelFormat::Bgr),
        _ => Err(HandoffError::UnsupportedPixelFormat),
    }
}

/// Build the framebuffer descriptor handed from the loader to the kernel:
/// the pixel bytes, the row stride, the visible resolution, and the
/// translated pixel layout. Pure data construction; the caller supplies a
/// geometry that matches the byte buffer.
pub fn assemble_framebuffer(
    pixels: Vec<u8>,
    stride: u32,
    resolution: (u32, u32),
    device_format: DevicePixelFormat,
) -> (r: Result<FrameBuffer, HandoffError>)
    requires
        resolution.0 <= stride,
        pixels@.len() == 4 * (stride as int) * (resolution.1 as int),
    ensures
        match r {
            Ok(fb) => {
                &&& supported_format(device_format)
                &&& fb.wf()
                &&& fb.frame_buffer == pixels
                &&& fb.stride == stride
                &&& fb.resolution == resolution
                &&& fb.format == translated_format(device_format)
            },
            Err(e) => {
                &&& !supported_format(device_format)
                &&& e == HandoffError::UnsupportedPixelFormat
            },
        },
{
    let format = match translate_pixel_format(device_format) {
        Ok(f) => f,
        Err(e) => {
            return Err(e);
        },
    };
    Ok(FrameBuffer { frame_buffer: pixels, stride, resolution, format })
}

} // verus!
