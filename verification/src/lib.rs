//! A verified core for a two-stage boot chain: the loader's executable-image
//! planning and segment placement, the loader-to-kernel handoff descriptor,
//! and the kernel-side framebuffer rendering engine (pixel writer, glyph
//! rasterizer, scrolling text console).

pub mod console;
pub mod graphics;
pub mod handoff;
pub mod kernel;
pub mod loader;
pub mod memmap;

pub use graphics::FrameBuffer;
pub use graphics::MyPixelFormat;
