use kardos::handoff::assemble_framebuffer;
use kardos::handoff::translate_pixel_format;
use kardos::handoff::DevicePixelFormat;
use kardos::handoff::HandoffError;
use kardos::memmap::format_memory_descriptor_line;
use kardos::memmap::memory_map_header;
use kardos::MyPixelFormat;

#[test]
fn translate_supported_formats() {
    assert_eq!(
        translate_pixel_format(DevicePixelFormat::Rgb),
        Ok(MyPixelFormat::Rgb)
    );
    assert_eq!(
        translate_pixel_format(DevicePixelFormat::Bgr),
        Ok(MyPixelFormat::Bgr)
    );
}

#[test]
fn translate_rejects_other_formats() {
    assert_eq!(
        translate_pixel_format(DevicePixelFormat::Bitmask),
        Err(HandoffError::UnsupportedPixelFormat)
    );
    assert_eq!(
        translate_pixel_format(DevicePixelFormat::BltOnly),
        Err(HandoffError::UnsupportedPixelFormat)
    );
}

#[test]
fn assemble_framebuffer_packages_the_descriptor() {
    let pixels = vec![0u8; 4 * 8 * 6];
    let fb = assemble_framebuffer(pixels, 8, (6, 6), DevicePixelFormat::Bgr).unwrap();
    assert_eq!(fb.stride, 8);
    assert_eq!(fb.resolution, (6, 6));
    assert_eq!(fb.format, MyPixelFormat::Bgr);
    assert_eq!(fb.frame_buffer.len(), 4 * 8 * 6);
}

#[test]
fn assemble_framebuffer_rejects_unsupported_layout() {
    let pixels = vec![0u8; 4 * 8 * 6];
    let r = assemble_framebuffer(pixels, 8, (6, 6), DevicePixelFormat::Bitmask);
    match r {
        Ok(_) => panic!("an unsupported layout must be rejected"),
        Err(e) => assert_eq!(e, HandoffError::UnsupportedPixelFormat),
    }
}

#[test]
fn memory_map_header_line() {
    assert_eq!(
        memory_map_header(),
        "Index, Type, Type(name), PhysicalStart, NumberOfPages, Attribute\n"
    );
}

#[test]
fn memory_descriptor_line_format() {
    let line = format_memory_descriptor_line(0, 7, "BootServicesCode", 0x3f8e000, 0x20, 0xf);
    assert_eq!(line, "0, 7, BootServicesCode, 03f8e000, 20, f\n");
}

#[test]
fn memory_descriptor_line_masks_attribute_to_low_twenty_bits() {
    let line =
        format_memory_descriptor_line(12, 10, "AcpiNonVolatile", 0x12345, 0x1, 0x800000000012345f);
    assert_eq!(line, "12, a, AcpiNonVolatile, 00012345, 1, 2345f\n");
}

#[test]
fn memory_descriptor_line_wide_physical_start_is_not_padded() {
    let line = format_memory_descriptor_line(3, 1, "LoaderCode", 0x123456789, 0xabc, 0);
    assert_eq!(line, "3, 1, LoaderCode, 123456789, abc, 0\n");
}
