use kardos::loader::compute_load_plan;
use kardos::loader::load_image;
use kardos::loader::load_segments;
use kardos::loader::page_count_for_span;
use kardos::loader::segments_are_disjoint;
use kardos::loader::LoadError;
use kardos::loader::Segment;
use kardos::loader::PT_LOAD;

fn seg(p_type: u32, p_offset: u64, p_vaddr: u64, p_filesz: u64, p_memsz: u64) -> Segment {
    Segment {
        p_type,
        p_offset,
        p_vaddr,
        p_filesz,
        p_memsz,
    }
}

fn put_u16(buf: &mut Vec<u8>, at: usize, v: u16) {
    buf[at..at + 2].copy_from_slice(&v.to_le_bytes());
}

fn put_u32(buf: &mut Vec<u8>, at: usize, v: u32) {
    buf[at..at + 4].copy_from_slice(&v.to_le_bytes());
}

fn put_u64(buf: &mut Vec<u8>, at: usize, v: u64) {
    buf[at..at + 8].copy_from_slice(&v.to_le_bytes());
}

/// A minimal little-endian 64-bit executable image with the given program
/// headers, followed by `data` as the file's tail.
fn minimal_elf(entry: u64, phdrs: &[Segment], data: &[u8]) -> Vec<u8> {
    let phoff = 64usize;
    let phentsize = 56usize;
    let mut buf = vec![0u8; phoff + phentsize * phdrs.len()];
    buf[0..4].copy_from_slice(&[0x7f, b'E', b'L', b'F']);
    buf[4] = 2; // 64-bit
    buf[5] = 1; // little endian
    buf[6] = 1; // version
    put_u16(&mut buf, 16, 2); // executable
    put_u16(&mut buf, 18, 0x3e); // machine
    put_u32(&mut buf, 20, 1); // version
    put_u64(&mut buf, 24, entry);
    put_u64(&mut buf, 32, phoff as u64);
    put_u16(&mut buf, 52, 64); // ehsize
    put_u16(&mut buf, 54, phentsize as u16);
    put_u16(&mut buf, 56, phdrs.len() as u16);
    for (i, s) in phdrs.iter().enumerate() {
        let at = phoff + i * phentsize;
        put_u32(&mut buf, at, s.p_type);
        put_u64(&mut buf, at + 8, s.p_offset);
        put_u64(&mut buf, at + 16, s.p_vaddr);
        put_u64(&mut buf, at + 24, s.p_vaddr); // physical address
        put_u64(&mut buf, at + 32, s.p_filesz);
        put_u64(&mut buf, at + 40, s.p_memsz);
        put_u64(&mut buf, at + 48, 1); // alignment
    }
    buf.extend_from_slice(data);
    buf
}

#[test]
fn load_plan_is_min_start_max_end() {
    let segments = vec![
        seg(PT_LOAD, 0, 0x1000, 4, 8),
        seg(0, 0, 0x8000, 1, 1), // not loadable: ignored
        seg(PT_LOAD, 4, 0x2000, 2, 2),
    ];
    assert_eq!(compute_load_plan(&segments), Some((0x1000, 0x2002)));
}

#[test]
fn load_plan_without_loadable_segments() {
    let segments = vec![seg(0, 0, 0x1000, 4, 8), seg(6, 0, 0x2000, 2, 2)];
    assert_eq!(compute_load_plan(&segments), None);
}

#[test]
fn page_count_rounds_up() {
    assert_eq!(page_count_for_span(0x1000, 0x2002), 2);
    assert_eq!(page_count_for_span(0, 0), 0);
    assert_eq!(page_count_for_span(0, 0x1000), 1);
    assert_eq!(page_count_for_span(0, 0x1001), 2);
    assert_eq!(page_count_for_span(0x1000, 0x1fff), 1);
}

#[test]
fn load_segments_copies_and_zero_fills() {
    let segments = vec![
        seg(PT_LOAD, 0, 0x1000, 4, 8),
        seg(PT_LOAD, 4, 0x2000, 2, 2),
    ];
    let image = vec![1u8, 2, 3, 4, 5, 6];
    let mut region = vec![0xffu8; 0x1002];
    load_segments(&mut region, 0x1000, &segments, &image);
    assert_eq!(&region[0..4], &[1, 2, 3, 4]);
    // the tail of the first segment is zero-filled
    assert_eq!(&region[4..8], &[0, 0, 0, 0]);
    // the gap between the segments is untouched
    assert!(region[8..0x1000].iter().all(|&b| b == 0xff));
    assert_eq!(&region[0x1000..0x1002], &[5, 6]);
}

#[test]
fn disjointness_check_rejects_overlap() {
    let apart = vec![seg(PT_LOAD, 0, 0x1000, 4, 8), seg(PT_LOAD, 0, 0x1008, 4, 8)];
    assert!(segments_are_disjoint(&apart));
    let overlap = vec![seg(PT_LOAD, 0, 0x1000, 4, 8), seg(PT_LOAD, 0, 0x1004, 4, 8)];
    assert!(!segments_are_disjoint(&overlap));
}

#[test]
fn load_image_rejects_garbage() {
    let garbage = vec![1u8, 2, 3];
    assert_eq!(load_image(&garbage).unwrap_err(), LoadError::Parse);
}

#[test]
fn load_image_end_to_end() {
    // file tail starts at 64 + 2 * 56 = 176
    let data_off = 176u64;
    let phdrs = [
        seg(PT_LOAD, data_off, 0x1000, 4, 8),
        seg(PT_LOAD, data_off + 4, 0x2000, 2, 2),
    ];
    let image = minimal_elf(0x1000, &phdrs, &[9, 8, 7, 6, 5, 4]);
    let loaded = load_image(&image).unwrap();
    assert_eq!(loaded.start, 0x1000);
    assert_eq!(loaded.entry, 0x1000);
    // the span is [0x1000, 0x2002)
    assert_eq!(loaded.bytes.len(), 0x1002);
    assert_eq!(&loaded.bytes[0..4], &[9, 8, 7, 6]);
    // bytes [0x1004, 0x1008) of the address space are zero
    assert_eq!(&loaded.bytes[4..8], &[0, 0, 0, 0]);
    assert!(loaded.bytes[8..0x1000].iter().all(|&b| b == 0));
    assert_eq!(&loaded.bytes[0x1000..0x1002], &[5, 4]);
}

#[test]
fn load_image_without_loadable_segments() {
    let phdrs = [seg(4, 0, 0, 0, 0)]; // a note segment only
    let image = minimal_elf(0, &phdrs, &[]);
    assert_eq!(
        load_image(&image).unwrap_err(),
        LoadError::NoLoadableSegments
    );
}

#[test]
fn load_image_rejects_shrinking_segment() {
    // file size exceeds memory size
    let phdrs = [seg(PT_LOAD, 176, 0x1000, 8, 4)];
    let image = minimal_elf(0, &phdrs, &[1, 2, 3, 4, 5, 6, 7, 8]);
    assert_eq!(
        load_image(&image).unwrap_err(),
        LoadError::MalformedSegment
    );
}

#[test]
fn load_image_rejects_segment_outside_file() {
    let phdrs = [seg(PT_LOAD, 176, 0x1000, 64, 64)];
    let image = minimal_elf(0, &phdrs, &[1, 2]); // far fewer than 64 bytes
    assert_eq!(
        load_image(&image).unwrap_err(),
        LoadError::MalformedSegment
    );
}

#[test]
fn load_image_rejects_overlapping_segments() {
    let phdrs = [
        seg(PT_LOAD, 176, 0x1000, 4, 8),
        seg(PT_LOAD, 180, 0x1004, 2, 2),
    ];
    let image = minimal_elf(0, &phdrs, &[1, 2, 3, 4, 5, 6]);
    assert_eq!(
        load_image(&image).unwrap_err(),
        LoadError::MalformedSegment
    );
}
