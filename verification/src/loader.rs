//! The executable-image loader: parse a relocatable executable image,
//! compute the contiguous physical span its loadable segments require,
//! place file-backed bytes and zero-fill the rest, and resolve the entry
//! address.
//!
//! Parsing the image format is delegated to an outside ELF parser behind
//! one trusted wrapper; everything after the parse — the load plan, the
//! page rounding, the segment placement — is verified.

use vstd::prelude::*;

verus! {

/// Segment type tag marking a segment as loadable.
pub const PT_LOAD: u32 = 1;

/// Page granularity of the platform's physical allocator.
pub const EFI_PAGE_SIZE: u64 = 0x1000;

/// One program header of the parsed image: type tag, range in the source
/// file, and target address and size in memory.
#[derive(PartialEq, Eq, Structural, Clone, Copy, Debug)]
pub struct Segment {
    pub p_type: u32,
    pub p_offset: u64,
    pub p_vaddr: u64,
    pub p_filesz: u64,
    pub p_memsz: u64,
}

/// Whether a segment is to be placed in memory.
pub open spec fn is_loadable(s: Segment) -> bool {
    s.p_type == PT_LOAD
}

/// The segment's end address does not overflow the address space.
pub open spec fn segment_fits(s: Segment) -> bool {
    s.p_vaddr + s.p_memsz <= u64::MAX
}

/// What an executable image parses to: its entry address and its program
/// headers.
pub struct ElfView {
    pub entry: u64,
    pub segments: Seq<Segment>,
}

/// What the outside ELF parser returns for a given byte sequence: `None`
/// where it rejects the bytes, otherwise the parsed image.
pub uninterp spec fn elf_parse(bytes: Seq<u8>) -> Option<ElfView>;

/// The parsed image as executable data.
pub struct ParsedImage {
    pub entry: u64,
    pub segments: Vec<Segment>,
}

/// A fatal loader error; the boot sequence does not retry.
#[derive(PartialEq, Eq, Structural, Clone, Copy, Debug)]
pub enum LoadError {
    /// The image is too short or its headers are malformed.
    Parse,
    /// The image declares no loadable segment.
    NoLoadableSegments,
    /// A loadable segment overflows the address space, reaches outside the
    /// image file, shrinks in memory, or overlaps another.
    MalformedSegment,
    /// The load span is larger than this machine can address.
    SpanTooLarge,
}

/// Relies on `goblin::elf::Elf::parse`: parsing is a pure function of the
/// input bytes; on success the program headers' type, offset, address and
/// size fields and the header's entry address are handed out unchanged,
/// and a rejected input is reported as a parse error.
#[verifier::external_body]
fn parse_elf_image(buf: &Vec<u8>) -> (r: Result<ParsedImage, LoadError>)
    ensures
        match r {
            Ok(img) => elf_parse(buf@) == Some(
                ElfView { entry: img.entry, segments: img.segments@ },
            ),
            Err(e) => elf_parse(buf@) is None && e == LoadError::Parse,
        },
{
    let elf = match goblin::elf::Elf::parse(buf.as_slice()) {
        Ok(e) => e,
        Err(_) => return Err(LoadError::Parse),
    };
    let segments = elf.program_headers.iter().map(|ph| Segment {
        p_type: ph.p_type,
        p_offset: ph.p_offset,
        p_vaddr: ph.p_vaddr,
        p_filesz: ph.p_filesz,
        p_memsz: ph.p_memsz,
    }).collect();
    Ok(ParsedImage { entry: elf.entry, segments })
}

/// At least one segment is loadable.
pub open spec fn has_loadable(segs: Seq<Segment>) -> bool {
    exists|i: int| 0 <= i < segs.len() && is_loadable(#[trigger] segs[i])
}

/// `[start, end)` is the minimal span covering every loadable segment:
/// `start` is the least loadable virtual address and `end` the greatest
/// loadable `vaddr + memsz` — each bounds all loadable segments and each
/// is attained by one.
pub open spec fn span_ok(segs: Seq<Segment>, start: u64, end: u64) -> bool {
    &&& forall|i: int|
        0 <= i < segs.len() && is_loadable(#[trigger] segs[i]) ==> start <= segs[i].p_vaddr
            && segs[i].p_vaddr + segs[i].p_memsz <= end
    &&& exists|i: int|
        0 <= i < segs.len() && is_loadable(#[trigger] segs[i]) && segs[i].p_vaddr == start
    &&& exists|i: int|
        0 <= i < segs.len() && is_loadable(#[trigger] segs[i]) && segs[i].p_vaddr
            + segs[i].p_memsz == end
}

proof fn lemma_span_skip(segs: Seq<Segment>, i: int, start: u64, end: u64)
    requires
        0 <= i < segs.len(),
        !is_loadable(segs[i]),
    ensures
        has_loadable(segs.take(i + 1)) == has_loadable(segs.take(i)),
        span_ok(segs.take(i), start, end) ==> span_ok(segs.take(i + 1), start, end),
{
    let p = segs.take(i);
    let p1 = segs.take(i + 1);
    assert(forall|j: int| 0 <= j < i ==> p1[j] == #[trigger] p[j]);
    assert(p1[i] == segs[i]);
    if has_loadable(p1) {
        let j = choose|j: int| 0 <= j < p1.len() && is_loadable(#[trigger] p1[j]);
        assert(is_loadable(p[j]));
        assert(has_loadable(p));
    }
    if has_loadable(p) {
        let j = choose|j: int| 0 <= j < p.len() && is_loadable(#[trigger] p[j]);
        assert(is_loadable(p1[j]));
        assert(has_loadable(p1));
    }
    if span_ok(p, start, end) {
        assert forall|j: int|
            0 <= j < p1.len() && is_loadable(#[trigger] p1[j]) implies start <= p1[j].p_vaddr
            && p1[j].p_vaddr + p1[j].p_memsz <= end by {
            assert(p1[j] == p[j]);
        }
        let j1 = choose|j: int|
            0 <= j < p.len() && is_loadable(#[trigger] p[j]) && p[j].p_vaddr == start;
        assert(is_loadable(p1[j1]) && p1[j1].p_vaddr == start);
        let j2 = choose|j: int|
            0 <= j < p.len() && is_loadable(#[trigger] p[j]) && p[j].p_vaddr + p[j].p_memsz
                == end;
        assert(is_loadable(p1[j2]) && p1[j2].p_vaddr + p1[j2].p_memsz == end);
    }
}

proof fn lemma_span_extend(
    segs: Seq<Segment>,
    i: int,
    start: u64,
    end: u64,
    new_start: u64,
    new_end: u64,
)
    requires
        0 <= i < segs.len(),
        is_loadable(segs[i]),
        segment_fits(segs[i]),
        new_start == (if segs[i].p_vaddr < start {
            segs[i].p_vaddr
        } else {
            start
        }),
        new_end as int == (if segs[i].p_vaddr + segs[i].p_memsz > end {
            segs[i].p_vaddr + segs[i].p_memsz
        } else {
            end as int
        }),
        has_loadable(segs.take(i)) ==> span_ok(segs.take(i), start, end),
        !has_loadable(segs.take(i)) ==> start == u64::MAX && end == 0,
    ensures
        has_loadable(segs.take(i + 1)),
        span_ok(segs.take(i + 1), new_start, new_end),
{
    let p = segs.take(i);
    let p1 = segs.take(i + 1);
    let s = segs[i];
    assert(forall|j: int| 0 <= j < i ==> p1[j] == #[trigger] p[j]);
    assert(p1[i] == s);
    assert(is_loadable(p1[i]));
    assert(has_loadable(p1));
    assert forall|j: int|
        0 <= j < p1.len() && is_loadable(#[trigger] p1[j]) implies new_start <= p1[j].p_vaddr
        && p1[j].p_vaddr + p1[j].p_memsz <= new_end by {
        if j < i {
            assert(p1[j] == p[j]);
            assert(has_loadable(p)) by {
                assert(is_loadable(p[j]));
            }
        }
    }
    if s.p_vaddr < start {
        assert(p1[i].p_vaddr == new_start);
    } else if has_loadable(p) {
        let j1 = choose|j: int|
            0 <= j < p.len() && is_loadable(#[trigger] p[j]) && p[j].p_vaddr == start;
        assert(is_loadable(p1[j1]) && p1[j1].p_vaddr == new_start);
    } else {
        assert(start == u64::MAX);
        assert(s.p_vaddr == u64::MAX);
        assert(p1[i].p_vaddr == new_start);
    }
    if s.p_vaddr + s.p_memsz > end {
        assert(p1[i].p_vaddr + p1[i].p_memsz == new_end);
    } else if has_loadable(p) {
        let j2 = choose|j: int|
            0 <= j < p.len() && is_loadable(#[trigger] p[j]) && p[j].p_vaddr + p[j].p_memsz
                == end;
        assert(is_loadable(p1[j2]) && p1[j2].p_vaddr + p1[j2].p_memsz == new_end);
    } else {
        assert(end == 0);
        assert(s.p_vaddr + s.p_memsz == 0);
        assert(p1[i].p_vaddr + p1[i].p_memsz == new_end);
    }
}

/// Compute the load plan: the minimal contiguous span `[start, end)`
/// covering every loadable segment, with `start` the least loadable
/// virtual address and `end` the greatest loadable `vaddr + memsz`; `None`
/// when no segment is loadable.
pub fn compute_load_plan(segments: &Vec<Segment>) -> (r: Option<(u64, u64)>)
    requires
        forall|i: int|
            0 <= i < segments@.len() && is_loadable(#[trigger] segments@[i]) ==> segment_fits(
                segments@[i],
            ),
    ensures
        match r {
            Some(span) => has_loadable(segments@) && span_ok(segments@, span.0, span.1),
            None => !has_loadable(segments@),
        },
{
    let ghost segs = segments@;
    let mut dest_start: u64 = u64::MAX;
    let mut dest_end: u64 = 0;
    let mut found = false;
    let n = segments.len();
    for i in 0..n
        invariant
            n == segs.len(),
            segs == segments@,
            forall|j: int|
                0 <= j < segs.len() && is_loadable(#[trigger] segs[j]) ==> segment_fits(segs[j]),
            found == has_loadable(segs.take(i as int)),
            found ==> span_ok(segs.take(i as int), dest_start, dest_end),
            !found ==> dest_start == u64::MAX && dest_end == 0,
    {
        let s = segments[i];
        if s.p_type == PT_LOAD {
            let ghost old_start = dest_start;
            let ghost old_end = dest_end;
            if s.p_vaddr < dest_start {
                dest_start = s.p_vaddr;
            }
            let send = s.p_vaddr + s.p_memsz;
            if send > dest_end {
                dest_end = send;
            }
            found = true;
            proof {
                lemma_span_extend(segs, i as int, old_start, old_end, dest_start, dest_end);
            }
        } else {
            proof {
                lemma_span_skip(segs, i as int, dest_start, dest_end);
            }
        }
    }
    proof {
        assert(segs.take(n as int) =~= segs);
    }
    if found {
        Some((dest_start, dest_end))
    } else {
        None
    }
}

/// Pages needed to cover `len` bytes at page granularity, rounded up.
pub open spec fn pages_for_span(len: int) -> int {
    (len + 0xfff) / 0x1000
}

/// Number of pages the fixed allocation for the span `[start, end)` must
/// request.
pub fn page_count_for_span(start: u64, end: u64) -> (n: u64)
    requires
        start <= end,
    ensures
        n as int == pages_for_span(end - start),
{
    let len = end - start;
    let q = len / EFI_PAGE_SIZE;
    let r = len % EFI_PAGE_SIZE;
    let n = if r != 0 {
        q + 1
    } else {
        q
    };
    proof {
        assert(n as int == ((len as int) + 0xfff) / 0x1000) by (nonlinear_arith)
            requires
                0 <= len as int,
                q == len as int / 0x1000,
                r == len as int % 0x1000,
                n as int == (if r != 0 {
                    q + 1
                } else {
                    q as int
                }),
        ;
    }
    n
}


/// Byte `k` of a segment's memory range holds the right value: a copy of
/// the image file within the file-backed part, zero in the remainder.
pub open spec fn byte_matches(
    region: Seq<u8>,
    region_start: u64,
    s: Segment,
    image: Seq<u8>,
    k: int,
) -> bool {
    region[s.p_vaddr - region_start + k] == (if k < s.p_filesz {
        image[s.p_offset + k]
    } else {
        0u8
    })
}

/// The segment's whole memory range is in place within the region.
pub open spec fn segment_placed(
    region: Seq<u8>,
    region_start: u64,
    s: Segment,
    image: Seq<u8>,
) -> bool {
    forall|k: int| 0 <= k < s.p_memsz ==> #[trigger] byte_matches(region, region_start, s, image, k)
}

/// The segment lies inside the region and its file range inside the image.
pub open spec fn segment_in_bounds(
    s: Segment,
    region_start: u64,
    region_len: int,
    image_len: int,
) -> bool {
    &&& region_start <= s.p_vaddr
    &&& s.p_vaddr + s.p_memsz <= region_start + region_len
    &&& s.p_offset + s.p_filesz <= image_len
    &&& s.p_filesz <= s.p_memsz
}

/// No two loadable segments overlap in memory.
pub open spec fn segments_disjoint(segs: Seq<Segment>) -> bool {
    forall|i: int, j: int|
        0 <= i < segs.len() && 0 <= j < segs.len() && i != j && is_loadable(#[trigger] segs[i])
            && is_loadable(#[trigger] segs[j]) ==> segs[i].p_vaddr + segs[i].p_memsz
            <= segs[j].p_vaddr || segs[j].p_vaddr + segs[j].p_memsz <= segs[i].p_vaddr
}

/// Region index `k` lies inside some loadable segment's memory range.
pub open spec fn addr_covered(segs: Seq<Segment>, region_start: u64, k: int) -> bool {
    exists|i: int|
        0 <= i < segs.len() && is_loadable(#[trigger] segs[i]) && segs[i].p_vaddr - region_start
            <= k < segs[i].p_vaddr - region_start + segs[i].p_memsz
}

/// Place every loadable segment into the region that models the memory at
/// `[region_start, region_start + region.len())`: copy the file-backed
/// bytes, zero-fill the rest of each segment, and touch nothing else.
pub fn load_segments(
    region: &mut Vec<u8>,
    region_start: u64,
    segments: &Vec<Segment>,
    image: &Vec<u8>,
)
    requires
        forall|i: int|
            0 <= i < segments@.len() && is_loadable(#[trigger] segments@[i]) ==> segment_in_bounds(
                segments@[i],
                region_start,
                old(region)@.len() as int,
                image@.len() as int,
            ),
        segments_disjoint(segments@),
    ensures
        final(region)@.len() == old(region)@.len(),
        forall|i: int|
            0 <= i < segments@.len() && is_loadable(#[trigger] segments@[i]) ==> segment_placed(
                final(region)@,
                region_start,
                segments@[i],
                image@,
            ),
        forall|k: int|
            0 <= k < old(region)@.len() && !addr_covered(segments@, region_start, k)
                ==> final(region)@[k] == old(region)@[k],
{
    let ghost segs = segments@;
    let ghost pre = old(region)@;
    let region_len = region.len();
    let image_len = image.len();
    let ghost len0 = region_len as int;
    let n = segments.len();
    for i in 0..n
        invariant
            n == segs.len(),
            segs == segments@,
            region@.len() == len0,
            len0 == pre.len(),
            len0 == region_len as int,
            image@.len() == image_len,
            forall|j: int|
                0 <= j < segs.len() && is_loadable(#[trigger] segs[j]) ==> segment_in_bounds(
                    segs[j],
                    region_start,
                    len0,
                    image@.len() as int,
                ),
            segments_disjoint(segs),
            forall|j: int|
                0 <= j < i && is_loadable(#[trigger] segs[j]) ==> segment_placed(
                    region@,
                    region_start,
                    segs[j],
                    image@,
                ),
            forall|k: int|
                0 <= k < len0 && !addr_covered(segs.take(i as int), region_start, k)
                    ==> region@[k] == pre[k],
    {
        let s = segments[i];
        if s.p_type == PT_LOAD {
            let ghost regmid = region@;
            proof {
                assert(segment_in_bounds(segs[i as int], region_start, len0, image@.len() as int));
                assert(s.p_vaddr - region_start <= len0);
                assert(s.p_memsz <= len0);
                assert(s.p_offset <= image@.len());
                assert(s.p_filesz <= image@.len());
            }
            let base = (s.p_vaddr - region_start) as usize;
            let off = s.p_offset as usize;
            let fsz = s.p_filesz as usize;
            let msz = s.p_memsz as usize;
            let ghost basei = s.p_vaddr - region_start;
            for k in 0..fsz
                invariant
                    region@.len() == len0,
                    len0 == region_len as int,
                    image@.len() == image_len,
                    basei == base as int,
                    basei + msz <= len0,
                    off as int == s.p_offset,
                    fsz == s.p_filesz,
                    msz == s.p_memsz,
                    fsz <= msz,
                    off + fsz <= image_len,
                    forall|u: int|
                        basei <= u < basei + k ==> region@[u] == image@[u - basei + s.p_offset],
                    forall|u: int|
                        0 <= u < len0 && !(basei <= u < basei + k) ==> region@[u] == regmid[u],
            {
                region[base + k] = image[off + k];
            }
            for k in fsz..msz
                invariant
                    region@.len() == len0,
                    len0 == region_len as int,
                    basei == base as int,
                    basei + msz <= len0,
                    fsz == s.p_filesz,
                    msz == s.p_memsz,
                    fsz <= k <= msz,
                    forall|u: int|
                        basei <= u < basei + fsz ==> region@[u] == image@[u - basei + s.p_offset],
                    forall|u: int| basei + fsz <= u < basei + k ==> region@[u] == 0u8,
                    forall|u: int|
                        0 <= u < len0 && !(basei <= u < basei + k) ==> region@[u] == regmid[u],
            {
                region[base + k] = 0;
            }
            proof {
                // the current segment is in place
                assert forall|k: int| 0 <= k < s.p_memsz implies #[trigger] byte_matches(
                    region@,
                    region_start,
                    s,
                    image@,
                    k,
                ) by {
                    assert(region@[basei + k] == (if k < s.p_filesz {
                        image@[s.p_offset + k]
                    } else {
                        0u8
                    }));
                }
                // earlier segments are untouched: their ranges are disjoint
                assert forall|j: int|
                    0 <= j < i + 1 && is_loadable(#[trigger] segs[j]) implies segment_placed(
                    region@,
                    region_start,
                    segs[j],
                    image@,
                ) by {
                    if j < i {
                        assert forall|k: int| 0 <= k < segs[j].p_memsz implies #[trigger] byte_matches(
                            region@,
                            region_start,
                            segs[j],
                            image@,
                            k,
                        ) by {
                            let u = segs[j].p_vaddr - region_start + k;
                            assert(segs[j].p_vaddr + segs[j].p_memsz <= s.p_vaddr || s.p_vaddr
                                + s.p_memsz <= segs[j].p_vaddr);
                            assert(!(basei <= u < basei + msz));
                            assert(region@[u] == regmid[u]);
                            assert(byte_matches(regmid, region_start, segs[j], image@, k));
                        }
                    } else {
                        assert(segs[j] == s);
                    }
                }
                // bytes outside all placed segments keep their old value
                assert forall|k: int|
                    0 <= k < len0 && !addr_covered(segs.take(i as int + 1), region_start, k) implies
                    region@[k] == pre[k] by {
                    assert(forall|j: int|
                        0 <= j < i + 1 ==> segs.take(i as int + 1)[j] == #[trigger] segs.take(
                            i as int,
                        )[j] || j == i);
                    assert(segs.take(i as int + 1)[i as int] == s);
                    assert(!(basei <= k < basei + msz)) by {
                        if basei <= k < basei + msz {
                            assert(is_loadable(segs.take(i as int + 1)[i as int]));
                            assert(addr_covered(segs.take(i as int + 1), region_start, k));
                        }
                    }
                    assert(region@[k] == regmid[k]);
                    assert(!addr_covered(segs.take(i as int), region_start, k)) by {
                        if addr_covered(segs.take(i as int), region_start, k) {
                            let j = choose|j: int|
                                0 <= j < segs.take(i as int).len() && is_loadable(
                                    #[trigger] segs.take(i as int)[j],
                                ) && segs.take(i as int)[j].p_vaddr - region_start <= k < segs.take(
                                    i as int,
                                )[j].p_vaddr - region_start + segs.take(i as int)[j].p_memsz;
                            assert(segs.take(i as int + 1)[j] == segs.take(i as int)[j]);
                            assert(addr_covered(segs.take(i as int + 1), region_start, k));
                        }
                    }
                }
            }
        } else {
            proof {
                assert forall|k: int|
                    0 <= k < len0 && !addr_covered(segs.take(i as int + 1), region_start, k) implies
                    region@[k] == pre[k] by {
                    assert(!addr_covered(segs.take(i as int), region_start, k)) by {
                        if addr_covered(segs.take(i as int), region_start, k) {
                            let j = choose|j: int|
                                0 <= j < segs.take(i as int).len() && is_loadable(
                                    #[trigger] segs.take(i as int)[j],
                                ) && segs.take(i as int)[j].p_vaddr - region_start <= k < segs.take(
                                    i as int,
                                )[j].p_vaddr - region_start + segs.take(i as int)[j].p_memsz;
                            assert(segs.take(i as int + 1)[j] == segs.take(i as int)[j]);
                            assert(addr_covered(segs.take(i as int + 1), region_start, k));
                        }
                    }
                }
            }
        }
    }
    proof {
        assert(segs.take(n as int) =~= segs);
    }
}

/// Check that no two loadable segments overlap in memory.
pub fn segments_are_disjoint(segments: &Vec<Segment>) -> (r: bool)
    requires
        forall|i: int|
            0 <= i < segments@.len() && is_loadable(#[trigger] segments@[i]) ==> segment_fits(
                segments@[i],
            ),
    ensures
        r == segments_disjoint(segments@),
{
    let ghost segs = segments@;
    let n = segments.len();
    for i in 0..n
        invariant
            n == segs.len(),
            segs == segments@,
            forall|a: int|
                0 <= a < segs.len() && is_loadable(#[trigger] segs[a]) ==> segment_fits(segs[a]),
            forall|a: int, b: int|
                0 <= a < i && a < b < segs.len() && is_loadable(#[trigger] segs[a]) && is_loadable(
                    #[trigger] segs[b],
                ) ==> segs[a].p_vaddr + segs[a].p_memsz <= segs[b].p_vaddr || segs[b].p_vaddr
                    + segs[b].p_memsz <= segs[a].p_vaddr,
    {
        let si = segments[i];
        if si.p_type == PT_LOAD {
            for j in i + 1..n
                invariant
                    n == segs.len(),
                    segs == segments@,
                    i < n,
                    si == segs[i as int],
                    is_loadable(segs[i as int]),
                    forall|a: int|
                        0 <= a < segs.len() && is_loadable(#[trigger] segs[a]) ==> segment_fits(
                            segs[a],
                        ),
                    forall|b: int|
                        i < b < j && is_loadable(#[trigger] segs[b]) ==> segs[i as int].p_vaddr
                            + segs[i as int].p_memsz <= segs[b].p_vaddr || segs[b].p_vaddr
                            + segs[b].p_memsz <= segs[i as int].p_vaddr,
            {
                let sj = segments[j];
                if sj.p_type == PT_LOAD {
                    let i_end = si.p_vaddr + si.p_memsz;
                    let j_end = sj.p_vaddr + sj.p_memsz;
                    if !(i_end <= sj.p_vaddr || j_end <= si.p_vaddr) {
                        proof {
                            assert(!segments_disjoint(segs)) by {
                                assert(is_loadable(segs[i as int]) && is_loadable(segs[j as int]));
                                assert(!(segs[i as int].p_vaddr + segs[i as int].p_memsz
                                    <= segs[j as int].p_vaddr || segs[j as int].p_vaddr
                                    + segs[j as int].p_memsz <= segs[i as int].p_vaddr));
                            }
                        }
                        return false;
                    }
                }
            }
        }
    }
    proof {
        assert forall|a: int, b: int|
            0 <= a < segs.len() && 0 <= b < segs.len() && a != b && is_loadable(#[trigger] segs[a])
                && is_loadable(#[trigger] segs[b]) implies segs[a].p_vaddr + segs[a].p_memsz
            <= segs[b].p_vaddr || segs[b].p_vaddr + segs[b].p_memsz <= segs[a].p_vaddr by {
            if a > b {
                assert(0 <= b < n && b < a < segs.len());
            }
        }
    }
    true
}

/// A zero-filled byte region of the given length.
fn zero_region(len: usize) -> (v: Vec<u8>)
    ensures
        v@.len() == len,
        forall|k: int| 0 <= k < len ==> v@[k] == 0u8,
{
    let mut v: Vec<u8> = Vec::new();
    for i in 0..len
        invariant
            v@.len() == i,
            forall|k: int| 0 <= k < i ==> v@[k] == 0u8,
    {
        v.push(0);
    }
    v
}

/// A loadable segment is well formed with respect to the image file: its
/// end address fits the address space, its file range lies inside the
/// image, and it does not shrink in memory.
pub open spec fn segment_ok(s: Segment, image_len: int) -> bool {
    &&& s.p_vaddr + s.p_memsz <= u64::MAX
    &&& s.p_offset + s.p_filesz <= image_len
    &&& s.p_filesz <= s.p_memsz
}

/// The parsed image can be loaded: it has a loadable segment, every
/// loadable segment is well formed, and no two overlap.
pub open spec fn image_loadable(segs: Seq<Segment>, image_len: int) -> bool {
    &&& has_loadable(segs)
    &&& forall|i: int|
        0 <= i < segs.len() && is_loadable(#[trigger] segs[i]) ==> segment_ok(segs[i], image_len)
    &&& segments_disjoint(segs)
}

/// The image region built by a successful load: the covered span starts at
/// `start`, holds the placed segments, and `entry` is the image's declared
/// entry address.
#[derive(Debug)]
pub struct LoadedImage {
    pub start: u64,
    pub entry: u64,
    pub bytes: Vec<u8>,
}

/// Load a complete executable image from a byte buffer: parse it, compute
/// the load plan, build the span's memory region, and place every loadable
/// segment — file-backed bytes copied, the remainder of each segment and
/// the gaps between segments zero.
pub fn load_image(image: &Vec<u8>) -> (r: Result<LoadedImage, LoadError>)
    ensures
        match r {
            Ok(li) => {
                &&& elf_parse(image@) matches Some(ev)
                &&& li.entry == ev.entry
                &&& image_loadable(ev.segments, image@.len() as int)
                &&& li.start + li.bytes@.len() <= u64::MAX
                &&& span_ok(ev.segments, li.start, (li.start + li.bytes@.len()) as u64)
                &&& forall|i: int|
                    0 <= i < ev.segments.len() && is_loadable(#[trigger] ev.segments[i])
                        ==> segment_placed(li.bytes@, li.start, ev.segments[i], image@)
                &&& forall|k: int|
                    0 <= k < li.bytes@.len() && !addr_covered(ev.segments, li.start, k)
                        ==> li.bytes@[k] == 0u8
            },
            Err(e) => match e {
                LoadError::Parse => elf_parse(image@) is None,
                LoadError::NoLoadableSegments => elf_parse(image@) matches Some(ev)
                    && !has_loadable(ev.segments),
                LoadError::MalformedSegment => elf_parse(image@) matches Some(ev) && has_loadable(
                    ev.segments,
                ) && !image_loadable(ev.segments, image@.len() as int),
                LoadError::SpanTooLarge => elf_parse(image@) matches Some(ev) && image_loadable(
                    ev.segments,
                    image@.len() as int,
                ) && exists|s: u64, e: u64|
                    span_ok(ev.segments, s, e) && e - s > usize::MAX,
            },
        },
{
    let parsed = match parse_elf_image(image) {
        Ok(p) => p,
        Err(e) => {
            return Err(e);
        },
    };
    let ghost segs = parsed.segments@;
    let image_len = image.len();
    let n = parsed.segments.len();
    let mut any = false;
    for i in 0..n
        invariant
            n == segs.len(),
            segs == parsed.segments@,
            elf_parse(image@) == Some(ElfView { entry: parsed.entry, segments: segs }),
            image_len == image@.len(),
            any == has_loadable(segs.take(i as int)),
            forall|j: int|
                0 <= j < i && is_loadable(#[trigger] segs[j]) ==> segment_ok(
                    segs[j],
                    image_len as int,
                ),
    {
        let s = parsed.segments[i];
        if s.p_type == PT_LOAD {
            if s.p_vaddr > u64::MAX - s.p_memsz || s.p_filesz > s.p_memsz || s.p_offset
                > image_len as u64 || s.p_filesz > image_len as u64 - s.p_offset {
                proof {
                    assert(is_loadable(segs[i as int]));
                    assert(has_loadable(segs));
                    assert(!segment_ok(segs[i as int], image_len as int));
                }
                return Err(LoadError::MalformedSegment);
            }
            any = true;
            proof {
                assert(segs.take(i as int + 1)[i as int] == segs[i as int]);
                assert(is_loadable(segs.take(i as int + 1)[i as int]));
                assert(has_loadable(segs.take(i as int + 1)));
            }
        } else {
            proof {
                lemma_span_skip(segs, i as int, 0, 0);
            }
        }
    }
    proof {
        assert(segs.take(n as int) =~= segs);
    }
    if !any {
        return Err(LoadError::NoLoadableSegments);
    }
    if !segments_are_disjoint(&parsed.segments) {
        return Err(LoadError::MalformedSegment);
    }
    let span = compute_load_plan(&parsed.segments);
    let (dest_start, dest_end) = match span {
        Some(p) => p,
        None => {
            proof {
                assert(false);
            }
            return Err(LoadError::NoLoadableSegments);
        },
    };
    let len64 = dest_end - dest_start;
    if len64 > usize::MAX as u64 {
        proof {
            assert(span_ok(segs, dest_start, dest_end) && dest_end - dest_start > usize::MAX);
        }
        return Err(LoadError::SpanTooLarge);
    }
    let mut bytes = zero_region(len64 as usize);
    proof {
        assert forall|i: int|
            0 <= i < segs.len() && is_loadable(#[trigger] segs[i]) implies segment_in_bounds(
            segs[i],
            dest_start,
            bytes@.len() as int,
            image@.len() as int,
        ) by {
            assert(segment_ok(segs[i], image_len as int));
        }
    }
    load_segments(&mut bytes, dest_start, &parsed.segments, image);
    Ok(LoadedImage { start: dest_start, entry: parsed.entry, bytes })
}
} // verus!


