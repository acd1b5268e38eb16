use photo_cleanup::tiff::{
    accept_preview, find_embedded_jpegs, largest_preview, preview_ranges, TAG_JPEG_LENGTH,
    TAG_JPEG_OFFSET, TAG_SUB_IFDS,
};

/// A JPEG whose payload scales with its dimensions, as a real one does.
fn tiny_jpeg(w: u16, h: u16) -> Vec<u8> {
    let mut v = vec![0xFF, 0xD8];
    v.extend_from_slice(&[0xFF, 0xC0, 0x00, 0x11, 0x08]);
    v.extend_from_slice(&h.to_be_bytes());
    v.extend_from_slice(&w.to_be_bytes());
    v.extend_from_slice(&[0u8; 10]);
    // Stand-in for entropy-coded data, avoiding 0xFF so no marker appears.
    v.extend(std::iter::repeat_n(0x5Au8, (w as usize / 8).max(4)));
    v.extend_from_slice(&[0xFF, 0xD9]);
    v
}

/// A little-endian TIFF with IFD0 pointing at a thumbnail and a SubIFD
/// holding the large preview — the shape a Sony ARW has.
fn arw_like() -> Vec<u8> {
    let thumb = tiny_jpeg(160, 120);
    let preview = tiny_jpeg(1616, 1080);

    let mut buf = vec![0u8; 8];
    buf[0..2].copy_from_slice(b"II");
    buf[2..4].copy_from_slice(&42u16.to_le_bytes());

    let thumb_at = 8usize;
    buf.extend_from_slice(&thumb);
    let preview_at = buf.len();
    buf.extend_from_slice(&preview);

    let sub_ifd_at = buf.len();
    let mut sub = Vec::new();
    sub.extend_from_slice(&1u16.to_le_bytes());
    sub.extend_from_slice(&TAG_JPEG_OFFSET.to_le_bytes());
    sub.extend_from_slice(&4u16.to_le_bytes());
    sub.extend_from_slice(&1u32.to_le_bytes());
    sub.extend_from_slice(&(preview_at as u32).to_le_bytes());
    sub.extend_from_slice(&0u32.to_le_bytes());
    buf.extend_from_slice(&sub);

    // Length tag for the preview lives in the same SubIFD; rebuild it with
    // two entries now that both offsets are known.
    let mut sub = Vec::new();
    sub.extend_from_slice(&2u16.to_le_bytes());
    for (tag, val) in [
        (TAG_JPEG_OFFSET, preview_at as u32),
        (TAG_JPEG_LENGTH, preview.len() as u32),
    ] {
        sub.extend_from_slice(&tag.to_le_bytes());
        sub.extend_from_slice(&4u16.to_le_bytes());
        sub.extend_from_slice(&1u32.to_le_bytes());
        sub.extend_from_slice(&val.to_le_bytes());
    }
    sub.extend_from_slice(&0u32.to_le_bytes());
    buf.truncate(sub_ifd_at);
    buf.extend_from_slice(&sub);

    let ifd0_at = buf.len();
    let mut ifd0 = Vec::new();
    ifd0.extend_from_slice(&3u16.to_le_bytes());
    for (tag, val) in [
        (TAG_JPEG_OFFSET, thumb_at as u32),
        (TAG_JPEG_LENGTH, thumb.len() as u32),
        (TAG_SUB_IFDS, sub_ifd_at as u32),
    ] {
        ifd0.extend_from_slice(&tag.to_le_bytes());
        ifd0.extend_from_slice(&4u16.to_le_bytes());
        ifd0.extend_from_slice(&1u32.to_le_bytes());
        ifd0.extend_from_slice(&val.to_le_bytes());
    }
    ifd0.extend_from_slice(&0u32.to_le_bytes());
    buf.extend_from_slice(&ifd0);

    buf[4..8].copy_from_slice(&(ifd0_at as u32).to_le_bytes());
    buf
}

#[test]
fn finds_both_previews_and_prefers_the_large_one() {
    let data = arw_like();
    let all = find_embedded_jpegs(&data);
    assert_eq!(all.len(), 2, "{all:?}");
    let big = largest_preview(&data).unwrap();
    assert_eq!((big.width, big.height), (1616, 1080));
}

#[test]
fn a_wrong_length_is_corrected_by_the_end_marker() {
    let data = arw_like();
    let big = largest_preview(&data).unwrap();
    let slice = &data[big.offset..big.offset + big.len];
    assert!(slice.ends_with(&[0xFF, 0xD9]));
}

#[test]
fn ranges_can_be_read_from_the_header_alone() {
    let data = arw_like();
    // Only the directories, not the pixel data they point at.
    let ranges = preview_ranges(&data);
    assert!(ranges.len() >= 2, "{ranges:?}");
    // Candidates come back largest first, and the largest really is the
    // full preview rather than the 160x120 thumbnail beside it.
    let (off, len) = ranges[0];
    let slice = &data[off as usize..(off + len) as usize];
    let e = accept_preview(slice).unwrap();
    assert_eq!((e.width, e.height), (1616, 1080));
}

#[test]
fn the_preview_is_chosen_by_pixels_not_by_byte_length() {
    // Byte length only orders the candidates; the decision is made after
    // decoding, so an oddly compressed thumbnail cannot win.
    let data = arw_like();
    let best = preview_ranges(&data)
        .iter()
        .filter_map(|(off, len)| {
            let end = (off + len) as usize;
            data.get(*off as usize..end).and_then(accept_preview)
        })
        .max_by_key(|e| e.pixels())
        .unwrap();
    assert_eq!((best.width, best.height), (1616, 1080));
}

#[test]
fn accept_preview_rejects_bytes_that_are_not_a_jpeg() {
    assert!(accept_preview(b"\x00\x01\x02\x03").is_none());
    assert!(accept_preview(&[0xFF, 0xD8, 0xFF]).is_none());
}

#[test]
fn non_tiff_and_bigtiff_yield_nothing_instead_of_panicking() {
    assert!(find_embedded_jpegs(b"not a tiff at all").is_empty());
    let mut bigtiff = b"II".to_vec();
    bigtiff.extend_from_slice(&43u16.to_le_bytes());
    bigtiff.extend_from_slice(&[0u8; 32]);
    assert!(find_embedded_jpegs(&bigtiff).is_empty());
}

#[test]
fn truncated_and_garbage_input_never_panics() {
    let data = arw_like();
    for cut in [0, 1, 8, 20, 60, data.len() / 2, data.len() - 1] {
        let _ = find_embedded_jpegs(&data[..cut.min(data.len())]);
    }
    // Offsets pointing outside the file must simply be rejected.
    let mut broken = data.clone();
    broken[4..8].copy_from_slice(&0xFFFF_0000u32.to_le_bytes());
    assert!(find_embedded_jpegs(&broken).is_empty());
}

#[test]
fn a_directory_that_points_at_itself_ends_the_walk() {
    let mut data = arw_like();
    // Make IFD0's "next" pointer loop back to IFD0.
    let ifd0 = u32::from_le_bytes(data[4..8].try_into().unwrap()) as usize;
    let next = ifd0 + 2 + 3 * 12;
    let ifd0_bytes = (ifd0 as u32).to_le_bytes();
    data[next..next + 4].copy_from_slice(&ifd0_bytes);
    assert_eq!(find_embedded_jpegs(&data).len(), 2);
}

#[test]
fn big_endian_containers_are_read_in_their_own_order() {
    let jpeg = tiny_jpeg(64, 48);
    let mut buf = b"MM".to_vec();
    buf.extend_from_slice(&42u16.to_be_bytes());
    buf.extend_from_slice(&0u32.to_be_bytes());
    let jpeg_at = buf.len() as u32;
    buf.extend_from_slice(&jpeg);
    let ifd_at = buf.len() as u32;
    buf.extend_from_slice(&2u16.to_be_bytes());
    for (tag, val) in [(TAG_JPEG_OFFSET, jpeg_at), (TAG_JPEG_LENGTH, 10_000u32)] {
        buf.extend_from_slice(&tag.to_be_bytes());
        buf.extend_from_slice(&4u16.to_be_bytes());
        buf.extend_from_slice(&1u32.to_be_bytes());
        buf.extend_from_slice(&val.to_be_bytes());
    }
    buf.extend_from_slice(&0u32.to_be_bytes());
    buf[4..8].copy_from_slice(&ifd_at.to_be_bytes());
    let all = find_embedded_jpegs(&buf);
    assert_eq!(all.len(), 1);
    // The recorded length overshoots; the end marker bounds it.
    assert_eq!(all[0].len, jpeg.len());
    assert_eq!((all[0].width, all[0].height), (64, 48));
    assert_eq!(preview_ranges(&buf), vec![(jpeg_at as u64, 10_000u64)]);
}

#[test]
fn pixels_multiply_without_overflow() {
    let e = accept_preview(&tiny_jpeg(65535, 65535)).unwrap();
    assert_eq!(e.pixels(), 65535u64 * 65535u64);
}
