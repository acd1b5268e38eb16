use photo_cleanup::jpeg::{dimensions, find_eoi};

/// Minimal JPEG: SOI, an APP0 to skip over, an SOF0 of 640x480, EOI.
fn sample() -> Vec<u8> {
    let mut v = vec![0xFF, 0xD8];
    v.extend_from_slice(&[0xFF, 0xE0, 0x00, 0x04, 0x00, 0x00]);
    v.extend_from_slice(&[0xFF, 0xC0, 0x00, 0x11, 0x08]);
    v.extend_from_slice(&480u16.to_be_bytes());
    v.extend_from_slice(&640u16.to_be_bytes());
    v.extend_from_slice(&[0u8; 10]);
    v.extend_from_slice(&[0xFF, 0xD9]);
    v
}

#[test]
fn reads_dimensions_past_other_segments() {
    assert_eq!(dimensions(&sample()), Some((640, 480)));
}

#[test]
fn rejects_non_jpeg_and_truncated_input() {
    assert_eq!(dimensions(b"not a jpeg"), None);
    assert_eq!(dimensions(&[0xFF, 0xD8]), None);
    let s = sample();
    assert_eq!(dimensions(&s[..8]), None);
}

#[test]
fn finds_the_end_marker() {
    let s = sample();
    assert_eq!(find_eoi(&s, 2), Some(s.len()));
    assert_eq!(find_eoi(&[0xFF, 0xD8, 0x00], 0), None);
}

#[test]
fn fill_bytes_and_standalone_markers_are_stepped_over() {
    // Padding before the first marker, then an RST marker with no length.
    let mut v = vec![0xFF, 0xD8, 0x00, 0x00, 0xFF, 0xD0];
    v.extend_from_slice(&[0xFF, 0xC2, 0x00, 0x11, 0x08, 0x00, 0x10, 0x00, 0x20]);
    v.extend_from_slice(&[0u8; 10]);
    assert_eq!(dimensions(&v), Some((32, 16)));
}

#[test]
fn a_huffman_table_is_not_a_frame() {
    // DHT shares the SOF range; its bytes must not be read as a size.
    let mut v = vec![0xFF, 0xD8];
    v.extend_from_slice(&[0xFF, 0xC4, 0x00, 0x07, 0x00, 0x05, 0x00, 0x07, 0x00]);
    v.extend_from_slice(&[0xFF, 0xC0, 0x00, 0x07, 0x08, 0x00, 0x02, 0x00, 0x03]);
    v.extend_from_slice(&[0u8; 4]);
    assert_eq!(dimensions(&v), Some((3, 2)));
}

#[test]
fn an_end_marker_before_any_frame_means_no_size() {
    let v = [0xFF, 0xD8, 0xFF, 0xD9, 0x00, 0x00, 0x00, 0x00];
    assert_eq!(dimensions(&v), None);
}

#[test]
fn a_zero_sized_frame_is_refused() {
    let mut v = vec![0xFF, 0xD8, 0xFF, 0xC0, 0x00, 0x11, 0x08, 0x00, 0x00, 0x02, 0x80];
    v.extend_from_slice(&[0u8; 12]);
    assert_eq!(dimensions(&v), None);
}

#[test]
fn find_eoi_starts_where_it_is_told() {
    let v = [0xFF, 0xD9, 0x01, 0xFF, 0xD9];
    assert_eq!(find_eoi(&v, 0), Some(2));
    assert_eq!(find_eoi(&v, 1), Some(5));
    assert_eq!(find_eoi(&v, 100), None);
}

#[test]
fn bytes_after_the_frame_header_change_nothing() {
    let header = vec![0xFF, 0xD8, 0xFF, 0xC0, 0x00, 0x0B, 0x08, 0x00, 0x10, 0x00, 0x20, 0x03, 0x00, 0x00, 0x00, 0x00];
    assert_eq!(dimensions(&header), Some((32, 16)));
    let mut longer = header.clone();
    longer.extend_from_slice(&[0xFF, 0xC0, 0x00, 0x0B, 0x08, 0x99, 0x99, 0x99, 0x99, 0x03, 0, 0, 0, 0]);
    assert_eq!(dimensions(&longer), Some((32, 16)));
}
