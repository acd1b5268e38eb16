use photo_cleanup::sniff::{hint_from_extension, sniff, Container};

fn pad(prefix: &[u8]) -> Vec<u8> {
    let mut v = prefix.to_vec();
    v.resize(32, 0);
    v
}

#[test]
fn detects_the_containers_in_this_archive() {
    assert_eq!(sniff(&pad(&[0xFF, 0xD8, 0xFF, 0xE1])), Container::Jpeg);
    assert_eq!(sniff(&pad(b"II\x2a\x00")), Container::Tiff);
    assert_eq!(sniff(&pad(b"MM\x00\x2a")), Container::Tiff);
    assert_eq!(sniff(&pad(b"\x89PNG\r\n\x1a\n")), Container::Png);
    assert_eq!(sniff(&pad(b"BM")), Container::Bmp);
    assert_eq!(sniff(&pad(b"8BPS")), Container::Psd);
}

#[test]
fn detects_riff_and_isobmff_which_need_a_second_field() {
    let mut webp = b"RIFF".to_vec();
    webp.extend_from_slice(&[0, 0, 0, 0]);
    webp.extend_from_slice(b"WEBP");
    assert_eq!(sniff(&pad(&webp)), Container::WebP);

    let mut heic = vec![0, 0, 0, 0x18];
    heic.extend_from_slice(b"ftypheic");
    assert_eq!(sniff(&pad(&heic)), Container::Heif);
}

#[test]
fn a_wrong_extension_does_not_decide_the_container() {
    // An extensionless JPEG, which this archive has 24k of.
    assert_eq!(sniff(&pad(&[0xFF, 0xD8, 0xFF])), Container::Jpeg);
    assert_eq!(hint_from_extension("preview1"), None);
    // ARW is a TIFF container.
    assert_eq!(hint_from_extension("DSC01234.ARW"), Some(Container::Tiff));
}

#[test]
fn short_and_unknown_input_is_not_an_image() {
    assert_eq!(sniff(b"abc"), Container::Unknown);
    assert_eq!(sniff(&pad(b"not an image at all")), Container::Unknown);
}

#[test]
fn gif_and_bigtiff_and_avif_are_recognised() {
    assert_eq!(sniff(&pad(b"GIF89a")), Container::Gif);
    assert_eq!(sniff(&pad(b"GIF87a")), Container::Gif);
    assert_eq!(sniff(&pad(b"II\x2b\x00")), Container::Tiff);
    let mut avif = vec![0, 0, 0, 0x1c];
    avif.extend_from_slice(b"ftypavif");
    assert_eq!(sniff(&pad(&avif)), Container::Heif);
    let mut mp4 = vec![0, 0, 0, 0x1c];
    mp4.extend_from_slice(b"ftypisom");
    assert_eq!(sniff(&pad(&mp4)), Container::Unknown);
}

#[test]
fn the_hint_is_the_text_after_the_last_dot_in_any_case() {
    assert_eq!(hint_from_extension("a.b.JpEg"), Some(Container::Jpeg));
    assert_eq!(hint_from_extension("scan.tif.bak"), None);
    assert_eq!(hint_from_extension("x.heic"), Some(Container::Heif));
    assert_eq!(hint_from_extension("trailing."), None);
}

#[test]
fn container_words_and_predicates() {
    assert_eq!(Container::Tiff.as_str(), "tiff");
    assert_eq!(Container::Unknown.as_str(), "unknown");
    assert!(Container::Heif.is_indexed());
    assert!(Container::Tiff.is_indexed());
    assert!(!Container::Jpeg.is_indexed());
    assert!(Container::Jpeg.is_image());
    assert!(!Container::Unknown.is_image());
}

#[test]
fn only_the_first_twelve_bytes_decide() {
    let mut webp = b"RIFF\0\0\0\0WEBP".to_vec();
    assert_eq!(sniff(&webp), Container::WebP);
    webp.resize(32, 0xAB);
    assert_eq!(sniff(&webp), Container::WebP);
    let mut heif = vec![0, 0, 0, 0x18];
    heif.extend_from_slice(b"ftypheic");
    heif.resize(32, 0);
    assert_eq!(sniff(&heif), Container::Heif);
    assert_eq!(sniff(b"abc"), Container::Unknown);
    assert_eq!(sniff(&[0xFF, 0xD8, 0xFF]), Container::Unknown);
}
