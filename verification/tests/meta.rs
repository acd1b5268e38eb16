use photo_cleanup::meta::xmp::{parse_xmp, provenance_from, XmlEvent};
use photo_cleanup::meta::{
    date_from_name, days_from_civil, find_xmp, parse_exif_datetime, DateSource, Provenance,
};

#[test]
fn parses_exif_timestamps_and_rejects_nonsense() {
    assert_eq!(
        parse_exif_datetime("2019:07:14 18:32:05"),
        Some(1_563_129_125)
    );
    assert_eq!(
        parse_exif_datetime("1970:01:01 00:00:00"),
        None,
        "мёртвые часы"
    );
    assert_eq!(parse_exif_datetime("    :  :     :  :  "), None);
    assert_eq!(parse_exif_datetime("2019:13:14 18:32:05"), None);
    assert_eq!(parse_exif_datetime("short"), None);
}

#[test]
fn epoch_arithmetic_matches_known_dates() {
    // 1970 is rejected as a dead camera clock, so the arithmetic is
    // checked on dates the parser accepts.
    assert_eq!(
        parse_exif_datetime("2000:03:01 00:00:00"),
        Some(951_868_800)
    );
    assert_eq!(
        parse_exif_datetime("2024:02:29 12:00:00"),
        Some(1_709_208_000)
    );
    let a = parse_exif_datetime("1980:01:01 00:00:00").unwrap();
    let b = parse_exif_datetime("1980:01:02 00:00:00").unwrap();
    assert_eq!(b - a, 86_400);
}

#[test]
fn reads_dates_out_of_the_filenames_this_archive_uses() {
    let day = |y, m, d| Some(days_from_civil(y, m, d) * 86_400);
    assert_eq!(date_from_name("IMG_20190714_123456.jpg"), day(2019, 7, 14));
    assert_eq!(date_from_name("Screenshot_2021-03-02.png"), day(2021, 3, 2));
    assert_eq!(date_from_name("2019.07.14 отпуск"), day(2019, 7, 14));
    assert_eq!(date_from_name("DSC01234.ARW"), None);
    assert_eq!(date_from_name("99999999.jpg"), None);
}

#[test]
fn finds_an_xmp_packet_inside_surrounding_bytes() {
    let mut buf = vec![0xFFu8; 100];
    buf.extend_from_slice(br#"<x:xmpmeta a="b"></x:xmpmeta>"#);
    buf.extend_from_slice(&[0u8; 50]);
    let found = find_xmp(&buf).unwrap();
    assert!(found.starts_with(b"<x:xmpmeta"));
    assert!(found.ends_with(b"</x:xmpmeta>"));
    assert!(find_xmp(b"no packet here").is_none());
}

#[test]
fn the_epoch_is_day_zero() {
    assert_eq!(days_from_civil(1970, 1, 1), 0);
    assert_eq!(days_from_civil(1969, 12, 31), -1);
    assert_eq!(days_from_civil(2000, 3, 1), 11_017);
}

#[test]
fn white_space_around_the_stamp_and_its_fields_is_ignored() {
    assert_eq!(
        parse_exif_datetime("\u{3000} 2019:07:14 18:32:05\n"),
        Some(1_563_129_125)
    );
    assert_eq!(
        parse_exif_datetime("2019:07:14 18:32: 5"),
        Some(1_563_129_125)
    );
    // Separators are not looked at, only the columns.
    assert_eq!(
        parse_exif_datetime("2019-07-14T18:32:05"),
        Some(1_563_129_125)
    );
    // Past 2100 is as dead a clock as 1970.
    assert_eq!(parse_exif_datetime("2101:01:01 00:00:00"), None);
    assert_eq!(parse_exif_datetime("2019:07:14 24:00:00"), None);
    assert_eq!(parse_exif_datetime("2019:07:1\u{e9} 18:32:05"), None);
}

#[test]
fn a_date_needs_eight_digits_that_start_a_number() {
    assert_eq!(date_from_name("x120190714"), None);
    assert_eq!(date_from_name("2019071"), None);
    // The first eight digits decide; an impossible month moves the search on.
    assert_eq!(
        date_from_name("19891301 and 2020/01/05"),
        Some(days_from_civil(2020, 1, 5) * 86_400)
    );
}

#[test]
fn an_unclosed_packet_is_not_a_packet() {
    assert!(find_xmp(b"<x:xmpmeta a='b'> ...").is_none());
    let b = b"</x:xmpmeta><x:xmpmeta></x:xmpmeta>";
    assert_eq!(find_xmp(b).unwrap(), &b[12..]);
}

#[test]
fn date_sources_and_empty_provenance() {
    assert_eq!(DateSource::default(), DateSource::NoDate);
    assert_eq!(DateSource::FileDateTime.as_str(), "file-datetime");
    assert_eq!(DateSource::NoDate.as_str(), "none");
    let mut p = Provenance::default();
    assert!(p.is_empty());
    p.derived_from = Some("xmp.did:1".into());
    assert!(!p.is_empty());
}

#[test]
fn extracts_the_adobe_provenance_chain() {
    let xmp = br#"<x:xmpmeta xmlns:x="adobe:ns:meta/">
      <rdf:RDF><rdf:Description
         xmp:CreatorTool="Adobe Photoshop Lightroom Classic 13.2"
         xmpMM:DocumentID="xmp.did:AAAA"
         xmpMM:OriginalDocumentID="xmp.did:ORIG"
         xmpMM:DerivedFrom="xmp.did:PARENT"/></rdf:RDF></x:xmpmeta>"#;
    let (p, tool) = parse_xmp(xmp);
    assert_eq!(p.document_id.as_deref(), Some("xmp.did:AAAA"));
    assert_eq!(p.original_document_id.as_deref(), Some("xmp.did:ORIG"));
    assert_eq!(p.derived_from.as_deref(), Some("xmp.did:PARENT"));
    assert!(tool.unwrap().contains("Lightroom"));
}

#[test]
fn handles_derived_from_written_as_a_nested_element() {
    let xmp = br#"<x:xmpmeta><rdf:RDF><rdf:Description>
        <xmpMM:DerivedFrom stRef:documentID="xmp.did:NESTED"/>
      </rdf:Description></rdf:RDF></x:xmpmeta>"#;
    let (p, _) = parse_xmp(xmp);
    assert_eq!(p.derived_from.as_deref(), Some("xmp.did:NESTED"));
}

#[test]
fn element_text_counts_and_the_first_value_wins() {
    let xmp = br#"<x:xmpmeta><rdf:Description>
        <xmpMM:DocumentID>  xmp.did:TEXT  </xmpMM:DocumentID>
        <xmpMM:DocumentID>xmp.did:LATER</xmpMM:DocumentID>
        <tiff:Software>   </tiff:Software>
        <tiff:Software>GIMP 2.10</tiff:Software>
      </rdf:Description></x:xmpmeta>"#;
    let (p, tool) = parse_xmp(xmp);
    assert_eq!(p.document_id.as_deref(), Some("xmp.did:TEXT"));
    assert_eq!(tool.as_deref(), Some("GIMP 2.10"));
    assert!(p.original_document_id.is_none());
    assert!(p.dng_original_raw.is_none());
}

#[test]
fn events_are_read_as_the_contract_says() {
    let events = vec![
        XmlEvent::Open {
            name: b"rdf:Description".to_vec(),
            attrs: vec![None, Some((b"xmpMM:DocumentID".to_vec(), b" a ".to_vec()))],
        },
        XmlEvent::Text(b"ignored".to_vec()),
        XmlEvent::Close,
        XmlEvent::Text(b"no element".to_vec()),
        XmlEvent::Open { name: b"xmp:CreatorTool".to_vec(), attrs: vec![] },
        XmlEvent::Other,
        XmlEvent::Text(b"Capture One".to_vec()),
    ];
    let (p, tool) = provenance_from(&events);
    assert_eq!(p.document_id.as_deref(), Some("a"));
    assert_eq!(tool.as_deref(), Some("Capture One"));
}
