use std::io::Write;

use orrient::pathing::archive::{read_marker_pack, PackError};
use orrient::pathing::name::MarkerName;
use zip::write::SimpleFileOptions;
use zip::ZipWriter;

fn archive(files: &[(&str, &[u8])]) -> Vec<u8> {
    let mut writer = ZipWriter::new(std::io::Cursor::new(Vec::new()));
    let options = SimpleFileOptions::default().compression_method(zip::CompressionMethod::Stored);
    for (name, data) in files {
        writer.start_file(*name, options).unwrap();
        writer.write_all(data).unwrap();
    }
    writer.finish().unwrap().into_inner()
}

const FIRST: &str = r#"
<OverlayData>
  <MarkerCategory name="A" DisplayName="Item A">
    <MarkerCategory name="B" DisplayName="Item A.B">
      <MarkerCategory name="C" DisplayName="Item A.B" />
      <MarkerCategory name="D" DisplayName="Item A.B" />
    </MarkerCategory>
  </MarkerCategory>
  <POIs>
    <POI MapID="15" xpos="100.0" ypos="100.0" zpos="-100.0" type="A" GUID="none"/>
    <POI MapID="15" xpos="200.0" ypos="200.0" zpos="-200.0" type="A.B" GUID="none"/>
    <Trail type="A.B" trailData="t.trl" texture="tex.png"/>
  </POIs>
</OverlayData>
"#;

const SECOND: &str = r#"
<OverlayData>
  <MarkerCategory name="A" DisplayName="Item A">
    <MarkerCategory name="E" DisplayName="Item A.E" />
  </MarkerCategory>
</OverlayData>
"#;

fn trail_bytes() -> Vec<u8> {
    let mut bytes = vec![0, 0, 0, 0, 15, 0, 0, 0];
    for v in [1.0f32, 2.0, 3.0, 0.0, 0.0, 0.0, 4.0, 5.0, 6.0] {
        bytes.extend_from_slice(&v.to_le_bytes());
    }
    bytes
}

fn name(parts: &[&str]) -> MarkerName {
    MarkerName(parts.iter().map(|p| p.to_string()).collect())
}

#[test]
fn a_pack_is_read_from_its_archive() {
    let trl = trail_bytes();
    let bytes = archive(&[
        ("test_1.xml", FIRST.as_bytes()),
        ("t.trl", &trl),
        ("tex.png", b"not an image"),
        ("readme.txt", b"skipped"),
        ("test_2.xml", SECOND.as_bytes()),
    ]);
    let mut pack = read_marker_pack("test.taco".to_string(), &bytes).unwrap();
    assert_eq!(pack.id(), "test.taco");
    let a = pack.find_by_name(&name(&["A"])).unwrap();
    let ab = pack.find_by_name(&name(&["A", "B"])).unwrap();
    assert!(pack.find_by_name(&name(&["A", "B", "C"])).is_some());
    assert!(pack.find_by_name(&name(&["A", "E"])).is_some());
    assert_eq!(pack.get(a).unwrap().pois.len(), 1);
    assert_eq!(pack.get(a).unwrap().pois[0].xpos.as_deref(), Some("100.0"));
    let trails = &pack.get(ab).unwrap().trails;
    assert_eq!(trails.len(), 1);
    assert_eq!(trails[0].map_id, 15);
    assert_eq!(trails[0].path.len(), 3);
    assert_eq!(trails[0].texture_file, "tex.png");

    pack.retain_trail_points(ab, 0, &vec![true, false, true]);
    let path = &pack.get(ab).unwrap().trails[0].path;
    assert_eq!(path.len(), 2);
    assert_eq!(f32::from_bits(path[1][2]), 6.0);
    // A marker or trail that does not exist changes nothing.
    pack.retain_trail_points(ab, 5, &vec![]);
    assert_eq!(pack.get(ab).unwrap().trails[0].path.len(), 2);
}

#[test]
fn bytes_that_are_no_archive_are_refused() {
    assert!(matches!(read_marker_pack("x".to_string(), b"not a zip"), Err(PackError::Archive)));
}

#[test]
fn a_broken_xml_file_stops_the_reading() {
    let bytes = archive(&[("bad.xml", b"<OverlayData></Wrong>")]);
    assert!(matches!(read_marker_pack("x".to_string(), &bytes), Err(PackError::Xml(0, _))));
}

#[test]
fn an_empty_archive_gives_only_the_root() {
    let bytes = archive(&[]);
    let pack = read_marker_pack("empty.taco".to_string(), &bytes).unwrap();
    assert_eq!(pack.len(), 1);
}

/// The archive with one byte of the stored contents of its first file
/// changed, so that the checksum of that file no longer matches.
fn corrupt_first(bytes: &[u8], contents: &[u8]) -> Vec<u8> {
    let at = bytes.windows(contents.len()).position(|w| w == contents).unwrap();
    let mut out = bytes.to_vec();
    out[at + contents.len() - 1] ^= 0xff;
    out
}

#[test]
fn an_unreadable_xml_file_stops_the_reading() {
    let doc = b"<OverlayData><MarkerCategory name=\"A\"/></OverlayData>";
    let bytes = corrupt_first(&archive(&[("a.xml", doc)]), doc);
    assert!(matches!(read_marker_pack("x".to_string(), &bytes), Err(PackError::XmlRead(0))));
}

#[test]
fn an_unreadable_image_stops_the_reading() {
    let img = b"image bytes here";
    let bytes = corrupt_first(&archive(&[("tex.png", img), ("a.xml", SECOND.as_bytes())]), img);
    assert!(matches!(read_marker_pack("x".to_string(), &bytes), Err(PackError::Entry(0))));
}

#[test]
fn an_unreadable_trail_file_keeps_what_was_read() {
    let trl = trail_bytes();
    let bytes = corrupt_first(&archive(&[("t.trl", &trl), ("a.xml", FIRST.as_bytes())]), &trl);
    let pack = read_marker_pack("x".to_string(), &bytes).unwrap();
    let ab = pack.find_by_name(&name(&["A", "B"])).unwrap();
    let trails = &pack.get(ab).unwrap().trails;
    assert_eq!(trails.len(), 1);
    assert_eq!(trails[0].map_id, 15);
}

#[test]
fn other_files_are_not_read() {
    let junk = b"unread contents";
    let bytes = corrupt_first(&archive(&[("notes.txt", junk), ("a.xml", SECOND.as_bytes())]), junk);
    let pack = read_marker_pack("x".to_string(), &bytes).unwrap();
    assert!(pack.find_by_name(&name(&["A", "E"])).is_some());
}

#[test]
fn a_short_trail_file_is_skipped() {
    let bytes = archive(&[("t.trl", &[1, 2, 3]), ("a.xml", FIRST.as_bytes())]);
    let pack = read_marker_pack("x".to_string(), &bytes).unwrap();
    let ab = pack.find_by_name(&name(&["A", "B"])).unwrap();
    assert_eq!(pack.get(ab).unwrap().trails.len(), 0);
}
