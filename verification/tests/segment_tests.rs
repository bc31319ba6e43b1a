use rekha::segment::{Mapped, Segment, SegmentError, SegmentHeader, SegmentWriter};

fn bits(v: &[f32]) -> Vec<u32> {
    v.iter().map(|x| x.to_bits()).collect()
}

fn floats(v: &[u32]) -> Vec<f32> {
    v.iter().map(|x| f32::from_bits(*x)).collect()
}

#[test]
fn writer_reader_roundtrip() {
    let mut writer = SegmentWriter::new(4);
    writer.push(&bits(&[1.0, 2.0, 3.0, 4.0]));
    writer.push(&bits(&[5.0, 6.0, 7.0, 8.0]));
    writer.push(&bits(&[9.0, 10.0, 11.0, 12.0]));
    assert_eq!(writer.len(), 3);

    let image = writer.finish();
    assert_eq!(image.len(), 32 + 3 * 4 * 4); // header + 3 vectors * 4 dims * 4 bytes

    let seg = Segment::open(&image).unwrap();
    assert_eq!(seg.len(), 3);
    assert_eq!(seg.dimension(), 4);

    let v0 = seg.get_vector(&image, 0).unwrap();
    assert_eq!(floats(&v0), &[1.0, 2.0, 3.0, 4.0]);

    let v2 = seg.get_vector(&image, 2).unwrap();
    assert_eq!(floats(&v2), &[9.0, 10.0, 11.0, 12.0]);

    assert!(seg.get_vector(&image, 3).is_none());
}

#[test]
fn iter_vectors_matches_input() {
    let mut writer = SegmentWriter::new(2);
    writer.push(&bits(&[1.0, 2.0]));
    writer.push(&bits(&[3.0, 4.0]));
    let image = writer.finish();

    let seg = Mapped::open(&image).unwrap();
    let vecs = seg.iter_vectors();
    assert_eq!(vecs.len(), 2);
    assert_eq!(floats(&vecs[0]), &[1.0, 2.0]);
    assert_eq!(floats(&vecs[1]), &[3.0, 4.0]);
}

#[test]
fn empty_segment() {
    let writer = SegmentWriter::new(8);
    let image = writer.finish();

    let seg = Segment::open(&image).unwrap();
    assert_eq!(seg.len(), 0);
    assert_eq!(seg.dimension(), 8);
    assert!(seg.is_empty());
    assert!(seg.get_vector(&image, 0).is_none());
}

#[test]
fn bad_magic_rejected() {
    // 32 bytes with wrong magic so header decode runs but rejects.
    let mut buf = [0u8; 32];
    buf[0..4].copy_from_slice(b"XXXX");
    let err = Segment::open(&buf).unwrap_err();
    assert!(err.message().contains("bad magic"));
}

#[test]
fn truncated_file_rejected() {
    let mut writer = SegmentWriter::new(4);
    writer.push(&bits(&[1.0, 2.0, 3.0, 4.0]));
    let mut image = writer.finish();

    // Truncate the file to remove the last few bytes.
    image.truncate(image.len() - 8);

    let err = Segment::open(&image).unwrap_err();
    assert!(err.message().contains("truncated") || err.message().contains("checksum"));
}

#[test]
fn the_segment_format_is_fixed() {
    let mut writer = SegmentWriter::new(2);
    writer.push(&bits(&[1.5, -2.0]));
    let image = writer.finish();
    let mut data: Vec<u8> = Vec::new();
    data.extend_from_slice(&1.5f32.to_le_bytes());
    data.extend_from_slice(&(-2.0f32).to_le_bytes());
    assert_eq!(&image[0..4], b"RKSG");
    assert_eq!(&image[8..12], &2u32.to_le_bytes());
    assert_eq!(&image[12..16], &1u32.to_le_bytes());
    assert_eq!(&image[32..], &data[..]);
    let header = SegmentHeader::decode(&image).unwrap();
    assert_eq!(header.dimension, 2);
    assert_eq!(header.count, 1);
    assert_eq!(header.checksum, crc32fast::hash(&data));
    assert_eq!(header.encode(), &image[..32]);
}

#[test]
fn damaged_segments_are_told_apart() {
    let mut writer = SegmentWriter::new(1);
    writer.push(&bits(&[1.0]));
    let good = writer.finish();
    assert_eq!(Segment::open(&good[..31]).unwrap_err(), SegmentError::ShortHeader);
    let mut bad = good.clone();
    bad[33] ^= 1;
    assert!(Segment::open(&bad).unwrap_err().message().contains("checksum"));
    let mut bad = good.clone();
    bad[4] = 9;
    assert!(Segment::open(&bad).unwrap_err().message().contains("version"));
    assert!(Segment::open(&good).is_ok());
}
