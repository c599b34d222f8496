use jpegcomment::{Jpeg, JpegElement, JpegError};

#[test]
fn markers_are_two_bytes() {
    let mut out: Vec<u8> = Vec::new();
    assert_eq!(JpegElement::Soi.write(&mut out), Ok(()));
    assert_eq!(out, vec![0xff, 0xd8]);
    assert_eq!(JpegElement::Eoi.write(&mut out), Ok(()));
    assert_eq!(out, vec![0xff, 0xd8, 0xff, 0xd9]);
    assert_eq!(JpegElement::Restart(0xd5).write(&mut out), Ok(()));
    assert_eq!(out, vec![0xff, 0xd8, 0xff, 0xd9, 0xff, 0xd5]);
}

#[test]
fn segment_frame_counts_its_length_field() {
    let mut out: Vec<u8> = Vec::new();
    JpegElement::Seg(0xe0, b"JFIF").write(&mut out).unwrap();
    assert_eq!(out, vec![0xff, 0xe0, 0x00, 0x06, b'J', b'F', b'I', b'F']);
}

#[test]
fn comment_frame_has_its_own_marker() {
    let mut out: Vec<u8> = Vec::new();
    JpegElement::Comment(b"hello").write(&mut out).unwrap();
    assert_eq!(out, vec![0xff, 0xfe, 0x00, 0x07, b'h', b'e', b'l', b'l', b'o']);
}

#[test]
fn empty_payload_has_length_two() {
    let mut out: Vec<u8> = Vec::new();
    JpegElement::Comment(&[]).write(&mut out).unwrap();
    assert_eq!(out, vec![0xff, 0xfe, 0x00, 0x02]);
}

#[test]
fn length_field_is_written_big_endian() {
    let payload = vec![1u8; 0x1234 - 2];
    let mut out: Vec<u8> = Vec::new();
    JpegElement::Seg(0xc4, &payload).write(&mut out).unwrap();
    assert_eq!(&out[..4], &[0xff, 0xc4, 0x12, 0x34]);
    assert_eq!(&out[4..], &payload[..]);
}

#[test]
fn entropy_data_is_written_as_it_stands() {
    let mut out: Vec<u8> = vec![0xaa];
    JpegElement::ECS(&[0x01, 0xff, 0x00, 0x02]).write(&mut out).unwrap();
    assert_eq!(out, vec![0xaa, 0x01, 0xff, 0x00, 0x02]);
}

#[test]
fn longest_payload_fits() {
    let payload = vec![0u8; 65533];
    let mut out: Vec<u8> = Vec::new();
    assert_eq!(JpegElement::Seg(0xe1, &payload).write(&mut out), Ok(()));
    assert_eq!(&out[..4], &[0xff, 0xe1, 0xff, 0xff]);
    assert_eq!(out.len(), 4 + 65533);
}

#[test]
fn payload_too_large_is_refused() {
    let payload = vec![0u8; 65534];
    let mut out: Vec<u8> = vec![0x01];
    assert_eq!(
        JpegElement::Seg(0xe1, &payload).write(&mut out),
        Err(JpegError::PayloadTooLarge)
    );
    assert_eq!(out, vec![0x01]);
    assert_eq!(
        JpegElement::Comment(&payload).write(&mut out),
        Err(JpegError::PayloadTooLarge)
    );
    assert_eq!(out, vec![0x01]);
}

#[test]
fn serialize_writes_elements_in_order() {
    let jpeg = Jpeg {
        elems: vec![
            JpegElement::Soi,
            JpegElement::Comment(b"a"),
            JpegElement::Seg(0xda, &[]),
            JpegElement::ECS(&[5, 6]),
            JpegElement::Restart(0xd0),
            JpegElement::ECS(&[7]),
            JpegElement::Eoi,
        ],
    };
    let mut out: Vec<u8> = Vec::new();
    assert_eq!(jpeg.serialize(&mut out), Ok(()));
    assert_eq!(
        out,
        vec![
            0xff, 0xd8, 0xff, 0xfe, 0x00, 0x03, b'a', 0xff, 0xda, 0x00, 0x02, 5, 6, 0xff, 0xd0, 7,
            0xff, 0xd9
        ]
    );
}

#[test]
fn serialize_appends_to_the_sink() {
    let jpeg = Jpeg { elems: vec![JpegElement::Soi, JpegElement::Eoi] };
    let mut out: Vec<u8> = vec![1, 2, 3];
    jpeg.serialize(&mut out).unwrap();
    assert_eq!(out, vec![1, 2, 3, 0xff, 0xd8, 0xff, 0xd9]);
}

#[test]
fn serialize_of_nothing_writes_nothing() {
    let jpeg = Jpeg { elems: vec![] };
    let mut out: Vec<u8> = Vec::new();
    assert_eq!(jpeg.serialize(&mut out), Ok(()));
    assert!(out.is_empty());
}

#[test]
fn serialize_stops_at_the_first_payload_too_large() {
    let big = vec![0u8; 70000];
    let jpeg = Jpeg {
        elems: vec![
            JpegElement::Soi,
            JpegElement::Seg(0xe0, b"JFIF"),
            JpegElement::Comment(&big),
            JpegElement::Seg(0xe1, &big),
            JpegElement::Eoi,
        ],
    };
    let mut out: Vec<u8> = Vec::new();
    assert_eq!(jpeg.serialize(&mut out), Err(JpegError::PayloadTooLarge));
    assert_eq!(out, vec![0xff, 0xd8, 0xff, 0xe0, 0x00, 0x06, b'J', b'F', b'I', b'F']);
}

#[test]
fn edited_stream_decodes_again() {
    let b = [0xffu8, 0xd8, 0xff, 0xe0, 0x00, 0x03, 0x01, 0xff, 0xd9];
    let mut jpeg = Jpeg::deserialize(&b).unwrap();
    jpeg.set_comment(b"note");
    let mut out: Vec<u8> = Vec::new();
    jpeg.serialize(&mut out).unwrap();
    let again = Jpeg::deserialize(&out).unwrap();
    assert_eq!(again.elems, jpeg.elems);
}
