use jpegcomment::render::comment_line;
use jpegcomment::{Jpeg, JpegElement, JpegError};

#[test]
fn lines_of_markers() {
    assert_eq!(JpegElement::Soi.describe(), "Soi\n");
    assert_eq!(JpegElement::Eoi.describe(), "Eoi\n");
    assert_eq!(JpegElement::Restart(0xd0).describe(), "Restart 0xd0\n");
    assert_eq!(JpegElement::Restart(0xd7).describe(), "Restart 0xd7\n");
}

#[test]
fn line_of_segment_has_marker_and_length() {
    assert_eq!(JpegElement::Seg(0xe0, b"JFIF").describe(), "Seg 0xe0 4B\n");
    assert_eq!(JpegElement::Seg(0xdb, &[]).describe(), "Seg 0xdb 0B\n");
    assert_eq!(JpegElement::Seg(0x0a, &[0u8; 10]).describe(), "Seg 0xa 10B\n");
    assert_eq!(JpegElement::Seg(0x01, &[0u8; 9]).describe(), "Seg 0x1 9B\n");
    assert_eq!(JpegElement::Seg(0x10, &[0u8; 100]).describe(), "Seg 0x10 100B\n");
    assert_eq!(JpegElement::Seg(0xff, &vec![0u8; 65533]).describe(), "Seg 0xff 65533B\n");
}

#[test]
fn line_of_entropy_data_has_length() {
    assert_eq!(JpegElement::ECS(&[1, 2, 3]).describe(), "ECS: 3B\n");
    assert_eq!(JpegElement::ECS(&[]).describe(), "ECS: 0B\n");
    assert_eq!(JpegElement::ECS(&vec![0u8; 1234567]).describe(), "ECS: 1234567B\n");
}

#[test]
fn line_of_comment_has_its_text() {
    assert_eq!(JpegElement::Comment(b"hello").describe(), "Comment: helloB\n");
    assert_eq!(JpegElement::Comment(b"").describe(), "Comment: B\n");
    assert_eq!(
        JpegElement::Comment("gr\u{fc}n".as_bytes()).describe(),
        "Comment: gr\u{fc}nB\n"
    );
}

#[test]
fn line_of_comment_replaces_what_is_no_text() {
    assert_eq!(
        JpegElement::Comment(&[b'a', 0xff, b'b']).describe(),
        "Comment: a\u{fffd}bB\n"
    );
}

#[test]
fn comment_line_frames_the_text() {
    assert_eq!(comment_line("some text"), "Comment: some textB\n");
    assert_eq!(comment_line(""), "Comment: B\n");
}

#[test]
fn document_is_described_line_by_line() {
    let jpeg = Jpeg {
        elems: vec![
            JpegElement::Soi,
            JpegElement::Seg(0xe0, b"JFIF"),
            JpegElement::Comment(b"hi"),
            JpegElement::Seg(0xda, &[1, 2]),
            JpegElement::ECS(&[1, 2, 3, 4, 5, 6, 7, 8, 9, 10, 11]),
            JpegElement::Restart(0xd3),
            JpegElement::ECS(&[]),
            JpegElement::Eoi,
        ],
    };
    assert_eq!(
        jpeg.describe(),
        "Soi\nSeg 0xe0 4B\nComment: hiB\nSeg 0xda 2B\nECS: 11B\nRestart 0xd3\nECS: 0B\nEoi\n"
    );
    assert_eq!(Jpeg { elems: vec![] }.describe(), "");
}

#[test]
fn decoded_document_is_described() {
    let b = [0xffu8, 0xd8, 0xff, 0xfe, 0x00, 0x04, b'h', b'i', 0xff, 0xd9];
    let jpeg = Jpeg::deserialize(&b).unwrap();
    assert_eq!(jpeg.describe(), "Soi\nComment: hiB\nEoi\n");
}

#[test]
fn error_message() {
    assert_eq!(JpegError::BufferTooShort.message(), "JpegEror");
    assert_eq!(JpegError::PayloadTooLarge.message(), "JpegEror");
}

#[test]
fn values_can_be_shown_for_debugging() {
    let text = format!("{:?}", JpegError::BufferTooShort);
    assert_eq!(text, "BufferTooShort");
    let jpeg = Jpeg { elems: vec![JpegElement::Soi, JpegElement::Restart(0xd0)] };
    assert_eq!(format!("{:?}", jpeg), "Jpeg { elems: [Soi, Restart(208)] }");
}
