use jpegcomment::{Jpeg, JpegElement};

fn with_header<'a>() -> Jpeg<'a> {
    Jpeg {
        elems: vec![
            JpegElement::Soi,
            JpegElement::Seg(0xe0, b"JFIF"),
            JpegElement::Seg(0xdb, &[1, 2, 3]),
            JpegElement::Eoi,
        ],
    }
}

#[test]
fn delete_comment_twice() {
    let mut jpeg = Jpeg {
        elems: vec![JpegElement::Soi, JpegElement::Comment(b"old"), JpegElement::Eoi],
    };
    assert_eq!(jpeg.delete_comment(), Some(&b"old"[..]));
    assert_eq!(jpeg.elems, vec![JpegElement::Soi, JpegElement::Eoi]);
    assert_eq!(jpeg.delete_comment(), None);
    assert_eq!(jpeg.elems, vec![JpegElement::Soi, JpegElement::Eoi]);
    assert_eq!(jpeg.delete_comment(), None);
}

#[test]
fn delete_comment_takes_only_the_first() {
    let mut jpeg = Jpeg {
        elems: vec![
            JpegElement::Soi,
            JpegElement::Comment(b"one"),
            JpegElement::Seg(0xdb, &[]),
            JpegElement::Comment(b"two"),
            JpegElement::Eoi,
        ],
    };
    assert_eq!(jpeg.delete_comment(), Some(&b"one"[..]));
    assert_eq!(
        jpeg.elems,
        vec![
            JpegElement::Soi,
            JpegElement::Seg(0xdb, &[]),
            JpegElement::Comment(b"two"),
            JpegElement::Eoi,
        ]
    );
    assert_eq!(jpeg.delete_comment(), Some(&b"two"[..]));
    assert_eq!(jpeg.delete_comment(), None);
}

#[test]
fn delete_comment_of_empty_document() {
    let mut jpeg = Jpeg { elems: vec![] };
    assert_eq!(jpeg.delete_comment(), None);
    assert!(jpeg.elems.is_empty());
}

#[test]
fn set_comment_goes_behind_the_header() {
    let mut jpeg = with_header();
    assert_eq!(jpeg.set_comment(b"hello"), None);
    assert_eq!(
        jpeg.elems,
        vec![
            JpegElement::Soi,
            JpegElement::Seg(0xe0, b"JFIF"),
            JpegElement::Comment(b"hello"),
            JpegElement::Seg(0xdb, &[1, 2, 3]),
            JpegElement::Eoi,
        ]
    );
}

#[test]
fn set_comment_without_header_appends() {
    let mut jpeg = Jpeg {
        elems: vec![JpegElement::Soi, JpegElement::Seg(0xdb, &[1, 2, 3]), JpegElement::Eoi],
    };
    assert_eq!(jpeg.set_comment(b"hello"), None);
    assert_eq!(
        jpeg.elems,
        vec![
            JpegElement::Soi,
            JpegElement::Seg(0xdb, &[1, 2, 3]),
            JpegElement::Eoi,
            JpegElement::Comment(b"hello"),
        ]
    );
}

#[test]
fn set_comment_on_empty_document() {
    let mut jpeg = Jpeg { elems: vec![] };
    assert_eq!(jpeg.set_comment(b"x"), None);
    assert_eq!(jpeg.elems, vec![JpegElement::Comment(b"x")]);
}

#[test]
fn set_comment_replaces_and_returns_the_old_one() {
    let mut jpeg = Jpeg {
        elems: vec![
            JpegElement::Soi,
            JpegElement::Comment(b"old"),
            JpegElement::Seg(0xe0, b"JFIF"),
            JpegElement::Seg(0xdb, &[]),
            JpegElement::Eoi,
        ],
    };
    assert_eq!(jpeg.set_comment(b"new"), Some(&b"old"[..]));
    assert_eq!(
        jpeg.elems,
        vec![
            JpegElement::Soi,
            JpegElement::Seg(0xe0, b"JFIF"),
            JpegElement::Comment(b"new"),
            JpegElement::Seg(0xdb, &[]),
            JpegElement::Eoi,
        ]
    );
}

#[test]
fn set_comment_picks_the_first_header() {
    let mut jpeg = Jpeg {
        elems: vec![
            JpegElement::Seg(0xe1, b"x"),
            JpegElement::Seg(0xe0, b"a"),
            JpegElement::Seg(0xe0, b"b"),
        ],
    };
    jpeg.set_comment(b"c");
    assert_eq!(
        jpeg.elems,
        vec![
            JpegElement::Seg(0xe1, b"x"),
            JpegElement::Seg(0xe0, b"a"),
            JpegElement::Comment(b"c"),
            JpegElement::Seg(0xe0, b"b"),
        ]
    );
}

#[test]
fn set_comment_behind_a_last_header() {
    let mut jpeg = Jpeg { elems: vec![JpegElement::Soi, JpegElement::Seg(0xe0, b"a")] };
    jpeg.set_comment(b"c");
    assert_eq!(
        jpeg.elems,
        vec![JpegElement::Soi, JpegElement::Seg(0xe0, b"a"), JpegElement::Comment(b"c")]
    );
}

#[test]
fn set_then_delete_gives_the_comment_back() {
    let mut jpeg = with_header();
    jpeg.set_comment(b"hello");
    assert_eq!(jpeg.delete_comment(), Some(&b"hello"[..]));
    assert_eq!(jpeg.elems, with_header().elems);
    assert_eq!(jpeg.delete_comment(), None);
}

#[test]
fn strip_segments_removes_only_the_range() {
    let mut jpeg = Jpeg {
        elems: vec![
            JpegElement::Soi,
            JpegElement::Seg(0xe0, b"JFIF"),
            JpegElement::Seg(0xe1, b"Exif"),
            JpegElement::Comment(b"keep"),
            JpegElement::Seg(0xef, b"last"),
            JpegElement::Seg(0xf0, b"next"),
            JpegElement::Seg(0xdb, &[1]),
            JpegElement::Restart(0xe5),
            JpegElement::Seg(0xda, &[]),
            JpegElement::ECS(&[0xe1, 0xe2]),
            JpegElement::Seg(0xe8, &[]),
            JpegElement::Eoi,
        ],
    };
    jpeg.strip_segments(0xe1, 0xef);
    assert_eq!(
        jpeg.elems,
        vec![
            JpegElement::Soi,
            JpegElement::Seg(0xe0, b"JFIF"),
            JpegElement::Comment(b"keep"),
            JpegElement::Seg(0xf0, b"next"),
            JpegElement::Seg(0xdb, &[1]),
            JpegElement::Restart(0xe5),
            JpegElement::Seg(0xda, &[]),
            JpegElement::ECS(&[0xe1, 0xe2]),
            JpegElement::Eoi,
        ]
    );
}

#[test]
fn strip_segments_of_one_marker() {
    let mut jpeg = with_header();
    jpeg.strip_segments(0xdb, 0xdb);
    assert_eq!(
        jpeg.elems,
        vec![JpegElement::Soi, JpegElement::Seg(0xe0, b"JFIF"), JpegElement::Eoi]
    );
}

#[test]
fn strip_segments_of_an_empty_range_changes_nothing() {
    let mut jpeg = with_header();
    jpeg.strip_segments(0xef, 0xe1);
    assert_eq!(jpeg.elems, with_header().elems);
}

#[test]
fn strip_segments_of_every_marker_keeps_the_rest() {
    let mut jpeg = Jpeg {
        elems: vec![
            JpegElement::Soi,
            JpegElement::Seg(0x00, &[]),
            JpegElement::Comment(b"c"),
            JpegElement::Seg(0xff, &[]),
            JpegElement::ECS(&[1]),
            JpegElement::Restart(0xd0),
            JpegElement::Eoi,
        ],
    };
    jpeg.strip_segments(0x00, 0xff);
    assert_eq!(
        jpeg.elems,
        vec![
            JpegElement::Soi,
            JpegElement::Comment(b"c"),
            JpegElement::ECS(&[1]),
            JpegElement::Restart(0xd0),
            JpegElement::Eoi,
        ]
    );
}

#[test]
fn strip_segments_twice_is_as_once() {
    let mut jpeg = with_header();
    jpeg.strip_segments(0xe0, 0xef);
    let once = jpeg.elems.clone();
    jpeg.strip_segments(0xe0, 0xef);
    assert_eq!(jpeg.elems, once);
    assert_eq!(
        once,
        vec![JpegElement::Soi, JpegElement::Seg(0xdb, &[1, 2, 3]), JpegElement::Eoi]
    );
}

#[test]
fn comments_are_listed_in_order() {
    let jpeg = Jpeg {
        elems: vec![
            JpegElement::Comment(b"one"),
            JpegElement::Soi,
            JpegElement::Seg(0xfd, b"no"),
            JpegElement::Comment(b""),
            JpegElement::ECS(b"no"),
            JpegElement::Comment(b"three"),
        ],
    };
    assert_eq!(jpeg.comments(), vec![&b"one"[..], &b""[..], &b"three"[..]]);
    assert!(with_header().comments().is_empty());
}

#[test]
fn comment_behind_the_end_is_not_read_back() {
    let b = [0xffu8, 0xd8, 0xff, 0xdb, 0x00, 0x03, 0x01, 0xff, 0xd9];
    let mut jpeg = Jpeg::deserialize(&b).unwrap();
    assert_eq!(jpeg.set_comment(b"hello"), None);
    assert_eq!(jpeg.elems.last(), Some(&JpegElement::Comment(b"hello")));
    let mut out: Vec<u8> = Vec::new();
    jpeg.serialize(&mut out).unwrap();
    assert_eq!(&out[..b.len()], &b[..]);
    assert_eq!(&out[b.len()..], &[0xff, 0xfe, 0x00, 0x07, b'h', b'e', b'l', b'l', b'o'][..]);
    let again = Jpeg::deserialize(&out).unwrap();
    assert_eq!(
        again.elems,
        vec![JpegElement::Soi, JpegElement::Seg(0xdb, &[1]), JpegElement::Eoi]
    );
}

#[test]
fn edits_of_a_stream_with_header_decode_again() {
    let b = [
        0xffu8, 0xd8, 0xff, 0xe0, 0x00, 0x04, 0x01, 0x02, 0xff, 0xe1, 0x00, 0x03, 0x09, 0xff,
        0xfe, 0x00, 0x05, b'o', b'l', b'd', 0xff, 0xda, 0x00, 0x02, 0x11, 0xff, 0x00, 0x12, 0xff,
        0xd2, 0x13, 0xff, 0xd9,
    ];
    let mut jpeg = Jpeg::deserialize(&b).unwrap();
    jpeg.strip_segments(0xe1, 0xef);
    assert_eq!(jpeg.set_comment(b"new"), Some(&b"old"[..]));
    let mut out: Vec<u8> = Vec::new();
    jpeg.serialize(&mut out).unwrap();
    let (again, warnings) = Jpeg::deserialize_with_warnings(&out).unwrap();
    assert!(warnings.is_empty());
    assert_eq!(again.elems, jpeg.elems);
    assert_eq!(
        again.elems,
        vec![
            JpegElement::Soi,
            JpegElement::Seg(0xe0, &[1, 2]),
            JpegElement::Comment(b"new"),
            JpegElement::Seg(0xda, &[]),
            JpegElement::ECS(&[0x11, 0xff, 0x00, 0x12]),
            JpegElement::Restart(0xd2),
            JpegElement::ECS(&[0x13]),
            JpegElement::Eoi,
        ]
    );
}

#[test]
fn stripping_the_scan_header_leaves_no_stream() {
    let b = [0xffu8, 0xd8, 0xff, 0xda, 0x00, 0x02, 0x11, 0x12, 0xff, 0xd9];
    let mut jpeg = Jpeg::deserialize(&b).unwrap();
    jpeg.strip_segments(0xda, 0xda);
    assert_eq!(
        jpeg.elems,
        vec![JpegElement::Soi, JpegElement::ECS(&[0x11, 0x12]), JpegElement::Eoi]
    );
    let mut out: Vec<u8> = Vec::new();
    jpeg.serialize(&mut out).unwrap();
    let again = Jpeg::deserialize(&out).unwrap();
    assert_eq!(again.elems, vec![JpegElement::Soi, JpegElement::Eoi]);
}
