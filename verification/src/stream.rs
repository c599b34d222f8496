//! The form of a decoded stream, and that a stream in this form, once
//! written, decodes to itself.

use vstd::prelude::*;
use crate::decode::{decode, frame_end, is_restart, markers_from, scan_from, segment_at};
use crate::document::{
    first_app0, first_comment, in_range, is_app0, lemma_first_app0, lemma_first_app0_is,
    lemma_first_comment, lemma_first_comment_is, lemma_stripped, lemma_wire_of_concat,
    lemma_wire_of_one, stripped, wire_of, with_comment, without_comment,
};
use crate::element::{ElementModel, MAX_PAYLOAD};
use crate::entropy::{entropy_run, lemma_frame_read, lemma_run_concat, lemma_scan_closes};
use crate::roundtrip::{lemma_round_trip, well_formed};

verus! {

/// Whether the marker is one that a segment can have: the comment marker and
/// the markers without a segment have elements of their own.
pub open spec fn is_segment_marker(marker: u8) -> bool {
    marker != 0x00 && marker != 0xd8 && marker != 0xd9 && marker != 0xfe
}

/// Whether the elements are entropy-coded data to the end of the image:
/// runs, each followed by a restart marker but for the last, which is
/// followed by the end of the image.
pub open spec fn is_scan(elems: Seq<ElementModel>) -> bool
    decreases elems.len(),
{
    &&& elems.len() >= 2
    &&& elems[0] matches ElementModel::ECS(run)
    &&& entropy_run(run)
    &&& match elems[1] {
        ElementModel::Eoi => elems.len() == 2,
        ElementModel::Restart(marker) => is_restart(marker) && is_scan(elems.skip(2)),
        _ => false,
    }
}

/// Whether the elements are a stream as decoding gives it: markers, comments
/// and segments that fit their length fields, entropy-coded data behind each
/// start-of-scan segment and nowhere else, and the end of the image last.
pub open spec fn is_stream(elems: Seq<ElementModel>) -> bool
    decreases elems.len(),
{
    &&& elems.len() >= 1
    &&& match elems[0] {
        ElementModel::Soi => is_stream(elems.skip(1)),
        ElementModel::Comment(payload) => payload.len() <= MAX_PAYLOAD && is_stream(
            elems.skip(1),
        ),
        ElementModel::Seg(marker, payload) => {
            &&& payload.len() <= MAX_PAYLOAD
            &&& is_segment_marker(marker)
            &&& if marker == 0xda {
                is_scan(elems.skip(1))
            } else {
                is_stream(elems.skip(1))
            }
        },
        ElementModel::Eoi => elems.len() == 1,
        _ => false,
    }
}

/// Whether the element is as a stream has it at the place `i` of `len`: the
/// end of the image is the last element and no other, a payload fits its
/// length field, a restart marker is one of the eight, and a segment has a
/// marker of its own.
pub open spec fn placed(e: ElementModel, i: int, len: nat) -> bool {
    &&& e is Eoi <==> i == len - 1
    &&& e.encodable()
    &&& e matches ElementModel::Restart(marker) ==> is_restart(marker)
    &&& e matches ElementModel::Seg(marker, _) ==> is_segment_marker(marker)
}

/// In a scan each element is placed as a stream has it, and none is a
/// segment or a comment.
pub proof fn lemma_scan_shape(elems: Seq<ElementModel>)
    requires
        is_scan(elems),
    ensures
        elems.len() >= 2,
        forall|i: int|
            0 <= i < elems.len() ==> placed(#[trigger] elems[i], i, elems.len()) && !(elems[i] is Seg)
                && !(elems[i] is Comment),
    decreases elems.len(),
{
    if elems[1] is Restart {
        let rest = elems.skip(2);
        lemma_scan_shape(rest);
        assert forall|i: int| 0 <= i < elems.len() implies placed(
            #[trigger] elems[i],
            i,
            elems.len(),
        ) && !(elems[i] is Seg) && !(elems[i] is Comment) by {
            if i >= 2 {
                assert(elems[i] == rest[i - 2]);
            }
        }
    }
}

/// In a stream each element is placed as a stream has it.
pub proof fn lemma_stream_shape(elems: Seq<ElementModel>)
    requires
        is_stream(elems),
    ensures
        elems.len() >= 1,
        forall|i: int| 0 <= i < elems.len() ==> placed(#[trigger] elems[i], i, elems.len()),
    decreases elems.len(),
{
    if !(elems[0] is Eoi) {
        let rest = elems.skip(1);
        if elems[0] matches ElementModel::Seg(marker, _) && marker == 0xda {
            lemma_scan_shape(rest);
        } else {
            lemma_stream_shape(rest);
        }
        assert forall|i: int| 0 <= i < elems.len() implies placed(
            #[trigger] elems[i],
            i,
            elems.len(),
        ) by {
            if i >= 1 {
                assert(elems[i] == rest[i - 1]);
            }
        }
    }
}

/// Inside entropy-coded data, what is decoded is a scan.
proof fn lemma_scan_is_scan(b: Seq<u8>, start: int, pos: int)
    requires
        0 <= start <= pos,
        entropy_run(b.subrange(start, pos)),
        scan_from(b, start, pos) is Some,
    ensures
        is_scan(scan_from(b, start, pos).unwrap().elems),
    decreases b.len() - pos,
{
    let d = scan_from(b, start, pos).unwrap();
    let run = b.subrange(start, pos);
    if b[pos] != 0xff {
        let read = seq![b[pos]];
        assert(entropy_run(read)) by {
            assert(entropy_run(read.skip(1)));
        }
        lemma_run_concat(run, read);
        assert(b.subrange(start, pos + 1) =~= run + read);
        lemma_scan_is_scan(b, start, pos + 1);
    } else if b[pos + 1] == 0xd9 {
    } else if is_restart(b[pos + 1]) {
        assert(entropy_run(b.subrange(pos + 2, pos + 2)));
        lemma_scan_is_scan(b, pos + 2, pos + 2);
        assert(d.elems.skip(2) =~= scan_from(b, pos + 2, pos + 2).unwrap().elems);
    } else {
        let read = seq![b[pos], b[pos + 1]];
        assert(entropy_run(read)) by {
            assert(entropy_run(read.skip(2)));
        }
        lemma_run_concat(run, read);
        assert(b.subrange(start, pos + 2) =~= run + read);
        lemma_scan_is_scan(b, start, pos + 2);
    }
}

/// Where a marker is expected, what is decoded is a stream.
proof fn lemma_markers_is_stream(b: Seq<u8>, pos: int)
    requires
        0 <= pos,
        markers_from(b, pos) is Some,
    ensures
        is_stream(markers_from(b, pos).unwrap().elems),
    decreases b.len() - pos,
{
    let d = markers_from(b, pos).unwrap();
    if b[pos] != 0xff {
        lemma_markers_is_stream(b, pos + 1);
    } else if b[pos + 1] == 0x00 {
        lemma_markers_is_stream(b, pos + 2);
    } else if b[pos + 1] == 0xd8 {
        lemma_markers_is_stream(b, pos + 2);
        assert(d.elems.skip(1) =~= markers_from(b, pos + 2).unwrap().elems);
    } else if b[pos + 1] == 0xd9 {
    } else {
        let end = frame_end(b, pos).unwrap();
        if b[pos + 1] == 0xda {
            assert(entropy_run(b.subrange(end, end)));
            lemma_scan_is_scan(b, end, end);
            assert(d.elems.skip(1) =~= scan_from(b, end, end).unwrap().elems);
        } else {
            lemma_markers_is_stream(b, end);
            assert(d.elems.skip(1) =~= markers_from(b, end).unwrap().elems);
        }
        assert(d.elems[0] == segment_at(b, pos, end));
    }
}

/// What decoding gives is a stream.
pub proof fn lemma_decoded_is_stream(b: Seq<u8>)
    requires
        decode(b) is Some,
    ensures
        is_stream(decode(b).unwrap().elems),
{
    lemma_markers_is_stream(b, 0);
}

/// The wire form of a list is that of its first element followed by that of
/// the others.
proof fn lemma_wire_of_first(elems: Seq<ElementModel>)
    requires
        elems.len() > 0,
    ensures
        wire_of(elems) == elems[0].wire() + wire_of(elems.skip(1)),
{
    lemma_wire_of_one(elems[0]);
    lemma_wire_of_concat(seq![elems[0]], elems.skip(1));
    assert(elems =~= seq![elems[0]] + elems.skip(1));
}

/// Where the end of a buffer is two parts, one behind the other, each part
/// stands at its place.
proof fn lemma_parts(b: Seq<u8>, pos: int, front: Seq<u8>, back: Seq<u8>)
    requires
        0 <= pos <= b.len(),
        b.subrange(pos, b.len() as int) == front + back,
    ensures
        pos + front.len() + back.len() == b.len(),
        b.subrange(pos, pos + front.len()) == front,
        b.subrange(pos + front.len(), b.len() as int) == back,
{
    let end = b.len() as int;
    let tail = b.subrange(pos, end);
    let cut = front.len() as int;
    assert(tail.len() == front.len() + back.len());
    assert(b.subrange(pos, pos + cut) =~= tail.subrange(0, cut));
    assert(b.subrange(pos + cut, end) =~= tail.subrange(cut, tail.len() as int));
    assert((front + back).subrange(0, cut) =~= front);
    assert((front + back).subrange(cut, tail.len() as int) =~= back);
}

/// A scan that stands at the end of a buffer decodes to itself.
proof fn lemma_scan_decodes(b: Seq<u8>, pos: int, elems: Seq<ElementModel>)
    requires
        0 <= pos <= b.len(),
        is_scan(elems),
        b.subrange(pos, b.len() as int) == wire_of(elems),
    ensures
        scan_from(b, pos, pos) matches Some(d) && d.elems == elems && d.strays.len() == 0 && d.end
            == b.len(),
    decreases elems.len(),
{
    let run = elems[0]->ECS_0;
    let rest = elems.skip(2);
    lemma_wire_of_first(elems);
    lemma_wire_of_first(elems.skip(1));
    assert(elems.skip(1).skip(1) =~= rest);
    let closing = elems[1].wire();
    lemma_parts(b, pos, run, closing + wire_of(rest));
    let stop = pos + run.len();
    lemma_parts(b, stop, closing, wire_of(rest));
    assert(b[stop] == b.subrange(stop, stop + 2)[0]);
    assert(b[stop + 1] == b.subrange(stop, stop + 2)[1]);
    lemma_scan_closes(b, pos, run);
    let d = scan_from(b, pos, pos).unwrap();
    if elems[1] is Restart {
        lemma_scan_decodes(b, stop + 2, rest);
        assert(d.elems =~= elems);
    } else {
        assert(rest.len() == 0);
        assert(wire_of(rest).len() == 0);
        assert(d.elems =~= elems);
    }
}

/// A stream that stands at the end of a buffer decodes to itself.
proof fn lemma_stream_decodes_at(b: Seq<u8>, pos: int, elems: Seq<ElementModel>)
    requires
        0 <= pos <= b.len(),
        is_stream(elems),
        b.subrange(pos, b.len() as int) == wire_of(elems),
    ensures
        markers_from(b, pos) matches Some(d) && d.elems == elems && d.strays.len() == 0 && d.end
            == b.len(),
    decreases elems.len(),
{
    let rest = elems.skip(1);
    let first = elems[0].wire();
    lemma_wire_of_first(elems);
    lemma_parts(b, pos, first, wire_of(rest));
    let next = pos + first.len();
    match elems[0] {
        ElementModel::Soi => {
            assert(b[pos] == b.subrange(pos, pos + 2)[0]);
            assert(b[pos + 1] == b.subrange(pos, pos + 2)[1]);
            lemma_stream_decodes_at(b, next, rest);
            assert(markers_from(b, pos).unwrap().elems =~= elems);
        },
        ElementModel::Eoi => {
            assert(b[pos] == b.subrange(pos, pos + 2)[0]);
            assert(b[pos + 1] == b.subrange(pos, pos + 2)[1]);
            assert(wire_of(rest).len() == 0);
            assert(markers_from(b, pos).unwrap().elems =~= elems);
        },
        ElementModel::Comment(payload) => {
            lemma_frame_read(b, pos, 0xfe, payload);
            lemma_stream_decodes_at(b, next, rest);
            assert(segment_at(b, pos, next) == elems[0]);
            assert(markers_from(b, pos).unwrap().elems =~= elems);
        },
        ElementModel::Seg(marker, payload) => {
            lemma_frame_read(b, pos, marker, payload);
            if marker == 0xda {
                lemma_scan_decodes(b, next, rest);
            } else {
                lemma_stream_decodes_at(b, next, rest);
            }
            assert(segment_at(b, pos, next) == elems[0]);
            assert(markers_from(b, pos).unwrap().elems =~= elems);
        },
        _ => {},
    }
}

/// A stream, once written, decodes to itself: no byte is passed over, and
/// decoding stops at the end of what was written.
pub proof fn lemma_stream_decodes(elems: Seq<ElementModel>)
    requires
        is_stream(elems),
    ensures
        decode(wire_of(elems)) matches Some(d) && d.elems == elems && d.strays.len() == 0 && d.end
            == wire_of(elems).len(),
        well_formed(wire_of(elems)),
{
    let b = wire_of(elems);
    assert(b.subrange(0, b.len() as int) =~= b);
    lemma_stream_decodes_at(b, 0, elems);
}

/// The well-formed buffers are the wire forms of the streams.
pub proof fn lemma_well_formed_is_written(b: Seq<u8>)
    ensures
        well_formed(b) <==> exists|elems: Seq<ElementModel>|
            is_stream(elems) && #[trigger] wire_of(elems) == b,
{
    if well_formed(b) {
        lemma_round_trip(b);
        lemma_decoded_is_stream(b);
        assert(wire_of(decode(b).unwrap().elems) == b);
    }
    if exists|elems: Seq<ElementModel>| is_stream(elems) && #[trigger] wire_of(elems) == b {
        let elems = choose|elems: Seq<ElementModel>| is_stream(elems) && #[trigger] wire_of(elems)
            == b;
        lemma_stream_decodes(elems);
    }
}

/// What was decoded and written again decodes to the same elements, and is
/// well formed whatever the first buffer was.
pub proof fn lemma_written_decodes_again(b: Seq<u8>)
    requires
        decode(b) is Some,
    ensures
        ({
            let elems = decode(b).unwrap().elems;
            &&& decode(wire_of(elems)) matches Some(d) && d.elems == elems
            &&& well_formed(wire_of(elems))
        }),
{
    lemma_decoded_is_stream(b);
    lemma_stream_decodes(decode(b).unwrap().elems);
}

/// A scan holds no comment and no segment, so the edits leave it as it is.
proof fn lemma_scan_unedited(elems: Seq<ElementModel>, first: u8, last: u8)
    requires
        is_scan(elems),
    ensures
        first_comment(elems) == elems.len(),
        first_app0(elems) == elems.len(),
        stripped(elems, first, last) == elems,
{
    lemma_scan_shape(elems);
    lemma_first_comment_is(elems, elems.len() as int);
    lemma_first_app0_is(elems, elems.len() as int);
    lemma_stripped(elems, first, last);
}

/// Stripping a list with one more element at its front.
proof fn lemma_stripped_first(elems: Seq<ElementModel>, first: u8, last: u8)
    requires
        elems.len() > 0,
    ensures
        stripped(elems, first, last) == if in_range(elems[0], first, last) {
            stripped(elems.skip(1), first, last)
        } else {
            seq![elems[0]] + stripped(elems.skip(1), first, last)
        },
{
    let keep = |e: ElementModel| !in_range(e, first, last);
    let one = seq![elems[0]];
    assert(elems =~= one + elems.skip(1));
    Seq::filter_distributes_over_add(one, elems.skip(1), keep);
    assert(one.filter(keep) =~= if in_range(elems[0], first, last) {
        Seq::<ElementModel>::empty()
    } else {
        one
    }) by {
        reveal_with_fuel(Seq::filter, 2);
        assert(one.drop_last() =~= Seq::<ElementModel>::empty());
    }
    if in_range(elems[0], first, last) {
        assert(Seq::<ElementModel>::empty() + stripped(elems.skip(1), first, last) =~= stripped(
            elems.skip(1),
            first,
            last,
        ));
    }
}

/// A stream without its first comment is a stream.
pub proof fn lemma_delete_keeps_stream(elems: Seq<ElementModel>)
    requires
        is_stream(elems),
    ensures
        is_stream(without_comment(elems)),
    decreases elems.len(),
{
    let rest = elems.skip(1);
    let out = without_comment(elems);
    if elems[0] is Comment {
        assert(out =~= rest);
    } else if elems[0] is Eoi {
        assert(first_comment(rest) == 0);
        assert(out =~= elems);
    } else if elems[0] matches ElementModel::Seg(marker, _) && marker == 0xda {
        lemma_scan_unedited(rest, 0, 0);
        assert(out =~= elems);
    } else {
        lemma_delete_keeps_stream(rest);
        lemma_first_comment(rest);
        assert(out =~= seq![elems[0]] + without_comment(rest));
        assert(out.skip(1) =~= without_comment(rest));
    }
}

/// A stream without the segments of a range is a stream, unless the range
/// holds the start-of-scan marker: without that segment, entropy-coded data
/// would stand where a marker is expected.
pub proof fn lemma_strip_keeps_stream(elems: Seq<ElementModel>, first: u8, last: u8)
    requires
        is_stream(elems),
        !(first <= 0xda <= last),
    ensures
        is_stream(stripped(elems, first, last)),
    decreases elems.len(),
{
    let rest = elems.skip(1);
    let out = stripped(elems, first, last);
    lemma_stripped_first(elems, first, last);
    if elems[0] is Eoi {
        assert(rest =~= Seq::<ElementModel>::empty());
        lemma_stripped(rest, first, last);
        assert(out =~= elems);
    } else if elems[0] matches ElementModel::Seg(marker, _) && marker == 0xda {
        lemma_scan_unedited(rest, first, last);
        assert(out =~= elems);
    } else {
        lemma_strip_keeps_stream(rest, first, last);
        if !in_range(elems[0], first, last) {
            assert(out.skip(1) =~= stripped(rest, first, last));
        }
    }
}

/// A stream with an APP0 segment, with a comment put in that fits its
/// length field, is a stream.
pub proof fn lemma_set_keeps_stream(elems: Seq<ElementModel>, text: Seq<u8>)
    requires
        is_stream(elems),
        first_app0(elems) < elems.len(),
        text.len() <= MAX_PAYLOAD,
    ensures
        is_stream(with_comment(elems, text)),
    decreases elems.len(),
{
    let rest = elems.skip(1);
    let out = with_comment(elems, text);
    let comment = ElementModel::Comment(text);
    if is_app0(elems[0]) {
        assert(out.skip(1) =~= seq![comment] + rest);
        assert(out.skip(1).skip(1) =~= rest);
        assert(is_stream(out.skip(1)));
    } else if elems[0] is Eoi {
        assert(first_app0(rest) == 0);
    } else if elems[0] matches ElementModel::Seg(marker, _) && marker == 0xda {
        lemma_scan_unedited(rest, 0, 0);
    } else {
        lemma_first_app0(rest);
        lemma_set_keeps_stream(rest, text);
        assert(out.skip(1) =~= with_comment(rest, text));
    }
}

/// A list with a comment at its end is no stream. So it is with a stream
/// without an APP0 segment into which a comment is put: the comment stands
/// behind the end of the image.
pub proof fn lemma_comment_at_end_is_no_stream(elems: Seq<ElementModel>, text: Seq<u8>)
    ensures
        !is_stream(elems.push(ElementModel::Comment(text))),
        first_app0(elems) == elems.len() ==> !is_stream(with_comment(elems, text)),
{
    let out = elems.push(ElementModel::Comment(text));
    if is_stream(out) {
        lemma_stream_shape(out);
        assert(placed(out[out.len() - 1], out.len() - 1, out.len()));
    }
}

} // verus!
