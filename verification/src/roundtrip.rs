//! What decoding and encoding have to do with each other.

use vstd::prelude::*;
use crate::decode::{
    decode, frame_end, is_restart, length_field, markers_from, scan_from, segment_at,
};
use crate::document::{all_encodable, lemma_wire_of_concat, lemma_wire_of_one, wire_of};
use crate::element::{be16, ElementModel};

verus! {

/// A buffer is well formed when it decodes and every one of its bytes
/// belongs to an element: nothing stands before, between or behind the
/// elements, so their wire forms are together as long as the buffer. These
/// are the buffers that are the wire form of a stream.
pub open spec fn well_formed(b: Seq<u8>) -> bool {
    decode(b) matches Some(d) && wire_of(d.elems).len() == b.len()
}

/// The wire form of a list with `head` in front.
proof fn lemma_wire_of_emit(head: Seq<ElementModel>, rest: Seq<ElementModel>)
    ensures
        wire_of(head + rest) == wire_of(head) + wire_of(rest),
        all_encodable(head) && all_encodable(rest) ==> all_encodable(head + rest),
{
    lemma_wire_of_concat(head, rest);
}

/// The wire form of two elements.
proof fn lemma_wire_of_two(first: ElementModel, second: ElementModel)
    ensures
        wire_of(seq![first, second]) == first.wire() + second.wire(),
{
    lemma_wire_of_one(first);
    lemma_wire_of_one(second);
    lemma_wire_of_concat(seq![first], seq![second]);
    assert(seq![first] + seq![second] =~= seq![first, second]);
}

/// The length field that was read is the one that is written.
proof fn lemma_length_field(hi: u8, lo: u8)
    requires
        length_field(hi, lo) >= 0,
    ensures
        be16(length_field(hi, lo) as nat) == seq![hi, lo],
{
}

/// A segment that was read fits its length field, and its wire form is the
/// bytes from which it was read.
proof fn lemma_segment_wire(b: Seq<u8>, pos: int)
    requires
        0 <= pos,
        b[pos] == 0xff,
        frame_end(b, pos) is Some,
    ensures
        segment_at(b, pos, frame_end(b, pos).unwrap()).encodable(),
        segment_at(b, pos, frame_end(b, pos).unwrap()).wire() == b.subrange(
            pos,
            frame_end(b, pos).unwrap(),
        ),
{
    let end = frame_end(b, pos).unwrap();
    lemma_length_field(b[pos + 2], b[pos + 3]);
    assert(segment_at(b, pos, end).wire() =~= b.subrange(pos, end));
}

/// Entropy-coded data decodes to elements whose wire forms are the very
/// bytes of the buffer, from the start of the data to the end of the image.
proof fn lemma_scan_exact(b: Seq<u8>, start: int, pos: int)
    requires
        0 <= start <= pos,
        scan_from(b, start, pos) is Some,
    ensures
        ({
            let d = scan_from(b, start, pos).unwrap();
            &&& all_encodable(d.elems)
            &&& d.strays.len() == 0
            &&& pos < d.end <= b.len()
            &&& d.elems.len() > 0 && d.elems.last() == ElementModel::Eoi
            &&& wire_of(d.elems) == b.subrange(start, d.end)
        }),
    decreases b.len() - pos,
{
    let run = ElementModel::ECS(b.subrange(start, pos));
    if b[pos] != 0xff {
        lemma_scan_exact(b, start, pos + 1);
    } else if b[pos + 1] == 0xd9 {
        lemma_wire_of_two(run, ElementModel::Eoi);
    } else if is_restart(b[pos + 1]) {
        let head = seq![run, ElementModel::Restart(b[pos + 1])];
        let rest = scan_from(b, pos + 2, pos + 2).unwrap();
        lemma_scan_exact(b, pos + 2, pos + 2);
        lemma_wire_of_two(run, ElementModel::Restart(b[pos + 1]));
        lemma_wire_of_emit(head, rest.elems);
    } else {
        lemma_scan_exact(b, start, pos + 2);
    }
}

/// Where a marker is expected, what is decoded can be encoded and is, on the
/// wire, no longer than the bytes that were read; where it is as long, it is
/// those bytes.
proof fn lemma_markers_exact(b: Seq<u8>, pos: int)
    requires
        0 <= pos,
        markers_from(b, pos) is Some,
    ensures
        ({
            let d = markers_from(b, pos).unwrap();
            &&& all_encodable(d.elems)
            &&& pos < d.end <= b.len()
            &&& d.elems.len() > 0 && d.elems.last() == ElementModel::Eoi
            &&& wire_of(d.elems).len() + 2 * d.strays.len() <= d.end - pos
            &&& wire_of(d.elems).len() == d.end - pos ==> wire_of(d.elems) == b.subrange(
                pos,
                d.end,
            )
        }),
    decreases b.len() - pos,
{
    if b[pos] != 0xff {
        lemma_markers_exact(b, pos + 1);
    } else if b[pos + 1] == 0x00 {
        lemma_markers_exact(b, pos + 2);
    } else if b[pos + 1] == 0xd8 {
        let rest = markers_from(b, pos + 2).unwrap();
        lemma_markers_exact(b, pos + 2);
        lemma_wire_of_one(ElementModel::Soi);
        lemma_wire_of_emit(seq![ElementModel::Soi], rest.elems);
    } else if b[pos + 1] == 0xd9 {
        lemma_wire_of_one(ElementModel::Eoi);
    } else {
        let end = frame_end(b, pos).unwrap();
        let elem = segment_at(b, pos, end);
        lemma_segment_wire(b, pos);
        lemma_wire_of_one(elem);
        let rest = if b[pos + 1] == 0xda {
            lemma_scan_exact(b, end, end);
            scan_from(b, end, end).unwrap()
        } else {
            lemma_markers_exact(b, end);
            markers_from(b, end).unwrap()
        };
        lemma_wire_of_emit(seq![elem], rest.elems);
    }
}

/// Whatever decodes can be encoded again: each payload fits its length
/// field. Decoding stops behind an end-of-image marker, which is the last
/// element. On the wire the elements take no more bytes than were read, and
/// two fewer for each stray escape; where they take as many, they are the
/// bytes that were read.
pub proof fn lemma_decoded_stream(b: Seq<u8>)
    requires
        decode(b) is Some,
    ensures
        ({
            let d = decode(b).unwrap();
            &&& all_encodable(d.elems)
            &&& 0 < d.end <= b.len()
            &&& d.elems.len() > 0 && d.elems.last() == ElementModel::Eoi
            &&& wire_of(d.elems).len() + 2 * d.strays.len() <= d.end
            &&& wire_of(d.elems).len() == d.end ==> wire_of(d.elems) == b.take(d.end)
        }),
{
    lemma_markers_exact(b, 0);
}

/// Decoding a well-formed buffer and encoding the elements gives the buffer
/// back, byte for byte. Such a buffer holds no stray escape, and ends with
/// its end-of-image marker.
pub proof fn lemma_round_trip(b: Seq<u8>)
    requires
        well_formed(b),
    ensures
        all_encodable(decode(b).unwrap().elems),
        wire_of(decode(b).unwrap().elems) == b,
        decode(b).unwrap().strays.len() == 0,
        decode(b).unwrap().end == b.len(),
{
    lemma_markers_exact(b, 0);
}

/// Entropy-coded data that is cut off does not decode.
proof fn lemma_truncated_scan(b: Seq<u8>, start: int, pos: int, k: int)
    requires
        0 <= start <= pos,
        scan_from(b, start, pos) is Some,
        0 <= k < scan_from(b, start, pos).unwrap().end,
    ensures
        scan_from(b.take(k), start, pos) is None,
    decreases b.len() - pos,
{
    lemma_scan_exact(b, start, pos);
    if pos < k {
        if b[pos] != 0xff {
            lemma_truncated_scan(b, start, pos + 1, k);
        } else if pos + 1 < k && b[pos + 1] != 0xd9 {
            if is_restart(b[pos + 1]) {
                lemma_truncated_scan(b, pos + 2, pos + 2, k);
            } else {
                lemma_truncated_scan(b, start, pos + 2, k);
            }
        }
    }
}

/// A stream that is cut off does not decode.
proof fn lemma_truncated_markers(b: Seq<u8>, pos: int, k: int)
    requires
        0 <= pos,
        markers_from(b, pos) is Some,
        0 <= k < markers_from(b, pos).unwrap().end,
    ensures
        markers_from(b.take(k), pos) is None,
    decreases b.len() - pos,
{
    lemma_markers_exact(b, pos);
    if pos < k {
        if b[pos] != 0xff {
            lemma_truncated_markers(b, pos + 1, k);
        } else if pos + 1 < k {
            if b[pos + 1] == 0x00 || b[pos + 1] == 0xd8 {
                lemma_truncated_markers(b, pos + 2, k);
            } else if b[pos + 1] != 0xd9 {
                let end = frame_end(b, pos).unwrap();
                if end <= k {
                    if b[pos + 1] == 0xda {
                        lemma_truncated_scan(b, end, end, k);
                    } else {
                        lemma_truncated_markers(b, end, k);
                    }
                }
            }
        }
    }
}

/// A buffer that is cut off anywhere before the end of its end-of-image
/// marker, be it inside a marker, a length field, a payload or entropy-coded
/// data, does not decode.
pub proof fn lemma_truncation(b: Seq<u8>, k: int)
    requires
        decode(b) is Some,
        0 <= k < decode(b).unwrap().end,
    ensures
        decode(b.take(k)) is None,
{
    lemma_truncated_markers(b, 0, k);
}

/// Without a marker prefix there is no stream from `pos` on.
proof fn lemma_no_prefix_from(b: Seq<u8>, pos: int)
    requires
        0 <= pos,
        forall|i: int| 0 <= i < b.len() ==> b[i] != 0xff,
    ensures
        markers_from(b, pos) is None,
    decreases b.len() - pos,
{
    if pos < b.len() {
        lemma_no_prefix_from(b, pos + 1);
    }
}

/// A buffer without the byte `FF` holds no marker, and does not decode.
pub proof fn lemma_no_prefix(b: Seq<u8>)
    requires
        forall|i: int| 0 <= i < b.len() ==> b[i] != 0xff,
    ensures
        decode(b) is None,
{
    lemma_no_prefix_from(b, 0);
}

} // verus!
