//! Entropy-coded data: which bytes make up one run of it, and that a run is
//! decoded as it stands.

use vstd::prelude::*;
use crate::decode::{decode, emit, finish, frame_end, is_restart, scan_from};
use crate::document::{lemma_wire_of_concat, lemma_wire_of_one, wire_of};
use crate::element::{frame, ElementModel, MAX_PAYLOAD};

verus! {

/// Whether the byte, standing behind `FF` inside entropy-coded data, ends
/// the run: a restart marker or the end of the image.
pub open spec fn closes_run(marker: u8) -> bool {
    is_restart(marker) || marker == 0xd9
}

/// Whether the bytes can stand as one run of entropy-coded data. Read from
/// the front, each `FF` in them is followed by a byte that does not end the
/// run, such as the zero of byte stuffing, and the two are read together.
pub open spec fn entropy_run(run: Seq<u8>) -> bool
    decreases run.len(),
{
    if run.len() == 0 {
        true
    } else if run[0] != 0xff {
        entropy_run(run.skip(1))
    } else {
        run.len() >= 2 && !closes_run(run[1]) && entropy_run(run.skip(2))
    }
}

/// The decoder passes over a run without closing it.
proof fn lemma_scan_passes(b: Seq<u8>, start: int, pos: int, run: Seq<u8>)
    requires
        0 <= pos,
        pos + run.len() <= b.len(),
        b.subrange(pos, pos + run.len()) == run,
        entropy_run(run),
    ensures
        scan_from(b, start, pos) == scan_from(b, start, pos + run.len()),
    decreases run.len(),
{
    if run.len() > 0 {
        let read = if run[0] != 0xff { 1 } else { 2 };
        assert(b.subrange(pos + read, pos + run.len()) =~= run.skip(read));
        lemma_scan_passes(b, start, pos + read, run.skip(read));
    }
}

/// A run that is followed by a restart marker or by the end of the image is
/// closed there, and is one element that holds the run as it stands.
pub proof fn lemma_scan_closes(b: Seq<u8>, start: int, run: Seq<u8>)
    requires
        0 <= start,
        start + run.len() + 2 <= b.len(),
        b.subrange(start, start + run.len()) == run,
        entropy_run(run),
        b[start + run.len()] == 0xff,
        closes_run(b[start + run.len() + 1]),
    ensures
        ({
            let end = start + run.len() + 2;
            let marker = b[end - 1];
            scan_from(b, start, start) == if marker == 0xd9 {
                finish(seq![ElementModel::ECS(run), ElementModel::Eoi], end)
            } else {
                emit(
                    seq![ElementModel::ECS(run), ElementModel::Restart(marker)],
                    scan_from(b, end, end),
                )
            }
        }),
{
    lemma_scan_passes(b, start, start, run);
}

/// Two runs, one behind the other, are a run.
pub proof fn lemma_run_concat(front: Seq<u8>, back: Seq<u8>)
    requires
        entropy_run(front),
        entropy_run(back),
    ensures
        entropy_run(front + back),
    decreases front.len(),
{
    if front.len() > 0 {
        let read = if front[0] != 0xff { 1 } else { 2 };
        assert((front + back).skip(read) =~= front.skip(read) + back);
        lemma_run_concat(front.skip(read), back);
    }
}

/// A stuffed byte, `FF 00`, between two runs leaves a run.
pub proof fn lemma_stuffed_run(before: Seq<u8>, after: Seq<u8>)
    requires
        entropy_run(before),
        entropy_run(after),
    ensures
        entropy_run(before + seq![0xffu8, 0x00u8] + after),
{
    let stuffed = seq![0xffu8, 0x00u8];
    assert(entropy_run(stuffed.skip(2)));
    lemma_run_concat(before, stuffed);
    lemma_run_concat(before + stuffed, after);
}

/// A segment on the wire at `pos` is read back as the segment.
pub proof fn lemma_frame_read(b: Seq<u8>, pos: int, marker: u8, payload: Seq<u8>)
    requires
        0 <= pos,
        payload.len() <= MAX_PAYLOAD,
        pos + 4 + payload.len() <= b.len(),
        b.subrange(pos, pos + 4 + payload.len()) == frame(marker, payload),
    ensures
        b[pos] == 0xff,
        b[pos + 1] == marker,
        frame_end(b, pos) == Some(pos + 4 + payload.len()),
        b.subrange(pos + 4, pos + 4 + payload.len()) == payload,
{
    let f = frame(marker, payload);
    let end = pos + 4 + payload.len();
    assert(b[pos] == f[0] && b[pos + 1] == f[1] && b[pos + 2] == f[2] && b[pos + 3] == f[3]) by {
        assert(forall|i: int| 0 <= i < f.len() ==> b.subrange(pos, end)[i] == f[i]);
        assert(b.subrange(pos, end)[0] == b[pos]);
        assert(b.subrange(pos, end)[1] == b[pos + 1]);
        assert(b.subrange(pos, end)[2] == b[pos + 2]);
        assert(b.subrange(pos, end)[3] == b[pos + 3]);
    }
    assert forall|i: int| 0 <= i < payload.len() implies b.subrange(pos + 4, end)[i]
        == payload[i] by {
        assert(b.subrange(pos, end)[i + 4] == f[i + 4]);
    }
}

/// A scan of one run, from its header to the end of the image, decodes into
/// the header segment, the run as it stands, and the end of the image; these
/// encode to the same bytes.
pub proof fn lemma_scan_keeps_run(header: Seq<u8>, run: Seq<u8>)
    requires
        header.len() <= MAX_PAYLOAD,
        entropy_run(run),
    ensures
        ({
            let b = frame(0xda, header) + run + seq![0xffu8, 0xd9u8];
            let elems = seq![
                ElementModel::Seg(0xda, header),
                ElementModel::ECS(run),
                ElementModel::Eoi,
            ];
            &&& decode(b) matches Some(d) && d.elems == elems && d.strays.len() == 0 && d.end
                == b.len()
            &&& wire_of(elems) == b
        }),
{
    let sos = frame(0xda, header);
    let b = sos + run + seq![0xffu8, 0xd9u8];
    let start = sos.len() as int;
    let end = start + run.len();
    assert(b.subrange(0, start) =~= sos);
    lemma_frame_read(b, 0, 0xda, header);
    assert(b.subrange(start, end) =~= run);
    lemma_scan_closes(b, start, run);
    let elems = seq![ElementModel::Seg(0xda, header), ElementModel::ECS(run), ElementModel::Eoi];
    let head = seq![ElementModel::Seg(0xda, header), ElementModel::ECS(run)];
    assert(head =~= seq![ElementModel::Seg(0xda, header)] + seq![ElementModel::ECS(run)]);
    assert(elems =~= head + seq![ElementModel::Eoi]);
    lemma_wire_of_one(ElementModel::Seg(0xda, header));
    lemma_wire_of_one(ElementModel::ECS(run));
    lemma_wire_of_one(ElementModel::Eoi);
    lemma_wire_of_concat(seq![ElementModel::Seg(0xda, header)], seq![ElementModel::ECS(run)]);
    lemma_wire_of_concat(head, seq![ElementModel::Eoi]);
}

/// Where the parts of a scan of two runs stand in its bytes.
proof fn lemma_region_layout(sos: Seq<u8>, run1: Seq<u8>, marker: u8, run2: Seq<u8>)
    ensures
        ({
            let b = sos + run1 + seq![0xffu8, marker] + run2 + seq![0xffu8, 0xd9u8];
            let start1 = sos.len() as int;
            let end1 = start1 + run1.len();
            let start2 = end1 + 2;
            let end2 = start2 + run2.len();
            &&& b.len() == end2 + 2
            &&& b.subrange(0, start1) == sos
            &&& b.subrange(start1, end1) == run1
            &&& b[end1] == 0xff
            &&& b[end1 + 1] == marker
            &&& b.subrange(start2, end2) == run2
            &&& b[end2] == 0xff
            &&& b[end2 + 1] == 0xd9
        }),
{
}

/// A buffer in which the parts of a scan of two runs stand one behind the
/// other decodes into those parts.
proof fn lemma_region_decodes(
    b: Seq<u8>,
    header: Seq<u8>,
    run1: Seq<u8>,
    marker: u8,
    run2: Seq<u8>,
)
    requires
        header.len() <= MAX_PAYLOAD,
        entropy_run(run1),
        entropy_run(run2),
        is_restart(marker),
        ({
            let start1 = 4 + header.len() as int;
            let end1 = start1 + run1.len();
            let start2 = end1 + 2;
            let end2 = start2 + run2.len();
            &&& b.len() == end2 + 2
            &&& b.subrange(0, start1) == frame(0xda, header)
            &&& b.subrange(start1, end1) == run1
            &&& b[end1] == 0xff
            &&& b[end1 + 1] == marker
            &&& b.subrange(start2, end2) == run2
            &&& b[end2] == 0xff
            &&& b[end2 + 1] == 0xd9
        }),
    ensures
        decode(b) matches Some(d) && d.strays.len() == 0 && d.end == b.len() && d.elems == seq![
            ElementModel::Seg(0xda, header),
            ElementModel::ECS(run1),
            ElementModel::Restart(marker),
            ElementModel::ECS(run2),
            ElementModel::Eoi,
        ],
{
    let start1 = 4 + header.len() as int;
    let start2 = start1 + run1.len() + 2;
    lemma_frame_read(b, 0, 0xda, header);
    lemma_scan_closes(b, start1, run1);
    lemma_scan_closes(b, start2, run2);
}

/// A scan of two runs with a restart marker between them decodes into the
/// header segment, the first run, the restart marker, the second run and the
/// end of the image. Each run holds the bytes between its bounds, without
/// the marker bytes.
pub proof fn lemma_scan_region(header: Seq<u8>, run1: Seq<u8>, marker: u8, run2: Seq<u8>)
    requires
        header.len() <= MAX_PAYLOAD,
        entropy_run(run1),
        entropy_run(run2),
        is_restart(marker),
    ensures
        ({
            let b = frame(0xda, header) + run1 + seq![0xffu8, marker] + run2 + seq![
                0xffu8,
                0xd9u8,
            ];
            &&& decode(b) matches Some(d) && d.strays.len() == 0 && d.end == b.len() && d.elems
                == seq![
                ElementModel::Seg(0xda, header),
                ElementModel::ECS(run1),
                ElementModel::Restart(marker),
                ElementModel::ECS(run2),
                ElementModel::Eoi,
            ]
        }),
{
    let sos = frame(0xda, header);
    let b = sos + run1 + seq![0xffu8, marker] + run2 + seq![0xffu8, 0xd9u8];
    lemma_region_layout(sos, run1, marker, run2);
    lemma_region_decodes(b, header, run1, marker, run2);
}

/// Entropy-coded data with a stuffed byte in it is one element, which holds
/// the stuffed byte as it stands, and is encoded to the same bytes.
pub proof fn lemma_stuffing_kept(header: Seq<u8>, before: Seq<u8>, after: Seq<u8>)
    requires
        header.len() <= MAX_PAYLOAD,
        entropy_run(before),
        entropy_run(after),
    ensures
        ({
            let run = before + seq![0xffu8, 0x00u8] + after;
            let b = frame(0xda, header) + run + seq![0xffu8, 0xd9u8];
            let elems = seq![
                ElementModel::Seg(0xda, header),
                ElementModel::ECS(run),
                ElementModel::Eoi,
            ];
            &&& decode(b) matches Some(d) && d.elems == elems
            &&& wire_of(elems) == b
        }),
{
    lemma_stuffed_run(before, after);
    lemma_scan_keeps_run(header, before + seq![0xffu8, 0x00u8] + after);
}

} // verus!
