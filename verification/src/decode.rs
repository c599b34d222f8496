//! Decoding a buffer into its elements.
//!
//! The grammar is stated by position: [`markers_from`] says what follows where
//! a marker is expected, [`scan_from`] what follows inside entropy-coded data.
//! The decoder itself reads byte by byte through four named states.

use vstd::prelude::*;
use crate::document::{lemma_models_push, models, Jpeg};
use crate::element::{ElementModel, JpegElement, JpegError};

verus! {

/// What a buffer decodes to.
pub struct Decoded {
    /// The elements, in stream order.
    pub elems: Seq<ElementModel>,
    /// The offsets at which `FF 00` stood where a marker was expected.
    pub strays: Seq<int>,
    /// The offset behind the end-of-image marker, where decoding stops.
    pub end: int,
}

/// `rest` with the elements `head` in front.
pub open spec fn emit(head: Seq<ElementModel>, rest: Option<Decoded>) -> Option<Decoded> {
    match rest {
        Some(d) => Some(Decoded { elems: head + d.elems, strays: d.strays, end: d.end }),
        None => None,
    }
}

/// `rest` with a stray escape at `pos` noted in front.
pub open spec fn note_stray(pos: int, rest: Option<Decoded>) -> Option<Decoded> {
    match rest {
        Some(d) => Some(Decoded { elems: d.elems, strays: seq![pos] + d.strays, end: d.end }),
        None => None,
    }
}

/// The end of a stream: its last elements and the offset behind them.
pub open spec fn finish(last: Seq<ElementModel>, end: int) -> Option<Decoded> {
    Some(Decoded { elems: last, strays: Seq::empty(), end })
}

/// Whether `marker` is one of the eight restart markers.
pub open spec fn is_restart(marker: u8) -> bool {
    0xd0 <= marker <= 0xd7
}

/// The value of a length field whose bytes are `hi` and `lo`.
pub open spec fn length_field(hi: u8, lo: u8) -> int {
    hi as int * 256 + lo as int
}

/// The offset behind the segment whose `FF` stands at `pos`, if the buffer
/// holds all of it. A length field counts itself, so one below 2 describes
/// no segment.
pub open spec fn frame_end(b: Seq<u8>, pos: int) -> Option<int> {
    if pos + 4 > b.len() {
        None
    } else {
        let len = length_field(b[pos + 2], b[pos + 3]);
        if len < 2 || pos + 2 + len > b.len() {
            None
        } else {
            Some(pos + 2 + len)
        }
    }
}

/// The segment whose `FF` stands at `pos` and which ends before `end`: a
/// comment where its marker is `FE`. The payload stands behind the length
/// field.
pub open spec fn segment_at(b: Seq<u8>, pos: int, end: int) -> ElementModel {
    let payload = b.subrange(pos + 4, end);
    if b[pos + 1] == 0xfe {
        ElementModel::Comment(payload)
    } else {
        ElementModel::Seg(b[pos + 1], payload)
    }
}

/// What the buffer holds from `pos` on, inside entropy-coded data that began
/// at `start`. After `FF`, a zero or any byte that is neither a restart
/// marker nor the end of the image belongs to the data, as does the `FF`.
pub open spec fn scan_from(b: Seq<u8>, start: int, pos: int) -> Option<Decoded>
    decreases b.len() - pos,
{
    if pos < 0 || pos >= b.len() {
        None
    } else if b[pos] != 0xff {
        scan_from(b, start, pos + 1)
    } else if pos + 1 >= b.len() {
        None
    } else if b[pos + 1] == 0xd9 {
        finish(seq![ElementModel::ECS(b.subrange(start, pos)), ElementModel::Eoi], pos + 2)
    } else if is_restart(b[pos + 1]) {
        emit(
            seq![ElementModel::ECS(b.subrange(start, pos)), ElementModel::Restart(b[pos + 1])],
            scan_from(b, pos + 2, pos + 2),
        )
    } else {
        scan_from(b, start, pos + 2)
    }
}

/// What the buffer holds from `pos` on, where a marker is expected. Bytes
/// other than `FF` are passed over; so is `FF 00`, which is noted.
pub open spec fn markers_from(b: Seq<u8>, pos: int) -> Option<Decoded>
    decreases b.len() - pos,
{
    if pos < 0 || pos >= b.len() {
        None
    } else if b[pos] != 0xff {
        markers_from(b, pos + 1)
    } else if pos + 1 >= b.len() {
        None
    } else if b[pos + 1] == 0x00 {
        note_stray(pos, markers_from(b, pos + 2))
    } else if b[pos + 1] == 0xd8 {
        emit(seq![ElementModel::Soi], markers_from(b, pos + 2))
    } else if b[pos + 1] == 0xd9 {
        finish(seq![ElementModel::Eoi], pos + 2)
    } else {
        match frame_end(b, pos) {
            None => None,
            Some(end) => emit(
                seq![segment_at(b, pos, end)],
                if b[pos + 1] == 0xda {
                    scan_from(b, end, end)
                } else {
                    markers_from(b, end)
                },
            ),
        }
    }
}

/// What a buffer decodes to, or `None` where it ends before its stream does
/// or holds a length field below 2.
pub open spec fn decode(b: Seq<u8>) -> Option<Decoded> {
    markers_from(b, 0)
}

/// Offsets as numbers.
pub open spec fn offsets(places: Seq<usize>) -> Seq<int> {
    places.map_values(|o: usize| o as int)
}

/// Whether `last` bytes can be read where `len` are left.
pub fn check_read(len: usize, last: usize) -> (r: Result<(), JpegError>)
    ensures
        r == if len < last {
            Err::<(), JpegError>(JpegError::BufferTooShort)
        } else {
            Ok::<(), JpegError>(())
        },
{
    if len < last {
        Err(JpegError::BufferTooShort)
    } else {
        Ok(())
    }
}

/// Reads the length field at `offset`, behind a marker, and the payload that
/// it announces.
fn read_payload<'a>(data: &'a [u8], offset: usize) -> (r: Result<&'a [u8], JpegError>)
    requires
        2 <= offset <= data@.len(),
    ensures
        match r {
            Ok(payload) => {
                &&& frame_end(data@, offset - 2) == Some(offset + 2 + payload@.len())
                &&& payload@ == data@.subrange(offset + 2, offset + 2 + payload@.len())
            },
            Err(e) => e == JpegError::BufferTooShort && frame_end(data@, offset - 2) is None,
        },
{
    let size: usize = data.len();
    check_read(size - offset, 2)?;
    let announced: usize = (data[offset] as usize) * 256 + (data[offset + 1] as usize);
    if announced < 2 {
        return Err(JpegError::BufferTooShort);
    }
    let len: usize = announced - 2;
    let start: usize = offset + 2;
    check_read(size - start, len)?;
    Ok(&data[start..start + len])
}

/// Where the decoder stands between two bytes.
enum DecoderState {
    /// A marker is expected.
    Init,
    /// `FF` was read where a marker is expected.
    SeenFF,
    /// Inside entropy-coded data.
    InitEcs,
    /// `FF` was read inside entropy-coded data.
    SeenFFEcs,
}

/// What is still to come when the decoder stands in `state` at `offset`.
spec fn pending(b: Seq<u8>, state: DecoderState, offset: int, ecs_start: int) -> Option<Decoded> {
    match state {
        DecoderState::Init => markers_from(b, offset),
        DecoderState::SeenFF => markers_from(b, offset - 1),
        DecoderState::InitEcs => scan_from(b, ecs_start, offset),
        DecoderState::SeenFFEcs => scan_from(b, ecs_start, offset - 1),
    }
}

/// Whether `whole` is what was gathered so far followed by `rest`.
#[verifier::opaque]
spec fn continues(
    whole: Option<Decoded>,
    elems: Seq<ElementModel>,
    strays: Seq<int>,
    rest: Option<Decoded>,
) -> bool {
    match (whole, rest) {
        (Some(w), Some(r)) => {
            &&& w.elems =~= elems + r.elems
            &&& w.strays =~= strays + r.strays
            &&& w.end == r.end
        },
        (None, None) => true,
        _ => false,
    }
}

/// Before anything is gathered, all is still to come.
proof fn lemma_continues_start(whole: Option<Decoded>)
    ensures
        continues(whole, Seq::empty(), Seq::empty(), whole),
{
    reveal(continues);
}

/// An element that comes next can be gathered.
proof fn lemma_continues_push(
    whole: Option<Decoded>,
    elems: Seq<ElementModel>,
    strays: Seq<int>,
    e: ElementModel,
    rest: Option<Decoded>,
)
    requires
        continues(whole, elems, strays, emit(seq![e], rest)),
    ensures
        continues(whole, elems.push(e), strays, rest),
{
    reveal(continues);
    if rest is Some {
        assert(elems.push(e) + rest.unwrap().elems =~= elems + (seq![e] + rest.unwrap().elems));
    }
}

/// Two elements that come next can be gathered.
proof fn lemma_continues_push_two(
    whole: Option<Decoded>,
    elems: Seq<ElementModel>,
    strays: Seq<int>,
    e1: ElementModel,
    e2: ElementModel,
    rest: Option<Decoded>,
)
    requires
        continues(whole, elems, strays, emit(seq![e1, e2], rest)),
    ensures
        continues(whole, elems.push(e1).push(e2), strays, rest),
{
    reveal(continues);
    if rest is Some {
        assert(elems.push(e1).push(e2) + rest.unwrap().elems =~= elems + (seq![e1, e2]
            + rest.unwrap().elems));
    }
}

/// A stray escape that comes next can be gathered.
proof fn lemma_continues_stray(
    whole: Option<Decoded>,
    elems: Seq<ElementModel>,
    strays: Seq<int>,
    pos: int,
    rest: Option<Decoded>,
)
    requires
        continues(whole, elems, strays, note_stray(pos, rest)),
    ensures
        continues(whole, elems, strays.push(pos), rest),
{
    reveal(continues);
    if rest is Some {
        assert(strays.push(pos) + rest.unwrap().strays =~= strays + (seq![pos]
            + rest.unwrap().strays));
    }
}

/// Where nothing is to come, there is no whole; where the last elements are
/// to come, the whole is what was gathered with them behind it.
proof fn lemma_continues_end(
    whole: Option<Decoded>,
    elems: Seq<ElementModel>,
    strays: Seq<int>,
    rest: Option<Decoded>,
)
    requires
        continues(whole, elems, strays, rest),
    ensures
        rest is None <==> whole is None,
        rest matches Some(r) ==> {
            &&& whole.unwrap().elems == elems + r.elems
            &&& whole.unwrap().strays == strays + r.strays
            &&& whole.unwrap().end == r.end
        },
{
    reveal(continues);
}

/// What the offsets are with `place` at their end.
proof fn lemma_offsets_push(places: Seq<usize>, place: usize)
    ensures
        offsets(places.push(place)) == offsets(places).push(place as int),
{
}

impl<'a> Jpeg<'a> {
    /// Decodes `data`. The elements borrow their bytes from `data`. A buffer
    /// that ends before its end-of-image marker, or in which a length field
    /// below 2 stands, gives `BufferTooShort`.
    pub fn deserialize(data: &'a [u8]) -> (r: Result<Jpeg<'a>, JpegError>)
        ensures
            match r {
                Ok(jpeg) => decode(data@) matches Some(d) && jpeg@ == d.elems,
                Err(e) => e == JpegError::BufferTooShort && decode(data@) is None,
            },
    {
        match Jpeg::deserialize_with_warnings(data) {
            Ok((jpeg, _)) => Ok(jpeg),
            Err(e) => Err(e),
        }
    }

    /// Decodes `data` as [`Jpeg::deserialize`] does, and also returns the
    /// offset of each `FF 00` that stood where a marker was expected.
    pub fn deserialize_with_warnings(data: &'a [u8]) -> (r: Result<
        (Jpeg<'a>, Vec<usize>),
        JpegError,
    >)
        ensures
            match r {
                Ok((jpeg, warnings)) => {
                    &&& decode(data@) matches Some(d)
                    &&& jpeg@ == d.elems
                    &&& offsets(warnings@) == d.strays
                },
                Err(e) => e == JpegError::BufferTooShort && decode(data@) is None,
            },
    {
        let mut elems: Vec<JpegElement<'a>> = Vec::new();
        let mut warnings: Vec<usize> = Vec::new();
        let mut state = DecoderState::Init;
        let mut offset: usize = 0;
        let size: usize = data.len();
        let mut ecs_start: usize = 0;
        let ghost whole = decode(data@);
        proof {
            lemma_continues_start(whole);
            assert(models(elems@) =~= Seq::<ElementModel>::empty());
            assert(offsets(warnings@) =~= Seq::<int>::empty());
        }

        loop
            invariant
                size == data@.len(),
                offset <= size,
                ecs_start <= offset,
                whole == decode(data@),
                state is SeenFF || state is SeenFFEcs ==> offset >= 1 && data@[offset - 1] == 0xff,
                state is SeenFFEcs ==> ecs_start <= offset - 1,
                continues(
                    whole,
                    models(elems@),
                    offsets(warnings@),
                    pending(data@, state, offset as int, ecs_start as int),
                ),
            decreases size - offset,
        {
            let ghost gathered = models(elems@);
            let ghost noted = offsets(warnings@);
            if offset >= size {
                proof {
                    lemma_continues_end(
                        whole,
                        gathered,
                        noted,
                        pending(data@, state, offset as int, ecs_start as int),
                    );
                }
                return Err(JpegError::BufferTooShort);
            }
            let byte = data[offset];
            offset += 1;
            match state {
                DecoderState::Init => {
                    if byte == 0xff {
                        state = DecoderState::SeenFF;
                    }
                },
                DecoderState::SeenFF => {
                    let ghost at = offset - 2;
                    if byte == 0x00 {
                        proof {
                            lemma_offsets_push(warnings@, (offset - 2) as usize);
                            lemma_continues_stray(
                                whole,
                                gathered,
                                noted,
                                at,
                                markers_from(data@, offset as int),
                            );
                        }
                        warnings.push(offset - 2);
                        state = DecoderState::Init;
                    } else if byte == 0xd8 {
                        proof {
                            lemma_models_push(elems@, JpegElement::Soi);
                            lemma_continues_push(
                                whole,
                                gathered,
                                noted,
                                ElementModel::Soi,
                                markers_from(data@, offset as int),
                            );
                        }
                        elems.push(JpegElement::Soi);
                        state = DecoderState::Init;
                    } else if byte == 0xd9 {
                        proof {
                            lemma_models_push(elems@, JpegElement::Eoi);
                            lemma_continues_end(
                                whole,
                                gathered,
                                noted,
                                finish(seq![ElementModel::Eoi], offset as int),
                            );
                            assert(gathered.push(ElementModel::Eoi) =~= gathered
                                + seq![ElementModel::Eoi]);
                            assert(noted + Seq::<int>::empty() =~= noted);
                        }
                        elems.push(JpegElement::Eoi);
                        return Ok((Jpeg { elems }, warnings));
                    } else {
                        let payload = match read_payload(data, offset) {
                            Ok(payload) => payload,
                            Err(e) => {
                                proof {
                                    lemma_continues_end(whole, gathered, noted, None);
                                }
                                return Err(e);
                            },
                        };
                        offset += 2 + payload.len();
                        let elem = if byte == 0xfe {
                            JpegElement::Comment(payload)
                        } else {
                            JpegElement::Seg(byte, payload)
                        };
                        assert(elem@ == segment_at(data@, at, offset as int));
                        if byte == 0xda {
                            state = DecoderState::InitEcs;
                            ecs_start = offset;
                        } else {
                            state = DecoderState::Init;
                        }
                        proof {
                            lemma_models_push(elems@, elem);
                            lemma_continues_push(
                                whole,
                                gathered,
                                noted,
                                elem@,
                                pending(data@, state, offset as int, ecs_start as int),
                            );
                        }
                        elems.push(elem);
                    }
                },
                DecoderState::InitEcs => {
                    if byte == 0xff {
                        state = DecoderState::SeenFFEcs;
                    }
                },
                DecoderState::SeenFFEcs => {
                    if byte == 0xd9 {
                        let run = JpegElement::ECS(&data[ecs_start..offset - 2]);
                        proof {
                            lemma_models_push(elems@, run);
                            lemma_models_push(elems@.push(run), JpegElement::Eoi);
                            lemma_continues_end(
                                whole,
                                gathered,
                                noted,
                                finish(seq![run@, ElementModel::Eoi], offset as int),
                            );
                            assert(gathered.push(run@).push(ElementModel::Eoi) =~= gathered
                                + seq![run@, ElementModel::Eoi]);
                            assert(noted + Seq::<int>::empty() =~= noted);
                        }
                        elems.push(run);
                        elems.push(JpegElement::Eoi);
                        return Ok((Jpeg { elems }, warnings));
                    } else if 0xd0 <= byte && byte < 0xd8 {
                        let run = JpegElement::ECS(&data[ecs_start..offset - 2]);
                        proof {
                            lemma_models_push(elems@, run);
                            lemma_models_push(elems@.push(run), JpegElement::Restart(byte));
                            lemma_continues_push_two(
                                whole,
                                gathered,
                                noted,
                                run@,
                                ElementModel::Restart(byte),
                                scan_from(data@, offset as int, offset as int),
                            );
                        }
                        elems.push(run);
                        elems.push(JpegElement::Restart(byte));
                        state = DecoderState::InitEcs;
                        ecs_start = offset;
                    } else {
                        state = DecoderState::InitEcs;
                    }
                },
            }
        }
    }
}

} // verus!
