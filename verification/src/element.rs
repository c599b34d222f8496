//! The elements of a JPEG stream and their form on the wire.

use vstd::prelude::*;

verus! {

/// Why decoding or encoding stopped.
#[derive(Debug, Clone, Copy, PartialEq, Eq, Structural)]
pub enum JpegError {
    /// The buffer ended before the stream did.
    BufferTooShort,
    /// A payload is too long for the 16-bit length field of its segment.
    PayloadTooLarge,
}

/// The longest payload that a length field can announce: the field counts
/// its own two bytes.
pub const MAX_PAYLOAD: usize = 65533;

/// What an element is, apart from where its bytes are stored.
#[verifier::ext_equal]
pub enum ElementModel {
    Soi,
    Seg(u8, Seq<u8>),
    Comment(Seq<u8>),
    ECS(Seq<u8>),
    Restart(u8),
    Eoi,
}

/// The two bytes of a length field, most significant first.
pub open spec fn be16(n: nat) -> Seq<u8>
    recommends
        n <= 0xffff,
{
    seq![(n / 256) as u8, (n % 256) as u8]
}

/// A marker segment on the wire: prefix, marker, length field, payload. The
/// length field counts itself and the payload.
pub open spec fn frame(marker: u8, payload: Seq<u8>) -> Seq<u8>
    recommends
        payload.len() <= MAX_PAYLOAD,
{
    seq![0xffu8, marker] + be16(payload.len() + 2) + payload
}

impl ElementModel {
    /// Whether the element has a wire form: a payload must fit its length field.
    pub open spec fn encodable(self) -> bool {
        match self {
            ElementModel::Seg(_, payload) => payload.len() <= MAX_PAYLOAD,
            ElementModel::Comment(payload) => payload.len() <= MAX_PAYLOAD,
            _ => true,
        }
    }

    /// The bytes that stand for the element in a stream.
    pub open spec fn wire(self) -> Seq<u8> {
        match self {
            ElementModel::Soi => seq![0xffu8, 0xd8u8],
            ElementModel::Seg(marker, payload) => frame(marker, payload),
            ElementModel::Comment(payload) => frame(0xfe, payload),
            ElementModel::ECS(bytes) => bytes,
            ElementModel::Restart(marker) => seq![0xffu8, marker],
            ElementModel::Eoi => seq![0xffu8, 0xd9u8],
        }
    }
}

/// One structural element of a stream. Payloads and entropy-coded data are
/// views into the decoded buffer.
#[derive(Clone, Copy, Debug, PartialEq, Eq)]
pub enum JpegElement<'a> {
    /// Start of image.
    Soi,
    /// A marker segment: the marker byte and the payload behind the length field.
    Seg(u8, &'a [u8]),
    /// A comment segment: the comment's bytes.
    Comment(&'a [u8]),
    /// Entropy-coded data, byte stuffing included.
    ECS(&'a [u8]),
    /// A restart marker.
    Restart(u8),
    /// End of image.
    Eoi,
}

impl<'a> View for JpegElement<'a> {
    type V = ElementModel;

    open spec fn view(&self) -> ElementModel {
        match *self {
            JpegElement::Soi => ElementModel::Soi,
            JpegElement::Seg(marker, payload) => ElementModel::Seg(marker, payload@),
            JpegElement::Comment(payload) => ElementModel::Comment(payload@),
            JpegElement::ECS(bytes) => ElementModel::ECS(bytes@),
            JpegElement::Restart(marker) => ElementModel::Restart(marker),
            JpegElement::Eoi => ElementModel::Eoi,
        }
    }
}

/// Appends a marker segment to `writer`, unless the payload is too long.
fn write_frame(marker: u8, payload: &[u8], writer: &mut Vec<u8>) -> (r: Result<(), JpegError>)
    ensures
        match r {
            Ok(_) => {
                &&& payload@.len() <= MAX_PAYLOAD
                &&& final(writer)@ == old(writer)@ + frame(marker, payload@)
            },
            Err(e) => {
                &&& e == JpegError::PayloadTooLarge
                &&& payload@.len() > MAX_PAYLOAD
                &&& final(writer)@ == old(writer)@
            },
        },
{
    if payload.len() > MAX_PAYLOAD {
        return Err(JpegError::PayloadTooLarge);
    }
    let len: usize = payload.len() + 2;
    writer.push(0xff);
    writer.push(marker);
    writer.push((len / 256) as u8);
    writer.push((len % 256) as u8);
    writer.extend_from_slice(payload);
    Ok(())
}

impl<'a> JpegElement<'a> {
    /// Appends the element's wire form to `writer`. An element whose payload
    /// does not fit a length field is refused, and nothing is written.
    pub fn write(&self, writer: &mut Vec<u8>) -> (r: Result<(), JpegError>)
        ensures
            match r {
                Ok(_) => {
                    &&& self@.encodable()
                    &&& final(writer)@ == old(writer)@ + self@.wire()
                },
                Err(e) => {
                    &&& e == JpegError::PayloadTooLarge
                    &&& !self@.encodable()
                    &&& final(writer)@ == old(writer)@
                },
            },
    {
        match *self {
            JpegElement::Soi => {
                writer.push(0xff);
                writer.push(0xd8);
                Ok(())
            },
            JpegElement::Eoi => {
                writer.push(0xff);
                writer.push(0xd9);
                Ok(())
            },
            JpegElement::Restart(nr) => {
                writer.push(0xff);
                writer.push(nr);
                Ok(())
            },
            JpegElement::Seg(nr, data) => write_frame(nr, data, writer),
            JpegElement::Comment(data) => write_frame(0xfe, data, writer),
            JpegElement::ECS(data) => {
                writer.extend_from_slice(data);
                Ok(())
            },
        }
    }
}

} // verus!
