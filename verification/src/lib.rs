//! Marker-level reading, editing and writing of JPEG (JFIF) streams.
//!
//! A buffer is decoded into a [`Jpeg`]: the ordered list of its structural
//! elements, each borrowing its bytes from the buffer. The list can be edited
//! (comment removed or set, metadata segments stripped) and written back.

pub mod decode;
pub mod document;
pub mod element;
pub mod entropy;
pub mod render;
pub mod roundtrip;
pub mod stream;

pub use decode::check_read;
pub use document::Jpeg;
pub use element::{ElementModel, JpegElement, JpegError};
