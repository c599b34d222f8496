//! A text that shows the structure of a stream, one line for each element.

use vstd::prelude::*;
use vstd::string::{StrSliceExecFns, StringExecFns};
use crate::document::Jpeg;
use crate::element::{ElementModel, JpegElement, JpegError};

verus! {

/// The character for a digit below sixteen.
pub open spec fn digit(d: nat) -> char {
    "0123456789abcdef"@[d as int]
}

/// The number in decimal.
pub open spec fn decimal(n: nat) -> Seq<char>
    decreases n,
{
    if n < 10 {
        seq![digit(n)]
    } else {
        decimal(n / 10).push(digit(n % 10))
    }
}

/// The number in hexadecimal, with small letters.
pub open spec fn hex(n: nat) -> Seq<char>
    decreases n,
{
    if n < 16 {
        seq![digit(n)]
    } else {
        hex(n / 16).push(digit(n % 16))
    }
}

/// The text that `String::from_utf8_lossy` makes of the bytes: what they
/// spell as UTF-8, with the replacement character for what spells nothing.
pub uninterp spec fn utf8_lossy(bytes: Seq<u8>) -> Seq<char>;

/// The line of a comment whose bytes read as `text`.
pub open spec fn comment_line_of(text: Seq<char>) -> Seq<char> {
    "Comment: "@ + text + "B\n"@
}

impl ElementModel {
    /// The line that shows the element: its kind, its marker in hexadecimal,
    /// the number of its bytes; of a comment, its text.
    pub open spec fn line(self) -> Seq<char> {
        match self {
            ElementModel::Soi => "Soi\n"@,
            ElementModel::Seg(marker, payload) => "Seg 0x"@ + hex(marker as nat) + " "@ + decimal(
                payload.len(),
            ) + "B\n"@,
            ElementModel::Comment(payload) => comment_line_of(utf8_lossy(payload)),
            ElementModel::ECS(bytes) => "ECS: "@ + decimal(bytes.len()) + "B\n"@,
            ElementModel::Restart(marker) => "Restart 0x"@ + hex(marker as nat) + "\n"@,
            ElementModel::Eoi => "Eoi\n"@,
        }
    }
}

/// The lines of the elements, one after the other.
pub open spec fn lines(elems: Seq<ElementModel>) -> Seq<char>
    decreases elems.len(),
{
    if elems.len() == 0 {
        Seq::empty()
    } else {
        lines(elems.drop_last()) + elems.last().line()
    }
}

/// Calls `String::from_utf8_lossy` on the bytes and takes the text as a
/// `String`. The text is a function of the bytes alone; it is named, and no
/// more is claimed of it.
#[verifier::external_body]
fn lossy_text(data: &[u8]) -> (text: String)
    ensures
        text@ == utf8_lossy(data@),
{
    String::from_utf8_lossy(data).into_owned()
}

/// The digit `d` as a string of one character.
fn digit_str(d: usize) -> (s: &'static str)
    requires
        d < 16,
    ensures
        s@ == seq![digit(d as nat)],
{
    proof {
        reveal_strlit("0123456789abcdef");
    }
    "0123456789abcdef".substring_ascii(d, d + 1)
}

/// Appends `n` in decimal.
fn append_decimal(out: &mut String, n: usize)
    ensures
        final(out)@ == old(out)@ + decimal(n as nat),
    decreases n,
{
    if n >= 10 {
        append_decimal(out, n / 10);
    }
    out.append(digit_str(n % 10));
}

/// Appends `n` in hexadecimal.
fn append_hex(out: &mut String, n: u8)
    ensures
        final(out)@ == old(out)@ + hex(n as nat),
{
    if n >= 16 {
        out.append(digit_str((n / 16) as usize));
        assert(hex((n / 16) as nat) =~= seq![digit((n / 16) as nat)]);
    }
    out.append(digit_str((n % 16) as usize));
}

/// The line of a comment whose bytes read as `text`.
pub fn comment_line(text: &str) -> (line: String)
    ensures
        line@ == comment_line_of(text@),
{
    let mut line = String::from_str("Comment: ");
    line.append(text);
    line.append("B\n");
    line
}

impl<'a> JpegElement<'a> {
    /// The line that shows the element.
    pub fn describe(&self) -> (line: String)
        ensures
            line@ == self@.line(),
    {
        match *self {
            JpegElement::Soi => String::from_str("Soi\n"),
            JpegElement::Seg(nr, data) => {
                let mut line = String::from_str("Seg 0x");
                append_hex(&mut line, nr);
                line.append(" ");
                append_decimal(&mut line, data.len());
                line.append("B\n");
                line
            },
            JpegElement::Comment(data) => {
                let text = lossy_text(data);
                comment_line(text.as_str())
            },
            JpegElement::ECS(data) => {
                let mut line = String::from_str("ECS: ");
                append_decimal(&mut line, data.len());
                line.append("B\n");
                line
            },
            JpegElement::Restart(nr) => {
                let mut line = String::from_str("Restart 0x");
                append_hex(&mut line, nr);
                line.append("\n");
                line
            },
            JpegElement::Eoi => String::from_str("Eoi\n"),
        }
    }
}

impl<'a> Jpeg<'a> {
    /// The lines that show the elements of the stream, in order.
    pub fn describe(&self) -> (text: String)
        ensures
            text@ == lines(self@),
    {
        let n = self.elems.len();
        let mut text = String::new();
        let mut i: usize = 0;
        while i < n
            invariant
                n == self.elems@.len(),
                i <= n,
                text@ == lines(self@.take(i as int)),
            decreases n - i,
        {
            let line = self.elems[i].describe();
            text.append(line.as_str());
            proof {
                assert(self@.take(i + 1).drop_last() =~= self@.take(i as int));
            }
            i += 1;
        }
        assert(self@.take(n as int) =~= self@);
        text
    }
}

impl JpegError {
    /// The text that names the error.
    pub fn message(&self) -> (text: String)
        ensures
            text@ == "JpegEror"@,
    {
        String::from_str("JpegEror")
    }
}

} // verus!
