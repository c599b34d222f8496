//! The document: the elements of a stream in order, and the edits on them.

use vstd::prelude::*;
use crate::element::{ElementModel, JpegElement, JpegError, MAX_PAYLOAD};

verus! {

/// A decoded stream: its elements in the order in which they are written.
#[derive(Debug)]
pub struct Jpeg<'a> {
    pub elems: Vec<JpegElement<'a>>,
}

/// What each element of a list is.
pub open spec fn models<'a>(elems: Seq<JpegElement<'a>>) -> Seq<ElementModel> {
    elems.map_values(|e: JpegElement<'a>| e@)
}

impl<'a> View for Jpeg<'a> {
    type V = Seq<ElementModel>;

    open spec fn view(&self) -> Seq<ElementModel> {
        models(self.elems@)
    }
}

/// What the list is with `e` at its end.
pub proof fn lemma_models_push<'a>(elems: Seq<JpegElement<'a>>, e: JpegElement<'a>)
    ensures
        models(elems.push(e)) == models(elems).push(e@),
{
}

/// The wire forms of the elements, one after the other.
pub open spec fn wire_of(elems: Seq<ElementModel>) -> Seq<u8>
    decreases elems.len(),
{
    if elems.len() == 0 {
        Seq::empty()
    } else {
        wire_of(elems.drop_last()) + elems.last().wire()
    }
}

/// Whether every element has a wire form.
pub open spec fn all_encodable(elems: Seq<ElementModel>) -> bool {
    forall|i: int| 0 <= i < elems.len() ==> (#[trigger] elems[i]).encodable()
}

/// Whether `k` is the place of the first element without a wire form.
pub open spec fn first_unencodable(elems: Seq<ElementModel>, k: int) -> bool {
    &&& 0 <= k < elems.len()
    &&& !elems[k].encodable()
    &&& all_encodable(elems.take(k))
}

/// The wire form of a list is that of its front followed by that of its back.
pub proof fn lemma_wire_of_concat(front: Seq<ElementModel>, back: Seq<ElementModel>)
    ensures
        wire_of(front + back) == wire_of(front) + wire_of(back),
    decreases back.len(),
{
    if back.len() > 0 {
        lemma_wire_of_concat(front, back.drop_last());
        assert((front + back).drop_last() =~= front + back.drop_last());
    }
}

/// A list of one element has that element's wire form.
pub proof fn lemma_wire_of_one(e: ElementModel)
    ensures
        wire_of(seq![e]) == e.wire(),
{
    assert(seq![e].drop_last() =~= Seq::<ElementModel>::empty());
    assert(wire_of(Seq::<ElementModel>::empty()) =~= Seq::<u8>::empty());
}

/// The place of the first comment, or the length of the list where it holds
/// none.
pub open spec fn first_comment(elems: Seq<ElementModel>) -> int
    decreases elems.len(),
{
    if elems.len() == 0 {
        0
    } else if elems[0] is Comment {
        0
    } else {
        1 + first_comment(elems.skip(1))
    }
}

/// The list without its first comment.
pub open spec fn without_comment(elems: Seq<ElementModel>) -> Seq<ElementModel> {
    let at = first_comment(elems);
    if at < elems.len() {
        elems.remove(at)
    } else {
        elems
    }
}

/// Whether the element is the JFIF header segment, APP0.
pub open spec fn is_app0(e: ElementModel) -> bool {
    e matches ElementModel::Seg(marker, _) && marker == 0xe0
}

/// The place of the first APP0 segment, or the length of the list where it
/// holds none.
pub open spec fn first_app0(elems: Seq<ElementModel>) -> int
    decreases elems.len(),
{
    if elems.len() == 0 {
        0
    } else if is_app0(elems[0]) {
        0
    } else {
        1 + first_app0(elems.skip(1))
    }
}

/// The list with a comment of the bytes `text` put in: behind the first
/// APP0 segment, or at the end where there is none.
pub open spec fn with_comment(elems: Seq<ElementModel>, text: Seq<u8>) -> Seq<ElementModel> {
    let at = first_app0(elems);
    if at < elems.len() {
        elems.insert(at + 1, ElementModel::Comment(text))
    } else {
        elems.push(ElementModel::Comment(text))
    }
}

/// Whether the element is a segment with a marker from `first` to `last`,
/// both included.
pub open spec fn in_range(e: ElementModel, first: u8, last: u8) -> bool {
    e matches ElementModel::Seg(marker, _) && first <= marker <= last
}

/// The list without the segments whose marker lies from `first` to `last`.
pub open spec fn stripped(elems: Seq<ElementModel>, first: u8, last: u8) -> Seq<ElementModel> {
    elems.filter(|e: ElementModel| !in_range(e, first, last))
}

/// The bytes of each comment of the list, in order.
pub open spec fn comment_texts(elems: Seq<ElementModel>) -> Seq<Seq<u8>>
    decreases elems.len(),
{
    if elems.len() == 0 {
        Seq::empty()
    } else {
        match elems.last() {
            ElementModel::Comment(text) => comment_texts(elems.drop_last()).push(text),
            _ => comment_texts(elems.drop_last()),
        }
    }
}

/// What each of the slices holds.
pub open spec fn contents<'a>(slices: Seq<&'a [u8]>) -> Seq<Seq<u8>> {
    slices.map_values(|s: &'a [u8]| s@)
}

/// `first_comment` is a place in the list or its length; a comment stands
/// there, and none before it.
pub proof fn lemma_first_comment(elems: Seq<ElementModel>)
    ensures
        0 <= first_comment(elems) <= elems.len(),
        first_comment(elems) < elems.len() ==> elems[first_comment(elems)] is Comment,
        forall|j: int| 0 <= j < first_comment(elems) ==> !((#[trigger] elems[j]) is Comment),
    decreases elems.len(),
{
    if elems.len() > 0 && !(elems[0] is Comment) {
        let rest = elems.skip(1);
        lemma_first_comment(rest);
        assert forall|j: int| 0 <= j < first_comment(elems) implies !((#[trigger] elems[j]) is Comment) by {
            if j > 0 {
                assert(elems[j] == rest[j - 1]);
            }
        }
    }
}

/// The place before which no comment stands, and at which one does unless it
/// is the length of the list, is `first_comment`.
pub proof fn lemma_first_comment_is(elems: Seq<ElementModel>, at: int)
    requires
        0 <= at <= elems.len(),
        at < elems.len() ==> elems[at] is Comment,
        forall|j: int| 0 <= j < at ==> !((#[trigger] elems[j]) is Comment),
    ensures
        first_comment(elems) == at,
    decreases elems.len(),
{
    if at > 0 {
        lemma_first_comment_is(elems.skip(1), at - 1);
    }
}

/// `first_app0` is a place in the list or its length; an APP0 segment stands
/// there, and none before it.
pub proof fn lemma_first_app0(elems: Seq<ElementModel>)
    ensures
        0 <= first_app0(elems) <= elems.len(),
        first_app0(elems) < elems.len() ==> is_app0(elems[first_app0(elems)]),
        forall|j: int| 0 <= j < first_app0(elems) ==> !is_app0(#[trigger] elems[j]),
    decreases elems.len(),
{
    if elems.len() > 0 && !is_app0(elems[0]) {
        let rest = elems.skip(1);
        lemma_first_app0(rest);
        assert forall|j: int| 0 <= j < first_app0(elems) implies !is_app0(#[trigger] elems[j]) by {
            if j > 0 {
                assert(elems[j] == rest[j - 1]);
            }
        }
    }
}

/// The place before which no APP0 segment stands, and at which one does
/// unless it is the length of the list, is `first_app0`.
pub proof fn lemma_first_app0_is(elems: Seq<ElementModel>, at: int)
    requires
        0 <= at <= elems.len(),
        at < elems.len() ==> is_app0(elems[at]),
        forall|j: int| 0 <= j < at ==> !is_app0(#[trigger] elems[j]),
    ensures
        first_app0(elems) == at,
    decreases elems.len(),
{
    if at > 0 {
        lemma_first_app0_is(elems.skip(1), at - 1);
    }
}

/// The comments of a list are those of its front followed by those of its
/// back.
pub proof fn lemma_comment_texts_concat(front: Seq<ElementModel>, back: Seq<ElementModel>)
    ensures
        comment_texts(front + back) == comment_texts(front) + comment_texts(back),
    decreases back.len(),
{
    if back.len() > 0 {
        lemma_comment_texts_concat(front, back.drop_last());
        assert((front + back).drop_last() =~= front + back.drop_last());
    }
}

/// A list without a comment has no comment's bytes to give.
pub proof fn lemma_no_comment_texts(elems: Seq<ElementModel>)
    requires
        forall|j: int| 0 <= j < elems.len() ==> !((#[trigger] elems[j]) is Comment),
    ensures
        comment_texts(elems).len() == 0,
    decreases elems.len(),
{
    if elems.len() > 0 {
        lemma_no_comment_texts(elems.drop_last());
    }
}

/// Deleting takes the first comment and no other: where the list holds a
/// comment, the first of its comments' bytes are those of the element that
/// leaves, and the others stay in their order; where it holds none, the list
/// stays as it is.
pub proof fn lemma_delete_takes_first(elems: Seq<ElementModel>)
    ensures
        first_comment(elems) < elems.len() <==> comment_texts(elems).len() > 0,
        first_comment(elems) < elems.len() ==> {
            &&& elems[first_comment(elems)] == ElementModel::Comment(comment_texts(elems)[0])
            &&& comment_texts(without_comment(elems)) == comment_texts(elems).skip(1)
        },
        first_comment(elems) == elems.len() ==> without_comment(elems) == elems,
{
    let at = first_comment(elems);
    lemma_first_comment(elems);
    if at < elems.len() {
        let front = elems.take(at);
        let one = seq![elems[at]];
        let back = elems.skip(at + 1);
        assert(elems =~= front + one + back);
        lemma_no_comment_texts(front);
        assert(comment_texts(one.drop_last()).len() == 0);
        lemma_comment_texts_concat(front, one);
        lemma_comment_texts_concat(front + one, back);
        lemma_comment_texts_concat(front, back);
    } else {
        lemma_no_comment_texts(elems);
    }
}

/// With one comment in the list, deleting finds it; deleting again finds
/// none, and leaves the list as the first deletion left it.
pub proof fn lemma_delete_comment_twice(elems: Seq<ElementModel>)
    requires
        comment_texts(elems).len() == 1,
    ensures
        first_comment(elems) < elems.len(),
        first_comment(without_comment(elems)) == without_comment(elems).len(),
        without_comment(without_comment(elems)) == without_comment(elems),
{
    lemma_delete_takes_first(elems);
    lemma_delete_takes_first(without_comment(elems));
    lemma_first_comment(without_comment(elems));
}

/// Stripping a list with one more element at its end.
proof fn lemma_stripped_push(elems: Seq<ElementModel>, e: ElementModel, first: u8, last: u8)
    ensures
        stripped(elems.push(e), first, last) == if in_range(e, first, last) {
            stripped(elems, first, last)
        } else {
            stripped(elems, first, last).push(e)
        },
{
    elems.lemma_filter_push(e, |e: ElementModel| !in_range(e, first, last));
}

/// Stripping removes the segments of the range and nothing else. An element
/// is in the stripped list if and only if it is in the list and is no such
/// segment. What stays keeps its order: the comments are the same, and a
/// list without such a segment stays as it is.
pub proof fn lemma_stripped(elems: Seq<ElementModel>, first: u8, last: u8)
    ensures
        stripped(elems, first, last).len() <= elems.len(),
        forall|e: ElementModel| #[trigger]
            stripped(elems, first, last).contains(e) <==> elems.contains(e) && !in_range(
                e,
                first,
                last,
            ),
        comment_texts(stripped(elems, first, last)) == comment_texts(elems),
        (forall|i: int| 0 <= i < elems.len() ==> !in_range(#[trigger] elems[i], first, last))
            ==> stripped(elems, first, last) == elems,
    decreases elems.len(),
{
    let out = stripped(elems, first, last);
    if elems.len() == 0 {
        reveal_with_fuel(Seq::filter, 1);
    } else {
        let front = elems.drop_last();
        let e = elems.last();
        let kept = stripped(front, first, last);
        assert(elems =~= front.push(e));
        lemma_stripped(front, first, last);
        lemma_stripped_push(front, e, first, last);
        assert forall|x: ElementModel| #[trigger] out.contains(x) <==> elems.contains(x)
            && !in_range(x, first, last) by {
            if out.contains(x) {
                let i = choose|i: int| 0 <= i < out.len() && out[i] == x;
                if i < kept.len() {
                    assert(kept.contains(x));
                }
            }
            if elems.contains(x) && !in_range(x, first, last) {
                let j = choose|j: int| 0 <= j < elems.len() && elems[j] == x;
                if j < front.len() {
                    assert(front.contains(x));
                }
            }
        }
        if !in_range(e, first, last) {
            assert(out.drop_last() =~= kept);
        }
    }
}

/// The edits leave a stream that can be encoded one that can be encoded, as
/// long as a comment that is put in fits its length field.
pub proof fn lemma_edits_keep_encodable(
    elems: Seq<ElementModel>,
    text: Seq<u8>,
    first: u8,
    last: u8,
)
    requires
        all_encodable(elems),
    ensures
        all_encodable(without_comment(elems)),
        all_encodable(stripped(elems, first, last)),
        all_encodable(with_comment(elems, text)) <==> text.len() <= MAX_PAYLOAD,
{
    lemma_first_comment(elems);
    lemma_first_app0(elems);
    lemma_stripped(elems, first, last);
    let out = stripped(elems, first, last);
    assert forall|i: int| 0 <= i < out.len() implies (#[trigger] out[i]).encodable() by {
        assert(out.contains(out[i]));
        let j = choose|j: int| 0 <= j < elems.len() && elems[j] == out[i];
        assert(elems[j].encodable());
    }
    let put = with_comment(elems, text);
    let at = first_app0(elems);
    let to = if at < elems.len() { at + 1 } else { elems.len() as int };
    assert(put[to] == ElementModel::Comment(text));
    if text.len() <= MAX_PAYLOAD {
        assert forall|i: int| 0 <= i < put.len() implies (#[trigger] put[i]).encodable() by {
            if i < to {
                assert(put[i] == elems[i]);
            } else if i > to {
                assert(put[i] == elems[i - 1]);
            }
        }
    }
}

impl<'a> Jpeg<'a> {
    /// Appends the stream to `writer`, element by element. Writing stops at
    /// the first element whose payload does not fit a length field; what
    /// stands before it has been written by then.
    pub fn serialize(&self, writer: &mut Vec<u8>) -> (r: Result<(), JpegError>)
        ensures
            match r {
                Ok(_) => {
                    &&& all_encodable(self@)
                    &&& final(writer)@ == old(writer)@ + wire_of(self@)
                },
                Err(e) => {
                    &&& e == JpegError::PayloadTooLarge
                    &&& exists|k: int|
                        first_unencodable(self@, k) && final(writer)@ == old(writer)@ + wire_of(
                            #[trigger] self@.take(k),
                        )
                },
            },
    {
        let n = self.elems.len();
        let mut i: usize = 0;
        while i < n
            invariant
                n == self.elems@.len(),
                i <= n,
                all_encodable(self@.take(i as int)),
                writer@ == old(writer)@ + wire_of(self@.take(i as int)),
            decreases n - i,
        {
            match self.elems[i].write(writer) {
                Ok(_) => {},
                Err(e) => return Err(e),
            }
            proof {
                assert(self@.take(i + 1).drop_last() =~= self@.take(i as int));
            }
            i += 1;
        }
        assert(self@.take(n as int) =~= self@);
        Ok(())
    }

    /// The place of the first APP0 segment, or the number of elements.
    fn find_app0(&self) -> (at: usize)
        ensures
            at == first_app0(self@),
    {
        let n = self.elems.len();
        let mut i: usize = 0;
        while i < n
            invariant
                n == self.elems@.len(),
                i <= n,
                forall|j: int| 0 <= j < i ==> !is_app0(#[trigger] self@[j]),
            decreases n - i,
        {
            match self.elems[i] {
                JpegElement::Seg(0xe0, _) => {
                    proof {
                        lemma_first_app0_is(self@, i as int);
                    }
                    return i;
                },
                _ => {},
            }
            i += 1;
        }
        proof {
            lemma_first_app0_is(self@, n as int);
        }
        n
    }

    /// Removes the first comment and returns its bytes, or returns `None` and
    /// changes nothing where the stream holds no comment.
    pub fn delete_comment(&mut self) -> (r: Option<&'a [u8]>)
        ensures
            final(self)@ == without_comment(old(self)@),
            match r {
                Some(data) => {
                    &&& first_comment(old(self)@) < old(self)@.len()
                    &&& old(self)@[first_comment(old(self)@)] == ElementModel::Comment(data@)
                },
                None => first_comment(old(self)@) == old(self)@.len(),
            },
    {
        let n = self.elems.len();
        let mut i: usize = 0;
        while i < n
            invariant
                n == self.elems@.len(),
                i <= n,
                *self == *old(self),
                forall|j: int| 0 <= j < i ==> !((#[trigger] self@[j]) is Comment),
            decreases n - i,
        {
            match self.elems[i] {
                JpegElement::Comment(data) => {
                    proof {
                        lemma_first_comment_is(self@, i as int);
                    }
                    self.elems.remove(i);
                    return Some(data);
                },
                _ => {},
            }
            i += 1;
        }
        proof {
            lemma_first_comment_is(self@, n as int);
        }
        None
    }

    /// Replaces the comment: removes the first comment as `delete_comment`
    /// does and returns what that returned, then puts in a comment of the
    /// bytes `data`, behind the first APP0 segment or, where there is none,
    /// at the end.
    pub fn set_comment(&mut self, data: &'a [u8]) -> (r: Option<&'a [u8]>)
        ensures
            final(self)@ == with_comment(without_comment(old(self)@), data@),
            match r {
                Some(before) => {
                    &&& first_comment(old(self)@) < old(self)@.len()
                    &&& old(self)@[first_comment(old(self)@)] == ElementModel::Comment(before@)
                },
                None => first_comment(old(self)@) == old(self)@.len(),
            },
    {
        let res = self.delete_comment();
        let comment = JpegElement::Comment(data);
        let at = self.find_app0();
        if at < self.elems.len() {
            self.elems.insert(at + 1, comment);
        } else {
            self.elems.push(comment);
        }
        res
    }

    /// Removes every segment whose marker lies from `first` to `last`, both
    /// included. All other elements stay, in their order.
    pub fn strip_segments(&mut self, first: u8, last: u8)
        ensures
            final(self)@ == stripped(old(self)@, first, last),
    {
        let n = self.elems.len();
        let mut kept: Vec<JpegElement<'a>> = Vec::new();
        let mut i: usize = 0;
        proof {
            reveal_with_fuel(Seq::filter, 1);
        }
        while i < n
            invariant
                n == self.elems@.len(),
                i <= n,
                *self == *old(self),
                models(kept@) == stripped(self@.take(i as int), first, last),
            decreases n - i,
        {
            let elem = self.elems[i];
            let drop = match elem {
                JpegElement::Seg(marker, _) => first <= marker && marker <= last,
                _ => false,
            };
            proof {
                let keep = |e: ElementModel| !in_range(e, first, last);
                assert(self@.take(i + 1) =~= self@.take(i as int).push(elem@));
                self@.take(i as int).lemma_filter_push(elem@, keep);
            }
            if !drop {
                kept.push(elem);
            }
            i += 1;
        }
        assert(self@.take(n as int) =~= self@);
        self.elems = kept;
    }

    /// The bytes of each comment of the stream, in order.
    pub fn comments(&self) -> (r: Vec<&'a [u8]>)
        ensures
            contents(r@) == comment_texts(self@),
    {
        let n = self.elems.len();
        let mut found: Vec<&'a [u8]> = Vec::new();
        let mut i: usize = 0;
        while i < n
            invariant
                n == self.elems@.len(),
                i <= n,
                contents(found@) == comment_texts(self@.take(i as int)),
            decreases n - i,
        {
            proof {
                assert(self@.take(i + 1).drop_last() =~= self@.take(i as int));
            }
            match self.elems[i] {
                JpegElement::Comment(data) => {
                    found.push(data);
                },
                _ => {},
            }
            i += 1;
        }
        assert(self@.take(n as int) =~= self@);
        found
    }
}

} // verus!
