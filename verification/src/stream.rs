//! The character stream that the parser reads: `Peekable<Chars>` of std.
//!
//! Verus sees nothing inside a `Peekable`, so the characters that a stream
//! has yet to yield get a name, [`remaining`], and each std method that the
//! library calls on a stream gets a wrapper whose contract is stated over
//! that name. These contracts are believed, not proved.

use std::iter::Peekable;
use std::str::Chars;
use vstd::prelude::*;
use vstd::std_specs::iter::IteratorSpec;

verus! {

/// Makes `std::iter::Peekable` known to Verus as an opaque type.
#[verifier::external_type_specification]
#[verifier::external_body]
#[verifier::reject_recursive_types(I)]
pub struct ExPeekable<I: Iterator>(Peekable<I>);

/// The characters that `stream` has not yielded yet, in the order in which
/// `next` will yield them.
pub uninterp spec fn remaining(stream: Peekable<Chars<'_>>) -> Seq<char>;

/// Whether `rest` is what is left of `text` once some characters are taken
/// off its front.
pub open spec fn is_tail_of(rest: Seq<char>, text: Seq<char>) -> bool {
    rest.len() <= text.len() && rest == text.skip(text.len() - rest.len())
}

/// A tail of a tail of a text is a tail of the text.
pub proof fn lemma_tail_of_tail(rest: Seq<char>, middle: Seq<char>, text: Seq<char>)
    requires
        is_tail_of(rest, middle),
        is_tail_of(middle, text),
    ensures
        is_tail_of(rest, text),
{
    assert(rest =~= text.skip(text.len() - rest.len()));
}

/// `Peekable::next`: yields the first remaining character and removes it from
/// the stream; on an exhausted stream yields `None` and leaves it exhausted.
#[verifier::external_body]
pub(crate) fn next_char(stream: &mut Peekable<Chars>) -> (c: Option<char>)
    ensures
        remaining(*old(stream)).len() == 0 ==> c is None && remaining(*final(stream))
            == remaining(*old(stream)),
        remaining(*old(stream)).len() > 0 ==> c == Some(remaining(*old(stream))[0])
            && remaining(*final(stream)) == remaining(*old(stream)).drop_first(),
{
    stream.next()
}

/// `Peekable::peek`: shows the first remaining character, or `None` on an
/// exhausted stream, and removes nothing.
#[verifier::external_body]
pub(crate) fn peek_char(stream: &mut Peekable<Chars>) -> (c: Option<char>)
    ensures
        remaining(*final(stream)) == remaining(*old(stream)),
        remaining(*old(stream)).len() == 0 ==> c is None,
        remaining(*old(stream)).len() > 0 ==> c == Some(remaining(*old(stream))[0]),
{
    match stream.peek() {
        Some(c) => Some(*c),
        None => None,
    }
}

/// `Iterator::peekable` on the characters of a text: the stream yields what
/// `chars` had yet to yield.
#[verifier::external_body]
pub(crate) fn peekable(chars: Chars) -> (stream: Peekable<Chars>)
    ensures
        remaining(stream) == chars.remaining(),
{
    chars.peekable()
}

/// A stream over the characters of `text`.
pub fn char_stream(text: &str) -> (stream: Peekable<Chars<'_>>)
    ensures
        remaining(stream) == text@,
{
    peekable(text.chars())
}

} // verus!
