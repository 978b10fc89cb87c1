//! Text utilities: the whitespace-stripping pre-pass and the reader of
//! string-literal bodies.

use crate::stream::{is_tail_of, lemma_tail_of_tail, next_char, remaining};
use std::iter::Peekable;
use std::str::Chars;
use vstd::prelude::*;

verus! {

/// Whether `c` has the Unicode property `White_Space`, as `char::is_whitespace`
/// of std decides it.
pub uninterp spec fn is_whitespace(c: char) -> bool;

/// `char::is_whitespace`.
#[verifier::external_body]
fn char_is_whitespace(c: char) -> (b: bool)
    ensures
        b == is_whitespace(c),
{
    c.is_whitespace()
}

/// `String::push`: appends one character at the end.
#[verifier::external_body]
pub(crate) fn push_char(s: &mut String, c: char)
    ensures
        final(s)@ == old(s)@.push(c),
{
    s.push(c)
}

/// The state of the pre-pass between two characters.
pub struct StripState {
    /// An unescaped `"` has opened a string literal that is not closed yet.
    pub in_string: bool,
    /// The last character copied was a backslash that was not itself escaped.
    pub escaped: bool,
}

/// Whether the pre-pass, in state `st`, copies `c` to its output.
pub open spec fn strip_keeps(st: StripState, c: char) -> bool {
    (c == '"' && !st.escaped) || !is_whitespace(c) || st.in_string
}

/// The state of the pre-pass after it has seen `c` in state `st`. A character
/// that is dropped leaves the state as it was.
pub open spec fn strip_step(st: StripState, c: char) -> StripState {
    if c == '"' && !st.escaped {
        StripState { in_string: !st.in_string, escaped: false }
    } else if is_whitespace(c) && !st.in_string {
        st
    } else {
        StripState { in_string: st.in_string, escaped: c == '\\' && !st.escaped }
    }
}

/// The state of the pre-pass after all of `text`, started in state `st`.
pub open spec fn strip_state_after(text: Seq<char>, st: StripState) -> StripState
    decreases text.len(),
{
    if text.len() == 0 {
        st
    } else {
        strip_step(strip_state_after(text.drop_last(), st), text.last())
    }
}

/// What the pre-pass copies of `text` when it starts in state `st`.
pub open spec fn strip_from(text: Seq<char>, st: StripState) -> Seq<char>
    decreases text.len(),
{
    if text.len() == 0 {
        Seq::empty()
    } else {
        let before = text.drop_last();
        let c = text.last();
        if strip_keeps(strip_state_after(before, st), c) {
            strip_from(before, st).push(c)
        } else {
            strip_from(before, st)
        }
    }
}

/// The state in which the pre-pass starts: outside any string literal, with
/// nothing escaped.
pub open spec fn strip_start() -> StripState {
    StripState { in_string: false, escaped: false }
}

/// `text` without the whitespace that lies outside its string literals.
pub open spec fn strip(text: Seq<char>) -> Seq<char> {
    strip_from(text, strip_start())
}

/// Strips the whitespace that lies outside string literals. Never fails: the
/// result is always `Ok`.
pub fn json_stringify_strip(file_content: &str) -> (cleaned: Result<String, &'static str>)
    ensures
        cleaned is Ok,
        cleaned->Ok_0@ == strip(file_content@),
{
    let mut in_string = false;
    let mut prev_char_was_backslash = false;
    let mut cleaned_content = String::new();
    for c in it: file_content.chars()
        invariant
            it.seq() == file_content@,
            strip_state_after(file_content@.take(it.index()), strip_start()) == (StripState {
                in_string,
                escaped: prev_char_was_backslash,
            }),
            cleaned_content@ == strip(file_content@.take(it.index())),
    {
        proof {
            let seen = file_content@.take(it.index() + 1);
            assert(seen.drop_last() == file_content@.take(it.index()));
            assert(seen.last() == c);
        }
        let unescaped_quote = c == '"' && !prev_char_was_backslash;
        if unescaped_quote {
            in_string = !in_string;
        }
        if unescaped_quote || in_string || !char_is_whitespace(c) {
            push_char(&mut cleaned_content, c);
            prev_char_was_backslash = c == '\\' && !prev_char_was_backslash;
        }
    }
    proof {
        assert(file_content@.take(file_content@.len() as int) == file_content@);
    }
    Ok(cleaned_content)
}

/// The text of the string literal whose body starts `body`: the characters up
/// to the first unescaped `"`, or all of them where there is none. A backslash
/// that is not itself escaped is left out, and the character after it is
/// taken as it stands, whatever it is. `escaped` says whether such a
/// backslash stands right before `body`.
pub open spec fn literal_text(body: Seq<char>, escaped: bool) -> Seq<char>
    decreases body.len(),
{
    if body.len() == 0 {
        Seq::empty()
    } else if escaped {
        seq![body[0]] + literal_text(body.drop_first(), false)
    } else if body[0] == '\\' {
        literal_text(body.drop_first(), true)
    } else if body[0] == '"' {
        Seq::empty()
    } else {
        seq![body[0]] + literal_text(body.drop_first(), false)
    }
}

/// What follows the string literal whose body starts `body`: the characters
/// after the first unescaped `"`, or none where there is no such `"`.
pub open spec fn literal_rest(body: Seq<char>, escaped: bool) -> Seq<char>
    decreases body.len(),
{
    if body.len() == 0 {
        body
    } else if escaped {
        literal_rest(body.drop_first(), false)
    } else if body[0] == '\\' {
        literal_rest(body.drop_first(), true)
    } else if body[0] == '"' {
        body.drop_first()
    } else {
        literal_rest(body.drop_first(), false)
    }
}

/// What follows a string literal is a tail of its body.
pub proof fn lemma_literal_rest_is_tail(body: Seq<char>, escaped: bool)
    ensures
        is_tail_of(literal_rest(body, escaped), body),
    decreases body.len(),
{
    if body.len() > 0 {
        let after = body.drop_first();
        lemma_literal_rest_is_tail(after, true);
        lemma_literal_rest_is_tail(after, false);
        assert(is_tail_of(after, body));
        lemma_tail_of_tail(literal_rest(after, true), after, body);
        lemma_tail_of_tail(literal_rest(after, false), after, body);
    } else {
        assert(body.skip(0) == body);
    }
}

/// Reads the body of a string literal, the opening `"` already taken, up to
/// and including the closing `"`, and returns its text. Where the stream ends
/// before a closing `"`, the text read so far is returned.
pub fn consume_string(stream: &mut Peekable<Chars>) -> (s: String)
    ensures
        s@ == literal_text(remaining(*old(stream)), false),
        remaining(*final(stream)) == literal_rest(remaining(*old(stream)), false),
        is_tail_of(remaining(*final(stream)), remaining(*old(stream))),
{
    proof {
        lemma_literal_rest_is_tail(remaining(*stream), false);
    }
    let mut s = String::new();
    let mut prev_char_was_backslash = false;
    loop
        invariant_except_break
            literal_text(remaining(*old(stream)), false) == s@ + literal_text(
                remaining(*stream),
                prev_char_was_backslash,
            ),
            literal_rest(remaining(*old(stream)), false) == literal_rest(
                remaining(*stream),
                prev_char_was_backslash,
            ),
        ensures
            s@ == literal_text(remaining(*old(stream)), false),
            remaining(*stream) == literal_rest(remaining(*old(stream)), false),
        decreases remaining(*stream).len(),
    {
        let ghost before = remaining(*stream);
        let ghost text = s@;
        match next_char(stream) {
            None => {
                break ;
            },
            Some(ch) => {
                if prev_char_was_backslash {
                    push_char(&mut s, ch);
                    prev_char_was_backslash = false;
                } else if ch == '\\' {
                    prev_char_was_backslash = true;
                } else if ch == '"' {
                    break ;
                } else {
                    push_char(&mut s, ch);
                }
                proof {
                    let tail = literal_text(before.drop_first(), false);
                    assert(text + (seq![ch] + tail) == text.push(ch) + tail);
                }
            },
        }
    }
    s
}

/// What the pre-pass has copied of a text takes it to the state to which the
/// text took it, and nothing of it is dropped when it is stripped again.
pub proof fn lemma_strip_from_is_stable(text: Seq<char>, st: StripState)
    ensures
        strip_state_after(strip_from(text, st), st) == strip_state_after(text, st),
        strip_from(strip_from(text, st), st) == strip_from(text, st),
    decreases text.len(),
{
    if text.len() > 0 {
        let before = text.drop_last();
        let c = text.last();
        lemma_strip_from_is_stable(before, st);
        if strip_keeps(strip_state_after(before, st), c) {
            let copied = strip_from(before, st).push(c);
            assert(copied.drop_last() == strip_from(before, st));
            assert(copied.last() == c);
        }
    }
}

/// Stripping is idempotent: a stripped text is its own stripped text.
pub proof fn lemma_strip_is_idempotent(text: Seq<char>)
    ensures
        strip(strip(text)) == strip(text),
{
    lemma_strip_from_is_stable(text, strip_start());
}

/// Inside a string literal nothing is dropped: a character that follows a
/// text which ends inside a string literal is copied, whatever it is.
pub proof fn lemma_strip_keeps_inside_string(text: Seq<char>, c: char)
    requires
        strip_state_after(text, strip_start()).in_string,
    ensures
        strip(text.push(c)) == strip(text).push(c),
{
    assert(text.push(c).drop_last() == text);
    assert(text.push(c).last() == c);
}

/// A text in which every whitespace character stands inside a string
/// literal is its own stripped text.
pub proof fn lemma_strip_without_outer_whitespace(text: Seq<char>)
    requires
        forall|i: int|
            0 <= i < text.len() && is_whitespace(text[i]) ==> #[trigger] strip_state_after(
                text.take(i),
                strip_start(),
            ).in_string,
    ensures
        strip(text) == text,
    decreases text.len(),
{
    if text.len() > 0 {
        let before = text.drop_last();
        assert(before == text.take(text.len() - 1));
        assert forall|i: int| 0 <= i < before.len() && is_whitespace(before[i]) implies (
        #[trigger] strip_state_after(before.take(i), strip_start())).in_string by {
            assert(before.take(i) == text.take(i));
            assert(before[i] == text[i]);
        }
        lemma_strip_without_outer_whitespace(before);
        assert(strip(before).push(text.last()) == text);
    } else {
        assert(strip(text) == text);
    }
}

} // verus!
