//! What the parser computes, as functions on sequences of characters.
//!
//! Each function takes the characters that lie ahead and gives an
//! [`Outcome`]: the value read or the reason why there is none, and the
//! characters that are left behind it.

use crate::number::{is_digit, is_number_literal};
use crate::parser::{ParseError, ValueModel};
use crate::stream::{is_tail_of, lemma_tail_of_tail};
use crate::utils::{lemma_literal_rest_is_tail, literal_rest, literal_text};
use vstd::prelude::*;

verus! {

/// The result of reading a value off the front of a text.
pub struct Outcome {
    /// The value, or why there is none.
    pub result: Result<ValueModel, ParseError>,
    /// The characters that were not read.
    pub rest: Seq<char>,
}

/// The outcome that has read `value` and left `rest`.
pub open spec fn done(value: ValueModel, rest: Seq<char>) -> Outcome {
    Outcome { result: Ok(value), rest }
}

/// The outcome that has failed with `error` and left `rest`.
pub open spec fn failed(error: ParseError, rest: Seq<char>) -> Outcome {
    Outcome { result: Err(error), rest }
}

/// `s` without its first character; empty where `s` is empty.
pub open spec fn after_first(s: Seq<char>) -> Seq<char> {
    if s.len() == 0 {
        s
    } else {
        s.drop_first()
    }
}

/// Whether `c` may stand in a number token behind its first character.
pub open spec fn is_number_char(c: char) -> bool {
    is_digit(c) || c == '.' || c == 'e' || c == 'E' || c == '-' || c == '+'
}

/// How many characters at the front of `s` may stand in a number token.
pub open spec fn number_run(s: Seq<char>) -> nat
    decreases s.len(),
{
    if s.len() > 0 && is_number_char(s[0]) {
        1 + number_run(s.drop_first())
    } else {
        0
    }
}

/// Reads a number whose first character, `first`, is taken already: the
/// token goes on as far as number characters follow, and is a number only if
/// all of it is a number literal.
pub open spec fn number_outcome(first: char, s: Seq<char>) -> Outcome {
    let run = number_run(s) as int;
    let token = seq![first] + s.take(run);
    if is_number_literal(token) {
        done(ValueModel::Number(token), s.skip(run))
    } else {
        failed(ParseError::InvalidNumber, s.skip(run))
    }
}

/// How many characters are taken off `s` for a keyword whose rest is
/// `word`: as many as `word` has, or as many as there are.
pub open spec fn taken(s: Seq<char>, word: Seq<char>) -> int {
    if s.len() < word.len() {
        s.len() as int
    } else {
        word.len() as int
    }
}

/// Reads the rest of a keyword, `word`, whose first character is taken
/// already. The characters are taken whether or not they are those of
/// `word`.
pub open spec fn keyword_outcome(
    s: Seq<char>,
    word: Seq<char>,
    value: ValueModel,
    error: ParseError,
) -> Outcome {
    if s.take(taken(s, word)) == word {
        done(value, s.skip(taken(s, word)))
    } else {
        failed(error, s.skip(taken(s, word)))
    }
}

/// Reads the rest of `null`.
pub open spec fn null_outcome(s: Seq<char>) -> Outcome {
    keyword_outcome(s, seq!['u', 'l', 'l'], ValueModel::Null, ParseError::InvalidNullLiteral)
}

/// Reads the rest of `true` where `truth` is set, and else the rest of
/// `false`.
pub open spec fn boolean_outcome(s: Seq<char>, truth: bool) -> Outcome {
    if truth {
        keyword_outcome(
            s,
            seq!['r', 'u', 'e'],
            ValueModel::Boolean(true),
            ParseError::InvalidBooleanLiteral,
        )
    } else {
        keyword_outcome(
            s,
            seq!['a', 'l', 's', 'e'],
            ValueModel::Boolean(false),
            ParseError::InvalidBooleanLiteral,
        )
    }
}

/// Reads one value off the front of `s`: the first character decides what
/// kind of value it is, and there is no way back from that.
pub open spec fn value_outcome(s: Seq<char>) -> Outcome
    decreases s.len(), 0int,
{
    if s.len() == 0 {
        failed(ParseError::UnsupportedValue, s)
    } else {
        let c = s[0];
        let t = s.drop_first();
        if c == '{' {
            members_outcome(t, Seq::empty())
        } else if c == '"' {
            done(ValueModel::String(literal_text(t, false)), literal_rest(t, false))
        } else if c == '[' {
            items_outcome(t, Seq::empty())
        } else if is_digit(c) || c == '-' {
            number_outcome(c, t)
        } else if c == 't' || c == 'f' {
            boolean_outcome(t, c == 't')
        } else if c == 'n' {
            null_outcome(t)
        } else {
            failed(ParseError::UnsupportedValue, t)
        }
    }
}

/// Reads what is left of an array of which `items` are read already. `s`
/// starts behind the opening bracket or behind a comma: there the closing
/// bracket may stand, or the next item.
///
/// The test that the item has left less than there was makes the definition
/// well founded. It never fails: see [`lemma_value_is_consumed`].
pub open spec fn items_outcome(s: Seq<char>, items: Seq<ValueModel>) -> Outcome
    decreases s.len(), 1int,
{
    if s.len() > 0 && s[0] == ']' {
        done(ValueModel::Array(items), s.drop_first())
    } else {
        let item = value_outcome(s);
        match item.result {
            Ok(value) if item.rest.len() < s.len() => after_item(item.rest, items.push(value)),
            _ => item,
        }
    }
}

/// Reads what follows an item of an array: a comma and the rest of the
/// array, or the closing bracket.
pub open spec fn after_item(rest: Seq<char>, items: Seq<ValueModel>) -> Outcome
    decreases rest.len(), 2int,
{
    if rest.len() > 0 && rest[0] == ',' {
        items_outcome(rest.drop_first(), items)
    } else if rest.len() > 0 && rest[0] == ']' {
        done(ValueModel::Array(items), rest.drop_first())
    } else {
        failed(ParseError::UnexpectedArrayToken, after_first(rest))
    }
}

/// Reads what is left of an object of which `members` are read already. `s`
/// starts behind the opening brace or behind a comma: there the closing
/// brace may stand, or the next member, which is a key in double quotes, a
/// colon and a value.
///
/// The test that the value has left less than there was makes the definition
/// well founded. It never fails: see [`lemma_value_is_consumed`].
pub open spec fn members_outcome(s: Seq<char>, members: Seq<(Seq<char>, ValueModel)>) -> Outcome
    decreases s.len(), 1int,
{
    if s.len() > 0 && s[0] == '}' {
        done(ValueModel::Object(members), s.drop_first())
    } else if s.len() > 0 && s[0] == '"' {
        let key = literal_text(s.drop_first(), false);
        let colon = literal_rest(s.drop_first(), false);
        if colon.len() > 0 && colon[0] == ':' {
            proof {
                lemma_literal_rest_is_tail(s.drop_first(), false);
            }
            let member = value_outcome(colon.drop_first());
            match member.result {
                Ok(value) if member.rest.len() < colon.len() => after_member(
                    member.rest,
                    members.push((key, value)),
                ),
                _ => member,
            }
        } else {
            failed(ParseError::ExpectedColon, after_first(colon))
        }
    } else {
        failed(ParseError::ExpectedKey, after_first(s))
    }
}

/// Reads what follows a member of an object: a comma and the rest of the
/// object, or the closing brace.
pub open spec fn after_member(rest: Seq<char>, members: Seq<(Seq<char>, ValueModel)>) -> Outcome
    decreases rest.len(), 2int,
{
    if rest.len() > 0 && rest[0] == ',' {
        members_outcome(rest.drop_first(), members)
    } else if rest.len() > 0 && rest[0] == '}' {
        done(ValueModel::Object(members), rest.drop_first())
    } else {
        failed(ParseError::UnexpectedObjectToken, after_first(rest))
    }
}

/// Whether `literal` is a number token as the parser takes one: a digit or
/// `-`, then number characters, all of it a number literal.
pub open spec fn is_number_token(literal: Seq<char>) -> bool {
    &&& literal.len() > 0
    &&& is_digit(literal[0]) || literal[0] == '-'
    &&& forall|i: int| 1 <= i < literal.len() ==> is_number_char(#[trigger] literal[i])
    &&& is_number_literal(literal)
}

/// Whether every number in `value` is a number token.
pub open spec fn well_formed(value: ValueModel) -> bool
    decreases value,
{
    match value {
        ValueModel::Number(literal) => is_number_token(literal),
        ValueModel::Array(items) => forall|i: int|
            0 <= i < items.len() ==> well_formed(#[trigger] items[i]),
        ValueModel::Object(members) => forall|i: int|
            0 <= i < members.len() ==> well_formed((#[trigger] members[i]).1),
        _ => true,
    }
}

/// What a value leaves is a tail of the text: the parser takes characters
/// off the front only. A value takes at least one character.
pub proof fn lemma_value_is_consumed(s: Seq<char>)
    ensures
        is_tail_of(value_outcome(s).rest, s),
        value_outcome(s).result is Ok ==> value_outcome(s).rest.len() < s.len(),
    decreases s.len(), 0int,
{
    if s.len() > 0 {
        let t = s.drop_first();
        let rest = value_outcome(s).rest;
        assert(is_tail_of(t, s));
        if s[0] == '{' {
            lemma_members_are_consumed(t, Seq::empty());
        } else if s[0] == '"' {
            lemma_literal_rest_is_tail(t, false);
        } else if s[0] == '[' {
            lemma_items_are_consumed(t, Seq::empty());
        } else {
            lemma_number_run_holds_number_chars(t);
            assert(t.skip(0) == t);
            assert(is_tail_of(rest, t));
        }
        lemma_tail_of_tail(rest, t, s);
    } else {
        assert(s.skip(0) == s);
    }
}

/// What the rest of an array leaves is a tail of the text.
pub proof fn lemma_items_are_consumed(s: Seq<char>, items: Seq<ValueModel>)
    ensures
        is_tail_of(items_outcome(s, items).rest, s),
    decreases s.len(), 1int,
{
    if s.len() > 0 && s[0] == ']' {
        assert(is_tail_of(s.drop_first(), s));
    } else {
        lemma_value_is_consumed(s);
        let item = value_outcome(s);
        if item.result is Ok {
            lemma_after_item_is_consumed(item.rest, items.push(item.result->Ok_0));
            lemma_tail_of_tail(items_outcome(s, items).rest, item.rest, s);
        }
    }
}

/// What the rest of an array behind an item leaves is a tail of the text.
pub proof fn lemma_after_item_is_consumed(rest: Seq<char>, items: Seq<ValueModel>)
    ensures
        is_tail_of(after_item(rest, items).rest, rest),
    decreases rest.len(), 2int,
{
    if rest.len() > 0 {
        let t = rest.drop_first();
        assert(is_tail_of(t, rest));
        if rest[0] == ',' {
            lemma_items_are_consumed(t, items);
            lemma_tail_of_tail(items_outcome(t, items).rest, t, rest);
        }
    } else {
        assert(rest.skip(0) == rest);
    }
}

/// What the rest of an object leaves is a tail of the text.
pub proof fn lemma_members_are_consumed(s: Seq<char>, members: Seq<(Seq<char>, ValueModel)>)
    ensures
        is_tail_of(members_outcome(s, members).rest, s),
    decreases s.len(), 1int,
{
    if s.len() == 0 {
        assert(s.skip(0) == s);
    } else {
        let body = s.drop_first();
        assert(is_tail_of(body, s));
        if s[0] == '"' {
            let key = literal_text(body, false);
            let colon = literal_rest(body, false);
            lemma_literal_rest_is_tail(body, false);
            lemma_tail_of_tail(colon, body, s);
            if colon.len() > 0 {
                let start = colon.drop_first();
                assert(is_tail_of(start, colon));
                lemma_tail_of_tail(start, colon, s);
                if colon[0] == ':' {
                    lemma_value_is_consumed(start);
                    let member = value_outcome(start);
                    lemma_tail_of_tail(member.rest, start, s);
                    if member.result is Ok {
                        let more = members.push((key, member.result->Ok_0));
                        lemma_after_member_is_consumed(member.rest, more);
                        lemma_tail_of_tail(after_member(member.rest, more).rest, member.rest, s);
                    }
                }
            }
        }
    }
}

/// What the rest of an object behind a member leaves is a tail of the text.
pub proof fn lemma_after_member_is_consumed(rest: Seq<char>, members: Seq<(Seq<char>, ValueModel)>)
    ensures
        is_tail_of(after_member(rest, members).rest, rest),
    decreases rest.len(), 2int,
{
    if rest.len() > 0 {
        let t = rest.drop_first();
        assert(is_tail_of(t, rest));
        if rest[0] == ',' {
            lemma_members_are_consumed(t, members);
            lemma_tail_of_tail(members_outcome(t, members).rest, t, rest);
        }
    } else {
        assert(rest.skip(0) == rest);
    }
}

/// Every character of a run of number characters is a number character.
pub proof fn lemma_number_run_holds_number_chars(s: Seq<char>)
    ensures
        number_run(s) <= s.len(),
        forall|i: int| 0 <= i < number_run(s) ==> is_number_char(#[trigger] s[i]),
    decreases s.len(),
{
    if s.len() > 0 && is_number_char(s[0]) {
        let t = s.drop_first();
        lemma_number_run_holds_number_chars(t);
        assert forall|i: int| 0 <= i < number_run(s) implies is_number_char(#[trigger] s[i]) by {
            if i > 0 {
                assert(s[i] == t[i - 1]);
            }
        }
    }
}

/// Every number in a value that the parser returns is a number token.
pub proof fn lemma_parsed_is_well_formed(s: Seq<char>)
    ensures
        value_outcome(s).result matches Ok(value) ==> well_formed(value),
    decreases s.len(), 0int,
{
    if s.len() > 0 {
        let c = s[0];
        let t = s.drop_first();
        if c == '{' {
            lemma_parsed_members_are_well_formed(t, Seq::empty());
        } else if c == '"' {
        } else if c == '[' {
            lemma_parsed_items_are_well_formed(t, Seq::empty());
        } else if is_digit(c) || c == '-' {
            lemma_number_run_holds_number_chars(t);
            let token = seq![c] + t.take(number_run(t) as int);
            assert forall|i: int| 1 <= i < token.len() implies is_number_char(
                #[trigger] token[i],
            ) by {
                assert(token[i] == t[i - 1]);
            }
        }
    }
}

/// The array that the parser returns where `items`, all well formed, are
/// read already is well formed.
pub proof fn lemma_parsed_items_are_well_formed(s: Seq<char>, items: Seq<ValueModel>)
    requires
        forall|i: int| 0 <= i < items.len() ==> well_formed(#[trigger] items[i]),
    ensures
        items_outcome(s, items).result matches Ok(value) ==> well_formed(value),
    decreases s.len(), 1int,
{
    if !(s.len() > 0 && s[0] == ']') {
        lemma_parsed_is_well_formed(s);
        lemma_value_is_consumed(s);
        let item = value_outcome(s);
        if item.result is Ok {
            let rest = item.rest;
            let more = items.push(item.result->Ok_0);
            assert forall|i: int| 0 <= i < more.len() implies well_formed(#[trigger] more[i]) by {
                if i < items.len() {
                    assert(more[i] == items[i]);
                }
            }
            if rest.len() > 0 && rest[0] == ',' {
                lemma_parsed_items_are_well_formed(rest.drop_first(), more);
            }
        }
    }
}

/// The object that the parser returns where `members`, all well formed, are
/// read already is well formed.
pub proof fn lemma_parsed_members_are_well_formed(
    s: Seq<char>,
    members: Seq<(Seq<char>, ValueModel)>,
)
    requires
        forall|i: int| 0 <= i < members.len() ==> well_formed((#[trigger] members[i]).1),
    ensures
        members_outcome(s, members).result matches Ok(value) ==> well_formed(value),
    decreases s.len(), 1int,
{
    if s.len() > 0 && s[0] == '"' {
        let key = literal_text(s.drop_first(), false);
        let colon = literal_rest(s.drop_first(), false);
        lemma_literal_rest_is_tail(s.drop_first(), false);
        if colon.len() > 0 && colon[0] == ':' {
            lemma_parsed_is_well_formed(colon.drop_first());
            lemma_value_is_consumed(colon.drop_first());
            let member = value_outcome(colon.drop_first());
            if member.result is Ok {
                let rest = member.rest;
                let more = members.push((key, member.result->Ok_0));
                assert forall|i: int| 0 <= i < more.len() implies well_formed(
                    (#[trigger] more[i]).1,
                ) by {
                    if i < members.len() {
                        assert(more[i] == members[i]);
                    }
                }
                if rest.len() > 0 && rest[0] == ',' {
                    lemma_parsed_members_are_well_formed(rest.drop_first(), more);
                }
            }
        }
    }
}

} // verus!
