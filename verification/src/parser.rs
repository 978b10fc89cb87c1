//! The value tree and the parser that builds it from a character stream.

use crate::grammar::{
    after_item, after_member, boolean_outcome, done, failed, is_number_char, items_outcome,
    lemma_parsed_is_well_formed, lemma_value_is_consumed, members_outcome, null_outcome, number_outcome, number_run, taken,
    value_outcome, well_formed, Outcome,
};
use crate::number::{digit, number_literal};
use crate::stream::{char_stream, is_tail_of, next_char, peek_char, remaining};
use crate::utils::{
    consume_string, json_stringify_strip, lemma_literal_rest_is_tail, push_char, strip,
};
use std::iter::Peekable;
use std::str::Chars;
use vstd::prelude::*;

verus! {

/// Why a text is not a JSON value.
#[derive(Debug, Clone, Copy, PartialEq, Eq, Structural)]
pub enum ParseError {
    /// Where a value has to start there is a character that starts none, or
    /// the end of the stream.
    UnsupportedValue,
    /// In an object, where a key or the closing brace has to stand, there is
    /// neither.
    ExpectedKey,
    /// In an object, no colon follows the key.
    ExpectedColon,
    /// In an object, neither a comma nor the closing brace follows a value.
    UnexpectedObjectToken,
    /// In an array, neither a comma nor the closing bracket follows a value.
    UnexpectedArrayToken,
    /// The characters of a number token are not a number literal.
    InvalidNumber,
    /// After `t` or `f` the rest of `true` or `false` does not follow.
    InvalidBooleanLiteral,
    /// After `n` the rest of `null` does not follow.
    InvalidNullLiteral,
}

/// A JSON value.
#[derive(Debug, PartialEq)]
pub enum JSONValue {
    /// A string, its escapes resolved.
    String(String),
    /// A number, held as the literal that denotes it.
    Number(String),
    Null,
    Boolean(bool),
    /// The members of an object in the order of the text. A key may occur
    /// more than once.
    Object(Vec<(String, JSONValue)>),
    Array(Vec<JSONValue>),
}

/// The mathematical value of a [`JSONValue`].
pub enum ValueModel {
    String(Seq<char>),
    Number(Seq<char>),
    Null,
    Boolean(bool),
    Object(Seq<(Seq<char>, ValueModel)>),
    Array(Seq<ValueModel>),
}

/// The mathematical value of a member of an object.
pub open spec fn member_view(member: (String, JSONValue)) -> (Seq<char>, ValueModel)
    decreases member,
{
    (member.0@, member.1.view())
}

impl View for JSONValue {
    type V = ValueModel;

    open spec fn view(&self) -> ValueModel
        decreases self,
    {
        match self {
            JSONValue::String(text) => ValueModel::String(text@),
            JSONValue::Number(literal) => ValueModel::Number(literal@),
            JSONValue::Null => ValueModel::Null,
            JSONValue::Boolean(b) => ValueModel::Boolean(*b),
            JSONValue::Object(members) => ValueModel::Object(
                Seq::new(
                    members.len() as nat,
                    |i: int|
                        if 0 <= i < members.len() {
                            member_view(members[i])
                        } else {
                            (Seq::<char>::empty(), ValueModel::Null)
                        },
                ),
            ),
            JSONValue::Array(items) => ValueModel::Array(
                Seq::new(
                    items.len() as nat,
                    |i: int|
                        if 0 <= i < items.len() {
                            items[i].view()
                        } else {
                            ValueModel::Null
                        },
                ),
            ),
        }
    }
}

/// The mathematical values of the items of an array.
pub open spec fn items_view(items: Seq<JSONValue>) -> Seq<ValueModel> {
    Seq::new(items.len(), |i: int| items[i]@)
}

/// The mathematical values of the members of an object.
pub open spec fn members_view(members: Seq<(String, JSONValue)>) -> Seq<(Seq<char>, ValueModel)> {
    Seq::new(members.len(), |i: int| (members[i].0@, members[i].1@))
}

/// The value of an array is the array of the values of its items.
pub proof fn lemma_array_view(items: Vec<JSONValue>)
    ensures
        JSONValue::Array(items)@ == ValueModel::Array(items_view(items@)),
{
    assert(JSONValue::Array(items)@->Array_0 =~= items_view(items@));
}

/// The value of a member is its key and the value of what stands under it.
pub proof fn lemma_member_view(member: (String, JSONValue))
    ensures
        member_view(member) == (member.0@, member.1@),
{
    reveal_with_fuel(member_view, 2);
}

/// The value of an object is the object of its keys and of the values of its
/// members.
pub proof fn lemma_object_view(members: Vec<(String, JSONValue)>)
    ensures
        JSONValue::Object(members)@ == ValueModel::Object(members_view(members@)),
{
    let viewed = JSONValue::Object(members)@->Object_0;
    assert forall|i: int| 0 <= i < members.len() implies viewed[i] == members_view(members@)[i] by {
        lemma_member_view(members[i]);
    }
    assert(viewed =~= members_view(members@));
}

/// The mathematical value of what a parser returns.
pub open spec fn result_view(r: Result<JSONValue, ParseError>) -> Result<ValueModel, ParseError> {
    match r {
        Ok(value) => Ok(value@),
        Err(error) => Err(error),
    }
}

impl Clone for JSONValue {
    /// A copy with the same mathematical value.
    fn clone(&self) -> (copy: Self)
        ensures
            copy@ == self@,
        decreases self,
    {
        match self {
            JSONValue::String(text) => JSONValue::String(text.clone()),
            JSONValue::Number(literal) => JSONValue::Number(literal.clone()),
            JSONValue::Null => JSONValue::Null,
            JSONValue::Boolean(b) => JSONValue::Boolean(*b),
            JSONValue::Object(members) => {
                let mut copies: Vec<(String, JSONValue)> = Vec::new();
                let mut i: usize = 0;
                while i < members.len()
                    invariant
                        *self == JSONValue::Object(*members),
                        i <= members.len(),
                        copies.len() == i,
                        forall|j: int|
                            0 <= j < i ==> copies[j].0@ == members[j].0@ && copies[j].1@
                                == members[j].1@,
                    decreases members.len() - i,
                {
                    proof {
                        assert(self->Object_0 == *members);
                    }
                    let key = members[i].0.clone();
                    let value = members[i].1.clone();
                    copies.push((key, value));
                    i = i + 1;
                }
                proof {
                    lemma_object_view(*members);
                    lemma_object_view(copies);
                    assert(members_view(copies@) =~= members_view(members@));
                }
                JSONValue::Object(copies)
            },
            JSONValue::Array(items) => {
                let mut copies: Vec<JSONValue> = Vec::new();
                let mut i: usize = 0;
                while i < items.len()
                    invariant
                        *self == JSONValue::Array(*items),
                        i <= items.len(),
                        copies.len() == i,
                        forall|j: int| 0 <= j < i ==> copies[j]@ == items[j]@,
                    decreases items.len() - i,
                {
                    proof {
                        assert(self->Array_0 == *items);
                    }
                    let item = items[i].clone();
                    copies.push(item);
                    i = i + 1;
                }
                proof {
                    lemma_array_view(*items);
                    lemma_array_view(copies);
                    assert(items_view(copies@) =~= items_view(items@));
                }
                JSONValue::Array(copies)
            },
        }
    }
}

/// Takes as many characters off the stream as `word` has, or as many as
/// there are, and says whether they are those of `word`.
fn take_word(stream: &mut Peekable<Chars>, word: &[char]) -> (matched: bool)
    ensures
        remaining(*final(stream)) == remaining(*old(stream)).skip(taken(remaining(*old(stream)), word@)),
        matched == (remaining(*old(stream)).take(taken(remaining(*old(stream)), word@)) == word@),
{
    let mut matched = true;
    let mut i: usize = 0;
    let ghost ahead = remaining(*stream);
    while i < word.len()
        invariant_except_break
            i <= word.len(),
            i <= ahead.len(),
            remaining(*stream) == ahead.skip(i as int),
            matched == (forall|j: int| 0 <= j < i ==> ahead[j] == word@[j]),
        ensures
            i == taken(ahead, word@),
            remaining(*stream) == ahead.skip(i as int),
            matched == (i == word.len() && forall|j: int| 0 <= j < i ==> ahead[j] == word@[j]),
        decreases word.len() - i,
    {
        match next_char(stream) {
            None => {
                matched = false;
                break ;
            },
            Some(c) => {
                assert(ahead.skip(i as int).drop_first() == ahead.skip(i + 1));
                if c != word[i] {
                    matched = false;
                }
                i = i + 1;
            },
        }
    }
    proof {
        let front = ahead.take(i as int);
        if matched {
            assert(front =~= word@);
        } else if i == word.len() {
            let j = choose|j: int| 0 <= j < i && ahead[j] != word@[j];
            assert(front[j] != word@[j]);
        } else {
            assert(front.len() != word@.len());
        }
    }
    matched
}

/// Reads the rest of `null`, the `n` already taken.
fn parse_null(stream: &mut Peekable<Chars>) -> (r: Result<JSONValue, ParseError>)
    ensures
        result_view(r) == null_outcome(remaining(*old(stream))).result,
        remaining(*final(stream)) == null_outcome(remaining(*old(stream))).rest,
{
    let word: [char; 3] = ['u', 'l', 'l'];
    assert(word@ == seq!['u', 'l', 'l']);
    if take_word(stream, word.as_slice()) {
        Ok(JSONValue::Null)
    } else {
        Err(ParseError::InvalidNullLiteral)
    }
}

/// Reads the rest of `true`, the `t` already taken, where `initial` is set,
/// and else the rest of `false`, the `f` already taken.
fn parse_boolean(stream: &mut Peekable<Chars>, initial: bool) -> (r: Result<
    JSONValue,
    ParseError,
>)
    ensures
        result_view(r) == boolean_outcome(remaining(*old(stream)), initial).result,
        remaining(*final(stream)) == boolean_outcome(remaining(*old(stream)), initial).rest,
{
    if initial {
        let word: [char; 3] = ['r', 'u', 'e'];
        assert(word@ == seq!['r', 'u', 'e']);
        if take_word(stream, word.as_slice()) {
            Ok(JSONValue::Boolean(true))
        } else {
            Err(ParseError::InvalidBooleanLiteral)
        }
    } else {
        let word: [char; 4] = ['a', 'l', 's', 'e'];
        assert(word@ == seq!['a', 'l', 's', 'e']);
        if take_word(stream, word.as_slice()) {
            Ok(JSONValue::Boolean(false))
        } else {
            Err(ParseError::InvalidBooleanLiteral)
        }
    }
}

/// Whether `c` may stand in a number token behind its first character.
fn number_char(c: char) -> (b: bool)
    ensures
        b == is_number_char(c),
{
    digit(c) || c == '.' || c == 'e' || c == 'E' || c == '-' || c == '+'
}

/// Reads the rest of a number token, its first character, `starting_digit`,
/// already taken, and decides whether the token is a number.
fn parse_number(stream: &mut Peekable<Chars>, starting_digit: char) -> (r: Result<
    JSONValue,
    ParseError,
>)
    ensures
        result_view(r) == number_outcome(starting_digit, remaining(*old(stream))).result,
        remaining(*final(stream)) == number_outcome(starting_digit, remaining(*old(stream))).rest,
{
    let mut num_str = String::new();
    push_char(&mut num_str, starting_digit);
    let mut token: Vec<char> = Vec::new();
    token.push(starting_digit);
    let ghost ahead = remaining(*stream);
    let ghost mut n: int = 0;
    assert(ahead.take(0) == Seq::<char>::empty());
    assert(ahead.skip(0) == ahead);
    loop
        invariant_except_break
            0 <= n <= ahead.len(),
            remaining(*stream) == ahead.skip(n),
            token@ == seq![starting_digit] + ahead.take(n),
            num_str@ == token@,
            number_run(ahead) == n + number_run(ahead.skip(n)),
        ensures
            remaining(*stream) == ahead.skip(number_run(ahead) as int),
            token@ == seq![starting_digit] + ahead.take(number_run(ahead) as int),
            num_str@ == token@,
        decreases ahead.len() - n,
    {
        match peek_char(stream) {
            Some(next) if number_char(next) => {
                let _ = next_char(stream);
                push_char(&mut num_str, next);
                token.push(next);
                proof {
                    assert(ahead.skip(n).drop_first() == ahead.skip(n + 1));
                    assert(ahead.take(n + 1) == ahead.take(n).push(next));
                    assert(seq![starting_digit] + ahead.take(n).push(next) == (seq![starting_digit]
                        + ahead.take(n)).push(next));
                    n = n + 1;
                }
            },
            _ => {
                break ;
            },
        }
    }
    if number_literal(token.as_slice()) {
        Ok(JSONValue::Number(num_str))
    } else {
        Err(ParseError::InvalidNumber)
    }
}

/// A container whose closing token is not read yet.
enum Open {
    /// An array, with the items read so far.
    Array(Vec<JSONValue>),
    /// An object, with the members read so far and the key of the member
    /// whose value comes next.
    Object(Vec<(String, JSONValue)>, String),
}

/// Where the parser stands after it has read a token or two.
enum Step {
    /// A value is complete.
    Value(JSONValue),
    /// A container is open, and a value of it comes next.
    Open(Open),
    /// The text is no value.
    Failed(ParseError),
}

/// What becomes of the container `open` once the value that it waits for
/// has the outcome `inner`.
spec fn enter(open: Open, inner: Outcome) -> Outcome {
    match inner.result {
        Err(_) => inner,
        Ok(value) => match open {
            Open::Array(items) => after_item(inner.rest, items_view(items@).push(value)),
            Open::Object(members, key) => after_member(
                inner.rest,
                members_view(members@).push((key@, value)),
            ),
        },
    }
}

/// What becomes of the containers `stack`, the innermost last, once the
/// value that the innermost waits for has the outcome `inner`.
spec fn resume(stack: Seq<Open>, inner: Outcome) -> Outcome
    decreases stack.len(),
{
    if stack.len() == 0 {
        inner
    } else {
        resume(stack.drop_last(), enter(stack.last(), inner))
    }
}

/// The outcome that the parser is bound for when it stands at `step` with
/// `rest` ahead.
spec fn step_outcome(step: Step, rest: Seq<char>) -> Outcome {
    match step {
        Step::Value(value) => done(value@, rest),
        Step::Open(open) => enter(open, value_outcome(rest)),
        Step::Failed(error) => failed(error, rest),
    }
}

/// An error passes through all open containers unchanged.
proof fn lemma_resume_failed(stack: Seq<Open>, inner: Outcome)
    requires
        inner.result is Err,
    ensures
        resume(stack, inner) == inner,
    decreases stack.len(),
{
    if stack.len() > 0 {
        lemma_resume_failed(stack.drop_last(), inner);
    }
}

/// Reads the start of an array behind its opening bracket or behind a comma,
/// `items` being read already: the closing bracket, or nothing where an item
/// comes next.
fn begin_items(stream: &mut Peekable<Chars>, items: Vec<JSONValue>) -> (step: Step)
    ensures
        step_outcome(step, remaining(*final(stream))) == items_outcome(
            remaining(*old(stream)),
            items_view(items@),
        ),
        remaining(*final(stream)).len() <= remaining(*old(stream)).len(),
{
    proof {
        lemma_value_is_consumed(remaining(*stream));
    }
    if peek_char(stream) == Some(']') {
        let _ = next_char(stream);
        proof {
            lemma_array_view(items);
        }
        Step::Value(JSONValue::Array(items))
    } else {
        Step::Open(Open::Array(items))
    }
}

/// Reads the start of an object behind its opening brace or behind a comma,
/// `members` being read already: the closing brace, or the key and the colon
/// of the member that comes next.
fn begin_members(stream: &mut Peekable<Chars>, members: Vec<(String, JSONValue)>) -> (step: Step)
    ensures
        step_outcome(step, remaining(*final(stream))) == members_outcome(
            remaining(*old(stream)),
            members_view(members@),
        ),
        remaining(*final(stream)).len() <= remaining(*old(stream)).len(),
{
    let ghost ahead = remaining(*stream);
    match next_char(stream) {
        Some('}') => {
            proof {
                lemma_object_view(members);
            }
            Step::Value(JSONValue::Object(members))
        },
        Some('"') => {
            let key = consume_string(stream);
            proof {
                lemma_literal_rest_is_tail(ahead.drop_first(), false);
            }
            match next_char(stream) {
                Some(':') => {
                    proof {
                        lemma_value_is_consumed(remaining(*stream));
                    }
                    Step::Open(Open::Object(members, key))
                },
                _ => Step::Failed(ParseError::ExpectedColon),
            }
        },
        _ => Step::Failed(ParseError::ExpectedKey),
    }
}

/// Reads the start of a value: all of it where it is a string, a number or
/// a keyword, and else as far as the first item or member of the container.
fn begin_value(stream: &mut Peekable<Chars>) -> (step: Step)
    ensures
        step_outcome(step, remaining(*final(stream))) == value_outcome(remaining(*old(stream))),
        remaining(*final(stream)).len() <= remaining(*old(stream)).len(),
        !(step is Failed) ==> remaining(*final(stream)).len() < remaining(*old(stream)).len(),
{
    proof {
        lemma_value_is_consumed(remaining(*stream));
    }
    match next_char(stream) {
        Some('{') => {
            let members: Vec<(String, JSONValue)> = Vec::new();
            assert(members_view(members@) == Seq::<(Seq<char>, ValueModel)>::empty());
            begin_members(stream, members)
        },
        Some('"') => {
            let s = consume_string(stream);
            Step::Value(JSONValue::String(s))
        },
        Some('[') => {
            let items: Vec<JSONValue> = Vec::new();
            assert(items_view(items@) == Seq::<ValueModel>::empty());
            begin_items(stream, items)
        },
        Some(c) => {
            let r = if digit(c) || c == '-' {
                parse_number(stream, c)
            } else if c == 't' || c == 'f' {
                parse_boolean(stream, c == 't')
            } else if c == 'n' {
                parse_null(stream)
            } else {
                Err(ParseError::UnsupportedValue)
            };
            match r {
                Ok(value) => Step::Value(value),
                Err(error) => Step::Failed(error),
            }
        },
        None => Step::Failed(ParseError::UnsupportedValue),
    }
}

/// Puts the complete `value` into the container `open` that waited for it,
/// and reads what follows it there: a comma and the start of what comes
/// next, or the closing token.
fn attach(stream: &mut Peekable<Chars>, open: Open, value: JSONValue) -> (step: Step)
    ensures
        step_outcome(step, remaining(*final(stream))) == enter(
            open,
            done(value@, remaining(*old(stream))),
        ),
        remaining(*final(stream)).len() <= remaining(*old(stream)).len(),
{
    match open {
        Open::Array(mut items) => {
            proof {
                assert(items_view(items@.push(value)) == items_view(items@).push(value@));
            }
            items.push(value);
            match next_char(stream) {
                Some(',') => begin_items(stream, items),
                Some(']') => {
                    proof {
                        lemma_array_view(items);
                    }
                    Step::Value(JSONValue::Array(items))
                },
                _ => Step::Failed(ParseError::UnexpectedArrayToken),
            }
        },
        Open::Object(mut members, key) => {
            proof {
                assert(members_view(members@.push((key, value))) == members_view(members@).push(
                    (key@, value@),
                ));
            }
            members.push((key, value));
            match next_char(stream) {
                Some(',') => begin_members(stream, members),
                Some('}') => {
                    proof {
                        lemma_object_view(members);
                    }
                    Step::Value(JSONValue::Object(members))
                },
                _ => Step::Failed(ParseError::UnexpectedObjectToken),
            }
        },
    }
}

/// Reads one JSON value off the front of the stream and leaves the stream
/// right behind it. Where the text is not a value, the first error met is
/// returned, and the stream stands behind the last character that was
/// taken.
///
/// The containers that are open at a time are kept in a vector, so the depth
/// to which arrays and objects may nest is bounded by memory alone.
pub fn parse_json(stream: &mut Peekable<Chars>) -> (r: Result<JSONValue, ParseError>)
    ensures
        result_view(r) == value_outcome(remaining(*old(stream))).result,
        remaining(*final(stream)) == value_outcome(remaining(*old(stream))).rest,
        is_tail_of(remaining(*final(stream)), remaining(*old(stream))),
        r matches Ok(value) ==> well_formed(value@),
{
    let ghost text = remaining(*stream);
    proof {
        lemma_value_is_consumed(text);
        lemma_parsed_is_well_formed(text);
    }
    let mut stack: Vec<Open> = Vec::new();
    loop
        invariant
            value_outcome(text) == resume(stack@, value_outcome(remaining(*stream))),
            text == remaining(*old(stream)),
            is_tail_of(value_outcome(text).rest, text),
            value_outcome(text).result matches Ok(value) ==> well_formed(value),
        decreases remaining(*stream).len(),
    {
        let ghost ahead = remaining(*stream);
        let mut step = begin_value(stream);
        loop
            invariant_except_break
                value_outcome(text) == resume(stack@, step_outcome(step, remaining(*stream))),
                text == remaining(*old(stream)),
                is_tail_of(value_outcome(text).rest, text),
                value_outcome(text).result matches Ok(value) ==> well_formed(value),
                remaining(*stream).len() <= ahead.len(),
                !(step is Failed) ==> remaining(*stream).len() < ahead.len(),
            ensures
                value_outcome(text) == resume(stack@, value_outcome(remaining(*stream))),
                remaining(*stream).len() < ahead.len(),
            decreases stack.len(),
        {
            match step {
                Step::Failed(error) => {
                    proof {
                        lemma_resume_failed(stack@, failed(error, remaining(*stream)));
                    }
                    return Err(error);
                },
                Step::Open(open) => {
                    assert(stack@.push(open).drop_last() == stack@);
                    stack.push(open);
                    break ;
                },
                Step::Value(value) => {
                    let ghost below = stack@;
                    match stack.pop() {
                        None => {
                            return Ok(value);
                        },
                        Some(open) => {
                            assert(below.drop_last() == stack@);
                            step = attach(stream, open, value);
                        },
                    }
                },
            }
        }
    }
}

/// The value that the text of a file holds, with the name of the file.
pub struct JSONFile {
    pathname: String,
    json_value: JSONValue,
}

impl View for JSONFile {
    /// The name of the file and the value of its text.
    type V = (Seq<char>, ValueModel);

    closed spec fn view(&self) -> (Seq<char>, ValueModel) {
        (self.pathname@, self.json_value@)
    }
}

impl JSONFile {
    /// Reads the value that `file_content`, the text of the file `path`,
    /// holds: the text is stripped of the whitespace outside its string
    /// literals, and one value is read off its front. What follows the value
    /// is not looked at.
    pub fn new(path: &str, file_content: &str) -> (file: Result<JSONFile, ParseError>)
        ensures
            file is Ok <==> value_outcome(strip(file_content@)).result is Ok,
            file matches Ok(file) ==> file@ == (
                path@,
                value_outcome(strip(file_content@)).result->Ok_0,
            ),
            file matches Err(error) ==> value_outcome(strip(file_content@)).result->Err_0 == error,
    {
        let s = json_stringify_strip(file_content).unwrap();
        let mut stream = char_stream(s.as_str());
        match parse_json(&mut stream) {
            Ok(json_value) => Ok(JSONFile { pathname: path.to_owned(), json_value }),
            Err(error) => Err(error),
        }
    }

    /// The name of the file.
    pub fn pathname(&self) -> (pathname: &String)
        ensures
            pathname@ == self@.0,
    {
        &self.pathname
    }

    /// The value that the file holds.
    pub fn json_value(&self) -> (json_value: &JSONValue)
        ensures
            json_value@ == self@.1,
    {
        &self.json_value
    }
}

} // verus!
