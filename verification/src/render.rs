//! The text of a value, and the law that reading it gives the value back.
//!
//! [`render`] writes a value as the parser reads it: strings in double
//! quotes with a backslash before each `"` and each backslash, numbers as
//! their literals, items and members parted by commas, and no whitespace.
//! It is a specification only. [`lemma_render_round_trip`] states that the
//! parser reads every such text back to the value it was written from, and
//! [`lemma_parse_round_trip`] that this holds of every value that the parser
//! returns.

use crate::grammar::{
    done, is_number_char, items_outcome, lemma_parsed_is_well_formed, members_outcome,
    number_run, value_outcome, well_formed,
};
use crate::parser::ValueModel;
use crate::utils::{literal_rest, literal_text};
use vstd::prelude::*;

verus! {

/// `text` with a backslash before each `"` and each backslash.
pub open spec fn escaped(text: Seq<char>) -> Seq<char>
    decreases text.len(),
{
    if text.len() == 0 {
        Seq::empty()
    } else if text[0] == '"' || text[0] == '\\' {
        seq!['\\', text[0]] + escaped(text.drop_first())
    } else {
        seq![text[0]] + escaped(text.drop_first())
    }
}

/// The string literal that denotes `text`.
pub open spec fn quoted(text: Seq<char>) -> Seq<char> {
    seq!['"'] + escaped(text) + seq!['"']
}

/// The text of `value`.
pub open spec fn render(value: ValueModel) -> Seq<char>
    decreases value, 0int,
{
    match value {
        ValueModel::String(text) => quoted(text),
        ValueModel::Number(literal) => literal,
        ValueModel::Null => seq!['n', 'u', 'l', 'l'],
        ValueModel::Boolean(b) => if b {
            seq!['t', 'r', 'u', 'e']
        } else {
            seq!['f', 'a', 'l', 's', 'e']
        },
        ValueModel::Object(members) => seq!['{'] + render_members(members, 0) + seq!['}'],
        ValueModel::Array(items) => seq!['['] + render_items(items, 0) + seq![']'],
    }
}

/// The texts of the items of `items` from `from` on, parted by commas.
pub open spec fn render_items(items: Seq<ValueModel>, from: int) -> Seq<char>
    decreases items, items.len() - from,
{
    if 0 <= from < items.len() {
        if from + 1 < items.len() {
            render(items[from]) + seq![','] + render_items(items, from + 1)
        } else {
            render(items[from])
        }
    } else {
        Seq::empty()
    }
}

/// The texts of the members of `members` from `from` on, parted by commas:
/// of each its key as a string literal, a colon and the text of its value.
pub open spec fn render_members(members: Seq<(Seq<char>, ValueModel)>, from: int) -> Seq<char>
    decreases members, members.len() - from,
{
    if 0 <= from < members.len() {
        let member = quoted(members[from].0) + seq![':'] + render(members[from].1);
        if from + 1 < members.len() {
            member + seq![','] + render_members(members, from + 1)
        } else {
            member
        }
    } else {
        Seq::empty()
    }
}

/// The body of a string literal that denotes `text` is read back as `text`,
/// and what stands behind its closing quote is left.
pub proof fn lemma_literal_round_trip(text: Seq<char>, rest: Seq<char>)
    ensures
        literal_text(escaped(text) + seq!['"'] + rest, false) == text,
        literal_rest(escaped(text) + seq!['"'] + rest, false) == rest,
    decreases text.len(),
{
    let body = escaped(text) + seq!['"'] + rest;
    if text.len() == 0 {
        assert(body[0] == '"');
        assert(body.drop_first() == rest);
    } else {
        let c = text[0];
        let tail = escaped(text.drop_first()) + seq!['"'] + rest;
        lemma_literal_round_trip(text.drop_first(), rest);
        assert(text == seq![c] + text.drop_first());
        if c == '"' || c == '\\' {
            let second = body.drop_first();
            assert(body[0] == '\\');
            assert(second == seq![c] + tail);
            assert(second[0] == c);
            assert(second.drop_first() == tail);
            assert(literal_text(second, true) == seq![c] + literal_text(tail, false));
            assert(literal_rest(second, true) == literal_rest(tail, false));
        } else {
            assert(body[0] == c);
            assert(body.drop_first() == tail);
        }
    }
}

/// Whether a number token that stands before `rest` ends there: `rest` is
/// empty or starts with a character that no number token holds.
pub open spec fn ends_number(rest: Seq<char>) -> bool {
    rest.len() == 0 || !is_number_char(rest[0])
}

/// Number characters before a text at which a number token ends are the
/// whole run of number characters.
pub proof fn lemma_number_run_of_token(tail: Seq<char>, rest: Seq<char>)
    requires
        forall|i: int| 0 <= i < tail.len() ==> is_number_char(#[trigger] tail[i]),
        ends_number(rest),
    ensures
        number_run(tail + rest) == tail.len(),
    decreases tail.len(),
{
    if tail.len() == 0 {
        assert(tail + rest == rest);
    } else {
        assert((tail + rest)[0] == tail[0]);
        assert((tail + rest).drop_first() == tail.drop_first() + rest);
        assert forall|i: int| 0 <= i < tail.drop_first().len() implies is_number_char(
            #[trigger] tail.drop_first()[i],
        ) by {
            assert(tail.drop_first()[i] == tail[i + 1]);
        }
        lemma_number_run_of_token(tail.drop_first(), rest);
    }
}

/// The text of a value is not empty, and it starts with a character with
/// which a value starts and no container ends.
pub proof fn lemma_render_starts_value(value: ValueModel)
    requires
        well_formed(value),
    ensures
        render(value).len() > 0,
        render(value)[0] != ']',
        render(value)[0] != '}',
        render(value)[0] != ',',
{
}

/// The parser reads the text of a value back to the value and leaves what
/// stands behind the text. Behind a number, that has to be the end or a
/// character at which a number token ends.
pub proof fn lemma_render_round_trip(value: ValueModel, rest: Seq<char>)
    requires
        well_formed(value),
        value is Number ==> ends_number(rest),
    ensures
        value_outcome(render(value) + rest) == done(value, rest),
    decreases value, 0int,
{
    let s = render(value) + rest;
    let t = s.drop_first();
    lemma_render_starts_value(value);
    assert(s[0] == render(value)[0]);
    match value {
        ValueModel::String(text) => {
            assert(t == escaped(text) + seq!['"'] + rest);
            lemma_literal_round_trip(text, rest);
        },
        ValueModel::Number(literal) => {
            let tail = literal.drop_first();
            assert(t == tail + rest);
            assert forall|i: int| 0 <= i < tail.len() implies is_number_char(#[trigger] tail[i]) by {
                assert(tail[i] == literal[i + 1]);
            }
            lemma_number_run_of_token(tail, rest);
            assert(t.take(tail.len() as int) == tail);
            assert(t.skip(tail.len() as int) == rest);
            assert(seq![literal[0]] + tail == literal);
        },
        ValueModel::Null => {
            assert(t == seq!['u', 'l', 'l'] + rest);
            assert(t.take(3) == seq!['u', 'l', 'l']);
            assert(t.skip(3) == rest);
        },
        ValueModel::Boolean(b) => {
            if b {
                assert(t == seq!['r', 'u', 'e'] + rest);
                assert(t.take(3) == seq!['r', 'u', 'e']);
                assert(t.skip(3) == rest);
            } else {
                assert(t == seq!['a', 'l', 's', 'e'] + rest);
                assert(t.take(4) == seq!['a', 'l', 's', 'e']);
                assert(t.skip(4) == rest);
            }
        },
        ValueModel::Object(members) => {
            assert(t == render_members(members, 0) + seq!['}'] + rest);
            assert(members.take(0) == Seq::<(Seq<char>, ValueModel)>::empty());
            lemma_members_round_trip(members, 0, rest);
        },
        ValueModel::Array(items) => {
            assert(t == render_items(items, 0) + seq![']'] + rest);
            assert(items.take(0) == Seq::<ValueModel>::empty());
            lemma_items_round_trip(items, 0, rest);
        },
    }
}

/// The parser reads the texts of the items of an array from `from` on, the
/// items before them read already, to the whole array.
pub proof fn lemma_items_round_trip(items: Seq<ValueModel>, from: int, rest: Seq<char>)
    requires
        forall|i: int| 0 <= i < items.len() ==> well_formed(#[trigger] items[i]),
        0 <= from <= items.len(),
    ensures
        items_outcome(render_items(items, from) + seq![']'] + rest, items.take(from)) == done(
            ValueModel::Array(items),
            rest,
        ),
    decreases items, items.len() - from,
{
    let s = render_items(items, from) + seq![']'] + rest;
    if from == items.len() {
        assert(s == seq![']'] + rest);
        assert(s[0] == ']');
        assert(s.drop_first() == rest);
        assert(items.take(from) == items);
    } else {
        let value = items[from];
        let last = from + 1 == items.len();
        let tail = if last {
            seq![']'] + rest
        } else {
            seq![','] + (render_items(items, from + 1) + seq![']'] + rest)
        };
        assert(s == render(value) + tail);
        assert(well_formed(items[from]));
        lemma_render_starts_value(value);
        assert(s[0] == render(value)[0]);
        lemma_render_round_trip(value, tail);
        assert(items.take(from).push(value) == items.take(from + 1));
        if last {
            assert(tail.drop_first() == rest);
            assert(items.take(from + 1) == items);
        } else {
            assert(tail.drop_first() == render_items(items, from + 1) + seq![']'] + rest);
            lemma_items_round_trip(items, from + 1, rest);
        }
    }
}

/// The parser reads the texts of the members of an object from `from` on,
/// the members before them read already, to the whole object.
pub proof fn lemma_members_round_trip(
    members: Seq<(Seq<char>, ValueModel)>,
    from: int,
    rest: Seq<char>,
)
    requires
        forall|i: int| 0 <= i < members.len() ==> well_formed((#[trigger] members[i]).1),
        0 <= from <= members.len(),
    ensures
        members_outcome(render_members(members, from) + seq!['}'] + rest, members.take(from))
            == done(ValueModel::Object(members), rest),
    decreases members, members.len() - from,
{
    let s = render_members(members, from) + seq!['}'] + rest;
    if from == members.len() {
        assert(s == seq!['}'] + rest);
        assert(s[0] == '}');
        assert(s.drop_first() == rest);
        assert(members.take(from) == members);
    } else {
        let key = members[from].0;
        let value = members[from].1;
        let last = from + 1 == members.len();
        let tail = if last {
            seq!['}'] + rest
        } else {
            seq![','] + (render_members(members, from + 1) + seq!['}'] + rest)
        };
        let colon = seq![':'] + (render(value) + tail);
        assert(s == quoted(key) + colon);
        assert(s[0] == '"');
        assert(s.drop_first() == escaped(key) + seq!['"'] + colon);
        lemma_literal_round_trip(key, colon);
        assert(colon.drop_first() == render(value) + tail);
        assert(well_formed(members[from].1));
        lemma_render_starts_value(value);
        lemma_render_round_trip(value, tail);
        assert(members.take(from).push((key, value)) == members.take(from + 1));
        if last {
            assert(tail.drop_first() == rest);
            assert(members.take(from + 1) == members);
        } else {
            assert(tail.drop_first() == render_members(members, from + 1) + seq!['}'] + rest);
            lemma_members_round_trip(members, from + 1, rest);
        }
    }
}

/// Round trip: where the parser reads a value off a text, it reads the same
/// value off the text of that value, and leaves nothing.
pub proof fn lemma_parse_round_trip(text: Seq<char>)
    requires
        value_outcome(text).result is Ok,
    ensures
        value_outcome(render(value_outcome(text).result->Ok_0)) == done(
            value_outcome(text).result->Ok_0,
            Seq::empty(),
        ),
{
    let value = value_outcome(text).result->Ok_0;
    lemma_parsed_is_well_formed(text);
    lemma_render_round_trip(value, Seq::empty());
    assert(render(value) + Seq::<char>::empty() == render(value));
}

} // verus!
