//! The grammar of decimal number literals.
//!
//! A literal is an optional sign, a mantissa with at least one digit before
//! or after an optional point, and an optional exponent: `e` or `E`, an
//! optional sign and at least one digit. This is the grammar of the texts
//! that std's `str::parse` reads as a floating-point number, less the words
//! for infinity and not-a-number, which hold letters that no number token of
//! this library can hold.
//!
//! [`is_number_literal`] states the grammar by the parts of a literal.
//! [`scans_as_number`] states what a single pass from left to right finds,
//! and [`lemma_number_literal_is_scanned`] that the two agree.

use vstd::prelude::*;

verus! {

/// Whether `c` is one of the ten decimal digits.
pub open spec fn is_digit(c: char) -> bool {
    '0' <= c <= '9'
}

/// Whether `c` is a sign, `+` or `-`.
pub open spec fn is_sign(c: char) -> bool {
    c == '+' || c == '-'
}

/// Whether all of `s` are digits.
pub open spec fn all_digits(s: Seq<char>) -> bool {
    forall|i: int| 0 <= i < s.len() ==> is_digit(#[trigger] s[i])
}

/// The parts of which the grammar builds a number literal.
pub struct NumberParts {
    /// The sign: empty, `+` or `-`.
    pub sign: Seq<char>,
    /// The digits before the point.
    pub whole: Seq<char>,
    /// Whether there is a point.
    pub point: bool,
    /// The digits after the point.
    pub fraction: Seq<char>,
    /// Whether there is an exponent.
    pub exponent: bool,
    /// The letter that starts the exponent: `e` or `E`.
    pub marker: char,
    /// The sign of the exponent: empty, `+` or `-`.
    pub exponent_sign: Seq<char>,
    /// The digits of the exponent.
    pub exponent_digits: Seq<char>,
}

/// Whether `s` is a sign or empty.
pub open spec fn is_optional_sign(s: Seq<char>) -> bool {
    s.len() == 0 || (s.len() == 1 && is_sign(s[0]))
}

impl NumberParts {
    /// Whether the parts are as the grammar asks: signs are signs, digits
    /// are digits, the mantissa has a digit, digits after the point come with
    /// a point, and an exponent has a digit.
    pub open spec fn valid(self) -> bool {
        &&& is_optional_sign(self.sign)
        &&& all_digits(self.whole)
        &&& all_digits(self.fraction)
        &&& self.whole.len() + self.fraction.len() >= 1
        &&& !self.point ==> self.fraction.len() == 0
        &&& self.exponent ==> {
            &&& self.marker == 'e' || self.marker == 'E'
            &&& is_optional_sign(self.exponent_sign)
            &&& all_digits(self.exponent_digits)
            &&& self.exponent_digits.len() >= 1
        }
    }

    /// The mantissa: the digits before the point, and the point with the
    /// digits after it where there is one.
    pub open spec fn mantissa(self) -> Seq<char> {
        if self.point {
            self.whole + seq!['.'] + self.fraction
        } else {
            self.whole
        }
    }

    /// The exponent with its marker, or nothing where there is none.
    pub open spec fn exponent_text(self) -> Seq<char> {
        if self.exponent {
            seq![self.marker] + self.exponent_sign + self.exponent_digits
        } else {
            Seq::empty()
        }
    }

    /// The literal that the parts make up.
    pub open spec fn text(self) -> Seq<char> {
        self.sign + self.mantissa() + self.exponent_text()
    }
}

/// Whether `s` is a number literal: the text of valid parts.
pub open spec fn is_number_literal(s: Seq<char>) -> bool {
    exists|parts: NumberParts| #[trigger] parts.valid() && parts.text() == s
}

/// The end of the longest run of digits of `s` that starts at `from`.
pub open spec fn digits_end(s: Seq<char>, from: int) -> int
    decreases s.len() - from,
{
    if 0 <= from < s.len() && is_digit(s[from]) {
        digits_end(s, from + 1)
    } else {
        from
    }
}

/// Where the mantissa of `s` starts: after the sign, if `s` has one.
pub open spec fn mantissa_start(s: Seq<char>) -> int {
    if s.len() > 0 && is_sign(s[0]) {
        1
    } else {
        0
    }
}

/// Whether a point follows the digits before the point.
pub open spec fn has_point(s: Seq<char>) -> bool {
    let p = digits_end(s, mantissa_start(s));
    p < s.len() && s[p] == '.'
}

/// Where the mantissa of `s` ends.
pub open spec fn mantissa_end(s: Seq<char>) -> int {
    let p = digits_end(s, mantissa_start(s));
    if has_point(s) {
        digits_end(s, p + 1)
    } else {
        p
    }
}

/// How many digits the mantissa of `s` has, before and after the point.
pub open spec fn mantissa_digits(s: Seq<char>) -> int {
    if has_point(s) {
        mantissa_end(s) - mantissa_start(s) - 1
    } else {
        mantissa_end(s) - mantissa_start(s)
    }
}

/// Whether `s` from `at` on is an exponent: `e` or `E`, an optional sign, and
/// one digit or more up to the end of `s`.
pub open spec fn is_exponent(s: Seq<char>, at: int) -> bool {
    &&& 0 <= at < s.len()
    &&& (s[at] == 'e' || s[at] == 'E')
    &&& {
        let d = if at + 1 < s.len() && is_sign(s[at + 1]) {
            at + 2
        } else {
            at + 1
        };
        d < digits_end(s, d) == s.len()
    }
}

/// Whether a pass over `s` from left to right finds a number literal: a
/// sign or none, digits, a point with digits or none, at least one digit so
/// far, and then the end or an exponent up to the end.
pub open spec fn scans_as_number(s: Seq<char>) -> bool {
    &&& mantissa_digits(s) >= 1
    &&& (mantissa_end(s) == s.len() || is_exponent(s, mantissa_end(s)))
}

/// A run of digits ends where the digits end: from `from` on all are
/// digits up to the end that `digits_end` gives, and no digit stands there.
pub proof fn lemma_digits_end(s: Seq<char>, from: int)
    requires
        0 <= from <= s.len(),
    ensures
        from <= digits_end(s, from) <= s.len(),
        forall|i: int| from <= i < digits_end(s, from) ==> is_digit(#[trigger] s[i]),
        digits_end(s, from) < s.len() ==> !is_digit(s[digits_end(s, from)]),
    decreases s.len() - from,
{
    if from < s.len() && is_digit(s[from]) {
        lemma_digits_end(s, from + 1);
    }
}

/// Digits from `from` up to `end`, with no digit at `end`, are the run of
/// digits that starts at `from`.
pub proof fn lemma_digits_end_is(s: Seq<char>, from: int, end: int)
    requires
        0 <= from <= end <= s.len(),
        forall|i: int| from <= i < end ==> is_digit(#[trigger] s[i]),
        end < s.len() ==> !is_digit(s[end]),
    ensures
        digits_end(s, from) == end,
    decreases end - from,
{
    if from < end {
        lemma_digits_end_is(s, from + 1, end);
    }
}

/// The parts of a text that scans as a number.
pub open spec fn parts_of(s: Seq<char>) -> NumberParts {
    let start = mantissa_start(s);
    let point = digits_end(s, start);
    let end = mantissa_end(s);
    let first = if end + 1 < s.len() && is_sign(s[end + 1]) {
        end + 2
    } else {
        end + 1
    };
    NumberParts {
        sign: s.subrange(0, start),
        whole: s.subrange(start, point),
        point: has_point(s),
        fraction: if has_point(s) {
            s.subrange(point + 1, end)
        } else {
            Seq::empty()
        },
        exponent: end < s.len(),
        marker: if end < s.len() {
            s[end]
        } else {
            'e'
        },
        exponent_sign: if end < s.len() {
            s.subrange(end + 1, first)
        } else {
            Seq::empty()
        },
        exponent_digits: if end < s.len() {
            s.subrange(first, s.len() as int)
        } else {
            Seq::empty()
        },
    }
}

/// What scans as a number is made up of valid parts.
pub proof fn lemma_scanned_has_parts(s: Seq<char>)
    requires
        scans_as_number(s),
    ensures
        parts_of(s).valid(),
        parts_of(s).text() == s,
{
    let parts = parts_of(s);
    let start = mantissa_start(s);
    let point = digits_end(s, start);
    lemma_digits_end(s, start);
    if has_point(s) {
        lemma_digits_end(s, point + 1);
    }
    let end = mantissa_end(s);
    assert(parts.sign + parts.mantissa() =~= s.subrange(0, end));
    if end < s.len() {
        let first = if end + 1 < s.len() && is_sign(s[end + 1]) {
            end + 2
        } else {
            end + 1
        };
        lemma_digits_end(s, first);
        assert(parts.exponent_text() =~= s.subrange(end, s.len() as int));
    }
    assert(parts.text() =~= s);
}

/// What valid parts make up scans as a number.
pub proof fn lemma_parts_scan_as_number(parts: NumberParts)
    requires
        parts.valid(),
    ensures
        scans_as_number(parts.text()),
{
    let s = parts.text();
    let head = parts.sign + parts.mantissa();
    let start = parts.sign.len() as int;
    let point = start + parts.whole.len();
    let end = head.len() as int;
    assert(s == head + parts.exponent_text());
    assert(s.len() > 0);
    // The sign.
    if parts.sign.len() == 0 {
        assert(s[0] == if parts.whole.len() > 0 {
            parts.whole[0]
        } else {
            '.'
        });
    } else {
        assert(s[0] == parts.sign[0]);
    }
    assert(mantissa_start(s) == start);
    // The digits before the point.
    assert forall|i: int| start <= i < point implies is_digit(#[trigger] s[i]) by {
        assert(s[i] == parts.whole[i - start]);
    }
    if point < s.len() {
        if parts.point {
            assert(s[point] == '.');
        } else {
            assert(s[point] == parts.marker);
        }
    }
    lemma_digits_end_is(s, start, point);
    assert(has_point(s) == parts.point);
    // The digits after the point.
    if parts.point {
        assert forall|i: int| point + 1 <= i < end implies is_digit(#[trigger] s[i]) by {
            assert(s[i] == parts.fraction[i - point - 1]);
        }
        if end < s.len() {
            assert(s[end] == parts.marker);
        }
        lemma_digits_end_is(s, point + 1, end);
    }
    assert(mantissa_end(s) == end);
    // The exponent.
    if parts.exponent {
        let first = end + 1 + parts.exponent_sign.len();
        assert(s[end] == parts.marker);
        if parts.exponent_sign.len() > 0 {
            assert(s[end + 1] == parts.exponent_sign[0]);
        } else {
            assert(s[end + 1] == parts.exponent_digits[0]);
        }
        assert forall|i: int| first <= i < s.len() implies is_digit(#[trigger] s[i]) by {
            assert(s[i] == parts.exponent_digits[i - first]);
        }
        lemma_digits_end_is(s, first, s.len() as int);
    } else {
        assert(s == head);
    }
}

/// The number literals are the texts that scan as a number.
pub proof fn lemma_number_literal_is_scanned(s: Seq<char>)
    ensures
        is_number_literal(s) <==> scans_as_number(s),
{
    if scans_as_number(s) {
        lemma_scanned_has_parts(s);
        assert(parts_of(s).valid() && parts_of(s).text() == s);
    }
    if is_number_literal(s) {
        let parts = choose|parts: NumberParts| #[trigger] parts.valid() && parts.text() == s;
        lemma_parts_scan_as_number(parts);
    }
}

/// Whether `c` is one of the ten decimal digits.
pub fn digit(c: char) -> (b: bool)
    ensures
        b == is_digit(c),
{
    '0' <= c && c <= '9'
}

/// Whether `c` is `+` or `-`.
pub fn sign(c: char) -> (b: bool)
    ensures
        b == is_sign(c),
{
    c == '+' || c == '-'
}

/// Steps over the digits of `text` from `from` on, and returns where they end.
fn skip_digits(text: &[char], from: usize) -> (end: usize)
    requires
        from <= text.len(),
    ensures
        end == digits_end(text@, from as int),
        from <= end <= text.len(),
{
    let mut end = from;
    while end < text.len() && digit(text[end])
        invariant
            from <= end <= text.len(),
            digits_end(text@, from as int) == digits_end(text@, end as int),
        decreases text.len() - end,
    {
        end = end + 1;
    }
    end
}

/// Decides whether `text` is a number literal.
pub fn number_literal(text: &[char]) -> (b: bool)
    ensures
        b == is_number_literal(text@),
{
    proof {
        lemma_number_literal_is_scanned(text@);
    }
    let n = text.len();
    let start: usize = if n > 0 && sign(text[0]) {
        1
    } else {
        0
    };
    let point = skip_digits(text, start);
    let mut digits: usize = point - start;
    let mut end = point;
    if point < n && text[point] == '.' {
        end = skip_digits(text, point + 1);
        digits = end - start - 1;
    }
    if digits == 0 {
        return false;
    }
    if end == n {
        return true;
    }
    if text[end] != 'e' && text[end] != 'E' {
        return false;
    }
    let first: usize = if end + 1 < n && sign(text[end + 1]) {
        end + 2
    } else {
        end + 1
    };
    let last = skip_digits(text, first);
    first < last && last == n
}

} // verus!
