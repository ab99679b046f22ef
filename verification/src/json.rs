//! JSON text: parsing it into values, and printing values as text.
//!
//! Floating-point numbers are converted from text and to text by functions
//! that the caller hands in.

use crate::document::Document;
use crate::document::DocumentView;
use crate::document::Value;
use crate::document::ValueView;
use crate::document::distinct;
use crate::document::doc_insert;
use crate::document::fields_view;
use crate::document::law_names_stay_distinct;
use crate::document::lemma_first_field;
use crate::document::proper;
use crate::document::values_view;
use crate::float::Float;
use crate::text::chars_of;
use crate::text::nat_text;
use crate::text::push_char;
use crate::text::push_number;
use crate::text::string_of;
use vstd::prelude::*;
use vstd::string::StringExecFns;

verus! {

broadcast use Value::lemma_view;

/// What is parsed from some position on and the position behind it, or a
/// message.
pub type Parsed<Content> = Result<(Content, int), Seq<char>>;

/// A conversion of text to floating-point numbers.
pub type Conversion = spec_fn(Seq<char>) -> Option<Float>;

/// Whatever `convert` returns is what the conversion gives.
pub open spec fn converts_as<F: Fn(String) -> Option<Float>>(
    convert: F,
    conversion: Conversion,
) -> bool {
    forall|text: String, number: Option<Float>| #[trigger]
        call_ensures(convert, (text,), number) ==> number == conversion(text@)
}

/// Whitespace: the characters with the Unicode property White_Space.
pub open spec fn is_space(c: char) -> bool {
    let code = c as u32;
    ||| 0x9 <= code <= 0xd
    ||| code == 0x20
    ||| code == 0x85
    ||| code == 0xa0
    ||| code == 0x1680
    ||| 0x2000 <= code <= 0x200a
    ||| code == 0x2028
    ||| code == 0x2029
    ||| code == 0x202f
    ||| code == 0x205f
    ||| code == 0x3000
}

/// The digits from 0 to 9.
pub open spec fn is_digit(c: char) -> bool {
    '0' <= c <= '9'
}

/// The first position from `pos` on without whitespace.
pub open spec fn skip_spaces(chars: Seq<char>, pos: int) -> int
    decreases chars.len() - pos,
{
    if 0 <= pos < chars.len() && is_space(chars[pos]) {
        skip_spaces(chars, pos + 1)
    } else {
        pos
    }
}

pub proof fn lemma_skip_spaces(chars: Seq<char>, pos: int)
    ensures
        pos <= skip_spaces(chars, pos),
        pos <= chars.len() ==> skip_spaces(chars, pos) <= chars.len(),
        skip_spaces(chars, skip_spaces(chars, pos)) == skip_spaces(chars, pos),
    decreases chars.len() - pos,
{
    if 0 <= pos < chars.len() && is_space(chars[pos]) {
        lemma_skip_spaces(chars, pos + 1);
    }
}

/// One character in single quotes.
pub open spec fn quoted(c: char) -> Seq<char> {
    seq!['\'', c, '\'']
}

/// The message where another character was found, or the end.
pub open spec fn found_instead(expected: Seq<char>, chars: Seq<char>, pos: int) -> Seq<char> {
    "expected "@ + expected + ", found "@ + if pos < chars.len() {
        quoted(chars[pos])
    } else {
        "end of input"@
    }
}

/// The text goes on with `literal`.
pub open spec fn starts_with(chars: Seq<char>, pos: int, literal: Seq<char>) -> bool {
    pos + literal.len() <= chars.len() && chars.subrange(pos, pos + literal.len()) == literal
}

/// What a character behind a backslash stands for.
pub open spec fn escaped(c: char) -> Option<char> {
    if c == '"' || c == '\\' || c == '/' {
        Some(c)
    } else if c == 'n' {
        Some('\n')
    } else if c == 't' {
        Some('\t')
    } else if c == 'r' {
        Some('\r')
    } else {
        None
    }
}

/// Parses the rest of a string up to its closing quote.
pub open spec fn parse_string_rest(chars: Seq<char>, pos: int, text: Seq<char>) -> Parsed<
    Seq<char>,
>
    decreases chars.len() - pos,
{
    if pos >= chars.len() {
        Err("unterminated string"@)
    } else if chars[pos] == '"' {
        Ok((text, pos + 1))
    } else if chars[pos] == '\\' {
        if pos + 1 >= chars.len() {
            Err("unexpected end of input in string escape"@)
        } else {
            match escaped(chars[pos + 1]) {
                Some(c) => parse_string_rest(chars, pos + 2, text.push(c)),
                None => Err(
                    "unsupported escape sequence '\\"@ + seq![chars[pos + 1]] + "'"@,
                ),
            }
        }
    } else {
        parse_string_rest(chars, pos + 1, text.push(chars[pos]))
    }
}

/// Parses a string in double quotes.
pub open spec fn parse_string(chars: Seq<char>, pos: int) -> Parsed<Seq<char>> {
    if pos < chars.len() && chars[pos] == '"' {
        parse_string_rest(chars, pos + 1, Seq::empty())
    } else {
        Err(found_instead(quoted('"'), chars, pos))
    }
}

pub proof fn lemma_string_rest_ends(chars: Seq<char>, pos: int, text: Seq<char>)
    ensures
        parse_string_rest(chars, pos, text) matches Ok((_, end)) ==> pos < end <= chars.len(),
    decreases chars.len() - pos,
{
    if pos < chars.len() && chars[pos] != '"' {
        if chars[pos] != '\\' {
            lemma_string_rest_ends(chars, pos + 1, text.push(chars[pos]));
        } else if pos + 1 < chars.len() {
            match escaped(chars[pos + 1]) {
                Some(c) => {
                    lemma_string_rest_ends(chars, pos + 2, text.push(c));
                },
                None => {},
            }
        }
    }
}

pub proof fn lemma_string_ends(chars: Seq<char>, pos: int)
    ensures
        parse_string(chars, pos) matches Ok((_, end)) ==> pos + 1 < end <= chars.len(),
{
    lemma_string_rest_ends(chars, pos + 1, Seq::empty());
}

/// A character that can stand in a number behind the first one.
pub open spec fn is_number_char(c: char) -> bool {
    is_digit(c) || c == '.' || c == 'e' || c == 'E' || c == '+' || c == '-'
}

/// The first position from `pos` on that does not belong to a number.
pub open spec fn number_end(chars: Seq<char>, pos: int) -> int
    decreases chars.len() - pos,
{
    if 0 <= pos < chars.len() && is_number_char(chars[pos]) {
        number_end(chars, pos + 1)
    } else {
        pos
    }
}

/// All characters are digits.
pub open spec fn all_digits(text: Seq<char>) -> bool {
    forall|i: int| 0 <= i < text.len() ==> is_digit(#[trigger] text[i])
}

/// The number that digits stand for.
pub open spec fn digits_value(text: Seq<char>) -> nat
    decreases text.len(),
{
    if text.len() == 0 {
        0
    } else {
        (10 * digits_value(text.drop_last()) + (text.last() as u32 - '0' as u32)) as nat
    }
}

/// The integer that a text stands for: digits behind an optional minus sign,
/// and not too large.
pub open spec fn integer_of(text: Seq<char>) -> Option<i64> {
    let negative = text.len() > 0 && text[0] == '-';
    let digits = if negative {
        text.drop_first()
    } else {
        text
    };
    let value = if negative {
        -(digits_value(digits) as int)
    } else {
        digits_value(digits) as int
    };
    if digits.len() > 0 && all_digits(digits) && i64::MIN <= value <= i64::MAX {
        Some(value as i64)
    } else {
        None
    }
}

/// The number is a floating-point number: behind an optional minus sign there
/// is something else than digits.
pub open spec fn is_float_text(text: Seq<char>) -> bool {
    if text.len() > 0 && text[0] == '-' {
        !all_digits(text.drop_first())
    } else {
        !all_digits(text)
    }
}

/// The value of a number.
pub open spec fn number_of(text: Seq<char>, conversion: Conversion) -> Option<ValueView> {
    if is_float_text(text) {
        match conversion(text) {
            Some(f) => Some(ValueView::Float(f)),
            None => None,
        }
    } else {
        match integer_of(text) {
            Some(n) => Some(ValueView::Int(n)),
            None => None,
        }
    }
}

/// Parses a number.
pub open spec fn parse_number(chars: Seq<char>, pos: int, conversion: Conversion) -> Parsed<
    ValueView,
> {
    let end = number_end(chars, pos);
    let text = chars.subrange(pos, end);
    match number_of(text, conversion) {
        Some(value) => Ok((value, end)),
        None => Err("invalid number '"@ + text + "'"@),
    }
}

/// Parses a value, behind whitespace.
pub open spec fn parse_value_at(chars: Seq<char>, pos: int, conversion: Conversion) -> Parsed<
    ValueView,
>
    decreases chars.len() - pos, 0int,
{
    let start = skip_spaces(chars, pos);
    proof {
        lemma_skip_spaces(chars, pos);
    }
    if start >= chars.len() {
        Err("unexpected end of input"@)
    } else {
        let c = chars[start];
        if c == '{' {
            let first = skip_spaces(chars, start + 1);
            if first < chars.len() && chars[first] == '}' {
                Ok((ValueView::Document(Seq::empty()), first + 1))
            } else {
                match parse_members(chars, start + 1, Seq::empty(), conversion) {
                    Ok((doc, end)) => Ok((ValueView::Document(doc), end)),
                    Err(message) => Err(message),
                }
            }
        } else if c == '[' {
            let first = skip_spaces(chars, start + 1);
            if first < chars.len() && chars[first] == ']' {
                Ok((ValueView::Array(Seq::empty()), first + 1))
            } else {
                match parse_elements(chars, start + 1, Seq::empty(), conversion) {
                    Ok((items, end)) => Ok((ValueView::Array(items), end)),
                    Err(message) => Err(message),
                }
            }
        } else if c == '"' {
            match parse_string(chars, start) {
                Ok((text, end)) => Ok((ValueView::Str(text), end)),
                Err(message) => Err(message),
            }
        } else if c == 't' || c == 'f' {
            if starts_with(chars, start, "true"@) {
                Ok((ValueView::Bool(true), start + 4))
            } else if starts_with(chars, start, "false"@) {
                Ok((ValueView::Bool(false), start + 5))
            } else {
                Err("expected 'true' or 'false'"@)
            }
        } else if c == 'n' {
            if starts_with(chars, start, "null"@) {
                Ok((ValueView::Null, start + 4))
            } else {
                Err("expected 'null'"@)
            }
        } else if is_digit(c) || c == '-' {
            parse_number(chars, start, conversion)
        } else {
            Err("unexpected character "@ + quoted(c))
        }
    }
}

/// Parses the fields of an object up to its closing brace, and adds them to
/// `doc`.
pub open spec fn parse_members(
    chars: Seq<char>,
    pos: int,
    doc: DocumentView,
    conversion: Conversion,
) -> Parsed<DocumentView>
    decreases chars.len() - pos, 1int,
{
    let name_start = skip_spaces(chars, pos);
    proof {
        lemma_skip_spaces(chars, pos);
        lemma_string_ends(chars, name_start);
    }
    match parse_string(chars, name_start) {
        Ok((key, name_end)) => {
            let colon = skip_spaces(chars, name_end);
            proof {
                lemma_skip_spaces(chars, name_end);
            }
            if colon >= chars.len() || chars[colon] != ':' {
                Err(found_instead(quoted(':'), chars, colon))
            } else {
                match parse_value_at(chars, colon + 1, conversion) {
                    Ok((value, value_end)) => {
                        let new = doc_insert(doc, key, value);
                        let next = skip_spaces(chars, value_end);
                        if next >= chars.len() {
                            Err("unexpected end of input inside object"@)
                        } else if chars[next] == '}' {
                            Ok((new, next + 1))
                        } else if chars[next] != ',' {
                            Err("expected ',' or '}', found "@ + quoted(chars[next]))
                        } else if next < pos {
                            // A value ends behind its start, so this never holds.
                            Err(Seq::empty())
                        } else {
                            parse_members(chars, next + 1, new, conversion)
                        }
                    },
                    Err(message) => Err(message),
                }
            }
        },
        Err(message) => Err(message),
    }
}

/// Parses the values of an array up to its closing bracket, and adds them to
/// `items`.
pub open spec fn parse_elements(
    chars: Seq<char>,
    pos: int,
    items: Seq<ValueView>,
    conversion: Conversion,
) -> Parsed<Seq<ValueView>>
    decreases chars.len() - pos, 1int,
{
    match parse_value_at(chars, pos, conversion) {
        Ok((item, item_end)) => {
            let new = items.push(item);
            let next = skip_spaces(chars, item_end);
            if next >= chars.len() {
                Err("unexpected end of input inside array"@)
            } else if chars[next] == ']' {
                Ok((new, next + 1))
            } else if chars[next] != ',' {
                Err("expected ',' or ']', found "@ + quoted(chars[next]))
            } else if next < pos {
                // A value ends behind its start, so this never holds.
                Err(Seq::empty())
            } else {
                parse_elements(chars, next + 1, new, conversion)
            }
        },
        Err(message) => Err(message),
    }
}

/// Parses a text that is one value.
pub open spec fn value_of_text(chars: Seq<char>, conversion: Conversion) -> Result<
    ValueView,
    Seq<char>,
> {
    match parse_value_at(chars, 0, conversion) {
        Ok((value, end)) => if skip_spaces(chars, end) < chars.len() {
            Err("unexpected trailing characters after JSON value"@)
        } else {
            Ok(value)
        },
        Err(message) => Err(message),
    }
}

/// Parses a text that is one object.
pub open spec fn document_of_text(chars: Seq<char>, conversion: Conversion) -> Result<
    DocumentView,
    Seq<char>,
> {
    match value_of_text(chars, conversion) {
        Ok(ValueView::Document(doc)) => Ok(doc),
        Ok(_) => Err("expected a JSON object, e.g. {\"field\": value}"@),
        Err(message) => Err(message),
    }
}

proof fn lemma_number_end(chars: Seq<char>, pos: int)
    requires
        0 <= pos <= chars.len(),
    ensures
        pos <= number_end(chars, pos) <= chars.len(),
        pos < chars.len() && is_number_char(chars[pos]) ==> pos < number_end(chars, pos),
    decreases chars.len() - pos,
{
    if pos < chars.len() && is_number_char(chars[pos]) {
        lemma_number_end(chars, pos + 1);
    }
}

/// A value ends behind its start.
proof fn lemma_value_ends(chars: Seq<char>, pos: int, conversion: Conversion)
    requires
        0 <= pos <= chars.len(),
    ensures
        parse_value_at(chars, pos, conversion) matches Ok((_, end)) ==> pos < end <= chars.len(),
    decreases chars.len() - pos, 0int,
{
    let start = skip_spaces(chars, pos);
    lemma_skip_spaces(chars, pos);
    if start < chars.len() {
        lemma_skip_spaces(chars, start + 1);
        lemma_members_end(chars, start + 1, Seq::empty(), conversion);
        lemma_elements_end(chars, start + 1, Seq::empty(), conversion);
        lemma_string_ends(chars, start);
        lemma_number_end(chars, start);
        reveal_strlit("true");
        reveal_strlit("false");
        reveal_strlit("null");
    }
}

proof fn lemma_members_end(
    chars: Seq<char>,
    pos: int,
    doc: DocumentView,
    conversion: Conversion,
)
    requires
        0 <= pos <= chars.len(),
    ensures
        parse_members(chars, pos, doc, conversion) matches Ok((_, end)) ==> pos < end
            <= chars.len(),
    decreases chars.len() - pos, 1int,
{
    let name_start = skip_spaces(chars, pos);
    lemma_skip_spaces(chars, pos);
    lemma_string_ends(chars, name_start);
    match parse_string(chars, name_start) {
        Ok((key, name_end)) => {
            let colon = skip_spaces(chars, name_end);
            lemma_skip_spaces(chars, name_end);
            if colon < chars.len() && chars[colon] == ':' {
                lemma_value_ends(chars, colon + 1, conversion);
                match parse_value_at(chars, colon + 1, conversion) {
                    Ok((value, value_end)) => {
                        let next = skip_spaces(chars, value_end);
                        lemma_skip_spaces(chars, value_end);
                        if next < chars.len() {
                            lemma_members_end(
                                chars,
                                next + 1,
                                doc_insert(doc, key, value),
                                conversion,
                            );
                        }
                    },
                    Err(_) => {},
                }
            }
        },
        Err(_) => {},
    }
}

proof fn lemma_elements_end(
    chars: Seq<char>,
    pos: int,
    items: Seq<ValueView>,
    conversion: Conversion,
)
    requires
        0 <= pos <= chars.len(),
    ensures
        parse_elements(chars, pos, items, conversion) matches Ok((_, end)) ==> pos < end
            <= chars.len(),
    decreases chars.len() - pos, 1int,
{
    lemma_value_ends(chars, pos, conversion);
    match parse_value_at(chars, pos, conversion) {
        Ok((item, item_end)) => {
            let next = skip_spaces(chars, item_end);
            lemma_skip_spaces(chars, item_end);
            if next < chars.len() {
                lemma_elements_end(chars, next + 1, items.push(item), conversion);
            }
        },
        Err(_) => {},
    }
}

/// The function returned what is parsed, with the position behind it, or the
/// message.
pub open spec fn value_parsed(
    result: Result<(Value, usize), String>,
    outcome: Parsed<ValueView>,
) -> bool {
    match outcome {
        Ok((value, end)) => {
            &&& result matches Ok((parsed, next))
            &&& parsed.view() == value
            &&& next == end
        },
        Err(message) => result matches Err(error) && error@ == message,
    }
}

/// As `value_parsed`, of a document.
pub open spec fn document_parsed(
    result: Result<(Document, usize), String>,
    outcome: Parsed<DocumentView>,
) -> bool {
    match outcome {
        Ok((doc, end)) => {
            &&& result matches Ok((parsed, next))
            &&& parsed.view() == doc
            &&& next == end
        },
        Err(message) => result matches Err(error) && error@ == message,
    }
}

/// As `value_parsed`, of several values.
pub open spec fn values_parsed(
    result: Result<(Vec<Value>, usize), String>,
    outcome: Parsed<Seq<ValueView>>,
) -> bool {
    match outcome {
        Ok((items, end)) => {
            &&& result matches Ok((parsed, next))
            &&& values_view(parsed@) == items
            &&& next == end
        },
        Err(message) => result matches Err(error) && error@ == message,
    }
}

/// As `value_parsed`, of a string.
pub open spec fn string_parsed(
    result: Result<(String, usize), String>,
    outcome: Parsed<Seq<char>>,
) -> bool {
    match outcome {
        Ok((text, end)) => {
            &&& result matches Ok((parsed, next))
            &&& parsed@ == text
            &&& next == end
        },
        Err(message) => result matches Err(error) && error@ == message,
    }
}

/// Whether a character is whitespace.
pub fn is_whitespace(c: char) -> (space: bool)
    ensures
        space == is_space(c),
{
    let code: u32 = c as u32;
    (0x9 <= code && code <= 0xd) || code == 0x20 || code == 0x85 || code == 0xa0 || code == 0x1680
        || (0x2000 <= code && code <= 0x200a) || code == 0x2028 || code == 0x2029 || code == 0x202f
        || code == 0x205f || code == 0x3000
}

/// The first position from `pos` on without whitespace.
pub(crate) fn skip_whitespace(chars: &[char], pos: usize) -> (next: usize)
    requires
        pos <= chars@.len(),
    ensures
        next == skip_spaces(chars@, pos as int),
        pos <= next <= chars@.len(),
{
    let mut next: usize = pos;
    while next < chars.len() && is_whitespace(chars[next])
        invariant
            pos <= next <= chars@.len(),
            skip_spaces(chars@, pos as int) == skip_spaces(chars@, next as int),
        decreases chars@.len() - next,
    {
        next += 1;
    }
    next
}

/// Appends a character in single quotes.
fn push_quoted(text: &mut String, c: char)
    ensures
        final(text)@ == old(text)@ + quoted(c),
{
    let ghost before = text@;
    push_char(text, '\'');
    push_char(text, c);
    push_char(text, '\'');
    assert(text@ =~= before + quoted(c));
}

/// Steps over one character, or tells what stands there instead.
fn expect_char(chars: &[char], pos: usize, expected: char) -> (result: Result<usize, String>)
    requires
        pos <= chars@.len(),
    ensures
        if pos < chars@.len() && chars@[pos as int] == expected {
            result matches Ok(next) && next == pos + 1
        } else {
            result matches Err(error) && error@ == found_instead(
                quoted(expected),
                chars@,
                pos as int,
            )
        },
{
    if pos < chars.len() && chars[pos] == expected {
        return Ok(pos + 1);
    }
    let mut message = "expected ".to_owned();
    push_quoted(&mut message, expected);
    message.append(", found ");
    if pos < chars.len() {
        push_quoted(&mut message, chars[pos]);
    } else {
        message.append("end of input");
    }
    Err(message)
}

/// Parses a string in double quotes.
fn parse_string_at(chars: &[char], pos: usize) -> (result: Result<(String, usize), String>)
    requires
        pos <= chars@.len(),
    ensures
        string_parsed(result, parse_string(chars@, pos as int)),
        result matches Ok((_, next)) ==> pos < next <= chars@.len(),
{
    proof {
        lemma_string_ends(chars@, pos as int);
    }
    let mut next: usize = match expect_char(chars, pos, '"') {
        Ok(next) => next,
        Err(message) => {
            return Err(message);
        },
    };
    let mut text = String::new();
    assert(text@ =~= Seq::empty());
    while next < chars.len()
        invariant
            pos < next <= chars@.len(),
            parse_string(chars@, pos as int) == parse_string_rest(chars@, next as int, text@),
        decreases chars@.len() - next,
    {
        let c: char = chars[next];
        if c == '"' {
            return Ok((text, next + 1));
        }
        if c == '\\' {
            if next + 1 >= chars.len() {
                return Err("unexpected end of input in string escape".to_owned());
            }
            let e: char = chars[next + 1];
            if e == '"' || e == '\\' || e == '/' {
                push_char(&mut text, e);
            } else if e == 'n' {
                push_char(&mut text, '\n');
            } else if e == 't' {
                push_char(&mut text, '\t');
            } else if e == 'r' {
                push_char(&mut text, '\r');
            } else {
                let mut message = "unsupported escape sequence '\\".to_owned();
                push_char(&mut message, e);
                message.append("'");
                assert(message@ =~= "unsupported escape sequence '\\"@ + seq![e] + "'"@);
                return Err(message);
            }
            next += 2;
        } else {
            push_char(&mut text, c);
            next += 1;
        }
    }
    Err("unterminated string".to_owned())
}

/// More digits never make a number smaller.
proof fn lemma_digits_grow(text: Seq<char>, k: int)
    requires
        all_digits(text),
        0 <= k <= text.len(),
    ensures
        digits_value(text.take(k)) <= digits_value(text),
    decreases text.len(),
{
    if k == text.len() {
        assert(text.take(k) =~= text);
    } else {
        assert(text.drop_last().take(k) =~= text.take(k));
        lemma_digits_grow(text.drop_last(), k);
    }
}

/// Parses an integer: digits behind an optional minus sign.
fn parse_integer(text: &[char]) -> (result: Option<i64>)
    ensures
        result == integer_of(text@),
{
    let negative: bool = text.len() > 0 && text[0] == '-';
    let first: usize = if negative {
        1
    } else {
        0
    };
    let limit: u128 = if negative {
        0x8000_0000_0000_0000
    } else {
        0x7fff_ffff_ffff_ffff
    };
    let ghost digits = text@.skip(first as int);
    assert(digits =~= if negative {
        text@.drop_first()
    } else {
        text@
    });
    if text.len() == first {
        return None;
    }
    let mut magnitude: u128 = 0;
    let mut i: usize = first;
    assert(digits.take(0) =~= Seq::empty());
    while i < text.len()
        invariant
            first <= i <= text@.len(),
            digits == text@.skip(first as int),
            limit <= 0x8000_0000_0000_0000,
            all_digits(digits.take(i - first)),
            magnitude == digits_value(digits.take(i - first)),
            magnitude <= limit,
            !all_digits(digits) ==> integer_of(text@) is None,
            all_digits(digits) && digits_value(digits) > limit ==> integer_of(text@) is None,
        decreases text@.len() - i,
    {
        let c: char = text[i];
        let ghost done = digits.take(i - first);
        let ghost more = digits.take(i - first + 1);
        assert(more =~= done.push(c));
        assert(digits[i - first] == c);
        if !('0' <= c && c <= '9') {
            return None;
        }
        assert(more.drop_last() =~= done);
        magnitude = magnitude * 10 + (c as u32 - '0' as u32) as u128;
        if magnitude > limit {
            proof {
                if all_digits(digits) {
                    lemma_digits_grow(digits, i - first + 1);
                }
            }
            return None;
        }
        i += 1;
    }
    assert(digits.take(i - first) =~= digits);
    if negative {
        if magnitude == 0x8000_0000_0000_0000 {
            Some(-0x8000_0000_0000_0000)
        } else {
            Some(-(magnitude as i64))
        }
    } else {
        Some(magnitude as i64)
    }
}

/// Parses a number.
fn parse_number_at<F: Fn(String) -> Option<Float>>(
    chars: &[char],
    pos: usize,
    convert: &F,
) -> (result: Result<(Value, usize), String>)
    requires
        pos < chars@.len(),
        is_number_char(chars@[pos as int]),
        forall|text: String| #[trigger] call_requires(*convert, (text,)),
    ensures
        forall|conversion: Conversion| #[trigger]
            converts_as(*convert, conversion) ==> value_parsed(
                result,
                parse_number(chars@, pos as int, conversion),
            ),
        result matches Ok((_, next)) ==> pos < next <= chars@.len(),
{
    let mut end: usize = pos;
    let mut float: bool = false;
    proof {
        lemma_number_end(chars@, pos as int);
    }
    let ghost from = if chars@[pos as int] == '-' {
        pos + 1
    } else {
        pos as int
    };
    while end < chars.len() && (('0' <= chars[end] && chars[end] <= '9') || chars[end] == '.'
        || chars[end] == 'e' || chars[end] == 'E' || chars[end] == '+' || chars[end] == '-')
        invariant
            pos <= end <= chars@.len(),
            pos < chars@.len(),
            from == if chars@[pos as int] == '-' {
                pos + 1
            } else {
                pos as int
            },
            number_end(chars@, pos as int) == number_end(chars@, end as int),
            float == exists|i: int| from <= i < end && !is_digit(#[trigger] chars@[i]),
        decreases chars@.len() - end,
    {
        if !('0' <= chars[end] && chars[end] <= '9') && !(end == pos && chars[end] == '-') {
            float = true;
            assert(!is_digit(chars@[end as int]));
        }
        end += 1;
    }
    let text = string_of(chars, pos, end);
    proof {
        let all = chars@.subrange(pos as int, end as int);
        let digits = if all[0] == '-' {
            all.drop_first()
        } else {
            all
        };
        assert forall|i: int| 0 <= i < digits.len() implies digits[i] == chars@[i + from] by {}
        if float {
            let i = choose|i: int| from <= i < end && !is_digit(#[trigger] chars@[i]);
            assert(digits[i - from] == chars@[i]);
        }
        assert(float == is_float_text(all));
    }
    if float {
        let copy = text.clone();
        match convert(copy) {
            Some(f) => {
                return Ok((Value::Float(f), end));
            },
            None => {},
        }
    } else {
        let digits = chars_of(text.as_str());
        match parse_integer(digits.as_slice()) {
            Some(n) => {
                return Ok((Value::Int(n), end));
            },
            None => {},
        }
    }
    let mut message = "invalid number '".to_owned();
    message.append(text.as_str());
    message.append("'");
    Err(message)
}

/// Whether the text goes on with `literal`.
fn matches_literal(chars: &[char], pos: usize, literal: &str) -> (found: bool)
    requires
        pos <= chars@.len(),
    ensures
        found == starts_with(chars@, pos as int, literal@),
{
    let expected = chars_of(literal);
    let len: usize = chars.len();
    if expected.len() > len - pos {
        return false;
    }
    let ghost part = chars@.subrange(pos as int, pos + literal@.len());
    let mut i: usize = 0;
    while i < expected.len()
        invariant
            i <= expected@.len(),
            expected@ == literal@,
            len == chars@.len(),
            pos + literal@.len() <= len,
            part == chars@.subrange(pos as int, pos + literal@.len()),
            forall|j: int| 0 <= j < i ==> part[j] == literal@[j],
        decreases expected@.len() - i,
    {
        if chars[pos + i] != expected[i] {
            assert(part[i as int] != literal@[i as int]);
            return false;
        }
        i += 1;
    }
    assert(part =~= literal@);
    true
}

/// Parses a value, behind whitespace.
fn parse_value_from<F: Fn(String) -> Option<Float>>(
    chars: &[char],
    pos: usize,
    convert: &F,
) -> (result: Result<(Value, usize), String>)
    requires
        pos <= chars@.len(),
        forall|text: String| #[trigger] call_requires(*convert, (text,)),
    ensures
        forall|conversion: Conversion| #[trigger]
            converts_as(*convert, conversion) ==> value_parsed(
                result,
                parse_value_at(chars@, pos as int, conversion),
            ),
        result matches Ok((_, next)) ==> pos < next <= chars@.len(),
    decreases chars@.len() - pos, 0int,
{
    proof {
        reveal_strlit("true");
        reveal_strlit("false");
        reveal_strlit("null");
    }
    let start: usize = skip_whitespace(chars, pos);
    if start >= chars.len() {
        return Err("unexpected end of input".to_owned());
    }
    let c: char = chars[start];
    if c == '{' {
        let first: usize = skip_whitespace(chars, start + 1);
        if first < chars.len() && chars[first] == '}' {
            return Ok((Value::Document(Document::new()), first + 1));
        }
        match parse_object_rest(chars, start + 1, convert) {
            Ok((doc, next)) => Ok((Value::Document(doc), next)),
            Err(message) => Err(message),
        }
    } else if c == '[' {
        let first: usize = skip_whitespace(chars, start + 1);
        if first < chars.len() && chars[first] == ']' {
            let items: Vec<Value> = Vec::new();
            assert(values_view(items@) =~= Seq::empty());
            return Ok((Value::Array(items), first + 1));
        }
        match parse_array_rest(chars, start + 1, convert) {
            Ok((items, next)) => Ok((Value::Array(items), next)),
            Err(message) => Err(message),
        }
    } else if c == '"' {
        match parse_string_at(chars, start) {
            Ok((text, next)) => Ok((Value::Str(text), next)),
            Err(message) => Err(message),
        }
    } else if c == 't' || c == 'f' {
        if matches_literal(chars, start, "true") {
            Ok((Value::Bool(true), start + 4))
        } else if matches_literal(chars, start, "false") {
            Ok((Value::Bool(false), start + 5))
        } else {
            Err("expected 'true' or 'false'".to_owned())
        }
    } else if c == 'n' {
        if matches_literal(chars, start, "null") {
            Ok((Value::Null, start + 4))
        } else {
            Err("expected 'null'".to_owned())
        }
    } else if ('0' <= c && c <= '9') || c == '-' {
        parse_number_at(chars, start, convert)
    } else {
        let mut message = "unexpected character ".to_owned();
        push_quoted(&mut message, c);
        Err(message)
    }
}

/// Parses the fields of an object up to its closing brace.
fn parse_object_rest<F: Fn(String) -> Option<Float>>(
    chars: &[char],
    pos: usize,
    convert: &F,
) -> (result: Result<(Document, usize), String>)
    requires
        pos <= chars@.len(),
        forall|text: String| #[trigger] call_requires(*convert, (text,)),
    ensures
        forall|conversion: Conversion| #[trigger]
            converts_as(*convert, conversion) ==> document_parsed(
                result,
                parse_members(chars@, pos as int, Seq::empty(), conversion),
            ),
        result matches Ok((_, next)) ==> pos < next <= chars@.len(),
    decreases chars@.len() - pos, 1int,
{
    let mut doc = Document::new();
    let mut here: usize = pos;
    loop
        invariant
            pos <= here <= chars@.len(),
            forall|text: String| #[trigger] call_requires(*convert, (text,)),
            forall|conversion: Conversion| #[trigger]
                converts_as(*convert, conversion) ==> parse_members(
                    chars@,
                    pos as int,
                    Seq::empty(),
                    conversion,
                ) == parse_members(chars@, here as int, doc.view(), conversion),
        decreases chars@.len() - here,
    {
        let name_start: usize = skip_whitespace(chars, here);
        let (key, name_end) = match parse_string_at(chars, name_start) {
            Ok(parsed) => parsed,
            Err(message) => {
                return Err(message);
            },
        };
        let colon: usize = skip_whitespace(chars, name_end);
        let value_start: usize = match expect_char(chars, colon, ':') {
            Ok(next) => next,
            Err(message) => {
                return Err(message);
            },
        };
        let (value, value_end) = match parse_value_from(chars, value_start, convert) {
            Ok(parsed) => parsed,
            Err(message) => {
                return Err(message);
            },
        };
        doc.put(key, value);
        let next: usize = skip_whitespace(chars, value_end);
        if next >= chars.len() {
            return Err("unexpected end of input inside object".to_owned());
        }
        if chars[next] == '}' {
            return Ok((doc, next + 1));
        }
        if chars[next] != ',' {
            let mut message = "expected ',' or '}', found ".to_owned();
            push_quoted(&mut message, chars[next]);
            return Err(message);
        }
        here = next + 1;
    }
}

/// Parses the values of an array up to its closing bracket.
fn parse_array_rest<F: Fn(String) -> Option<Float>>(
    chars: &[char],
    pos: usize,
    convert: &F,
) -> (result: Result<(Vec<Value>, usize), String>)
    requires
        pos <= chars@.len(),
        forall|text: String| #[trigger] call_requires(*convert, (text,)),
    ensures
        forall|conversion: Conversion| #[trigger]
            converts_as(*convert, conversion) ==> values_parsed(
                result,
                parse_elements(chars@, pos as int, Seq::empty(), conversion),
            ),
        result matches Ok((_, next)) ==> pos < next <= chars@.len(),
    decreases chars@.len() - pos, 1int,
{
    let mut items: Vec<Value> = Vec::new();
    let mut here: usize = pos;
    assert(values_view(items@) =~= Seq::empty());
    loop
        invariant
            pos <= here <= chars@.len(),
            forall|text: String| #[trigger] call_requires(*convert, (text,)),
            forall|conversion: Conversion| #[trigger]
                converts_as(*convert, conversion) ==> parse_elements(
                    chars@,
                    pos as int,
                    Seq::empty(),
                    conversion,
                ) == parse_elements(chars@, here as int, values_view(items@), conversion),
        decreases chars@.len() - here,
    {
        let (item, item_end) = match parse_value_from(chars, here, convert) {
            Ok(parsed) => parsed,
            Err(message) => {
                return Err(message);
            },
        };
        let ghost before = values_view(items@);
        let ghost view = item.view();
        items.push(item);
        assert(values_view(items@) =~= before.push(view));
        let next: usize = skip_whitespace(chars, item_end);
        if next >= chars.len() {
            return Err("unexpected end of input inside array".to_owned());
        }
        if chars[next] == ']' {
            return Ok((items, next + 1));
        }
        if chars[next] != ',' {
            let mut message = "expected ',' or ']', found ".to_owned();
            push_quoted(&mut message, chars[next]);
            return Err(message);
        }
        here = next + 1;
    }
}

/// Parses a text that is one value.
pub fn parse_value<F: Fn(String) -> Option<Float>>(input: &str, convert: &F) -> (result: Result<
    Value,
    String,
>)
    requires
        forall|text: String| #[trigger] call_requires(*convert, (text,)),
    ensures
        forall|conversion: Conversion| #[trigger]
            converts_as(*convert, conversion) ==> match value_of_text(input@, conversion) {
                Ok(value) => result matches Ok(parsed) && parsed.view() == value,
                Err(message) => result matches Err(error) && error@ == message,
            },
{
    let chars = chars_of(input);
    match parse_value_from(chars.as_slice(), 0, convert) {
        Ok((value, end)) => {
            if skip_whitespace(chars.as_slice(), end) < chars.len() {
                return Err("unexpected trailing characters after JSON value".to_owned());
            }
            Ok(value)
        },
        Err(message) => Err(message),
    }
}

/// Parses a text that is one object.
pub fn parse_document<F: Fn(String) -> Option<Float>>(input: &str, convert: &F) -> (result: Result<
    Document,
    String,
>)
    requires
        forall|text: String| #[trigger] call_requires(*convert, (text,)),
    ensures
        forall|conversion: Conversion| #[trigger]
            converts_as(*convert, conversion) ==> match document_of_text(input@, conversion) {
                Ok(doc) => result matches Ok(parsed) && parsed.view() == doc,
                Err(message) => result matches Err(error) && error@ == message,
            },
{
    match parse_value(input, convert) {
        Ok(Value::Document(doc)) => Ok(doc),
        Ok(_) => Err("expected a JSON object, e.g. {\"field\": value}".to_owned()),
        Err(message) => Err(message),
    }
}

/// A way of writing floating-point numbers.
pub type Notation = spec_fn(Float) -> Seq<char>;

/// Whatever `show` returns is what the notation gives.
pub open spec fn shows_as<G: Fn(Float) -> String>(show: G, notation: Notation) -> bool {
    forall|f: Float, text: String| #[trigger]
        call_ensures(show, (f,), text) ==> text@ == notation(f)
}

/// An integer in decimal digits, behind a minus sign if it is negative.
pub open spec fn int_text(n: i64) -> Seq<char> {
    if n < 0 {
        seq!['-'] + nat_text((-n) as nat)
    } else {
        nat_text(n as nat)
    }
}

/// A printable ASCII character, a newline, a tab or a carriage return.
pub open spec fn is_plain(c: char) -> bool {
    ' ' <= c <= '~' || c == '\n' || c == '\t' || c == '\r'
}

/// All characters are plain.
pub open spec fn all_plain(text: Seq<char>) -> bool {
    forall|i: int| 0 <= i < text.len() ==> is_plain(#[trigger] text[i])
}

/// How a plain character is written inside quotes.
pub open spec fn escape(c: char) -> Seq<char> {
    if c == '"' || c == '\\' {
        seq!['\\', c]
    } else if c == '\n' {
        seq!['\\', 'n']
    } else if c == '\t' {
        seq!['\\', 't']
    } else if c == '\r' {
        seq!['\\', 'r']
    } else {
        seq![c]
    }
}

/// How plain characters are written inside quotes.
pub open spec fn escape_all(text: Seq<char>) -> Seq<char>
    decreases text.len(),
{
    if text.len() == 0 {
        Seq::empty()
    } else {
        escape(text[0]) + escape_all(text.drop_first())
    }
}

/// The `Debug` form of a string.
pub uninterp spec fn debug_text(text: Seq<char>) -> Seq<char>;

/// How a string is written: a plain one in quotes, with backslashes where
/// they are needed, any other one in its `Debug` form.
pub open spec fn string_text(text: Seq<char>) -> Seq<char> {
    if all_plain(text) {
        seq!['"'] + escape_all(text) + seq!['"']
    } else {
        debug_text(text)
    }
}

/// How a value is written.
pub open spec fn value_text(value: ValueView, notation: Notation) -> Seq<char>
    decreases value,
{
    match value {
        ValueView::Null => "null"@,
        ValueView::Bool(true) => "true"@,
        ValueView::Bool(false) => "false"@,
        ValueView::Int(n) => int_text(n),
        ValueView::Float(f) => notation(f),
        ValueView::Str(s) => string_text(s),
        ValueView::Array(items) => seq!['['] + elements_text(items, notation) + seq![']'],
        ValueView::Document(doc) => seq!['{'] + members_text(doc, notation) + seq!['}'],
    }
}

/// How several values are written, with commas between them.
pub open spec fn elements_text(items: Seq<ValueView>, notation: Notation) -> Seq<char>
    decreases items,
{
    if items.len() == 0 {
        Seq::empty()
    } else if items.len() == 1 {
        value_text(items[0], notation)
    } else {
        value_text(items[0], notation) + seq![',', ' '] + elements_text(
            items.drop_first(),
            notation,
        )
    }
}

/// How the fields of a document are written, with commas between them.
pub open spec fn members_text(doc: DocumentView, notation: Notation) -> Seq<char>
    decreases doc,
{
    if doc.len() == 0 {
        Seq::empty()
    } else {
        let field = string_text(doc[0].0) + seq![':', ' '] + value_text(doc[0].1, notation);
        if doc.len() == 1 {
            field
        } else {
            field + seq![',', ' '] + members_text(doc.drop_first(), notation)
        }
    }
}

/// How a document is written.
pub open spec fn document_text(doc: DocumentView, notation: Notation) -> Seq<char> {
    value_text(ValueView::Document(doc), notation)
}

/// Calls the `Debug` implementation of `str` through `format!`: the result
/// is the `Debug` form of the string, of which nothing more is said.
#[verifier::external_body]
fn debug_string(text: &str) -> (written: String)
    ensures
        written@ == debug_text(text@),
{
    format!("{text:?}")
}

/// Appends an integer.
fn push_integer(out: &mut String, n: i64)
    ensures
        final(out)@ == old(out)@ + int_text(n),
{
    let ghost before = out@;
    if n < 0 {
        push_char(out, '-');
        push_number(out, (-1 - n) as u64 + 1);
    } else {
        push_number(out, n as u64);
    }
    assert(out@ =~= before + int_text(n));
}

/// Appends a string in quotes.
fn push_string(out: &mut String, text: &str)
    ensures
        final(out)@ == old(out)@ + string_text(text@),
{
    let chars = chars_of(text);
    let mut i: usize = 0;
    while i < chars.len()
        invariant
            i <= chars@.len(),
            chars@ == text@,
            out@ == old(out)@,
            forall|j: int| 0 <= j < i ==> is_plain(#[trigger] chars@[j]),
        decreases chars@.len() - i,
    {
        let c: char = chars[i];
        if !((' ' <= c && c <= '~') || c == '\n' || c == '\t' || c == '\r') {
            assert(!is_plain(text@[i as int]));
            let written = debug_string(text);
            out.append(written.as_str());
            return;
        }
        i += 1;
    }
    let ghost before = out@;
    push_char(out, '"');
    let mut k: usize = 0;
    assert(text@.skip(0) =~= text@);
    while k < chars.len()
        invariant
            k <= chars@.len(),
            chars@ == text@,
            out@ + escape_all(text@.skip(k as int)) == before + seq!['"'] + escape_all(text@),
        decreases chars@.len() - k,
    {
        let c: char = chars[k];
        let ghost sofar = out@;
        let ghost rest = escape_all(text@.skip(k + 1));
        assert(text@.skip(k as int).drop_first() =~= text@.skip(k + 1));
        if c == '"' || c == '\\' {
            push_char(out, '\\');
            push_char(out, c);
        } else if c == '\n' {
            push_char(out, '\\');
            push_char(out, 'n');
        } else if c == '\t' {
            push_char(out, '\\');
            push_char(out, 't');
        } else if c == '\r' {
            push_char(out, '\\');
            push_char(out, 'r');
        } else {
            push_char(out, c);
        }
        assert(out@ =~= sofar + escape(c));
        assert(sofar + (escape(c) + rest) =~= out@ + rest);
        k += 1;
    }
    assert(text@.skip(k as int) =~= Seq::empty());
    assert(out@ + Seq::<char>::empty() =~= out@);
    push_char(out, '"');
    assert(out@ =~= before + string_text(text@));
}

/// Appends a value.
fn push_value<G: Fn(Float) -> String>(out: &mut String, value: &Value, show: &G)
    requires
        forall|f: Float| #[trigger] call_requires(*show, (f,)),
    ensures
        forall|notation: Notation| #[trigger]
            shows_as(*show, notation) ==> final(out)@ == old(out)@ + value_text(
                value.view(),
                notation,
            ),
    decreases value,
{
    let ghost before = out@;
    match value {
        Value::Null => {
            out.append("null");
        },
        Value::Bool(b) => {
            if *b {
                out.append("true");
            } else {
                out.append("false");
            }
        },
        Value::Int(n) => {
            push_integer(out, *n);
        },
        Value::Float(f) => {
            let text = show(*f);
            out.append(text.as_str());
        },
        Value::Str(s) => {
            push_string(out, s.as_str());
        },
        Value::Array(items) => {
            push_char(out, '[');
            let ghost head = out@;
            let ghost all = values_view(items@);
            let mut i: usize = 0;
            assert(all.skip(0) =~= all);
            while i < items.len()
                invariant
                    i <= items@.len(),
                    all == values_view(items@),
                    forall|f: Float| #[trigger] call_requires(*show, (f,)),
                    forall|notation: Notation| #[trigger]
                        shows_as(*show, notation) ==> out@ + elements_text(
                            all.skip(i as int),
                            notation,
                        ) == head + elements_text(all, notation),
                    decreases_to!(value => items),
                decreases items@.len() - i,
            {
                let ghost sofar = out@;
                proof {
                    assert(all.skip(i as int).drop_first() =~= all.skip(i + 1));
                    assert(all.skip(i as int)[0] == items@[i as int].view());
                }
                push_value(out, &items[i], show);
                i += 1;
                if i < items.len() {
                    out.append(", ");
                }
                proof {
                    reveal_strlit(", ");
                    assert(", "@ =~= seq![',', ' ']);
                    assert forall|notation: Notation| #[trigger]
                        shows_as(*show, notation) implies out@ + elements_text(
                        all.skip(i as int),
                        notation,
                    ) == head + elements_text(all, notation) by {
                        assert(sofar + elements_text(all.skip(i - 1), notation) =~= out@
                            + elements_text(all.skip(i as int), notation));
                    }
                }
            }
            proof {
                assert(all.skip(i as int) =~= Seq::empty());
                assert forall|notation: Notation| #[trigger]
                    shows_as(*show, notation) implies out@ == head + elements_text(
                    all,
                    notation,
                ) by {
                    assert(out@ + elements_text(all.skip(i as int), notation) =~= out@);
                }
            }
            push_char(out, ']');
        },
        Value::Document(doc) => {
            push_document(out, doc, show);
        },
    }
    proof {
        assert forall|notation: Notation| #[trigger] shows_as(*show, notation) implies out@
            == before + value_text(value.view(), notation) by {
            assert(out@ =~= before + value_text(value.view(), notation));
        }
    }
}

/// Appends a document.
fn push_document<G: Fn(Float) -> String>(out: &mut String, doc: &Document, show: &G)
    requires
        forall|f: Float| #[trigger] call_requires(*show, (f,)),
    ensures
        forall|notation: Notation| #[trigger]
            shows_as(*show, notation) ==> final(out)@ == old(out)@ + document_text(
                doc.view(),
                notation,
            ),
    decreases doc,
{
    let ghost before = out@;
    push_char(out, '{');
    let ghost head = out@;
    let fields = doc.iter();
    let ghost all = doc.view();
    let mut i: usize = 0;
    assert(all.skip(0) =~= all);
    while i < fields.len()
        invariant
            i <= fields@.len(),
            all == fields_view(fields@),
            forall|f: Float| #[trigger] call_requires(*show, (f,)),
            forall|notation: Notation| #[trigger]
                shows_as(*show, notation) ==> out@ + members_text(all.skip(i as int), notation)
                    == head + members_text(all, notation),
            decreases_to!(doc => fields@),
        decreases fields@.len() - i,
    {
        let ghost sofar = out@;
        let ghost field = all[i as int];
        proof {
            assert(all.skip(i as int).drop_first() =~= all.skip(i + 1));
            assert(all.skip(i as int)[0] == field);
        }
        push_string(out, fields[i].0.as_str());
        out.append(": ");
        push_value(out, &fields[i].1, show);
        i += 1;
        if i < fields.len() {
            out.append(", ");
        }
        proof {
            reveal_strlit(": ");
            reveal_strlit(", ");
            assert(": "@ =~= seq![':', ' ']);
            assert(", "@ =~= seq![',', ' ']);
            assert forall|notation: Notation| #[trigger] shows_as(*show, notation) implies out@
                + members_text(all.skip(i as int), notation) == head + members_text(
                all,
                notation,
            ) by {
                assert(sofar + members_text(all.skip(i - 1), notation) =~= out@ + members_text(
                    all.skip(i as int),
                    notation,
                ));
            }
        }
    }
    proof {
        assert(all.skip(i as int) =~= Seq::empty());
        assert forall|notation: Notation| #[trigger] shows_as(*show, notation) implies out@
            == head + members_text(all, notation) by {
            assert(out@ + members_text(all.skip(i as int), notation) =~= out@);
        }
    }
    push_char(out, '}');
    proof {
        assert forall|notation: Notation| #[trigger] shows_as(*show, notation) implies out@
            == before + document_text(doc.view(), notation) by {
            assert(out@ =~= before + document_text(doc.view(), notation));
        }
    }
}

/// Writes a document as JSON text.
pub fn to_json_string<G: Fn(Float) -> String>(doc: &Document, show: &G) -> (text: String)
    requires
        forall|f: Float| #[trigger] call_requires(*show, (f,)),
    ensures
        forall|notation: Notation| #[trigger]
            shows_as(*show, notation) ==> text@ == document_text(doc.view(), notation),
{
    let mut text = String::new();
    let ghost before = text@;
    push_document(&mut text, doc, show);
    proof {
        assert forall|notation: Notation| #[trigger] shows_as(*show, notation) implies text@
            == document_text(doc.view(), notation) by {
            assert(before + document_text(doc.view(), notation) =~= document_text(
                doc.view(),
                notation,
            ));
        }
    }
    text
}

/// The written form of the string is parsed as the string.
pub open spec fn string_reads_back(text: Seq<char>) -> bool {
    parse_string(string_text(text), 0) == Ok::<(Seq<char>, int), Seq<char>>(
        (text, string_text(text).len() as int),
    )
}

/// The written form of the number is one of a floating-point number, and is
/// converted back to it.
pub open spec fn float_reads_back(f: Float, notation: Notation, conversion: Conversion) -> bool {
    let text = notation(f);
    &&& text.len() > 0
    &&& is_digit(text[0]) || text[0] == '-'
    &&& forall|i: int| 0 <= i < text.len() ==> is_number_char(#[trigger] text[i])
    &&& is_float_text(text)
    &&& conversion(text) == Some(f)
}

/// The strings, names and floating-point numbers in the value read back.
pub open spec fn reads_back(value: ValueView, notation: Notation, conversion: Conversion) -> bool
    decreases value,
{
    match value {
        ValueView::Float(f) => float_reads_back(f, notation, conversion),
        ValueView::Str(s) => string_reads_back(s),
        ValueView::Array(items) => forall|i: int|
            0 <= i < items.len() ==> reads_back(#[trigger] items[i], notation, conversion),
        ValueView::Document(doc) => forall|i: int|
            0 <= i < doc.len() ==> string_reads_back((#[trigger] doc[i]).0) && reads_back(
                doc[i].1,
                notation,
                conversion,
            ),
        _ => true,
    }
}

/// What is parsed from a text is parsed from it inside a longer text.
proof fn lemma_string_rest_inside(
    before: Seq<char>,
    chars: Seq<char>,
    after: Seq<char>,
    pos: int,
    text: Seq<char>,
)
    requires
        0 <= pos <= chars.len(),
        parse_string_rest(chars, pos, text) is Ok,
    ensures
        parse_string_rest(before + chars + after, before.len() + pos, text) == (
        match parse_string_rest(chars, pos, text) {
            Ok((parsed, end)) => Ok((parsed, before.len() + end)),
            Err(message) => Err(message),
        }),
    decreases chars.len() - pos,
{
    let whole = before + chars + after;
    let at = before.len() + pos;
    if pos < chars.len() {
        assert(whole[at] == chars[pos]);
        if chars[pos] == '\\' {
            if pos + 1 < chars.len() {
                assert(whole[at + 1] == chars[pos + 1]);
                match escaped(chars[pos + 1]) {
                    Some(c) => {
                        lemma_string_rest_inside(before, chars, after, pos + 2, text.push(c));
                    },
                    None => {},
                }
            }
        } else if chars[pos] != '"' {
            lemma_string_rest_inside(before, chars, after, pos + 1, text.push(chars[pos]));
        }
    }
}

/// A string that reads back does so inside a longer text.
proof fn lemma_string_inside(before: Seq<char>, text: Seq<char>, after: Seq<char>)
    requires
        string_reads_back(text),
    ensures
        string_text(text).len() > 0,
        string_text(text)[0] == '"',
        parse_string(before + string_text(text) + after, before.len() as int) == Ok::<
            (Seq<char>, int),
            Seq<char>,
        >((text, (before.len() + string_text(text).len()) as int)),
{
    let chars = string_text(text);
    assert(chars.len() > 0 && chars[0] == '"');
    lemma_string_rest_inside(before, chars, after, 1, Seq::empty());
    assert((before + chars + after)[before.len() as int] == chars[0]);
}

proof fn lemma_plain_rest(before: Seq<char>, text: Seq<char>, done: Seq<char>)
    requires
        all_plain(text),
    ensures
        parse_string_rest(before + escape_all(text) + seq!['"'], before.len() as int, done) == Ok::<
            (Seq<char>, int),
            Seq<char>,
        >((done + text, (before.len() + escape_all(text).len() + 1) as int)),
    decreases text.len(),
{
    let chars = before + escape_all(text) + seq!['"'];
    if text.len() == 0 {
        assert(done + text =~= done);
        assert(chars[before.len() as int] == '"');
    } else {
        let c = text[0];
        let rest = text.drop_first();
        let next = before + escape(c);
        assert forall|i: int| 0 <= i < rest.len() implies is_plain(#[trigger] rest[i]) by {
            assert(rest[i] == text[i + 1]);
        }
        lemma_plain_rest(next, rest, done.push(c));
        assert(next + escape_all(rest) + seq!['"'] =~= chars);
        assert(done.push(c) + rest =~= done + text);
        assert(chars[before.len() as int] == escape(c)[0]);
        if escape(c).len() == 2 {
            assert(chars[before.len() as int + 1] == escape(c)[1]);
        }
    }
}

/// Every string of printable ASCII characters, newlines, tabs and carriage
/// returns reads back.
pub proof fn law_plain_strings_read_back(text: Seq<char>)
    requires
        all_plain(text),
    ensures
        string_reads_back(text),
{
    lemma_plain_rest(seq!['"'], text, Seq::empty());
    assert(Seq::<char>::empty() + text =~= text);
}

proof fn lemma_nat_text(n: nat)
    ensures
        nat_text(n).len() > 0,
        all_digits(nat_text(n)),
        digits_value(nat_text(n)) == n,
    decreases n,
{
    let text = nat_text(n);
    let digit = ('0' as u32 + n % 10) as char;
    assert(digit as u32 - '0' as u32 == n % 10);
    if n < 10 {
        assert(text.drop_last() =~= Seq::empty());
        reveal_with_fuel(digits_value, 2);
    } else {
        lemma_nat_text(n / 10);
        assert(text.drop_last() =~= nat_text(n / 10));
    }
}

/// What is written for an integer is parsed as the integer.
pub proof fn law_integers_read_back(n: i64)
    ensures
        integer_of(int_text(n)) == Some(n),
        !is_float_text(int_text(n)),
{
    let text = int_text(n);
    if n < 0 {
        lemma_nat_text((-n) as nat);
        assert(text.drop_first() =~= nat_text((-n) as nat));
    } else {
        lemma_nat_text(n as nat);
        assert(is_digit(text[0]));
    }
}

/// The end of a number inside a longer text.
proof fn lemma_number_inside(before: Seq<char>, text: Seq<char>, after: Seq<char>, pos: int)
    requires
        0 <= pos <= text.len(),
        forall|i: int| 0 <= i < text.len() ==> is_number_char(#[trigger] text[i]),
        after.len() > 0 ==> !is_number_char(after[0]),
    ensures
        number_end(before + text + after, before.len() + pos) == before.len() + text.len(),
    decreases text.len() - pos,
{
    let whole = before + text + after;
    if pos < text.len() {
        assert(whole[before.len() + pos] == text[pos]);
        lemma_number_inside(before, text, after, pos + 1);
    } else if after.len() > 0 {
        assert(whole[before.len() + pos] == after[0]);
    }
}

/// A space before a value changes nothing.
proof fn lemma_space_before_value(chars: Seq<char>, pos: int, conversion: Conversion)
    requires
        0 <= pos < chars.len(),
        is_space(chars[pos]),
    ensures
        parse_value_at(chars, pos, conversion) == parse_value_at(chars, pos + 1, conversion),
{
    assert(skip_spaces(chars, pos) == skip_spaces(chars, pos + 1));
}

/// A space before the values of an array changes nothing.
proof fn lemma_space_before_elements(
    chars: Seq<char>,
    pos: int,
    items: Seq<ValueView>,
    conversion: Conversion,
)
    requires
        0 <= pos < chars.len(),
        is_space(chars[pos]),
    ensures
        parse_elements(chars, pos, items, conversion) == parse_elements(
            chars,
            pos + 1,
            items,
            conversion,
        ),
{
    lemma_space_before_value(chars, pos, conversion);
    lemma_value_ends(chars, pos + 1, conversion);
    match parse_value_at(chars, pos + 1, conversion) {
        Ok((_, end)) => {
            lemma_skip_spaces(chars, end);
        },
        Err(_) => {},
    }
}

/// A space before the fields of an object changes nothing.
proof fn lemma_space_before_members(
    chars: Seq<char>,
    pos: int,
    doc: DocumentView,
    conversion: Conversion,
)
    requires
        0 <= pos < chars.len(),
        is_space(chars[pos]),
    ensures
        parse_members(chars, pos, doc, conversion) == parse_members(
            chars,
            pos + 1,
            doc,
            conversion,
        ),
{
    assert(skip_spaces(chars, pos) == skip_spaces(chars, pos + 1));
    lemma_skip_spaces(chars, pos + 1);
    lemma_string_ends(chars, skip_spaces(chars, pos));
    match parse_string(chars, skip_spaces(chars, pos)) {
        Ok((_, name_end)) => {
            let colon = skip_spaces(chars, name_end);
            lemma_skip_spaces(chars, name_end);
            if colon < chars.len() {
                lemma_value_ends(chars, colon + 1, conversion);
                match parse_value_at(chars, colon + 1, conversion) {
                    Ok((_, end)) => {
                        lemma_skip_spaces(chars, end);
                    },
                    Err(_) => {},
                }
            }
        },
        Err(_) => {},
    }
}

/// The text is empty or goes on behind a value.
spec fn goes_on(after: Seq<char>) -> bool {
    after.len() > 0 ==> after[0] == ',' || after[0] == ']' || after[0] == '}'
}

/// A literal inside a longer text.
proof fn lemma_literal_inside(before: Seq<char>, literal: Seq<char>, after: Seq<char>)
    ensures
        starts_with(before + literal + after, before.len() as int, literal),
{
    assert((before + literal + after).subrange(
        before.len() as int,
        before.len() as int + literal.len(),
    ) =~= literal);
}

/// What is written for a value is parsed as the value, inside a longer text.
proof fn lemma_value_inside(
    before: Seq<char>,
    value: ValueView,
    after: Seq<char>,
    notation: Notation,
    conversion: Conversion,
)
    requires
        proper(value),
        reads_back(value, notation, conversion),
        goes_on(after),
    ensures
        value_text(value, notation).len() > 0,
        !is_space(value_text(value, notation)[0]),
        value_text(value, notation)[0] != ']',
        parse_value_at(
            before + value_text(value, notation) + after,
            before.len() as int,
            conversion,
        ) == Ok::<(ValueView, int), Seq<char>>(
            (value, (before.len() + value_text(value, notation).len()) as int),
        ),
    decreases value, 0int,
{
    let text = value_text(value, notation);
    let whole = before + text + after;
    let start = before.len() as int;
    reveal_strlit("null");
    reveal_strlit("true");
    reveal_strlit("false");
    match value {
        ValueView::Null => {
            lemma_literal_inside(before, text, after);
        },
        ValueView::Bool(b) => {
            lemma_literal_inside(before, text, after);
            if !b {
                assert(whole[start] == 'f');
                assert(!starts_with(whole, start, "true"@)) by {
                    if starts_with(whole, start, "true"@) {
                        assert(whole.subrange(start, start + 4)[0] == "true"@[0]);
                    }
                }
            }
        },
        ValueView::Int(n) => {
            law_integers_read_back(n);
            lemma_nat_text(
                (if n < 0 {
                    -n
                } else {
                    n as int
                }) as nat,
            );
            assert forall|i: int| 0 <= i < text.len() implies is_number_char(
                #[trigger] text[i],
            ) by {
                if n < 0 && i > 0 {
                    assert(text[i] == nat_text((-n) as nat)[i - 1]);
                }
            }
            assert(is_digit(text[0]) || text[0] == '-');
            lemma_number_inside(before, text, after, 0);
            assert(whole.subrange(start, start + text.len()) =~= text);
        },
        ValueView::Float(_) => {
            lemma_number_inside(before, text, after, 0);
            assert(whole.subrange(start, start + text.len()) =~= text);
        },
        ValueView::Str(s) => {
            lemma_string_inside(before, s, after);
        },
        ValueView::Array(items) => {
            let inner = elements_text(items, notation);
            assert(whole[start] == '[');
            if items.len() == 0 {
                assert(whole[start + 1] == ']');
                assert(items =~= Seq::empty());
            } else {
                let head = before.push('[');
                lemma_elements_inside(head, items, after, Seq::empty(), notation, conversion);
                assert(whole =~= head + inner + seq![']'] + after);
                assert(whole[start + 1] == inner[0]);
                assert(Seq::<ValueView>::empty() + items =~= items);
            }
        },
        ValueView::Document(doc) => {
            let inner = members_text(doc, notation);
            assert(whole[start] == '{');
            if doc.len() == 0 {
                assert(whole[start + 1] == '}');
                assert(doc =~= Seq::empty());
            } else {
                let head = before.push('{');
                lemma_members_inside(head, doc, after, Seq::empty(), notation, conversion);
                assert(whole =~= head + inner + seq!['}'] + after);
                assert(whole[start + 1] == inner[0]);
                assert(Seq::<(Seq<char>, ValueView)>::empty() + doc =~= doc);
            }
        },
    }
    assert(whole[start] == text[0]);
    assert(skip_spaces(whole, start) == start);
}

proof fn lemma_elements_inside(
    before: Seq<char>,
    items: Seq<ValueView>,
    after: Seq<char>,
    done: Seq<ValueView>,
    notation: Notation,
    conversion: Conversion,
)
    requires
        items.len() > 0,
        forall|i: int| 0 <= i < items.len() ==> proper(#[trigger] items[i]),
        forall|i: int|
            0 <= i < items.len() ==> reads_back(#[trigger] items[i], notation, conversion),
    ensures
        elements_text(items, notation).len() > 0,
        !is_space(elements_text(items, notation)[0]),
        elements_text(items, notation)[0] != ']',
        parse_elements(
            before + elements_text(items, notation) + seq![']'] + after,
            before.len() as int,
            done,
            conversion,
        ) == Ok::<(Seq<ValueView>, int), Seq<char>>(
            (done + items, (before.len() + elements_text(items, notation).len() + 1) as int),
        ),
    decreases items, 0int,
{
    let text = elements_text(items, notation);
    let whole = before + text + seq![']'] + after;
    let first = value_text(items[0], notation);
    let end = (before.len() + first.len()) as int;
    let new = done.push(items[0]);
    assert(proper(items[0]) && reads_back(items[0], notation, conversion));
    if items.len() == 1 {
        let tail = seq![']'] + after;
        lemma_value_inside(before, items[0], tail, notation, conversion);
        assert(before + first + tail =~= whole);
        assert(whole[end] == ']');
        assert(skip_spaces(whole, end) == end);
        assert(new =~= done + items);
    } else {
        let rest = items.drop_first();
        let inner = elements_text(rest, notation);
        let tail = seq![',', ' '] + inner + seq![']'] + after;
        lemma_value_inside(before, items[0], tail, notation, conversion);
        assert(before + first + tail =~= whole);
        assert(whole[end] == ',');
        assert(skip_spaces(whole, end) == end);
        assert forall|i: int| 0 <= i < rest.len() implies proper(#[trigger] rest[i]) && reads_back(
            rest[i],
            notation,
            conversion,
        ) by {
            assert(rest[i] == items[i + 1]);
        }
        let head = before + first + seq![',', ' '];
        lemma_elements_inside(head, rest, after, new, notation, conversion);
        assert(head + inner + seq![']'] + after =~= whole);
        assert(whole[end + 1] == ' ');
        lemma_space_before_elements(whole, end + 1, new, conversion);
        assert(new + rest =~= done + items);
    }
}

/// A field inside a longer text.
proof fn lemma_field_inside(
    before: Seq<char>,
    key: Seq<char>,
    value: ValueView,
    after: Seq<char>,
    notation: Notation,
    conversion: Conversion,
)
    requires
        proper(value),
        string_reads_back(key),
        reads_back(value, notation, conversion),
        goes_on(after),
    ensures
        ({
            let text = string_text(key) + seq![':', ' '] + value_text(value, notation);
            let whole = before + text + after;
            let start = before.len() as int;
            let colon = start + string_text(key).len();
            &&& text.len() > 0
            &&& text[0] == '"'
            &&& skip_spaces(whole, start) == start
            &&& parse_string(whole, start) == Ok::<(Seq<char>, int), Seq<char>>((key, colon))
            &&& skip_spaces(whole, colon) == colon
            &&& colon < whole.len()
            &&& whole[colon] == ':'
            &&& parse_value_at(whole, colon + 1, conversion) == Ok::<(ValueView, int), Seq<char>>(
                (value, start + text.len()),
            )
        }),
    decreases value, 1int,
{
    let name = string_text(key);
    let first = value_text(value, notation);
    let text = name + seq![':', ' '] + first;
    let whole = before + text + after;
    let start = before.len() as int;
    let colon = start + name.len();
    let head = before + name + seq![':', ' '];
    lemma_string_inside(before, key, seq![':', ' '] + first + after);
    assert(before + name + (seq![':', ' '] + first + after) =~= whole);
    assert(whole[start] == '"');
    assert(whole[colon] == ':');
    assert(whole[colon + 1] == ' ');
    lemma_space_before_value(whole, colon + 1, conversion);
    lemma_value_inside(head, value, after, notation, conversion);
    assert(head + first + after =~= whole);
}

#[verifier::spinoff_prover]
#[verifier::rlimit(30)]
proof fn lemma_members_inside(
    before: Seq<char>,
    doc: DocumentView,
    after: Seq<char>,
    done: DocumentView,
    notation: Notation,
    conversion: Conversion,
)
    requires
        doc.len() > 0,
        distinct(done + doc),
        forall|i: int| 0 <= i < doc.len() ==> proper((#[trigger] doc[i]).1),
        forall|i: int|
            0 <= i < doc.len() ==> string_reads_back((#[trigger] doc[i]).0) && reads_back(
                doc[i].1,
                notation,
                conversion,
            ),
    ensures
        members_text(doc, notation).len() > 0,
        members_text(doc, notation)[0] == '"',
        parse_members(
            before + members_text(doc, notation) + seq!['}'] + after,
            before.len() as int,
            done,
            conversion,
        ) == Ok::<(DocumentView, int), Seq<char>>(
            (done + doc, (before.len() + members_text(doc, notation).len() + 1) as int),
        ),
    decreases doc, 0int,
{
    let text = members_text(doc, notation);
    let whole = before + text + seq!['}'] + after;
    let key = doc[0].0;
    let value = doc[0].1;
    let first = string_text(key) + seq![':', ' '] + value_text(value, notation);
    let end = (before.len() + first.len()) as int;
    let new = done.push((key, value));
    assert forall|j: int| 0 <= j < done.len() implies (#[trigger] done[j]).0 != key by {
        assert((done + doc)[j] == done[j]);
        assert((done + doc)[done.len() as int] == doc[0]);
    }
    lemma_first_field(done, key, done.len() as int, value);
    if doc.len() == 1 {
        let tail = seq!['}'] + after;
        lemma_field_inside(before, key, value, tail, notation, conversion);
        assert(before + first + tail =~= whole);
        assert(whole[end] == '}');
        assert(skip_spaces(whole, end) == end);
        assert(new =~= done + doc);
    } else {
        let rest = doc.drop_first();
        let inner = members_text(rest, notation);
        let tail = seq![',', ' '] + inner + seq!['}'] + after;
        lemma_field_inside(before, key, value, tail, notation, conversion);
        assert(before + first + tail =~= whole);
        assert(whole[end] == ',');
        assert(skip_spaces(whole, end) == end);
        assert forall|i: int| 0 <= i < rest.len() implies proper((#[trigger] rest[i]).1)
            && string_reads_back(rest[i].0) && reads_back(rest[i].1, notation, conversion) by {
            assert(rest[i] == doc[i + 1]);
        }
        assert(new + rest =~= done + doc);
        let next = before + first + seq![',', ' '];
        lemma_members_inside(next, rest, after, new, notation, conversion);
        assert(next + inner + seq!['}'] + after =~= whole);
        assert(whole[end + 1] == ' ');
        lemma_space_before_members(whole, end + 1, new, conversion);
    }
}

/// What is written for a document is parsed as the document, if its strings,
/// names and floating-point numbers read back.
pub proof fn law_documents_read_back(
    doc: DocumentView,
    notation: Notation,
    conversion: Conversion,
)
    requires
        proper(ValueView::Document(doc)),
        reads_back(ValueView::Document(doc), notation, conversion),
    ensures
        document_of_text(document_text(doc, notation), conversion) == Ok::<
            DocumentView,
            Seq<char>,
        >(doc),
{
    let text = document_text(doc, notation);
    let empty = Seq::<char>::empty();
    lemma_value_inside(empty, ValueView::Document(doc), empty, notation, conversion);
    assert(empty + text + empty =~= text);
}

/// All strings and names in the value are plain, and its floating-point numbers
/// read back.
pub open spec fn is_plain_value(
    value: ValueView,
    notation: Notation,
    conversion: Conversion,
) -> bool
    decreases value,
{
    match value {
        ValueView::Float(f) => float_reads_back(f, notation, conversion),
        ValueView::Str(s) => all_plain(s),
        ValueView::Array(items) => forall|i: int|
            0 <= i < items.len() ==> is_plain_value(#[trigger] items[i], notation, conversion),
        ValueView::Document(doc) => forall|i: int|
            0 <= i < doc.len() ==> all_plain((#[trigger] doc[i]).0) && is_plain_value(
                doc[i].1,
                notation,
                conversion,
            ),
        _ => true,
    }
}

proof fn lemma_plain_value(value: ValueView, notation: Notation, conversion: Conversion)
    requires
        is_plain_value(value, notation, conversion),
    ensures
        reads_back(value, notation, conversion),
    decreases value,
{
    match value {
        ValueView::Str(s) => {
            law_plain_strings_read_back(s);
        },
        ValueView::Array(items) => {
            assert forall|i: int| 0 <= i < items.len() implies reads_back(
                #[trigger] items[i],
                notation,
                conversion,
            ) by {
                lemma_plain_value(items[i], notation, conversion);
            }
        },
        ValueView::Document(doc) => {
            assert forall|i: int| 0 <= i < doc.len() implies string_reads_back(
                (#[trigger] doc[i]).0,
            ) && reads_back(doc[i].1, notation, conversion) by {
                law_plain_strings_read_back(doc[i].0);
                lemma_plain_value(doc[i].1, notation, conversion);
            }
        },
        _ => {},
    }
}

/// What is written for a document of plain strings is parsed as the document:
/// the same fields in the same order, each with the same value. Its
/// floating-point numbers must read back, which one that is written without a
/// point or an exponent does not.
pub proof fn law_plain_documents_read_back(
    doc: DocumentView,
    notation: Notation,
    conversion: Conversion,
)
    requires
        proper(ValueView::Document(doc)),
        is_plain_value(ValueView::Document(doc), notation, conversion),
    ensures
        document_of_text(document_text(doc, notation), conversion) == Ok::<
            DocumentView,
            Seq<char>,
        >(doc),
{
    lemma_plain_value(ValueView::Document(doc), notation, conversion);
    law_documents_read_back(doc, notation, conversion);
}

/// In what is parsed, no document has two fields with the same name.
pub proof fn law_parsed_is_proper(chars: Seq<char>, conversion: Conversion)
    ensures
        value_of_text(chars, conversion) matches Ok(value) ==> proper(value),
        document_of_text(chars, conversion) matches Ok(doc) ==> proper(ValueView::Document(doc)),
{
    lemma_value_proper(chars, 0, conversion);
}

proof fn lemma_value_proper(chars: Seq<char>, pos: int, conversion: Conversion)
    requires
        0 <= pos <= chars.len(),
    ensures
        parse_value_at(chars, pos, conversion) matches Ok((value, _)) ==> proper(value),
    decreases chars.len() - pos, 0int,
{
    let start = skip_spaces(chars, pos);
    lemma_skip_spaces(chars, pos);
    if start < chars.len() {
        if chars[start] == '{' {
            lemma_members_proper(chars, start + 1, Seq::empty(), conversion);
        } else if chars[start] == '[' {
            lemma_elements_proper(chars, start + 1, Seq::empty(), conversion);
        }
    }
}

proof fn lemma_members_proper(
    chars: Seq<char>,
    pos: int,
    doc: DocumentView,
    conversion: Conversion,
)
    requires
        0 <= pos <= chars.len(),
        proper(ValueView::Document(doc)),
    ensures
        parse_members(chars, pos, doc, conversion) matches Ok((all, _)) ==> proper(
            ValueView::Document(all),
        ),
    decreases chars.len() - pos, 1int,
{
    let name_start = skip_spaces(chars, pos);
    lemma_skip_spaces(chars, pos);
    lemma_string_ends(chars, name_start);
    match parse_string(chars, name_start) {
        Ok((key, name_end)) => {
            let colon = skip_spaces(chars, name_end);
            lemma_skip_spaces(chars, name_end);
            if colon < chars.len() && chars[colon] == ':' {
                lemma_value_ends(chars, colon + 1, conversion);
                lemma_value_proper(chars, colon + 1, conversion);
                match parse_value_at(chars, colon + 1, conversion) {
                    Ok((value, value_end)) => {
                        let next = skip_spaces(chars, value_end);
                        lemma_skip_spaces(chars, value_end);
                        law_names_stay_distinct(doc, key, value);
                        if next < chars.len() {
                            lemma_members_proper(
                                chars,
                                next + 1,
                                doc_insert(doc, key, value),
                                conversion,
                            );
                        }
                    },
                    Err(_) => {},
                }
            }
        },
        Err(_) => {},
    }
}

proof fn lemma_elements_proper(
    chars: Seq<char>,
    pos: int,
    items: Seq<ValueView>,
    conversion: Conversion,
)
    requires
        0 <= pos <= chars.len(),
        forall|i: int| 0 <= i < items.len() ==> proper(#[trigger] items[i]),
    ensures
        parse_elements(chars, pos, items, conversion) matches Ok((all, _)) ==> forall|i: int|
            0 <= i < all.len() ==> proper(#[trigger] all[i]),
    decreases chars.len() - pos, 1int,
{
    lemma_value_ends(chars, pos, conversion);
    lemma_value_proper(chars, pos, conversion);
    match parse_value_at(chars, pos, conversion) {
        Ok((item, item_end)) => {
            let next = skip_spaces(chars, item_end);
            lemma_skip_spaces(chars, item_end);
            if next < chars.len() {
                lemma_elements_proper(chars, next + 1, items.push(item), conversion);
            }
        },
        Err(_) => {},
    }
}

/// The parts one after the other, with `separator` between them.
pub open spec fn joined(parts: Seq<Seq<char>>, separator: Seq<char>) -> Seq<char> {
    Seq::new(
        parts.len(),
        |i: int|
            if i + 1 < parts.len() {
                parts[i] + separator
            } else {
                parts[i]
            },
    ).flatten()
}

/// Joining begins with the first part.
pub proof fn lemma_joined(parts: Seq<Seq<char>>, separator: Seq<char>)
    ensures
        parts.len() == 0 ==> joined(parts, separator) == Seq::<char>::empty(),
        parts.len() == 1 ==> joined(parts, separator) == parts[0],
        parts.len() > 1 ==> joined(parts, separator) == parts[0] + separator + joined(
            parts.drop_first(),
            separator,
        ),
{
    let all = Seq::new(
        parts.len(),
        |i: int|
            if i + 1 < parts.len() {
                parts[i] + separator
            } else {
                parts[i]
            },
    );
    if parts.len() > 0 {
        let rest = parts.drop_first();
        let others = Seq::new(
            rest.len(),
            |i: int|
                if i + 1 < rest.len() {
                    rest[i] + separator
                } else {
                    rest[i]
                },
        );
        assert(all.drop_first() =~= others);
        assert(all.flatten() == all.first() + others.flatten());
        if parts.len() == 1 {
            assert(others.flatten() =~= Seq::empty());
            assert(all.flatten() =~= parts[0]);
        }
    }
}

/// How values are written: an array as its values between brackets, an object
/// as its names and values between braces, with a comma and a space between
/// them, and a colon and a space behind a name.
pub proof fn law_written_values(
    items: Seq<ValueView>,
    doc: DocumentView,
    f: Float,
    notation: Notation,
)
    ensures
        value_text(ValueView::Array(items), notation) == seq!['['] + joined(
            Seq::new(items.len(), |i: int| value_text(items[i], notation)),
            seq![',', ' '],
        ) + seq![']'],
        value_text(ValueView::Document(doc), notation) == seq!['{'] + joined(
            Seq::new(
                doc.len(),
                |i: int|
                    value_text(ValueView::Str(doc[i].0), notation) + seq![':', ' '] + value_text(
                        doc[i].1,
                        notation,
                    ),
            ),
            seq![',', ' '],
        ) + seq!['}'],
        document_text(doc, notation) == value_text(ValueView::Document(doc), notation),
        value_text(ValueView::Null, notation) =~= seq!['n', 'u', 'l', 'l'],
        value_text(ValueView::Bool(true), notation) =~= seq!['t', 'r', 'u', 'e'],
        value_text(ValueView::Bool(false), notation) =~= seq!['f', 'a', 'l', 's', 'e'],
        value_text(ValueView::Float(f), notation) == notation(f),
{
    reveal_strlit("null");
    reveal_strlit("true");
    reveal_strlit("false");
    lemma_elements_joined(items, notation);
    lemma_members_joined(doc, notation);
}

proof fn lemma_elements_joined(items: Seq<ValueView>, notation: Notation)
    ensures
        elements_text(items, notation) == joined(
            Seq::new(items.len(), |i: int| value_text(items[i], notation)),
            seq![',', ' '],
        ),
    decreases items.len(),
{
    let parts = Seq::new(items.len(), |i: int| value_text(items[i], notation));
    lemma_joined(parts, seq![',', ' ']);
    if items.len() > 1 {
        let rest = items.drop_first();
        lemma_elements_joined(rest, notation);
        assert(parts.drop_first() =~= Seq::new(
            rest.len(),
            |i: int| value_text(rest[i], notation),
        ));
    }
}

proof fn lemma_members_joined(doc: DocumentView, notation: Notation)
    ensures
        members_text(doc, notation) == joined(
            Seq::new(
                doc.len(),
                |i: int|
                    value_text(ValueView::Str(doc[i].0), notation) + seq![':', ' '] + value_text(
                        doc[i].1,
                        notation,
                    ),
            ),
            seq![',', ' '],
        ),
    decreases doc.len(),
{
    let parts = Seq::new(
        doc.len(),
        |i: int|
            value_text(ValueView::Str(doc[i].0), notation) + seq![':', ' '] + value_text(
                doc[i].1,
                notation,
            ),
    );
    lemma_joined(parts, seq![',', ' ']);
    if doc.len() > 1 {
        let rest = doc.drop_first();
        lemma_members_joined(rest, notation);
        assert(parts.drop_first() =~= Seq::new(
            rest.len(),
            |i: int|
                value_text(ValueView::Str(rest[i].0), notation) + seq![':', ' '] + value_text(
                    rest[i].1,
                    notation,
                ),
        ));
    }
}

/// How a string of printable ASCII characters, newlines, tabs and carriage
/// returns is written: between quotes, character by character. Quotes and
/// backslashes get a backslash before them, and so do the letters that stand
/// for a newline, a tab and a carriage return.
pub proof fn law_written_strings(text: Seq<char>, notation: Notation)
    requires
        forall|i: int|
            0 <= i < text.len() ==> ' ' <= #[trigger] text[i] <= '~' || text[i] == '\n' || text[i]
                == '\t' || text[i] == '\r',
    ensures
        value_text(ValueView::Str(text), notation) == seq!['"'] + joined(
            Seq::new(
                text.len(),
                |i: int|
                    if text[i] == '"' || text[i] == '\\' {
                        seq!['\\', text[i]]
                    } else if text[i] == '\n' {
                        seq!['\\', 'n']
                    } else if text[i] == '\t' {
                        seq!['\\', 't']
                    } else if text[i] == '\r' {
                        seq!['\\', 'r']
                    } else {
                        seq![text[i]]
                    },
            ),
            Seq::empty(),
        ) + seq!['"'],
{
    assert(all_plain(text));
    lemma_escaped_joined(text);
    let parts = Seq::new(text.len(), |i: int| escape(text[i]));
    assert(parts =~= Seq::new(
        text.len(),
        |i: int|
            if text[i] == '"' || text[i] == '\\' {
                seq!['\\', text[i]]
            } else if text[i] == '\n' {
                seq!['\\', 'n']
            } else if text[i] == '\t' {
                seq!['\\', 't']
            } else if text[i] == '\r' {
                seq!['\\', 'r']
            } else {
                seq![text[i]]
            },
    ));
}

proof fn lemma_escaped_joined(text: Seq<char>)
    ensures
        escape_all(text) == joined(
            Seq::new(text.len(), |i: int| escape(text[i])),
            Seq::empty(),
        ),
    decreases text.len(),
{
    let none = Seq::<char>::empty();
    let parts = Seq::new(text.len(), |i: int| escape(text[i]));
    lemma_joined(parts, none);
    if text.len() > 0 {
        let rest = text.drop_first();
        let others = Seq::new(rest.len(), |i: int| escape(rest[i]));
        lemma_escaped_joined(rest);
        assert(parts.drop_first() =~= others);
        if text.len() == 1 {
            assert(escape_all(rest) =~= none);
            assert(escape(text[0]) + none =~= escape(text[0]));
        } else {
            assert(parts[0] + none + joined(others, none) =~= escape(text[0]) + escape_all(rest));
        }
    }
}

/// How integers are written: in decimal digits without leading zeros, behind a
/// minus sign if they are negative.
pub proof fn law_written_integers(n: i64, notation: Notation)
    ensures
        ({
            let text = value_text(ValueView::Int(n), notation);
            let digits = if n < 0 {
                text.drop_first()
            } else {
                text
            };
            &&& n < 0 ==> text.len() > 0 && text[0] == '-'
            &&& digits.len() > 0
            &&& digits.len() > 1 ==> digits[0] != '0'
            &&& forall|i: int| 0 <= i < digits.len() ==> '0' <= #[trigger] digits[i] <= '9'
            &&& digits_value(digits) == if n < 0 {
                -n
            } else {
                n as int
            }
        }),
{
    let text = value_text(ValueView::Int(n), notation);
    let size = (if n < 0 {
        -n
    } else {
        n as int
    }) as nat;
    lemma_nat_text(size);
    lemma_no_leading_zero(size);
    if n < 0 {
        assert(text.drop_first() =~= nat_text(size));
    }
}

proof fn lemma_no_leading_zero(n: nat)
    ensures
        nat_text(n).len() > 0,
        nat_text(n)[0] == '0' ==> n == 0 && nat_text(n).len() == 1,
    decreases n,
{
    if n >= 10 {
        lemma_no_leading_zero(n / 10);
        assert(nat_text(n)[0] == nat_text(n / 10)[0]);
    }
}

/// What digits stand for: each digit further to the left counts ten times as
/// much.
pub proof fn law_value_of_digits(text: Seq<char>, digit: char)
    requires
        '0' <= digit <= '9',
    ensures
        digits_value(Seq::empty()) == 0,
        digits_value(text.push(digit)) == 10 * digits_value(text) + (digit as int - '0' as int),
{
    assert(text.push(digit).drop_last() =~= text);
}

/// Which characters are whitespace.
pub proof fn law_whitespace(c: char)
    ensures
        is_space(c) <==> {
            let code = c as u32;
            ||| code == 9
            ||| code == 10
            ||| code == 11
            ||| code == 12
            ||| code == 13
            ||| code == 32
            ||| code == 133
            ||| code == 160
            ||| code == 5760
            ||| 8192 <= code <= 8202
            ||| code == 8232
            ||| code == 8233
            ||| code == 8239
            ||| code == 8287
            ||| code == 12288
        },
{
}

} // verus!
