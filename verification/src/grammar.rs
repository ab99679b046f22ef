//! The grammar of JSON text: every way in which a value can be written.
//!
//! A value is written as a tree of parts, each with the whitespace around it.
//! What such a tree looks like as text and what it means are stated here
//! without regard to how text is parsed.

use crate::document;
use crate::document::DocumentView;
use crate::document::ValueView;
use crate::document::doc_get;
use crate::document::doc_insert;
use crate::json;
use crate::json::Conversion;
use crate::json::digits_value;
use crate::json::document_of_text;
use crate::json::is_digit;
use crate::json::is_float_text;
use crate::json::is_number_char;
use crate::json::is_space;
use crate::json::number_end;
use crate::json::parse_elements;
use crate::json::parse_members;
use crate::json::parse_string;
use crate::json::parse_string_rest;
use crate::json::parse_value_at;
use crate::json::skip_spaces;
use crate::json::starts_with;
use crate::json::value_of_text;
use vstd::prelude::*;

verus! {

/// One character of a string: as it is, or behind a backslash.
pub enum Glyph {
    Plain(char),
    Escaped(char),
}

/// A value as it is written. Each value of an array and of an object has the
/// whitespace before it and behind it, and each name of an object too. An array
/// or an object without values may hold whitespace.
pub enum Written {
    Null,
    Bool(bool),
    Int { negative: bool, digits: Seq<char> },
    Float(Seq<char>),
    Str(Seq<Glyph>),
    Array { blank: Seq<char>, items: Seq<Element> },
    Object { blank: Seq<char>, members: Seq<Member> },
}

/// A value of an array with the whitespace around it.
pub struct Element {
    pub before: Seq<char>,
    pub value: Written,
    pub behind: Seq<char>,
}

/// A field of an object with the whitespace around its parts.
pub struct Member {
    pub before: Seq<char>,
    pub name: Seq<Glyph>,
    pub gap: Seq<char>,
    pub element: Element,
}

/// All characters are whitespace.
pub open spec fn is_blank(text: Seq<char>) -> bool {
    forall|i: int| 0 <= i < text.len() ==> is_space(#[trigger] text[i])
}

/// The text of one character of a string.
pub open spec fn glyph_text(glyph: Glyph) -> Seq<char> {
    match glyph {
        Glyph::Plain(c) => seq![c],
        Glyph::Escaped(c) => seq!['\\', c],
    }
}

/// The text of the characters of a string.
pub open spec fn glyphs_text(glyphs: Seq<Glyph>) -> Seq<char>
    decreases glyphs.len(),
{
    if glyphs.len() == 0 {
        Seq::empty()
    } else {
        glyph_text(glyphs[0]) + glyphs_text(glyphs.drop_first())
    }
}

/// The character that stands behind a backslash for another one.
pub open spec fn meaning_of_escape(c: char) -> char {
    if c == 'n' {
        '\n'
    } else if c == 't' {
        '\t'
    } else if c == 'r' {
        '\r'
    } else {
        c
    }
}

/// The characters of a string.
pub open spec fn glyphs_meaning(glyphs: Seq<Glyph>) -> Seq<char> {
    Seq::new(
        glyphs.len(),
        |i: int|
            match glyphs[i] {
                Glyph::Plain(c) => c,
                Glyph::Escaped(c) => meaning_of_escape(c),
            },
    )
}

/// A quote or a backslash stands behind a backslash only, and nothing stands
/// behind one but those, a slash and the letters n, t and r.
pub open spec fn glyph_valid(glyph: Glyph) -> bool {
    match glyph {
        Glyph::Plain(c) => c != '"' && c != '\\',
        Glyph::Escaped(c) => c == '"' || c == '\\' || c == '/' || c == 'n' || c == 't' || c == 'r',
    }
}

/// All characters of a string are written as they can be.
pub open spec fn glyphs_valid(glyphs: Seq<Glyph>) -> bool {
    forall|i: int| 0 <= i < glyphs.len() ==> glyph_valid(#[trigger] glyphs[i])
}

/// A string as it is written.
pub open spec fn string_written(glyphs: Seq<Glyph>) -> Seq<char> {
    seq!['"'] + glyphs_text(glyphs) + seq!['"']
}

/// The text of a value.
pub open spec fn text_of(value: Written) -> Seq<char>
    decreases value,
{
    match value {
        Written::Null => seq!['n', 'u', 'l', 'l'],
        Written::Bool(true) => seq!['t', 'r', 'u', 'e'],
        Written::Bool(false) => seq!['f', 'a', 'l', 's', 'e'],
        Written::Int { negative, digits } => if negative {
            seq!['-'] + digits
        } else {
            digits
        },
        Written::Float(text) => text,
        Written::Str(glyphs) => string_written(glyphs),
        Written::Array { blank, items } => if items.len() == 0 {
            seq!['['] + blank + seq![']']
        } else {
            seq!['['] + items_text(items)
        },
        Written::Object { blank, members } => if members.len() == 0 {
            seq!['{'] + blank + seq!['}']
        } else {
            seq!['{'] + members_text(members)
        },
    }
}

/// The text of the values of an array, up to the closing bracket.
pub open spec fn items_text(items: Seq<Element>) -> Seq<char>
    decreases items,
{
    if items.len() == 0 {
        Seq::empty()
    } else {
        items[0].before + text_of(items[0].value) + items[0].behind + if items.len() == 1 {
            seq![']']
        } else {
            seq![','] + items_text(items.drop_first())
        }
    }
}

/// The text of the fields of an object, up to the closing brace.
pub open spec fn members_text(members: Seq<Member>) -> Seq<char>
    decreases members,
{
    if members.len() == 0 {
        Seq::empty()
    } else {
        members[0].before + string_written(members[0].name) + members[0].gap + seq![':']
            + members[0].element.before + text_of(members[0].element.value)
            + members[0].element.behind + if members.len() == 1 {
            seq!['}']
        } else {
            seq![','] + members_text(members.drop_first())
        }
    }
}

/// The number that an integer stands for.
pub open spec fn integer_meaning(negative: bool, digits: Seq<char>) -> int {
    if negative {
        -(digits_value(digits) as int)
    } else {
        digits_value(digits) as int
    }
}

/// The value is written as values are: whitespace is whitespace, digits are
/// digits, an integer is not too large, and a floating-point number is one of
/// the conversion and not written like an integer.
pub open spec fn valid(value: Written, conversion: Conversion) -> bool
    decreases value,
{
    match value {
        Written::Int { negative, digits } => {
            &&& digits.len() > 0
            &&& forall|i: int| 0 <= i < digits.len() ==> '0' <= #[trigger] digits[i] <= '9'
            &&& i64::MIN <= integer_meaning(negative, digits) <= i64::MAX
        },
        Written::Float(text) => {
            &&& text.len() > 0
            &&& '0' <= text[0] <= '9' || text[0] == '-'
            &&& forall|i: int|
                0 <= i < text.len() ==> {
                    ||| '0' <= #[trigger] text[i] <= '9'
                    ||| text[i] == '.'
                    ||| text[i] == 'e'
                    ||| text[i] == 'E'
                    ||| text[i] == '+'
                    ||| text[i] == '-'
                }
            &&& exists|i: int|
                0 <= i < text.len() && !('0' <= #[trigger] text[i] <= '9') && (i > 0 || text[i]
                    != '-')
            &&& conversion(text) is Some
        },
        Written::Str(glyphs) => glyphs_valid(glyphs),
        Written::Array { blank, items } => {
            &&& is_blank(blank)
            &&& forall|i: int|
                0 <= i < items.len() ==> is_blank((#[trigger] items[i]).before) && is_blank(
                    items[i].behind,
                ) && valid(items[i].value, conversion)
        },
        Written::Object { blank, members } => {
            &&& is_blank(blank)
            &&& forall|i: int|
                0 <= i < members.len() ==> is_blank((#[trigger] members[i]).before) && is_blank(
                    members[i].gap,
                ) && is_blank(members[i].element.before) && is_blank(members[i].element.behind)
                    && glyphs_valid(members[i].name) && valid(members[i].element.value, conversion)
        },
        _ => true,
    }
}

/// What a value means. A field whose name comes again gets the later value.
pub open spec fn meaning(value: Written, conversion: Conversion) -> ValueView
    decreases value,
{
    match value {
        Written::Null => ValueView::Null,
        Written::Bool(b) => ValueView::Bool(b),
        Written::Int { negative, digits } => ValueView::Int(
            integer_meaning(negative, digits) as i64,
        ),
        Written::Float(text) => ValueView::Float(conversion(text)->0),
        Written::Str(glyphs) => ValueView::Str(glyphs_meaning(glyphs)),
        Written::Array { items, .. } => ValueView::Array(
            Seq::new(
                items.len(),
                |i: int|
                    if 0 <= i < items.len() {
                        meaning(items[i].value, conversion)
                    } else {
                        ValueView::Null
                    },
            ),
        ),
        Written::Object { members, .. } => ValueView::Document(
            members_meaning(Seq::empty(), members, conversion),
        ),
    }
}

/// The document with the fields of an object set one after the other.
pub open spec fn members_meaning(
    doc: DocumentView,
    members: Seq<Member>,
    conversion: Conversion,
) -> DocumentView
    decreases members,
{
    if members.len() == 0 {
        doc
    } else {
        members_meaning(
            doc_insert(
                doc,
                glyphs_meaning(members[0].name),
                meaning(members[0].element.value, conversion),
            ),
            members.drop_first(),
            conversion,
        )
    }
}

/// A text that consists of two parts goes on with each of them.
proof fn lemma_parts(chars: Seq<char>, pos: int, a: Seq<char>, b: Seq<char>)
    requires
        0 <= pos,
    ensures
        starts_with(chars, pos, a + b) <==> starts_with(chars, pos, a) && starts_with(
            chars,
            pos + a.len(),
            b,
        ),
{
    let n = a.len() as int;
    if starts_with(chars, pos, a + b) {
        let all = chars.subrange(pos, pos + (a + b).len());
        assert(chars.subrange(pos, pos + n) =~= all.take(n));
        assert((a + b).take(n) =~= a);
        assert(chars.subrange(pos + n, pos + n + b.len()) =~= all.skip(n));
        assert((a + b).skip(n) =~= b);
    }
    if starts_with(chars, pos, a) && starts_with(chars, pos + n, b) {
        assert(chars.subrange(pos, pos + (a + b).len()) =~= chars.subrange(pos, pos + n)
            + chars.subrange(pos + n, pos + n + b.len()));
    }
}

proof fn lemma_char_at(chars: Seq<char>, pos: int, text: Seq<char>, i: int)
    requires
        0 <= pos,
        starts_with(chars, pos, text),
        0 <= i < text.len(),
    ensures
        chars[pos + i] == text[i],
{
    assert(chars.subrange(pos, pos + text.len())[i] == text[i]);
}

/// Whitespace is skipped up to what follows it.
proof fn lemma_blank(chars: Seq<char>, pos: int, blank: Seq<char>)
    requires
        0 <= pos,
        is_blank(blank),
        starts_with(chars, pos, blank),
        pos + blank.len() < chars.len() ==> !is_space(chars[pos + blank.len()]),
    ensures
        skip_spaces(chars, pos) == pos + blank.len(),
    decreases blank.len(),
{
    if blank.len() > 0 {
        let rest = blank.drop_first();
        lemma_char_at(chars, pos, blank, 0);
        assert(blank =~= seq![blank[0]] + rest);
        lemma_parts(chars, pos, seq![blank[0]], rest);
        assert forall|i: int| 0 <= i < rest.len() implies is_space(#[trigger] rest[i]) by {
            assert(rest[i] == blank[i + 1]);
        }
        lemma_blank(chars, pos + 1, rest);
    }
}

proof fn lemma_glyphs(chars: Seq<char>, pos: int, glyphs: Seq<Glyph>, done: Seq<char>)
    requires
        0 <= pos,
        glyphs_valid(glyphs),
        starts_with(chars, pos, glyphs_text(glyphs) + seq!['"']),
    ensures
        parse_string_rest(chars, pos, done) == Ok::<(Seq<char>, int), Seq<char>>(
            (done + glyphs_meaning(glyphs), pos + glyphs_text(glyphs).len() + 1),
        ),
    decreases glyphs.len(),
{
    let all = glyphs_text(glyphs) + seq!['"'];
    lemma_char_at(chars, pos, all, 0);
    if glyphs.len() == 0 {
        assert(done + glyphs_meaning(glyphs) =~= done);
    } else {
        let first = glyph_text(glyphs[0]);
        let rest = glyphs.drop_first();
        assert forall|i: int| 0 <= i < rest.len() implies glyph_valid(
            #[trigger] rest[i],
        ) by {
            assert(rest[i] == glyphs[i + 1]);
        }
        assert(all =~= first + (glyphs_text(rest) + seq!['"']));
        lemma_parts(chars, pos, first, glyphs_text(rest) + seq!['"']);
        assert(all[0] == first[0]);
        let c = glyphs_meaning(glyphs)[0];
        match glyphs[0] {
            Glyph::Plain(_) => {},
            Glyph::Escaped(_) => {
                lemma_char_at(chars, pos, all, 1);
                assert(all[1] == first[1]);
            },
        }
        lemma_glyphs(chars, pos + first.len(), rest, done.push(c));
        assert(done.push(c) + glyphs_meaning(rest) =~= done + glyphs_meaning(glyphs));
    }
}

proof fn lemma_string(chars: Seq<char>, pos: int, glyphs: Seq<Glyph>)
    requires
        0 <= pos,
        glyphs_valid(glyphs),
        starts_with(chars, pos, string_written(glyphs)),
    ensures
        parse_string(chars, pos) == Ok::<(Seq<char>, int), Seq<char>>(
            (glyphs_meaning(glyphs), pos + string_written(glyphs).len()),
        ),
{
    let inner = glyphs_text(glyphs) + seq!['"'];
    assert(string_written(glyphs) =~= seq!['"'] + inner);
    lemma_char_at(chars, pos, string_written(glyphs), 0);
    lemma_parts(chars, pos, seq!['"'], inner);
    lemma_glyphs(chars, pos + 1, glyphs, Seq::empty());
    assert(Seq::<char>::empty() + glyphs_meaning(glyphs) =~= glyphs_meaning(glyphs));
}

proof fn lemma_number_ends(chars: Seq<char>, pos: int, text: Seq<char>)
    requires
        0 <= pos,
        starts_with(chars, pos, text),
        forall|i: int| 0 <= i < text.len() ==> is_number_char(#[trigger] text[i]),
        pos + text.len() < chars.len() ==> !is_number_char(chars[pos + text.len()]),
    ensures
        number_end(chars, pos) == pos + text.len(),
    decreases text.len(),
{
    if text.len() > 0 {
        let rest = text.drop_first();
        lemma_char_at(chars, pos, text, 0);
        assert(text =~= seq![text[0]] + rest);
        lemma_parts(chars, pos, seq![text[0]], rest);
        assert forall|i: int| 0 <= i < rest.len() implies is_number_char(#[trigger] rest[i]) by {
            assert(rest[i] == text[i + 1]);
        }
        lemma_number_ends(chars, pos + 1, rest);
    }
}

/// A number, as it is written.
proof fn lemma_number(chars: Seq<char>, pos: int, value: Written, conversion: Conversion)
    requires
        0 <= pos,
        valid(value, conversion),
        value is Int || value is Float,
        starts_with(chars, pos, text_of(value)),
        pos + text_of(value).len() < chars.len() ==> !is_number_char(
            chars[pos + text_of(value).len()],
        ),
    ensures
        text_of(value).len() > 0,
        is_digit(text_of(value)[0]) || text_of(value)[0] == '-',
        json::parse_number(chars, pos, conversion) == Ok::<(ValueView, int), Seq<char>>(
            (meaning(value, conversion), pos + text_of(value).len()),
        ),
{
    let text = text_of(value);
    match value {
        Written::Int { negative, digits } => {
            assert forall|i: int| 0 <= i < text.len() implies is_number_char(
                #[trigger] text[i],
            ) by {
                if negative && i > 0 {
                    assert(text[i] == digits[i - 1]);
                }
            }
            assert(json::all_digits(digits));
            if negative {
                assert(text.drop_first() =~= digits);
            } else {
                assert(is_digit(text[0]));
            }
            assert(!is_float_text(text));
        },
        Written::Float(_) => {
            let k = choose|i: int|
                0 <= i < text.len() && !('0' <= #[trigger] text[i] <= '9') && (i > 0 || text[i]
                    != '-');
            if text[0] == '-' {
                assert(k > 0);
                assert(text.drop_first()[k - 1] == text[k]);
            } else {
                assert(!is_digit(text[k]));
            }
            assert(is_float_text(text));
        },
        _ => {},
    }
    lemma_number_ends(chars, pos, text);
    assert(chars.subrange(pos, pos + text.len()) == text);
}

/// A value, as it is written, is parsed as what it means.
proof fn lemma_value(chars: Seq<char>, pos: int, value: Written, conversion: Conversion)
    requires
        0 <= pos,
        valid(value, conversion),
        starts_with(chars, pos, text_of(value)),
        pos + text_of(value).len() < chars.len() ==> !is_number_char(
            chars[pos + text_of(value).len()],
        ),
    ensures
        text_of(value).len() > 0,
        !is_space(text_of(value)[0]),
        text_of(value)[0] != ']',
        parse_value_at(chars, pos, conversion) == Ok::<(ValueView, int), Seq<char>>(
            (meaning(value, conversion), pos + text_of(value).len()),
        ),
    decreases value, 0int,
{
    let text = text_of(value);
    let end = pos + text.len();
    if value is Int || value is Float {
        lemma_number(chars, pos, value, conversion);
    }
    lemma_char_at(chars, pos, text, 0);
    assert(skip_spaces(chars, pos) == pos);
    reveal_strlit("null");
    reveal_strlit("true");
    reveal_strlit("false");
    match value {
        Written::Null => {
            assert("null"@ =~= text);
            assert(chars[pos] == 'n');
            assert(starts_with(chars, pos, "null"@));
            assert(text.len() == 4);
            assert(meaning(value, conversion) == ValueView::Null);
        },
        Written::Bool(b) => {
            if b {
                assert("true"@ =~= text);
            } else {
                assert("false"@ =~= text);
                if starts_with(chars, pos, "true"@) {
                    lemma_char_at(chars, pos, "true"@, 0);
                }
            }
        },
        Written::Str(glyphs) => {
            lemma_string(chars, pos, glyphs);
        },
        Written::Array { blank, items } => {
            if items.len() == 0 {
                assert(text =~= seq!['['] + (blank + seq![']']));
                lemma_parts(chars, pos, seq!['['], blank + seq![']']);
                lemma_parts(chars, pos + 1, blank, seq![']']);
                lemma_char_at(chars, pos + 1 + blank.len(), seq![']'], 0);
                lemma_blank(chars, pos + 1, blank);
                assert(meaning(value, conversion)->Array_0 =~= Seq::empty());
            } else {
                lemma_parts(chars, pos, seq!['['], items_text(items));
                lemma_items(chars, pos + 1, items, Seq::empty(), conversion);
                assert(Seq::<ValueView>::empty() + values_of(items, conversion)
                    =~= meaning(value, conversion)->Array_0);
            }
        },
        Written::Object { blank, members } => {
            if members.len() == 0 {
                assert(text =~= seq!['{'] + (blank + seq!['}']));
                lemma_parts(chars, pos, seq!['{'], blank + seq!['}']);
                lemma_parts(chars, pos + 1, blank, seq!['}']);
                lemma_char_at(chars, pos + 1 + blank.len(), seq!['}'], 0);
                lemma_blank(chars, pos + 1, blank);
                assert(members_meaning(Seq::empty(), members, conversion) == Seq::<
                    (Seq<char>, ValueView),
                >::empty());
            } else {
                lemma_parts(chars, pos, seq!['{'], members_text(members));
                lemma_members(chars, pos + 1, members, Seq::empty(), conversion);
            }
        },
        _ => {},
    }
}

/// What the values of an array mean.
spec fn values_of(items: Seq<Element>, conversion: Conversion) -> Seq<ValueView> {
    Seq::new(items.len(), |i: int| meaning(items[i].value, conversion))
}

/// A value with whitespace around it.
proof fn lemma_element(
    chars: Seq<char>,
    pos: int,
    element: Element,
    conversion: Conversion,
)
    requires
        0 <= pos,
        is_blank(element.before),
        is_blank(element.behind),
        valid(element.value, conversion),
        starts_with(chars, pos, element.before + text_of(element.value) + element.behind),
        ({
            let next = pos + element.before.len() + text_of(element.value).len()
                + element.behind.len();
            next < chars.len() && (chars[next] == ',' || chars[next] == ']' || chars[next] == '}')
        }),
    ensures
        ({
            let start = pos + element.before.len();
            let end = start + text_of(element.value).len();
            &&& skip_spaces(chars, pos) == start
            &&& start < chars.len()
            &&& chars[start] != ']'
            &&& parse_value_at(chars, pos, conversion) == Ok::<(ValueView, int), Seq<char>>(
                (meaning(element.value, conversion), end),
            )
            &&& skip_spaces(chars, end) == end + element.behind.len()
        }),
    decreases element.value, 1int,
{
    let text = text_of(element.value);
    let start = pos + element.before.len();
    let end = start + text.len();
    let next = end + element.behind.len();
    lemma_parts(chars, pos, element.before + text, element.behind);
    lemma_parts(chars, pos, element.before, text);
    if element.behind.len() > 0 {
        lemma_char_at(chars, end, element.behind, 0);
        assert(is_space(element.behind[0]));
    } else {
        assert(end == next);
    }
    assert(!is_number_char(chars[end]));
    lemma_value(chars, start, element.value, conversion);
    lemma_char_at(chars, start, text, 0);
    lemma_blank(chars, pos, element.before);
    lemma_blank(chars, end, element.behind);
    assert(skip_spaces(chars, start) == start);
}

proof fn lemma_items(
    chars: Seq<char>,
    pos: int,
    items: Seq<Element>,
    done: Seq<ValueView>,
    conversion: Conversion,
)
    requires
        0 <= pos,
        items.len() > 0,
        forall|i: int|
            0 <= i < items.len() ==> is_blank((#[trigger] items[i]).before) && is_blank(
                items[i].behind,
            ) && valid(items[i].value, conversion),
        starts_with(chars, pos, items_text(items)),
    ensures
        skip_spaces(chars, pos) < chars.len(),
        chars[skip_spaces(chars, pos)] != ']',
        parse_elements(chars, pos, done, conversion) == Ok::<(Seq<ValueView>, int), Seq<char>>(
            (done + values_of(items, conversion), pos + items_text(items).len()),
        ),
    decreases items, 0int,
{
    let e = items[0];
    let text = e.before + text_of(e.value) + e.behind;
    let next = pos + text.len();
    let v = meaning(e.value, conversion);
    if items.len() == 1 {
        lemma_parts(chars, pos, text, seq![']']);
        lemma_char_at(chars, next, seq![']'], 0);
        lemma_element(chars, pos, e, conversion);
        assert(done.push(v) =~= done + values_of(items, conversion));
    } else {
        let rest = items.drop_first();
        let tail = seq![','] + items_text(rest);
        lemma_parts(chars, pos, text, tail);
        lemma_parts(chars, next, seq![','], items_text(rest));
        lemma_char_at(chars, next, seq![','], 0);
        lemma_element(chars, pos, e, conversion);
        assert forall|i: int| 0 <= i < rest.len() implies is_blank((#[trigger] rest[i]).before)
            && is_blank(rest[i].behind) && valid(rest[i].value, conversion) by {
            assert(rest[i] == items[i + 1]);
        }
        lemma_items(chars, next + 1, rest, done.push(v), conversion);
        assert(done.push(v) + values_of(rest, conversion) =~= done + values_of(items, conversion));
    }
}

proof fn lemma_members(
    chars: Seq<char>,
    pos: int,
    members: Seq<Member>,
    done: DocumentView,
    conversion: Conversion,
)
    requires
        0 <= pos,
        members.len() > 0,
        forall|i: int|
            0 <= i < members.len() ==> is_blank((#[trigger] members[i]).before) && is_blank(
                members[i].gap,
            ) && is_blank(members[i].element.before) && is_blank(members[i].element.behind)
                && glyphs_valid(members[i].name) && valid(members[i].element.value, conversion),
        starts_with(chars, pos, members_text(members)),
    ensures
        skip_spaces(chars, pos) < chars.len(),
        chars[skip_spaces(chars, pos)] == '"',
        parse_members(chars, pos, done, conversion) == Ok::<(DocumentView, int), Seq<char>>(
            (members_meaning(done, members, conversion), pos + members_text(members).len()),
        ),
    decreases members, 0int,
{
    let m = members[0];
    let e = m.element;
    let name = string_written(m.name);
    let text = e.before + text_of(e.value) + e.behind;
    let tail = if members.len() == 1 {
        seq!['}']
    } else {
        seq![','] + members_text(members.drop_first())
    };
    let rest = members.drop_first();
    let name_at = pos + m.before.len();
    let gap_at = name_at + name.len();
    let colon = gap_at + m.gap.len();
    let value_at = colon + 1;
    let next = value_at + text.len();
    assert(members_text(members) =~= m.before + (name + (m.gap + (seq![':'] + (text + tail)))));
    lemma_parts(chars, pos, m.before, name + (m.gap + (seq![':'] + (text + tail))));
    lemma_parts(chars, name_at, name, m.gap + (seq![':'] + (text + tail)));
    lemma_parts(chars, gap_at, m.gap, seq![':'] + (text + tail));
    lemma_parts(chars, colon, seq![':'], text + tail);
    lemma_parts(chars, value_at, text, tail);
    lemma_char_at(chars, name_at, name, 0);
    lemma_char_at(chars, colon, seq![':'], 0);
    lemma_char_at(chars, next, tail, 0);
    lemma_blank(chars, pos, m.before);
    lemma_string(chars, name_at, m.name);
    lemma_blank(chars, gap_at, m.gap);
    lemma_element(chars, value_at, e, conversion);
    let new = doc_insert(done, glyphs_meaning(m.name), meaning(e.value, conversion));
    if members.len() == 1 {
        assert(members_meaning(new, rest, conversion) == new);
    } else {
        lemma_parts(chars, next, seq![','], members_text(rest));
        assert forall|i: int| 0 <= i < rest.len() implies is_blank((#[trigger] rest[i]).before)
            && is_blank(rest[i].gap) && is_blank(rest[i].element.before) && is_blank(
            rest[i].element.behind,
        ) && glyphs_valid(rest[i].name) && valid(rest[i].element.value, conversion) by {
            assert(rest[i] == members[i + 1]);
        }
        lemma_members(chars, next + 1, rest, new, conversion);
    }
}

/// Every text that a value can be written as is parsed as the value: with any
/// whitespace, or none, around its parts, and with any of the ways to write a
/// character of a string.
pub proof fn law_every_writing_is_parsed(
    before: Seq<char>,
    value: Written,
    behind: Seq<char>,
    conversion: Conversion,
)
    requires
        is_blank(before),
        is_blank(behind),
        valid(value, conversion),
    ensures
        value_of_text(before + text_of(value) + behind, conversion) == Ok::<ValueView, Seq<char>>(
            meaning(value, conversion),
        ),
        meaning(value, conversion) matches ValueView::Document(doc) ==> document_of_text(
            before + text_of(value) + behind,
            conversion,
        ) == Ok::<DocumentView, Seq<char>>(doc),
{
    let chars = before + text_of(value) + behind;
    let start = before.len() as int;
    let end = start + text_of(value).len();
    assert(chars.subrange(0, before.len() as int) =~= before);
    assert(chars.subrange(start, end) =~= text_of(value));
    assert(chars.subrange(end, end + behind.len()) =~= behind);
    if behind.len() > 0 {
        assert(chars[end] == behind[0]);
        assert(is_space(behind[0]));
    }
    lemma_value(chars, start, value, conversion);
    assert(chars[start] == text_of(value)[0]);
    lemma_blank(chars, 0, before);
    lemma_blank(chars, end, behind);
    assert(skip_spaces(chars, start) == start);
    assert(parse_value_at(chars, 0, conversion) == parse_value_at(chars, start, conversion));
}

/// What was skipped is whitespace.
proof fn lemma_skipped(chars: Seq<char>, pos: int)
    requires
        0 <= pos <= chars.len(),
    ensures
        pos <= skip_spaces(chars, pos) <= chars.len(),
        is_blank(chars.subrange(pos, skip_spaces(chars, pos))),
        skip_spaces(chars, pos) < chars.len() ==> !is_space(chars[skip_spaces(chars, pos)]),
    decreases chars.len() - pos,
{
    let end = skip_spaces(chars, pos);
    json::lemma_skip_spaces(chars, pos);
    if pos < chars.len() && is_space(chars[pos]) {
        lemma_skipped(chars, pos + 1);
        let blank = chars.subrange(pos, end);
        let rest = chars.subrange(pos + 1, end);
        assert forall|i: int| 0 <= i < blank.len() implies is_space(#[trigger] blank[i]) by {
            if i > 0 {
                assert(rest[i - 1] == blank[i]);
            }
        }
    }
}

proof fn lemma_glyphs_of(chars: Seq<char>, pos: int, done: Seq<char>) -> (glyphs: Seq<Glyph>)
    requires
        0 <= pos,
        parse_string_rest(chars, pos, done) is Ok,
    ensures
        glyphs_valid(glyphs),
        starts_with(chars, pos, glyphs_text(glyphs) + seq!['"']),
        parse_string_rest(chars, pos, done) == Ok::<(Seq<char>, int), Seq<char>>(
            (done + glyphs_meaning(glyphs), pos + glyphs_text(glyphs).len() + 1),
        ),
    decreases chars.len() - pos,
{
    if chars[pos] == '"' {
        let none = Seq::<Glyph>::empty();
        assert(glyphs_text(none) + seq!['"'] =~= seq!['"']);
        assert(chars.subrange(pos, pos + 1) =~= seq!['"']);
        assert(done + glyphs_meaning(none) =~= done);
        none
    } else {
        let glyph = if chars[pos] == '\\' {
            Glyph::Escaped(chars[pos + 1])
        } else {
            Glyph::Plain(chars[pos])
        };
        let c = match glyph {
            Glyph::Plain(c) => c,
            Glyph::Escaped(c) => meaning_of_escape(c),
        };
        let first = glyph_text(glyph);
        assert(glyph_valid(glyph));
        let rest = lemma_glyphs_of(chars, pos + first.len(), done.push(c));
        assert(chars.subrange(pos, pos + first.len()) =~= first);
        lemma_glyph_before(glyph, rest);
        lemma_parts(chars, pos, first, glyphs_text(rest) + seq!['"']);
        assert(done.push(c) + glyphs_meaning(rest) =~= done + (seq![c] + glyphs_meaning(rest)));
        seq![glyph] + rest
    }
}

/// One more character before a string.
proof fn lemma_glyph_before(glyph: Glyph, rest: Seq<Glyph>)
    requires
        glyph_valid(glyph),
        glyphs_valid(rest),
    ensures
        ({
            let all = seq![glyph] + rest;
            let c = match glyph {
                Glyph::Plain(c) => c,
                Glyph::Escaped(c) => meaning_of_escape(c),
            };
            &&& glyphs_valid(all)
            &&& glyphs_text(all) == glyph_text(glyph) + glyphs_text(rest)
            &&& glyphs_text(all) + seq!['"'] == glyph_text(glyph) + (glyphs_text(rest) + seq!['"'])
            &&& glyphs_meaning(all) == seq![c] + glyphs_meaning(rest)
        }),
{
    let all = seq![glyph] + rest;
    let c = match glyph {
        Glyph::Plain(c) => c,
        Glyph::Escaped(c) => meaning_of_escape(c),
    };
    assert(all.drop_first() =~= rest);
    assert(all[0] == glyph);
    assert(glyphs_text(all) + seq!['"'] =~= glyph_text(glyph) + (glyphs_text(rest) + seq!['"']));
    assert(glyphs_meaning(all) =~= seq![c] + glyphs_meaning(rest));
    assert forall|i: int| 0 <= i < all.len() implies glyph_valid(#[trigger] all[i]) by {
        if i > 0 {
            assert(all[i] == rest[i - 1]);
        }
    }
}

proof fn lemma_string_of(chars: Seq<char>, pos: int) -> (glyphs: Seq<Glyph>)
    requires
        0 <= pos,
        parse_string(chars, pos) is Ok,
    ensures
        glyphs_valid(glyphs),
        starts_with(chars, pos, string_written(glyphs)),
        parse_string(chars, pos) == Ok::<(Seq<char>, int), Seq<char>>(
            (glyphs_meaning(glyphs), pos + string_written(glyphs).len()),
        ),
{
    let glyphs = lemma_glyphs_of(chars, pos + 1, Seq::empty());
    let inner = glyphs_text(glyphs) + seq!['"'];
    assert(string_written(glyphs) =~= seq!['"'] + inner);
    assert(chars.subrange(pos, pos + 1) =~= seq!['"']);
    lemma_parts(chars, pos, seq!['"'], inner);
    assert(Seq::<char>::empty() + glyphs_meaning(glyphs) =~= glyphs_meaning(glyphs));
    glyphs
}

proof fn lemma_number_chars(chars: Seq<char>, pos: int)
    requires
        0 <= pos <= chars.len(),
    ensures
        pos <= number_end(chars, pos) <= chars.len(),
        forall|i: int| pos <= i < number_end(chars, pos) ==> is_number_char(#[trigger] chars[i]),
        pos < chars.len() && is_number_char(chars[pos]) ==> pos < number_end(chars, pos),
    decreases chars.len() - pos,
{
    if pos < chars.len() && is_number_char(chars[pos]) {
        lemma_number_chars(chars, pos + 1);
    }
}

proof fn lemma_number_of(chars: Seq<char>, pos: int, conversion: Conversion) -> (value: Written)
    requires
        0 <= pos < chars.len(),
        is_digit(chars[pos]) || chars[pos] == '-',
        json::parse_number(chars, pos, conversion) is Ok,
    ensures
        valid(value, conversion),
        starts_with(chars, pos, text_of(value)),
        json::parse_number(chars, pos, conversion) == Ok::<(ValueView, int), Seq<char>>(
            (meaning(value, conversion), pos + text_of(value).len()),
        ),
{
    let end = number_end(chars, pos);
    let text = chars.subrange(pos, end);
    lemma_number_chars(chars, pos);
    assert(text[0] == chars[pos]);
    assert forall|i: int| 0 <= i < text.len() implies is_number_char(#[trigger] text[i]) by {
        assert(text[i] == chars[pos + i]);
    }
    if is_float_text(text) {
        let value = Written::Float(text);
        if text[0] == '-' {
            let rest = text.drop_first();
            let k = choose|i: int| 0 <= i < rest.len() && !is_digit(#[trigger] rest[i]);
            assert(text[k + 1] == rest[k]);
            assert(!('0' <= text[k + 1] <= '9') && (k + 1 > 0 || text[k + 1] != '-'));
        } else {
            let k = choose|i: int| 0 <= i < text.len() && !is_digit(#[trigger] text[i]);
            assert(!('0' <= text[k] <= '9') && (k > 0 || text[k] != '-'));
        }
        assert(valid(value, conversion));
        value
    } else {
        let negative = text[0] == '-';
        let digits = if negative {
            text.drop_first()
        } else {
            text
        };
        let value = Written::Int { negative, digits };
        assert(json::all_digits(digits));
        assert forall|i: int| 0 <= i < digits.len() implies '0' <= #[trigger] digits[i] <= '9' by {
            assert(is_digit(digits[i]));
        }
        assert(text_of(value) =~= text);
        value
    }
}

/// What is parsed was written as a value that means it.
proof fn lemma_value_of(chars: Seq<char>, pos: int, conversion: Conversion) -> (value: Written)
    requires
        0 <= pos <= chars.len(),
        parse_value_at(chars, pos, conversion) is Ok,
    ensures
        valid(value, conversion),
        starts_with(chars, skip_spaces(chars, pos), text_of(value)),
        text_of(value).len() > 0,
        parse_value_at(chars, pos, conversion) == Ok::<(ValueView, int), Seq<char>>(
            (meaning(value, conversion), skip_spaces(chars, pos) + text_of(value).len()),
        ),
    decreases chars.len() - pos, 0int,
{
    let start = skip_spaces(chars, pos);
    lemma_skipped(chars, pos);
    reveal_strlit("null");
    reveal_strlit("true");
    reveal_strlit("false");
    let c = chars[start];
    if c == '{' || c == '[' {
        lemma_skipped(chars, start + 1);
        let first = skip_spaces(chars, start + 1);
        let blank = chars.subrange(start + 1, first);
        assert(chars.subrange(start, start + 1) =~= seq![c]);
        if c == '[' {
            if first < chars.len() && chars[first] == ']' {
                let value = Written::Array { blank, items: Seq::empty() };
                assert(text_of(value) =~= chars.subrange(start, first + 1));
                assert(meaning(value, conversion)->Array_0 =~= Seq::empty());
                value
            } else {
                let items = lemma_items_of(chars, start + 1, Seq::empty(), conversion);
                let value = Written::Array { blank: Seq::empty(), items };
                lemma_parts(chars, start, seq!['['], items_text(items));
                assert(Seq::<ValueView>::empty() + values_of(items, conversion)
                    =~= meaning(value, conversion)->Array_0);
                value
            }
        } else {
            if first < chars.len() && chars[first] == '}' {
                let value = Written::Object { blank, members: Seq::empty() };
                assert(members_meaning(Seq::empty(), Seq::empty(), conversion) == Seq::<
                    (Seq<char>, ValueView),
                >::empty());
                assert(text_of(value) =~= chars.subrange(start, first + 1));
                value
            } else {
                let members = lemma_members_of(chars, start + 1, Seq::empty(), conversion);
                let value = Written::Object { blank: Seq::empty(), members };
                lemma_parts(chars, start, seq!['{'], members_text(members));
                value
            }
        }
    } else if c == '"' {
        let glyphs = lemma_string_of(chars, start);
        Written::Str(glyphs)
    } else if c == 't' || c == 'f' {
        if starts_with(chars, start, "true"@) {
            assert("true"@ =~= text_of(Written::Bool(true)));
            Written::Bool(true)
        } else {
            assert("false"@ =~= text_of(Written::Bool(false)));
            Written::Bool(false)
        }
    } else if c == 'n' {
        assert("null"@ =~= text_of(Written::Null));
        assert(text_of(Written::Null).len() == 4);
        assert(meaning(Written::Null, conversion) == ValueView::Null);
        Written::Null
    } else {
        lemma_number_of(chars, start, conversion)
    }
}

/// A value that was parsed, with the whitespace around it.
proof fn lemma_element_of(chars: Seq<char>, pos: int, conversion: Conversion) -> (element: Element)
    requires
        0 <= pos <= chars.len(),
        parse_value_at(chars, pos, conversion) is Ok,
    ensures
        is_blank(element.before),
        is_blank(element.behind),
        valid(element.value, conversion),
        starts_with(chars, pos, element.before + text_of(element.value) + element.behind),
        ({
            let end = pos + element.before.len() + text_of(element.value).len();
            &&& pos < end <= chars.len()
            &&& parse_value_at(chars, pos, conversion) == Ok::<(ValueView, int), Seq<char>>(
                (meaning(element.value, conversion), end),
            )
            &&& skip_spaces(chars, end) == end + element.behind.len()
        }),
    decreases chars.len() - pos, 1int,
{
    let start = skip_spaces(chars, pos);
    lemma_skipped(chars, pos);
    let value = lemma_value_of(chars, pos, conversion);
    let end = start + text_of(value).len();
    lemma_skipped(chars, end);
    let before = chars.subrange(pos, start);
    let behind = chars.subrange(end, skip_spaces(chars, end));
    lemma_parts(chars, pos, before, text_of(value));
    lemma_parts(chars, pos, before + text_of(value), behind);
    Element { before, value, behind }
}

proof fn lemma_items_of(
    chars: Seq<char>,
    pos: int,
    done: Seq<ValueView>,
    conversion: Conversion,
) -> (items: Seq<Element>)
    requires
        0 <= pos <= chars.len(),
        parse_elements(chars, pos, done, conversion) is Ok,
    ensures
        items.len() > 0,
        forall|i: int|
            0 <= i < items.len() ==> is_blank((#[trigger] items[i]).before) && is_blank(
                items[i].behind,
            ) && valid(items[i].value, conversion),
        starts_with(chars, pos, items_text(items)),
        parse_elements(chars, pos, done, conversion) == Ok::<(Seq<ValueView>, int), Seq<char>>(
            (done + values_of(items, conversion), pos + items_text(items).len()),
        ),
    decreases chars.len() - pos, 2int,
{
    let e = lemma_element_of(chars, pos, conversion);
    let text = e.before + text_of(e.value) + e.behind;
    let next = pos + text.len();
    let v = meaning(e.value, conversion);
    lemma_skipped(chars, pos + e.before.len() + text_of(e.value).len());
    if chars[next] == ']' {
        let items = seq![e];
        assert(chars.subrange(next, next + 1) =~= seq![']']);
        lemma_parts(chars, pos, text, seq![']']);
        assert(done.push(v) =~= done + values_of(items, conversion));
        items
    } else {
        let rest = lemma_items_of(chars, next + 1, done.push(v), conversion);
        let items = seq![e] + rest;
        assert(items.drop_first() =~= rest);
        assert(items[0] == e);
        assert(chars.subrange(next, next + 1) =~= seq![',']);
        lemma_parts(chars, next, seq![','], items_text(rest));
        lemma_parts(chars, pos, text, seq![','] + items_text(rest));
        assert(done.push(v) + values_of(rest, conversion) =~= done + values_of(items, conversion));
        assert forall|i: int| 0 <= i < items.len() implies is_blank((#[trigger] items[i]).before)
            && is_blank(items[i].behind) && valid(items[i].value, conversion) by {
            if i > 0 {
                assert(items[i] == rest[i - 1]);
            }
        }
        items
    }
}

/// The text of one field.
spec fn member_text(m: Member) -> Seq<char> {
    m.before + string_written(m.name) + m.gap + seq![':'] + m.element.before + text_of(
        m.element.value,
    ) + m.element.behind
}

/// A field whose parts follow each other, and what follows it.
proof fn lemma_member_text(chars: Seq<char>, pos: int, m: Member, tail: Seq<char>)
    requires
        0 <= pos,
        starts_with(chars, pos, m.before),
        starts_with(chars, pos + m.before.len(), string_written(m.name)),
        starts_with(chars, pos + m.before.len() + string_written(m.name).len(), m.gap),
        ({
            let colon = pos + m.before.len() + string_written(m.name).len() + m.gap.len();
            let text = m.element.before + text_of(m.element.value) + m.element.behind;
            &&& starts_with(chars, colon, seq![':'])
            &&& starts_with(chars, colon + 1, text)
            &&& starts_with(chars, colon + 1 + text.len(), tail)
        }),
    ensures
        starts_with(chars, pos, member_text(m) + tail),
{
    let name = string_written(m.name);
    let text = m.element.before + text_of(m.element.value) + m.element.behind;
    let name_at = pos + m.before.len();
    let gap_at = name_at + name.len();
    let colon = gap_at + m.gap.len();
    lemma_parts(chars, colon + 1, text, tail);
    lemma_parts(chars, colon, seq![':'], text + tail);
    lemma_parts(chars, gap_at, m.gap, seq![':'] + (text + tail));
    lemma_parts(chars, name_at, name, m.gap + (seq![':'] + (text + tail)));
    lemma_parts(chars, pos, m.before, name + (m.gap + (seq![':'] + (text + tail))));
    assert(member_text(m) + tail =~= m.before + (name + (m.gap + (seq![':'] + (text + tail)))));
}

proof fn lemma_members_of(
    chars: Seq<char>,
    pos: int,
    done: DocumentView,
    conversion: Conversion,
) -> (members: Seq<Member>)
    requires
        0 <= pos <= chars.len(),
        parse_members(chars, pos, done, conversion) is Ok,
    ensures
        members.len() > 0,
        forall|i: int|
            0 <= i < members.len() ==> is_blank((#[trigger] members[i]).before) && is_blank(
                members[i].gap,
            ) && is_blank(members[i].element.before) && is_blank(members[i].element.behind)
                && glyphs_valid(members[i].name) && valid(members[i].element.value, conversion),
        starts_with(chars, pos, members_text(members)),
        parse_members(chars, pos, done, conversion) == Ok::<(DocumentView, int), Seq<char>>(
            (members_meaning(done, members, conversion), pos + members_text(members).len()),
        ),
    decreases chars.len() - pos, 2int,
{
    let name_at = skip_spaces(chars, pos);
    lemma_skipped(chars, pos);
    let glyphs = lemma_string_of(chars, name_at);
    let name = string_written(glyphs);
    let gap_at = name_at + name.len();
    let colon = skip_spaces(chars, gap_at);
    lemma_skipped(chars, gap_at);
    let e = lemma_element_of(chars, colon + 1, conversion);
    let m = Member {
        before: chars.subrange(pos, name_at),
        name: glyphs,
        gap: chars.subrange(gap_at, colon),
        element: e,
    };
    let text = e.before + text_of(e.value) + e.behind;
    let value_at = colon + 1;
    let next = value_at + text.len();
    let new = doc_insert(done, glyphs_meaning(glyphs), meaning(e.value, conversion));
    lemma_skipped(chars, value_at + e.before.len() + text_of(e.value).len());
    let members = if chars[next] == '}' {
        seq![m]
    } else {
        let others = lemma_members_of(chars, next + 1, new, conversion);
        assert((seq![m] + others).drop_first() =~= others);
        seq![m] + others
    };
    let rest = members.drop_first();
    let tail = if members.len() == 1 {
        seq!['}']
    } else {
        seq![','] + members_text(rest)
    };
    assert(members[0] == m);
    if chars[next] == '}' {
        assert(rest =~= Seq::empty());
        assert(chars.subrange(next, next + 1) =~= tail);
    } else {
        assert(seq![m] + rest =~= members);
        assert(chars.subrange(next, next + 1) =~= seq![',']);
        lemma_parts(chars, next, seq![','], members_text(rest));
        assert forall|i: int| 0 <= i < members.len() implies is_blank(
            (#[trigger] members[i]).before,
        ) && is_blank(members[i].gap) && is_blank(members[i].element.before) && is_blank(
            members[i].element.behind,
        ) && glyphs_valid(members[i].name) && valid(members[i].element.value, conversion) by {
            if i > 0 {
                assert(members[i] == rest[i - 1]);
            }
        }
    }
    assert(chars.subrange(colon, colon + 1) =~= seq![':']);
    lemma_member_text(chars, pos, m, tail);
    assert(members_text(members) =~= member_text(m) + tail);
    assert(members_meaning(done, members, conversion) == members_meaning(new, rest, conversion));
    members
}

/// Nothing else is parsed: a text that is parsed as a value is one that the
/// value can be written as, with whitespace around it.
pub proof fn law_only_writings_are_parsed(text: Seq<char>, conversion: Conversion) -> (parts: (
    Seq<char>,
    Written,
    Seq<char>,
))
    requires
        value_of_text(text, conversion) is Ok,
    ensures
        is_blank(parts.0),
        is_blank(parts.2),
        valid(parts.1, conversion),
        text == parts.0 + text_of(parts.1) + parts.2,
        value_of_text(text, conversion) == Ok::<ValueView, Seq<char>>(
            meaning(parts.1, conversion),
        ),
        document_of_text(text, conversion) matches Ok(doc) ==> meaning(parts.1, conversion)
            == ValueView::Document(doc),
{
    let e = lemma_element_of(text, 0, conversion);
    let all = e.before + text_of(e.value) + e.behind;
    lemma_skipped(text, e.before.len() + text_of(e.value).len() as int);
    assert(text.subrange(0, all.len() as int) =~= text);
    (e.before, e.value, e.behind)
}

/// The two are written alike but for the whitespace.
pub open spec fn same_tokens(a: Written, b: Written) -> bool
    decreases a,
{
    match (a, b) {
        (Written::Array { items: x, .. }, Written::Array { items: y, .. }) => {
            &&& x.len() == y.len()
            &&& forall|i: int|
                0 <= i < x.len() ==> same_tokens((#[trigger] x[i]).value, y[i].value)
        },
        (Written::Object { members: x, .. }, Written::Object { members: y, .. }) => {
            &&& x.len() == y.len()
            &&& forall|i: int|
                0 <= i < x.len() ==> (#[trigger] x[i]).name == y[i].name && same_tokens(
                    x[i].element.value,
                    y[i].element.value,
                )
        },
        _ => a == b,
    }
}

proof fn lemma_same_meaning(a: Written, b: Written, conversion: Conversion)
    requires
        same_tokens(a, b),
    ensures
        meaning(a, conversion) == meaning(b, conversion),
    decreases a, 0int,
{
    match (a, b) {
        (Written::Array { items: x, .. }, Written::Array { items: y, .. }) => {
            assert forall|i: int| 0 <= i < x.len() implies meaning(
                (#[trigger] x[i]).value,
                conversion,
            ) == meaning(y[i].value, conversion) by {
                lemma_same_meaning(x[i].value, y[i].value, conversion);
            }
            assert(meaning(a, conversion)->Array_0 =~= meaning(b, conversion)->Array_0);
        },
        (Written::Object { members: x, .. }, Written::Object { members: y, .. }) => {
            lemma_same_members(Seq::empty(), x, y, conversion);
        },
        _ => {},
    }
}

proof fn lemma_same_members(
    doc: DocumentView,
    x: Seq<Member>,
    y: Seq<Member>,
    conversion: Conversion,
)
    requires
        x.len() == y.len(),
        forall|i: int|
            0 <= i < x.len() ==> (#[trigger] x[i]).name == y[i].name && same_tokens(
                x[i].element.value,
                y[i].element.value,
            ),
    ensures
        members_meaning(doc, x, conversion) == members_meaning(doc, y, conversion),
    decreases x, 1int,
{
    if x.len() > 0 {
        assert(x[0].name == y[0].name);
        lemma_same_meaning(x[0].element.value, y[0].element.value, conversion);
        let new = doc_insert(
            doc,
            glyphs_meaning(x[0].name),
            meaning(x[0].element.value, conversion),
        );
        let p = x.drop_first();
        let q = y.drop_first();
        assert forall|i: int| 0 <= i < p.len() implies (#[trigger] p[i]).name == q[i].name
            && same_tokens(p[i].element.value, q[i].element.value) by {
            assert(p[i] == x[i + 1]);
            assert(q[i] == y[i + 1]);
        }
        lemma_same_members(new, p, q, conversion);
    }
}

/// Whitespace between the parts of a text does not count: however much of it
/// there is, none included, the text is parsed as the same value.
pub proof fn law_whitespace_does_not_count(
    before: Seq<char>,
    value: Written,
    behind: Seq<char>,
    before2: Seq<char>,
    value2: Written,
    behind2: Seq<char>,
    conversion: Conversion,
)
    requires
        is_blank(before),
        is_blank(behind),
        is_blank(before2),
        is_blank(behind2),
        valid(value, conversion),
        valid(value2, conversion),
        same_tokens(value, value2),
    ensures
        value_of_text(before + text_of(value) + behind, conversion) is Ok,
        value_of_text(before + text_of(value) + behind, conversion) == value_of_text(
            before2 + text_of(value2) + behind2,
            conversion,
        ),
        document_of_text(before + text_of(value) + behind, conversion) == document_of_text(
            before2 + text_of(value2) + behind2,
            conversion,
        ),
{
    law_every_writing_is_parsed(before, value, behind, conversion);
    law_every_writing_is_parsed(before2, value2, behind2, conversion);
    lemma_same_meaning(value, value2, conversion);
}

/// What an object means: a field for each name, in the order in which the
/// names first come, with the last of the values that are written for it.
pub proof fn law_fields_of_an_object(
    members: Seq<Member>,
    k: int,
    blank: Seq<char>,
    conversion: Conversion,
)
    requires
        0 <= k < members.len(),
        forall|j: int|
            k < j < members.len() ==> glyphs_meaning((#[trigger] members[j]).name)
                != glyphs_meaning(members[k].name),
    ensures
        meaning(Written::Object { blank, members }, conversion) matches ValueView::Document(doc)
            && doc_get(doc, glyphs_meaning(members[k].name)) == Some(
            meaning(members[k].element.value, conversion),
        ),
{
    lemma_last_member_counts(Seq::empty(), members, k, conversion);
}

proof fn lemma_last_member_counts(
    doc: DocumentView,
    members: Seq<Member>,
    k: int,
    conversion: Conversion,
)
    requires
        -1 <= k < members.len(),
        k >= 0 ==> forall|j: int|
            k < j < members.len() ==> glyphs_meaning((#[trigger] members[j]).name)
                != glyphs_meaning(members[k].name),
    ensures
        k >= 0 ==> doc_get(
            members_meaning(doc, members, conversion),
            glyphs_meaning(members[k].name),
        ) == Some(meaning(members[k].element.value, conversion)),
    decreases members.len(),
{
    if k >= 0 {
        let name = glyphs_meaning(members[k].name);
        let first = glyphs_meaning(members[0].name);
        let value = meaning(members[0].element.value, conversion);
        let new = doc_insert(doc, first, value);
        let rest = members.drop_first();
        assert forall|j: int| k - 1 < j < rest.len() implies glyphs_meaning(
            (#[trigger] rest[j]).name,
        ) != name by {
            assert(rest[j] == members[j + 1]);
        }
        if k > 0 {
            assert(rest[k - 1] == members[k]);
            lemma_last_member_counts(new, rest, k - 1, conversion);
        } else {
            document::law_insert(doc, first, value, first);
            lemma_other_members(new, rest, name, conversion);
        }
    }
}

proof fn lemma_other_members(
    doc: DocumentView,
    members: Seq<Member>,
    name: Seq<char>,
    conversion: Conversion,
)
    requires
        forall|j: int|
            0 <= j < members.len() ==> glyphs_meaning((#[trigger] members[j]).name) != name,
    ensures
        doc_get(members_meaning(doc, members, conversion), name) == doc_get(doc, name),
    decreases members.len(),
{
    if members.len() > 0 {
        let first = glyphs_meaning(members[0].name);
        let value = meaning(members[0].element.value, conversion);
        let rest = members.drop_first();
        assert forall|j: int| 0 <= j < rest.len() implies glyphs_meaning((#[trigger] rest[j]).name)
            != name by {
            assert(rest[j] == members[j + 1]);
        }
        document::law_insert(doc, first, value, name);
        lemma_other_members(doc_insert(doc, first, value), rest, name, conversion);
    }
}

/// The messages for texts that are no value: a blank text, a text that goes on
/// behind its value, and a value that is no object.
pub proof fn law_messages(
    before: Seq<char>,
    value: Written,
    behind: Seq<char>,
    rest: Seq<char>,
    conversion: Conversion,
)
    requires
        is_blank(before),
        is_blank(behind),
        valid(value, conversion),
        rest.len() > 0,
        !is_space(rest[0]),
        behind.len() > 0 || !is_number_char(rest[0]),
    ensures
        value_of_text(before, conversion) == Err::<ValueView, Seq<char>>(
            "unexpected end of input"@,
        ),
        value_of_text(before + text_of(value) + behind + rest, conversion) == Err::<
            ValueView,
            Seq<char>,
        >("unexpected trailing characters after JSON value"@),
        !(meaning(value, conversion) is Document) ==> document_of_text(
            before + text_of(value) + behind,
            conversion,
        ) == Err::<DocumentView, Seq<char>>(
            "expected a JSON object, e.g. {\"field\": value}"@,
        ),
{
    assert(before.subrange(0, before.len() as int) =~= before);
    lemma_blank(before, 0, before);
    law_every_writing_is_parsed(before, value, behind, conversion);
    let chars = before + text_of(value) + behind + rest;
    let start = before.len() as int;
    let end = start + text_of(value).len();
    assert(chars.subrange(0, before.len() as int) =~= before);
    assert(chars.subrange(start, end) =~= text_of(value));
    assert(chars.subrange(end, end + behind.len()) =~= behind);
    assert(chars[end + behind.len()] == rest[0]);
    if behind.len() > 0 {
        assert(chars[end] == behind[0]);
        assert(is_space(behind[0]));
    }
    lemma_value(chars, start, value, conversion);
    assert(chars[start] == text_of(value)[0]);
    lemma_blank(chars, 0, before);
    lemma_blank(chars, end, behind);
    assert(skip_spaces(chars, start) == start);
    assert(parse_value_at(chars, 0, conversion) == parse_value_at(chars, start, conversion));
}

/// The message for a character with which no value begins.
pub proof fn law_unexpected_character(before: Seq<char>, rest: Seq<char>, conversion: Conversion)
    requires
        is_blank(before),
        rest.len() > 0,
        !is_space(rest[0]),
        !('0' <= rest[0] <= '9'),
        rest[0] != '-' && rest[0] != '{' && rest[0] != '[' && rest[0] != '"' && rest[0] != 't'
            && rest[0] != 'f' && rest[0] != 'n',
    ensures
        value_of_text(before + rest, conversion) == Err::<ValueView, Seq<char>>(
            "unexpected character "@ + seq!['\'', rest[0], '\''],
        ),
{
    let chars = before + rest;
    assert(chars.subrange(0, before.len() as int) =~= before);
    assert(chars[before.len() as int] == rest[0]);
    lemma_blank(chars, 0, before);
}

} // verus!
