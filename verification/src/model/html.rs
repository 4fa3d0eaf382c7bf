//! Which HTML documents can be rendered as plain text.
//!
//! The renderer lays tables out in narrow columns, and some documents make it count
//! wrongly. What is described here keeps clear of them.
use crate::text;
use vstd::prelude::*;

verus! {

/// How many digits tell where a list starts to count.
pub const START_DIGITS: usize = 18;

/// How many quotes, lists, definitions and headings there may be around preformatted text:
/// they leave the lines some columns.
pub const PREFORMATTED_DEPTH: usize = 3000;

/// Twice the columns of a line.
pub const DOUBLE_WIDTH: usize = 131070;

/// The greatest code point.
pub const LAST_CODE_POINT: u32 = 0x10ffff;

/// How many characters a document may have: all the columns that its cells span together
/// can be counted.
pub open spec fn longest_document() -> int {
    if usize::BITS == 64 {
        16777216
    } else {
        65536
    }
}

/// How many digits tell how many columns a cell spans.
pub open spec fn span_digits() -> int {
    if usize::BITS == 64 {
        7
    } else {
        3
    }
}

/// Whether `c` may stand around the `=` behind the name of an attribute.
pub open spec fn is_blank_char(c: char) -> bool {
    c == '\t' || c == '\n' || c == '\u{c}' || c == '\r' || c == ' '
}

/// Where the blanks end that begin at `at`.
pub open spec fn blank_end(doc: Seq<char>, at: int) -> int
    decreases doc.len() - at,
{
    if 0 <= at < doc.len() && is_blank_char(doc[at]) {
        blank_end(doc, at + 1)
    } else {
        at
    }
}

/// Where the digits end that begin at `at`.
pub open spec fn digits_end(doc: Seq<char>, at: int) -> int
    decreases doc.len() - at,
{
    if 0 <= at < doc.len() && text::is_digit(doc[at]) {
        digits_end(doc, at + 1)
    } else {
        at
    }
}

/// Where the value of an attribute begins whose name ends at `at`, where it has a value.
pub open spec fn value_start(doc: Seq<char>, at: int) -> Option<int> {
    let equals = blank_end(doc, at);
    if 0 <= equals < doc.len() && doc[equals] == '=' {
        let value = blank_end(doc, equals + 1);
        if 0 <= value < doc.len() && (doc[value] == '"' || doc[value] == '\'') {
            Some(value + 1)
        } else {
            Some(value)
        }
    } else {
        None
    }
}

/// Whether the value that begins at `at` is no number of more than `most` digits, not
/// even one that is written with character references.
pub open spec fn is_short(doc: Seq<char>, at: int, most: int) -> bool {
    let first = if 0 <= at < doc.len() && (doc[at] == '+' || doc[at] == '-') {
        at + 1
    } else {
        at
    };
    let end = digits_end(doc, first);
    &&& end - first <= most
    &&& !text::stands_at(doc, "&#"@, end)
    &&& !text::stands_at(doc, "&plus"@, end)
}

/// Whether the value that begins at `at` is no number other than the digits from `least` to
/// `most`.
pub open spec fn is_within(doc: Seq<char>, at: int, least: char, most: char) -> bool {
    if !(0 <= at < doc.len()) {
        true
    } else if least <= doc[at] <= most {
        at + 1 >= doc.len() || (!text::is_digit(doc[at + 1]) && doc[at + 1] != '&')
    } else {
        !text::is_digit(doc[at]) && doc[at] != '+' && doc[at] != '&'
    }
}

/// Whether every attribute `name` is no number of more than `most` digits.
pub open spec fn attributes_are_short(doc: Seq<char>, name: Seq<char>, most: int) -> bool {
    forall|i: int| #[trigger]
        text::stands_at(doc, name, i) ==> match value_start(doc, i + name.len()) {
            Some(value) => is_short(doc, value, most),
            None => true,
        }
}

/// Whether no attribute `name` is a number other than the digits from `least` to `most`.
pub open spec fn attributes_are_within(
    doc: Seq<char>,
    name: Seq<char>,
    least: char,
    most: char,
) -> bool {
    forall|i: int| #[trigger]
        text::stands_at(doc, name, i) ==> match value_start(doc, i + name.len()) {
            Some(value) => is_within(doc, value, least, most),
            None => true,
        }
}

/// Whether the document holds no more than one table.
pub open spec fn has_one_table(doc: Seq<char>) -> bool {
    forall|i: int, j: int|
        #![trigger text::stands_at(doc, "<table"@, i), text::stands_at(doc, "<table"@, j)]
        text::stands_at(doc, "<table"@, i) && text::stands_at(doc, "<table"@, j) ==> i == j
}

/// Whether the cells of the tables span one row, or else one column; then they span two
/// rows, unless there is one table.
pub open spec fn spans_are_simple(doc: Seq<char>) -> bool {
    ||| attributes_are_within(doc, "rowspan"@, '0', '1')
    ||| attributes_are_within(doc, "colspan"@, '1', '1') && (attributes_are_within(
        doc,
        "rowspan"@,
        '0',
        '2',
    ) || has_one_table(doc))
}

/// How often `c` stands in `s`.
pub open spec fn count_of(s: Seq<char>, c: char) -> nat
    decreases s.len(),
{
    if s.len() == 0 {
        0
    } else {
        count_of(s.drop_last(), c) + if s.last() == c {
            1nat
        } else {
            0
        }
    }
}

/// Whether the code point takes part in sequences that are wider or narrower than their
/// characters one by one: the joiners, the variation selectors, the skin tones, and
/// the letters that form ligatures.
pub open spec fn is_joining(code: int) -> bool {
    ||| code == 0x200d
    ||| 0xfe00 <= code <= 0xfe0f
    ||| 0x1f3fb <= code <= 0x1f3ff
    ||| code == 0x644
    ||| 0x6b5 <= code <= 0x6b8
    ||| code == 0x76a
    ||| code == 0x8a6
    ||| code == 0x8c7
    ||| code == 0x17d2
    ||| code == 0x2d7f
    ||| 0xa4f8 <= code <= 0xa4fd
    ||| 0x16d63 <= code <= 0x16d6a
}

/// The value of a hexadecimal digit in lower case.
pub open spec fn digit_value(c: char) -> int {
    if text::is_digit(c) {
        c as int - '0' as int
    } else if 'a' <= c <= 'f' {
        c as int - 'a' as int + 10
    } else {
        16
    }
}

/// The code point whose remaining digits begin at `at`, where `so_far` is what the digits
/// before it amount to. It stays as it is once it is beyond every code point.
pub open spec fn code_at(doc: Seq<char>, at: int, base: int, so_far: int) -> int
    decreases doc.len() - at,
{
    if 0 <= at < doc.len() && digit_value(doc[at]) < base {
        code_at(
            doc,
            at + 1,
            base,
            if so_far > LAST_CODE_POINT {
                so_far
            } else {
                so_far * base + digit_value(doc[at])
            },
        )
    } else {
        so_far
    }
}

/// Whether a joining character stands at `at`, written out or as a character reference.
pub open spec fn joins_at(doc: Seq<char>, at: int) -> bool {
    ||| is_joining(doc[at] as u32 as int)
    ||| text::stands_at(doc, "&zwj"@, at)
    ||| text::stands_at(doc, "&#x"@, at) && is_joining(code_at(doc, at + 3, 16, 0))
    ||| text::stands_at(doc, "&#"@, at) && is_joining(code_at(doc, at + 2, 10, 0))
}

/// Whether the document holds a joining character.
pub open spec fn joins(doc: Seq<char>) -> bool {
    exists|i: int| 0 <= i < doc.len() && #[trigger] joins_at(doc, i)
}

/// Whether a tag stands at `at` whose content has fewer columns than what is around it:
/// a quote, a list, a definition or a heading.
pub open spec fn narrows_at(doc: Seq<char>, at: int) -> bool {
    ||| text::stands_at(doc, "<blockquote"@, at)
    ||| text::stands_at(doc, "<ul"@, at)
    ||| text::stands_at(doc, "<ol"@, at)
    ||| text::stands_at(doc, "<dd"@, at)
    ||| text::stands_at(doc, "<h"@, at) && at + 2 < doc.len() && '1' <= doc[at + 2] <= '6'
}

/// How many of the first `n` positions hold such a tag.
pub open spec fn narrowing_tags(doc: Seq<char>, n: int) -> nat
    decreases n,
{
    if n <= 0 {
        0
    } else {
        narrowing_tags(doc, n - 1) + if narrows_at(doc, n - 1) {
            1nat
        } else {
            0
        }
    }
}

/// Whether every line with preformatted text has a column.
pub open spec fn preformatted_fits(doc: Seq<char>) -> bool {
    let narrowing = narrowing_tags(doc, doc.len() as int);
    text::occurs_in(doc, "<pre"@) ==> narrowing == 0 || (!text::occurs_in(doc, "<table"@)
        && narrowing <= PREFORMATTED_DEPTH)
}

/// Whether the document is sure to be rendered without breaking a line. A character fills
/// two columns at most, but for one, and a tag adds columns of its own, more of them where
/// tags that are left open are opened again.
pub open spec fn is_unbroken(doc: Seq<char>) -> bool {
    let tags = count_of(doc, '<');
    &&& !text::occurs_in(doc, "<table"@)
    &&& !doc.contains('\u{17d8}')
    &&& 4 * doc.len() + 200 * tags + tags * tags <= DOUBLE_WIDTH
}

/// Whether a document, given in lower case, can be rendered as plain text.
pub open spec fn is_safe(doc: Seq<char>) -> bool {
    &&& doc.len() <= longest_document()
    &&& attributes_are_short(doc, "colspan"@, span_digits())
    &&& spans_are_simple(doc)
    &&& attributes_are_short(doc, "start"@, START_DIGITS as int)
    &&& preformatted_fits(doc)
    &&& joins(doc) ==> is_unbroken(doc)
}

/// Whether the document `html` can be rendered as plain text: it is not overly long, its
/// cells span one row or else one column, the columns that they span and the numbers of its
/// lists can be counted, preformatted text has a column to stand in,
/// and where lines have to be broken, no character changes the width of another.
pub open spec fn is_renderable(html: Seq<char>) -> bool {
    is_safe(text::lowered(html))
}

fn skip_blanks(doc: &Vec<char>, from: usize) -> (end: usize)
    requires
        from <= doc@.len(),
    ensures
        end == blank_end(doc@, from as int),
        from <= end <= doc@.len(),
{
    let mut at: usize = from;
    while at < doc.len() && (doc[at] == '\t' || doc[at] == '\n' || doc[at] == '\u{c}' || doc[at]
        == '\r' || doc[at] == ' ')
        invariant
            from <= at <= doc@.len(),
            blank_end(doc@, at as int) == blank_end(doc@, from as int),
        decreases doc@.len() - at,
    {
        at += 1;
    }
    at
}

fn skip_digits(doc: &Vec<char>, from: usize) -> (end: usize)
    requires
        from <= doc@.len(),
    ensures
        end == digits_end(doc@, from as int),
        from <= end <= doc@.len(),
{
    let mut at: usize = from;
    while at < doc.len() && '0' <= doc[at] && doc[at] <= '9'
        invariant
            from <= at <= doc@.len(),
            digits_end(doc@, at as int) == digits_end(doc@, from as int),
        decreases doc@.len() - at,
    {
        at += 1;
    }
    at
}

fn find_value(doc: &Vec<char>, name_end: usize) -> (value: Option<usize>)
    requires
        name_end <= doc@.len(),
    ensures
        match value {
            Some(value) => value_start(doc@, name_end as int) == Some(value as int) && value
                <= doc@.len(),
            None => value_start(doc@, name_end as int) is None,
        },
{
    let equals = skip_blanks(doc, name_end);
    if equals >= doc.len() || doc[equals] != '=' {
        return None;
    }
    let value = skip_blanks(doc, equals + 1);
    if value < doc.len() && (doc[value] == '"' || doc[value] == '\'') {
        Some(value + 1)
    } else {
        Some(value)
    }
}

/// Whether the word `word` stands at `at`.
fn stands(doc: &Vec<char>, word: &Vec<char>, at: usize) -> (r: bool)
    requires
        at <= doc@.len(),
    ensures
        r == text::stands_at(doc@, word@, at as int),
{
    let length: usize = doc.len();
    if word.len() > length - at {
        return false;
    }
    let mut k: usize = 0;
    while k < word.len()
        invariant
            k <= word@.len(),
            length == doc@.len(),
            at + word@.len() <= length,
            forall|j: int| 0 <= j < k ==> doc@[at + j] == word@[j],
        decreases word@.len() - k,
    {
        if doc[at + k] != word[k] {
            assert(doc@.subrange(at as int, at + word@.len())[k as int] == doc@[at + k]);
            return false;
        }
        k += 1;
    }
    assert(doc@.subrange(at as int, at + word@.len()) =~= word@);
    true
}

fn occurs(doc: &Vec<char>, word: &Vec<char>) -> (r: bool)
    requires
        word@.len() > 0,
    ensures
        r == text::occurs_in(doc@, word@),
{
    let mut i: usize = 0;
    while i < doc.len()
        invariant
            i <= doc@.len(),
            forall|k: int| 0 <= k < i ==> !text::stands_at(doc@, word@, k),
        decreases doc@.len() - i,
    {
        if stands(doc, word, i) {
            return true;
        }
        i += 1;
    }
    assert forall|k: int| !text::stands_at(doc@, word@, k) by {
        if 0 <= k < doc@.len() {
        }
    }
    false
}

fn has_table_once(doc: &Vec<char>) -> (r: bool)
    ensures
        r == has_one_table(doc@),
{
    let table = text::chars_of("<table");
    proof {
        reveal_strlit("<table");
    }
    let ghost mut first: int = -1;
    let mut found = false;
    let mut i: usize = 0;
    while i < doc.len()
        invariant
            i <= doc@.len(),
            table@ == "<table"@,
            table@.len() > 0,
            found ==> 0 <= first < i && text::stands_at(doc@, "<table"@, first),
            forall|k: int|
                0 <= k < i && #[trigger] text::stands_at(doc@, "<table"@, k) ==> found && k
                    == first,
        decreases doc@.len() - i,
    {
        if stands(doc, &table, i) {
            if found {
                assert(text::stands_at(doc@, "<table"@, i as int));
                return false;
            }
            found = true;
            proof {
                first = i as int;
            }
        }
        i += 1;
    }
    true
}

fn short_at(doc: &Vec<char>, at: usize, most: usize) -> (r: bool)
    requires
        at <= doc@.len(),
    ensures
        r == is_short(doc@, at as int, most as int),
{
    let first = if at < doc.len() && (doc[at] == '+' || doc[at] == '-') {
        at + 1
    } else {
        at
    };
    let end = skip_digits(doc, first);
    end - first <= most && !stands(doc, &text::chars_of("&#"), end) && !stands(
        doc,
        &text::chars_of("&plus"),
        end,
    )
}

fn within_at(doc: &Vec<char>, at: usize, least: char, most: char) -> (r: bool)
    requires
        at <= doc@.len(),
    ensures
        r == is_within(doc@, at as int, least, most),
{
    if at >= doc.len() {
        true
    } else if least <= doc[at] && doc[at] <= most {
        at + 1 >= doc.len() || (!('0' <= doc[at + 1] && doc[at + 1] <= '9') && doc[at + 1] != '&')
    } else {
        !('0' <= doc[at] && doc[at] <= '9') && doc[at] != '+' && doc[at] != '&'
    }
}

fn all_short(doc: &Vec<char>, name: &Vec<char>, most: usize) -> (r: bool)
    requires
        name@.len() > 0,
    ensures
        r == attributes_are_short(doc@, name@, most as int),
{
    let mut i: usize = 0;
    while i < doc.len()
        invariant
            i <= doc@.len(),
            forall|k: int| #![trigger text::stands_at(doc@, name@, k)]
                0 <= k < i && text::stands_at(doc@, name@, k) ==> match value_start(
                    doc@,
                    k + name@.len(),
                ) {
                    Some(value) => is_short(doc@, value, most as int),
                    None => true,
                },
        decreases doc@.len() - i,
    {
        if stands(doc, name, i) {
            if let Some(value) = find_value(doc, i + name.len()) {
                if !short_at(doc, value, most) {
                    return false;
                }
            }
        }
        i += 1;
    }
    true
}

fn all_within(doc: &Vec<char>, name: &Vec<char>, least: char, most: char) -> (r: bool)
    requires
        name@.len() > 0,
    ensures
        r == attributes_are_within(doc@, name@, least, most),
{
    let mut i: usize = 0;
    while i < doc.len()
        invariant
            i <= doc@.len(),
            forall|k: int| #![trigger text::stands_at(doc@, name@, k)]
                0 <= k < i && text::stands_at(doc@, name@, k) ==> match value_start(
                    doc@,
                    k + name@.len(),
                ) {
                    Some(value) => is_within(doc@, value, least, most),
                    None => true,
                },
        decreases doc@.len() - i,
    {
        if stands(doc, name, i) {
            if let Some(value) = find_value(doc, i + name.len()) {
                if !within_at(doc, value, least, most) {
                    return false;
                }
            }
        }
        i += 1;
    }
    true
}

fn count(doc: &Vec<char>, c: char) -> (n: usize)
    ensures
        n == count_of(doc@, c),
        n <= doc@.len(),
{
    let mut n: usize = 0;
    let mut i: usize = 0;
    assert(doc@.take(0) =~= Seq::empty());
    while i < doc.len()
        invariant
            n <= i <= doc@.len(),
            n == count_of(doc@.take(i as int), c),
        decreases doc@.len() - i,
    {
        assert(doc@.take(i + 1).drop_last() =~= doc@.take(i as int));
        assert(doc@.take(i + 1).last() == doc@[i as int]);
        if doc[i] == c {
            n += 1;
        }
        i += 1;
    }
    assert(doc@.take(i as int) =~= doc@);
    n
}

fn narrowing(doc: &Vec<char>) -> (n: usize)
    ensures
        n == narrowing_tags(doc@, doc@.len() as int),
        n <= doc@.len(),
{
    let blockquote = text::chars_of("<blockquote");
    let unordered = text::chars_of("<ul");
    let ordered = text::chars_of("<ol");
    let definition = text::chars_of("<dd");
    let heading = text::chars_of("<h");
    proof {
        reveal_strlit("<h");
    }
    let length: usize = doc.len();
    let mut n: usize = 0;
    let mut i: usize = 0;
    while i < length
        invariant
            length == doc@.len(),
            n <= i <= length,
            n == narrowing_tags(doc@, i as int),
            blockquote@ == "<blockquote"@,
            unordered@ == "<ul"@,
            ordered@ == "<ol"@,
            definition@ == "<dd"@,
            heading@ == "<h"@,
            heading@.len() == 2,
        decreases length - i,
    {
        let narrows = stands(doc, &blockquote, i) || stands(doc, &unordered, i) || stands(
            doc,
            &ordered,
            i,
        ) || stands(doc, &definition, i) || (stands(doc, &heading, i) && length - i > 2 && '1'
            <= doc[i + 2] && doc[i + 2] <= '6');
        assert(narrows == narrows_at(doc@, i as int));
        if narrows {
            n += 1;
        }
        i += 1;
    }
    n
}

fn unbroken(doc: &Vec<char>, has_table: bool) -> (r: bool)
    requires
        has_table == text::occurs_in(doc@, "<table"@),
    ensures
        r == is_unbroken(doc@),
{
    let tags = count(doc, '<');
    let length: usize = doc.len();
    if has_table || length > DOUBLE_WIDTH {
        return false;
    }
    if tags > 362 {
        assert(tags * tags > 131070) by (nonlinear_arith)
            requires
                tags > 362,
        ;
        return false;
    }
    assert(tags * tags <= 131044) by (nonlinear_arith)
        requires
            tags <= 362,
    ;
    if 4 * length + 200 * tags + tags * tags > DOUBLE_WIDTH {
        return false;
    }
    let mut i: usize = 0;
    while i < length
        invariant
            length == doc@.len(),
            i <= length,
            forall|k: int| 0 <= k < i ==> doc@[k] != '\u{17d8}',
        decreases length - i,
    {
        if doc[i] == '\u{17d8}' {
            assert(doc@[i as int] == '\u{17d8}');
            return false;
        }
        i += 1;
    }
    true
}

fn joining(code: u32) -> (r: bool)
    ensures
        r == is_joining(code as int),
{
    code == 0x200d || (0xfe00 <= code && code <= 0xfe0f) || (0x1f3fb <= code && code <= 0x1f3ff)
        || code == 0x644 || (0x6b5 <= code && code <= 0x6b8) || code == 0x76a || code == 0x8a6
        || code == 0x8c7 || code == 0x17d2 || code == 0x2d7f || (0xa4f8 <= code && code <= 0xa4fd)
        || (0x16d63 <= code && code <= 0x16d6a)
}

fn value_of_digit(c: char) -> (value: u32)
    ensures
        value == digit_value(c),
        value <= 16,
{
    if '0' <= c && c <= '9' {
        c as u32 - '0' as u32
    } else if 'a' <= c && c <= 'f' {
        c as u32 - 'a' as u32 + 10
    } else {
        16
    }
}

fn code_from(doc: &Vec<char>, from: usize, base: u32) -> (code: u32)
    requires
        from <= doc@.len(),
        1 <= base <= 16,
    ensures
        code == code_at(doc@, from as int, base as int, 0),
{
    let mut at: usize = from;
    let mut code: u32 = 0;
    while at < doc.len() && value_of_digit(doc[at]) < base
        invariant
            from <= at <= doc@.len(),
            1 <= base <= 16,
            code <= 0x2000000,
            code_at(doc@, at as int, base as int, code as int) == code_at(
                doc@,
                from as int,
                base as int,
                0,
            ),
        decreases doc@.len() - at,
    {
        if code <= LAST_CODE_POINT {
            assert(code * base <= 0x10ffff * 16) by (nonlinear_arith)
                requires
                    code <= 0x10ffff,
                    base <= 16,
            ;
            code = code * base + value_of_digit(doc[at]);
        }
        at += 1;
    }
    code
}

fn any_joining(doc: &Vec<char>) -> (r: bool)
    ensures
        r == joins(doc@),
{
    let joiner = text::chars_of("&zwj");
    let hexadecimal = text::chars_of("&#x");
    let decimal = text::chars_of("&#");
    proof {
        reveal_strlit("&#x");
        reveal_strlit("&#");
    }
    let mut i: usize = 0;
    while i < doc.len()
        invariant
            i <= doc@.len(),
            joiner@ == "&zwj"@,
            hexadecimal@ == "&#x"@,
            decimal@ == "&#"@,
            hexadecimal@.len() == 3,
            decimal@.len() == 2,
            forall|k: int| 0 <= k < i ==> !#[trigger] joins_at(doc@, k),
        decreases doc@.len() - i,
    {
        let found = joining(doc[i] as u32) || stands(doc, &joiner, i) || (stands(
            doc,
            &hexadecimal,
            i,
        ) && joining(code_from(doc, i + 3, 16))) || (stands(doc, &decimal, i) && joining(
            code_from(doc, i + 2, 10),
        ));
        if found {
            assert(joins_at(doc@, i as int));
            return true;
        }
        i += 1;
    }
    false
}

/// Whether the document `html` can be rendered as plain text.
pub fn can_be_rendered(html: &str) -> (r: bool)
    ensures
        r == is_renderable(html@),
{
    let doc = text::chars_of(text::ascii_lowercase(html).as_str());
    let (longest, span_digits): (usize, usize) = if usize::BITS == 64 {
        (16777216, 7)
    } else {
        (65536, 3)
    };
    if doc.len() > longest {
        return false;
    }
    proof {
        reveal_strlit("colspan");
        reveal_strlit("rowspan");
        reveal_strlit("start");
        reveal_strlit("<pre");
        reveal_strlit("<table");
    }
    let rowspan = text::chars_of("rowspan");
    let colspan = text::chars_of("colspan");
    if !all_short(&doc, &colspan, span_digits) || !all_short(
        &doc,
        &text::chars_of("start"),
        START_DIGITS,
    ) {
        return false;
    }
    if !all_within(&doc, &rowspan, '0', '1') && !(all_within(&doc, &colspan, '1', '1') && (
    all_within(&doc, &rowspan, '0', '2') || has_table_once(&doc))) {
        return false;
    }
    let has_table = occurs(&doc, &text::chars_of("<table"));
    if occurs(&doc, &text::chars_of("<pre")) {
        let narrowing = narrowing(&doc);
        if narrowing > 0 && (has_table || narrowing > PREFORMATTED_DEPTH) {
            return false;
        }
    }
    !any_joining(&doc) || unbroken(&doc, has_table)
}

} // verus!
