//! What holds of the documents that are shown as text.
use crate::model::html;
use crate::model::mail;
use crate::text;
use vstd::prelude::*;

verus! {

proof fn lemma_digits_run(doc: Seq<char>, at: int, n: int)
    requires
        0 <= at,
        0 <= n,
        at + n <= doc.len(),
        forall|k: int| at <= k < at + n ==> text::is_digit(#[trigger] doc[k]),
    ensures
        html::digits_end(doc, at) >= at + n,
    decreases n,
{
    if n > 0 {
        assert(text::is_digit(doc[at]));
        lemma_digits_run(doc, at + 1, n - 1);
    } else {
        lemma_digits_go_forward(doc, at);
    }
}

proof fn lemma_digits_go_forward(doc: Seq<char>, at: int)
    requires
        0 <= at,
    ensures
        html::digits_end(doc, at) >= at,
    decreases doc.len() - at,
{
    if at < doc.len() && text::is_digit(doc[at]) {
        lemma_digits_go_forward(doc, at + 1);
    }
}

proof fn lemma_long_value(doc: Seq<char>, name: Seq<char>, i: int, digits: int, most: int)
    requires
        text::stands_at(doc, name, i),
        digits > most,
        i + name.len() + 2 + digits <= doc.len(),
        doc[i + name.len() as int] == '=',
        doc[i + name.len() as int + 1] == '"',
        forall|k: int|
            i + name.len() + 2 <= k < i + name.len() + 2 + digits ==> text::is_digit(
                #[trigger] doc[k],
            ),
        0 < digits,
    ensures
        !html::attributes_are_short(doc, name, most),
{
    let at = i + name.len() as int;
    assert(html::blank_end(doc, at) == at);
    assert(html::blank_end(doc, at + 1) == at + 1);
    assert(html::value_start(doc, at) == Some(at + 2));
    assert(text::is_digit(doc[at + 2]));
    lemma_digits_run(doc, at + 2, digits);
    assert(!html::is_short(doc, at + 2, most));
    assert(text::stands_at(doc, name, i));
}

/// A document with a cell that spans a number of columns of eight digits or more, or a list
/// that starts at a number of more than eighteen, is not turned into text here.
pub proof fn lemma_documents_with_huge_numbers_are_left_alone(doc: Seq<char>, i: int, digits: int)
    requires
        8 <= digits,
        0 <= i,
    ensures
        text::stands_at(text::lowered(doc), "colspan"@, i) && i + 9 + digits <= doc.len()
            && text::lowered(doc)[i + 7] == '=' && text::lowered(doc)[i + 8] == '"' && (forall|
            k: int,
        |
            i + 9 <= k < i + 9 + digits ==> text::is_digit(#[trigger] text::lowered(doc)[k]))
            ==> !html::is_renderable(doc),
        digits > 18 && text::stands_at(text::lowered(doc), "start"@, i) && i + 7
            + digits <= doc.len() && text::lowered(doc)[i + 5] == '=' && text::lowered(doc)[i + 6]
            == '"' && (forall|k: int|
            i + 7 <= k < i + 7 + digits ==> text::is_digit(#[trigger] text::lowered(doc)[k]))
            ==> !html::is_renderable(doc),
{
    reveal_strlit("colspan");
    reveal_strlit("start");
    let low = text::lowered(doc);
    if text::stands_at(low, "colspan"@, i) && i + 9 + digits <= doc.len() && low[i + 7] == '='
        && low[i + 8] == '"' && (forall|k: int|
        i + 9 <= k < i + 9 + digits ==> text::is_digit(#[trigger] low[k])) {
        lemma_long_value(low, "colspan"@, i, digits, html::span_digits());
    }
    if digits > 18 && text::stands_at(low, "start"@, i) && i + 7 + digits
        <= doc.len() && low[i + 5] == '=' && low[i + 6] == '"' && (forall|k: int|
        i + 7 <= k < i + 7 + digits ==> text::is_digit(#[trigger] low[k])) {
        lemma_long_value(low, "start"@, i, digits, html::START_DIGITS as int);
    }
}

/// A document of more than sixteen million characters is not turned into text here, and
/// neither is one that nests preformatted text in a table that is narrowed.
pub proof fn lemma_long_documents_are_left_alone(doc: Seq<char>)
    ensures
        doc.len() > 16777216 ==> !html::is_renderable(doc),
        text::occurs_in(text::lowered(doc), "<pre"@) && text::occurs_in(
            text::lowered(doc),
            "<table"@,
        ) && html::narrowing_tags(text::lowered(doc), doc.len() as int) > 0
            ==> !html::is_renderable(doc),
{
}

/// A body is rendered just where it has a formatted part and no plain one, and what is
/// shown of a formatted part is what it renders to, from here where it can be rendered
/// here.
pub proof fn lemma_which_bodies_are_rendered(
    html: Seq<char>,
    plain: Seq<char>,
    elsewhere: Option<Seq<char>>,
)
    ensures
        mail::needs_rendering(html, plain) <==> text::trimmed(html).len() > 0 && text::trimmed(
            plain,
        ).len() == 0,
        html::is_renderable(html) ==> mail::text_of_html(html, elsewhere) == mail::html_as_text(
            html,
            mail::HTML_TEXT_WIDTH,
        ),
        !html::is_renderable(html) ==> mail::text_of_html(html, elsewhere) == elsewhere,
{
}

} // verus!
