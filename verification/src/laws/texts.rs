//! What holds of texts and of how they are written for others to read.
use crate::integration::webkit;
use crate::integration::webkit::ComposerUpdate;
use crate::model::address;
use crate::model::mail;
use crate::model::mail::BodyView;
use crate::text;
use vstd::prelude::*;

verus! {

/// Trimming takes white space from both ends of a text and nothing else, and leaves none
/// there.
pub proof fn lemma_trimmed_text(s: Seq<char>) -> (bounds: (int, int))
    ensures
        0 <= bounds.0 <= bounds.1 <= s.len(),
        text::trimmed(s) == s.subrange(bounds.0, bounds.1),
        forall|i: int|
            0 <= i < bounds.0 || bounds.1 <= i < s.len() ==> text::is_space(#[trigger] s[i]),
        text::trimmed(s).len() > 0 ==> !text::is_space(text::trimmed(s)[0]) && !text::is_space(
            text::trimmed(s).last(),
        ),
        text::is_space(' ') && text::is_space('\t') && text::is_space('\n') && text::is_space('\r'),
        !text::is_space('a') && !text::is_space('0') && !text::is_space('@'),
{
    text::lemma_trimmed_bounds(s)
}

/// Lower case changes the letters from A to Z and nothing else.
pub proof fn lemma_lowered_text(s: Seq<char>, i: int)
    requires
        0 <= i < s.len(),
    ensures
        text::lowered(s).len() == s.len(),
        !('A' <= s[i] <= 'Z') ==> text::lowered(s)[i] == s[i],
        'A' <= s[i] <= 'Z' ==> text::lowered(s)[i] as u32 == s[i] as u32 + 32,
{
}

/// A replaced character is replaced wherever it stands, and what stands around it stays.
pub proof fn lemma_replaced_text(a: Seq<char>, b: Seq<char>, c: char, by: Seq<char>)
    ensures
        text::replaced(a + seq![c] + b, c, by) == text::replaced(a, c, by) + by + text::replaced(
            b,
            c,
            by,
        ),
        !a.contains(c) ==> text::replaced(a, c, by) == a,
    decreases a.len() + b.len(),
{
    lemma_replaced_concat(a + seq![c], b, c, by);
    lemma_replaced_concat(a, seq![c], c, by);
    assert(seq![c].drop_last() =~= Seq::empty());
    assert(text::replaced(seq![c].drop_last(), c, by) =~= Seq::empty());
    assert(seq![c].last() == c);
    assert(text::replaced(seq![c], c, by) =~= by) by {
        reveal_with_fuel(text::replaced, 2);
    }
    assert(text::replaced(a + seq![c] + b, c, by) =~= text::replaced(a, c, by) + by
        + text::replaced(b, c, by));
    if !a.contains(c) {
        lemma_nothing_replaced(a, c, by);
    }
}

proof fn lemma_nothing_replaced(a: Seq<char>, c: char, by: Seq<char>)
    requires
        !a.contains(c),
    ensures
        text::replaced(a, c, by) == a,
    decreases a.len(),
{
    if a.len() > 0 {
        let rest = a.drop_last();
        assert(a.last() != c) by {
            assert(a[a.len() - 1] == a.last());
        }
        assert(!rest.contains(c)) by {
            if rest.contains(c) {
                let i = choose|i: int| 0 <= i < rest.len() && rest[i] == c;
                assert(a[i] == c);
            }
        }
        lemma_nothing_replaced(rest, c, by);
        assert(rest.push(a.last()) =~= a);
    } else {
        assert(a =~= Seq::empty());
    }
}

proof fn lemma_replaced_concat(a: Seq<char>, b: Seq<char>, c: char, by: Seq<char>)
    ensures
        text::replaced(a + b, c, by) == text::replaced(a, c, by) + text::replaced(b, c, by),
    decreases b.len(),
{
    if b.len() == 0 {
        assert(a + b =~= a);
        assert(text::replaced(a, c, by) + text::replaced(b, c, by) =~= text::replaced(a, c, by));
    } else {
        let rest = b.drop_last();
        lemma_replaced_concat(a, rest, c, by);
        assert((a + b).drop_last() =~= a + rest);
        assert((a + b).last() == b.last());
        assert(text::replaced(a + b, c, by) =~= text::replaced(a, c, by) + text::replaced(
            b,
            c,
            by,
        ));
    }
}

/// Text is escaped character by character: what would be read as markup is named instead,
/// and everything else stays.
pub proof fn lemma_escaped_text(a: Seq<char>, c: char, b: Seq<char>)
    ensures
        ({
            let name = if c == '&' {
                "&amp;"@
            } else if c == '<' {
                "&lt;"@
            } else if c == '>' {
                "&gt;"@
            } else if c == '"' {
                "&quot;"@
            } else if c == '\'' {
                "&apos;"@
            } else {
                seq![c]
            };
            mail::html_escaped(a + seq![c] + b) == mail::html_escaped(a) + name
                + mail::html_escaped(b)
        }),
        mail::html_escaped(Seq::empty()).len() == 0,
{
    lemma_escaped_concat(a + seq![c], b);
    assert((a + seq![c]).drop_last() =~= a);
    assert((a + seq![c]).last() == c);
}

proof fn lemma_escaped_concat(a: Seq<char>, b: Seq<char>)
    ensures
        mail::html_escaped(a + b) == mail::html_escaped(a) + mail::html_escaped(b),
    decreases b.len(),
{
    if b.len() == 0 {
        assert(a + b =~= a);
        assert(mail::html_escaped(a) + mail::html_escaped(b) =~= mail::html_escaped(a));
    } else {
        let rest = b.drop_last();
        lemma_escaped_concat(a, rest);
        assert((a + b).drop_last() =~= a + rest);
        assert((a + b).last() == b.last());
        assert(mail::html_escaped(a + b) =~= mail::html_escaped(a) + mail::html_escaped(b));
    }
}

/// Plain text that is shown as a document has a line break for each end of a line,
/// whichever way it is written, and nothing that is read as markup but these.
pub proof fn lemma_text_as_document(a: Seq<char>, b: Seq<char>)
    requires
        !a.contains('\n') && !a.contains('\r'),
        !b.contains('\n') && !b.contains('\r'),
    ensures
        mail::html_of_text(a) == mail::html_escaped(a),
        mail::html_of_text(a + seq!['\n'] + b) == mail::html_escaped(a) + "<br>"@
            + mail::html_escaped(b),
        mail::html_of_text(a + seq!['\r', '\n'] + b) == mail::html_escaped(a) + "<br>"@
            + mail::html_escaped(b),
        mail::html_of_text(a + seq!['\r'] + b) == mail::html_escaped(a) + "<br>"@
            + mail::html_escaped(b),
{
    let joined = a + seq!['\n'] + b;
    lemma_no_line_ends(a, Seq::empty());
    assert(Seq::<char>::empty() + a =~= a);
    assert(mail::unified_line_ends(a) =~= a);
    assert((a + seq!['\n']).drop_last() =~= a);
    assert((a + seq!['\r']).drop_last() =~= a);
    assert((a + seq!['\r', '\n']).drop_last() =~= a + seq!['\r']);
    if a.len() > 0 {
        assert(a[a.len() - 1] != '\r');
    }
    assert(mail::unified_line_ends(a + seq!['\n']) =~= a + seq!['\n']);
    assert(mail::unified_line_ends(a + seq!['\r']) =~= a + seq!['\n']);
    assert(mail::unified_line_ends(a + seq!['\r', '\n']) =~= a + seq!['\n']);
    lemma_no_line_ends(b, a + seq!['\n']);
    lemma_no_line_ends(b, a + seq!['\r']);
    lemma_no_line_ends(b, a + seq!['\r', '\n']);
    assert(mail::unified_line_ends(joined) =~= joined);
    assert(mail::unified_line_ends(a + seq!['\r'] + b) =~= joined);
    assert(mail::unified_line_ends(a + seq!['\r', '\n'] + b) =~= joined);
    lemma_escaped_text(a, '\n', b);
    lemma_escaped_holds_no_line_end(a);
    lemma_escaped_holds_no_line_end(b);
    let left = mail::html_escaped(a);
    let right = mail::html_escaped(b);
    lemma_replaced_text(left, right, '\n', "<br>"@);
    lemma_nothing_replaced(left, '\n', "<br>"@);
    lemma_nothing_replaced(right, '\n', "<br>"@);
}

proof fn lemma_no_line_ends(b: Seq<char>, before: Seq<char>)
    requires
        !b.contains('\n') && !b.contains('\r'),
    ensures
        mail::unified_line_ends(before + b) == mail::unified_line_ends(before) + b,
    decreases b.len(),
{
    if b.len() == 0 {
        assert(before + b =~= before);
        assert(mail::unified_line_ends(before) + b =~= mail::unified_line_ends(before));
    } else {
        let rest = b.drop_last();
        assert(b[b.len() - 1] == b.last());
        assert(!rest.contains('\n') && !rest.contains('\r')) by {
            if rest.contains('\n') {
                let i = choose|i: int| 0 <= i < rest.len() && rest[i] == '\n';
                assert(b[i] == '\n');
            }
            if rest.contains('\r') {
                let i = choose|i: int| 0 <= i < rest.len() && rest[i] == '\r';
                assert(b[i] == '\r');
            }
        }
        lemma_no_line_ends(rest, before);
        assert((before + b).drop_last() =~= before + rest);
        assert((before + b).last() == b.last());
        assert(mail::unified_line_ends(before + b) =~= mail::unified_line_ends(before) + b);
    }
}

proof fn lemma_escaped_holds_no_line_end(s: Seq<char>)
    requires
        !s.contains('\n'),
    ensures
        !mail::html_escaped(s).contains('\n'),
    decreases s.len(),
{
    if s.len() > 0 {
        let rest = s.drop_last();
        assert(s[s.len() - 1] == s.last());
        assert(!rest.contains('\n')) by {
            if rest.contains('\n') {
                let i = choose|i: int| 0 <= i < rest.len() && rest[i] == '\n';
                assert(s[i] == '\n');
            }
        }
        lemma_escaped_holds_no_line_end(rest);
        let name = mail::html_escape(s.last());
        reveal_strlit("&amp;");
        reveal_strlit("&lt;");
        reveal_strlit("&gt;");
        reveal_strlit("&quot;");
        reveal_strlit("&apos;");
        assert(!name.contains('\n'));
        crate::laws::lists::lemma_in_either(mail::html_escaped(rest), name, '\n');
    }
}

/// A body has the parts that it was made of, and the part that is missing is made of the
/// other one.
pub proof fn lemma_body_of_its_parts(html: Seq<char>, plain: Seq<char>, rendered: Seq<char>)
    ensures
        ({
            let has_html = text::trimmed(html).len() > 0;
            let has_text = text::trimmed(plain).len() > 0;
            match mail::body_of(html, plain, rendered) {
                BodyView::Empty => !has_html && !has_text,
                BodyView::Html { html: kept, presentation_text } => has_html && !has_text && kept
                    == html && presentation_text.len() <= rendered.len() && presentation_text
                    == rendered.take(presentation_text.len() as int) && (presentation_text.len()
                    > 0 ==> presentation_text.last() != '\n'),
                BodyView::Text { text: kept, presentation_html } => !has_html && has_text && kept
                    == plain && presentation_html == mail::html_of_text(plain),
                BodyView::Alternative { html: left, text: right } => has_html && has_text && left
                    == html && right == plain,
            }
        }),
{
    lemma_without_trailing(rendered, '\n');
}

proof fn lemma_without_trailing(s: Seq<char>, c: char)
    ensures
        text::without_trailing(s, c).len() <= s.len(),
        text::without_trailing(s, c) == s.take(text::without_trailing(s, c).len() as int),
        text::without_trailing(s, c).len() > 0 ==> text::without_trailing(s, c).last() != c,
    decreases s.len(),
{
    if s.len() > 0 && s.last() == c {
        lemma_without_trailing(s.drop_last(), c);
        let n = text::without_trailing(s, c).len() as int;
        assert(s.drop_last().take(n) =~= s.take(n));
    } else {
        assert(s.take(s.len() as int) =~= s);
    }
}

/// The character that stands for `c` in a text of a script, written out.
proof fn lemma_script_char(c: char)
    ensures
        text::replaced(webkit::json_escape(c), '<', "\\u003c"@) == (if c == '<' {
            "\\u003c"@
        } else {
            webkit::json_escape(c)
        }),
{
    reveal_strlit("\\u003c");
    let written = webkit::json_escape(c);
    if c == '<' {
        assert(written =~= Seq::<char>::empty() + seq!['<'] + Seq::<char>::empty());
        lemma_replaced_text(Seq::empty(), Seq::empty(), '<', "\\u003c"@);
        assert(text::replaced(Seq::empty(), '<', "\\u003c"@) =~= Seq::empty());
        assert(Seq::<char>::empty() + "\\u003c"@ + Seq::<char>::empty() =~= "\\u003c"@);
    } else {
        assert(!written.contains('<'));
        lemma_nothing_replaced(written, '<', "\\u003c"@);
    }
}

proof fn lemma_json_concat(a: Seq<char>, b: Seq<char>)
    ensures
        webkit::json_escaped(a + b) == webkit::json_escaped(a) + webkit::json_escaped(b),
    decreases b.len(),
{
    if b.len() == 0 {
        assert(a + b =~= a);
        assert(webkit::json_escaped(a) + webkit::json_escaped(b) =~= webkit::json_escaped(a));
    } else {
        let rest = b.drop_last();
        lemma_json_concat(a, rest);
        assert((a + b).drop_last() =~= a + rest);
        assert((a + b).last() == b.last());
        assert(webkit::json_escaped(a + b) =~= webkit::json_escaped(a) + webkit::json_escaped(b));
    }
}

/// A text that is handed to a script is written character by character: quotes, backslashes
/// and line ends are escaped, a bracket that opens markup is written by its number, and
/// what needs no escape stays.
pub proof fn lemma_text_for_a_script(a: Seq<char>, c: char, b: Seq<char>)
    ensures
        ({
            let before = webkit::script_string(a);
            let after = webkit::script_string(b);
            let whole = webkit::script_string(a + seq![c] + b);
            let written = whole.subrange(before.len() - 1, whole.len() - after.len() + 1);
            &&& before.len() >= 2 && before[0] == '"' && before.last() == '"'
            &&& whole == before.drop_last() + written + after.skip(1)
            &&& c == '"' ==> written == seq!['\\', '"']
            &&& c == '\\' ==> written == seq!['\\', '\\']
            &&& c == '\n' ==> written == seq!['\\', 'n']
            &&& c == '\r' ==> written == seq!['\\', 'r']
            &&& c == '\t' ==> written == seq!['\\', 't']
            &&& c == '<' ==> written == "\\u003c"@
            &&& c as u32 >= 0x20 && c != '"' && c != '\\' && c != '<' ==> written == seq![c]
        }),
{
    let by = "\\u003c"@;
    let quote = seq!['"'];
    let code = text::replaced(webkit::json_escape(c), '<', by);
    let left = text::replaced(webkit::json_escaped(a), '<', by);
    let right = text::replaced(webkit::json_escaped(b), '<', by);
    lemma_nothing_replaced(quote, '<', by);
    lemma_script_shape(a);
    lemma_script_shape(b);
    lemma_script_shape(a + seq![c] + b);
    lemma_json_concat(a + seq![c], b);
    assert((a + seq![c]).drop_last() =~= a);
    assert((a + seq![c]).last() == c);
    lemma_replaced_concat(webkit::json_escaped(a + seq![c]), webkit::json_escaped(b), '<', by);
    lemma_replaced_concat(webkit::json_escaped(a), webkit::json_escape(c), '<', by);
    lemma_script_char(c);
    let before = webkit::script_string(a);
    let after = webkit::script_string(b);
    let whole = webkit::script_string(a + seq![c] + b);
    assert(before.drop_last() =~= quote + left);
    assert(after.skip(1) =~= right + quote);
    assert(whole =~= quote + left + code + right + quote);
    let written = whole.subrange(before.len() - 1, whole.len() - after.len() + 1);
    assert(written =~= code);
    assert(whole =~= before.drop_last() + written + after.skip(1));
}

proof fn lemma_script_shape(s: Seq<char>)
    ensures
        webkit::script_string(s) == seq!['"'] + text::replaced(
            webkit::json_escaped(s),
            '<',
            "\\u003c"@,
        ) + seq!['"'],
{
    let quote = seq!['"'];
    let by = "\\u003c"@;
    lemma_nothing_replaced(quote, '<', by);
    lemma_replaced_concat(quote + webkit::json_escaped(s), quote, '<', by);
    lemma_replaced_concat(quote, webkit::json_escaped(s), '<', by);
}

/// The document of the composer holds the body that it is opened with and the number by
/// which its reports are told apart, in that order.
pub proof fn lemma_composer_document_holds_the_body(body: Seq<char>, generation: u64)
    ensures
        ({
            let document = webkit::composer_document(body, generation);
            let start = webkit::COMPOSER_HEAD@.len() as int;
            let written = webkit::script_string(body);
            &&& text::stands_at(document, written, start)
            &&& exists|at: int|
                #[trigger] text::stands_at(
                    document,
                    "mailEditor.postMessage(JSON.stringify({generation: "@ + text::decimal_of(
                        generation as nat,
                    ),
                    at,
                ) && at >= start + written.len()
        }),
        text::number_of(text::decimal_of(generation as nat)) == generation,
{
    let document = webkit::composer_document(body, generation);
    let start = webkit::COMPOSER_HEAD@.len() as int;
    let written = webkit::script_string(body);
    assert(document.subrange(start, start + written.len()) =~= written);
    reveal_strlit("mailEditor.postMessage(JSON.stringify({generation: ");
    reveal_strlit("mailEditor");
    reveal_strlit(".postMessage(JSON.stringify({generation: ");
    let lead = "mailEditor.postMessage(JSON.stringify({generation: "@;
    assert(lead =~= webkit::COMPOSER_CHANNEL@ + webkit::COMPOSER_GENERATION@);
    let number = text::decimal_of(generation as nat);
    let at = start + written.len() + webkit::COMPOSER_SCRIPT@.len();
    assert(document.subrange(at, at + (lead + number).len()) =~= lead + number);
    assert(text::stands_at(document, lead + number, at));
    lemma_decimal_number(generation as nat);
}

/// A number in decimal digits is read as that number.
pub proof fn lemma_decimal_number(n: nat)
    ensures
        text::number_of(text::decimal_of(n)) == n,
        text::all_digits(text::decimal_of(n)),
        text::decimal_of(n).len() > 0,
    decreases n,
{
    if n < 10 {
        let digit = text::decimal_of(n);
        assert(digit.drop_last() =~= Seq::empty());
        assert(text::number_of(digit.drop_last()) == 0);
    } else {
        lemma_decimal_number(n / 10);
        let digits = text::decimal_of(n);
        assert(digits.drop_last() =~= text::decimal_of(n / 10));
        assert forall|i: int| 0 <= i < digits.len() implies text::is_digit(
            #[trigger] digits[i],
        ) by {
            if i < digits.len() - 1 {
                assert(digits[i] == text::decimal_of(n / 10)[i]);
            }
        }
    }
}

/// A report of the composer is taken over as it is, but for the blanks that do not break,
/// which are blanks like any other.
pub proof fn lemma_report_is_taken_over(update: ComposerUpdate, i: int)
    requires
        0 <= i < update.text@.len(),
    ensures
        webkit::reported(update).html == update.html@,
        webkit::reported(update).text.len() == update.text@.len(),
        webkit::reported(update).text[i] == (if update.text@[i] == '\u{a0}' {
            ' '
        } else {
            update.text@[i]
        }),
{
    lemma_replaced_one_for_one(update.text@, '\u{a0}', ' ');
}

proof fn lemma_replaced_one_for_one(s: Seq<char>, c: char, by: char)
    ensures
        text::replaced(s, c, seq![by]).len() == s.len(),
        forall|i: int|
            0 <= i < s.len() ==> (#[trigger] text::replaced(s, c, seq![by])[i]) == (if s[i] == c {
                by
            } else {
                s[i]
            }),
    decreases s.len(),
{
    if s.len() > 0 {
        let rest = s.drop_last();
        lemma_replaced_one_for_one(rest, c, by);
        let after = text::replaced(s, c, seq![by]);
        let before = text::replaced(rest, c, seq![by]);
        assert forall|i: int| 0 <= i < s.len() implies (#[trigger] after[i]) == (if s[i] == c {
            by
        } else {
            s[i]
        }) by {
            if i < rest.len() {
                assert(after[i] == before[i]);
                assert(rest[i] == s[i]);
            }
        }
    }
}

/// An address is told apart by what stands between its brackets, where it has them, and by
/// the whole of it where it has none, without regard to case.
pub proof fn lemma_address_without_its_name(name: Seq<char>, inner: Seq<char>)
    requires
        !inner.contains('<') && !inner.contains('>') && !name.contains('<'),
        name.len() > 0 ==> !text::is_space(name[0]),
    ensures
        address::normalized(name + "<"@ + inner + ">"@) == text::lowered(text::trimmed(inner)),
        address::normalized(inner) == text::lowered(text::trimmed(inner)),
{
    reveal_strlit("<");
    reveal_strlit(">");
    let whole = name + "<"@ + inner + ">"@;
    let n = name.len() as int;
    assert(!text::is_space('<') && !text::is_space('>'));
    assert(whole[0] == (if n > 0 {
        name[0]
    } else {
        '<'
    }));
    assert(whole.last() == '>');
    text::lemma_trimmed_identity(whole);
    text::lemma_last_at(whole, '<');
    assert(whole[n] == '<');
    let at = text::last_at(whole, '<');
    if at > n {
        if at < n + 1 + inner.len() {
            assert(whole[at] == inner[at - n - 1]);
        } else {
            assert(whole[at] == '>');
        }
    }
    assert(at == n);
    let rest = whole.skip(n + 1);
    assert(rest =~= inner + ">"@);
    text::lemma_first_at(rest, '>');
    let end = text::first_at(rest, '>');
    assert(rest[inner.len() as int] == '>');
    if end < inner.len() {
        assert(rest[end] == inner[end]);
    }
    assert(rest.take(end) =~= inner);
    let bare = text::trimmed(inner);
    let bounds = text::lemma_trimmed_bounds(inner);
    assert(!bare.contains('<')) by {
        if bare.contains('<') {
            let i = choose|i: int| 0 <= i < bare.len() && bare[i] == '<';
            assert(inner[bounds.0 + i] == '<');
        }
    }
    text::lemma_last_at(bare, '<');
    text::lemma_trimmed_idempotent(inner);
}

} // verus!
