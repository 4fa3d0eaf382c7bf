//! How messages are found, listed and opened.
use crate::integration::camel;
use crate::integration::camel::{
    AppendMessageRequest, FolderInfo, HeaderAddress, MessageInfo, MimeMessage,
};
use crate::laws::lists::{lemma_in_either, lemma_pushed};
use crate::model::mail;
use crate::model::mail::{BodyView, ConversationSummary, FolderKind, MessageDetail, SummaryView};
use crate::text;
use vstd::prelude::*;

verus! {

/// The condition that a header holds a text.
pub open spec fn header_condition(field: Seq<char>, escaped: Seq<char>) -> Seq<char> {
    "(header-contains \""@ + field + "\" \""@ + escaped + "\")"@
}

proof fn lemma_parts_stand(
    start: Seq<char>,
    a: Seq<char>,
    b: Seq<char>,
    c: Seq<char>,
    d: Seq<char>,
    tail: Seq<char>,
    end: Seq<char>,
)
    ensures
        ({
            let space = seq![' '];
            let whole = start + a + space + b + space + c + space + d + tail + end;
            &&& text::occurs_in(whole, a)
            &&& text::occurs_in(whole, b)
            &&& text::occurs_in(whole, c)
            &&& text::occurs_in(whole, d)
            &&& text::occurs_in(whole, tail)
            &&& text::stands_at(whole, start, 0)
        }),
{
    let space = seq![' '];
    let whole = start + a + space + b + space + c + space + d + tail + end;
    let at_a = start.len() as int;
    let at_b = at_a + a.len() + 1;
    let at_c = at_b + b.len() + 1;
    let at_d = at_c + c.len() + 1;
    let at_tail = at_d + d.len();
    assert(whole.subrange(0, start.len() as int) =~= start);
    assert(whole.subrange(at_a, at_a + a.len()) =~= a);
    assert(whole.subrange(at_b, at_b + b.len()) =~= b);
    assert(whole.subrange(at_c, at_c + c.len()) =~= c);
    assert(whole.subrange(at_d, at_d + d.len()) =~= d);
    assert(whole.subrange(at_tail, at_tail + tail.len()) =~= tail);
    assert(text::stands_at(whole, a, at_a));
    assert(text::stands_at(whole, b, at_b));
    assert(text::stands_at(whole, c, at_c));
    assert(text::stands_at(whole, d, at_d));
    assert(text::stands_at(whole, tail, at_tail));
}

/// A search looks for the query in the subject and in the addresses of the sender and of
/// all visible recipients, whether or not it looks into the body; it looks into the body
/// where it is asked to, which adds one condition and changes nothing else.
pub proof fn lemma_search_covers_the_headers(query: Seq<char>, include_body: bool)
    ensures
        ({
            let escaped = camel::sexp_escaped(text::trimmed(query));
            let whole = camel::search_expression_of(query, include_body);
            let condition = " (body-contains \""@ + escaped + "\")"@;
            &&& text::stands_at(whole, "(match-all (or "@, 0)
            &&& text::occurs_in(
                whole,
                "(header-contains \""@ + "subject"@ + "\" \""@ + escaped + "\")"@,
            )
            &&& text::occurs_in(
                whole,
                "(header-contains \""@ + "from"@ + "\" \""@ + escaped + "\")"@,
            )
            &&& text::occurs_in(
                whole,
                "(header-contains \""@ + "to"@ + "\" \""@ + escaped + "\")"@,
            )
            &&& text::occurs_in(
                whole,
                "(header-contains \""@ + "cc"@ + "\" \""@ + escaped + "\")"@,
            )
            &&& include_body ==> text::occurs_in(whole, condition)
            &&& exists|conditions: Seq<char>|
                camel::search_expression_of(query, false) == #[trigger] (conditions + "))"@)
                    && camel::search_expression_of(query, true) == conditions + condition + "))"@
        }),
{
    let escaped = camel::sexp_escaped(text::trimmed(query));
    let space = seq![' '];
    let condition = " (body-contains \""@ + escaped + "\")"@;
    let start = "(match-all (or "@;
    let a = header_condition("subject"@, escaped);
    let b = header_condition("from"@, escaped);
    let c = header_condition("to"@, escaped);
    let d = header_condition("cc"@, escaped);
    let tail = if include_body {
        condition
    } else {
        Seq::empty()
    };
    lemma_parts_stand(start, a, b, c, d, tail, "))"@);
    let conditions = start + a + space + b + space + c + space + d;
    assert(conditions + Seq::<char>::empty() =~= conditions);
    assert(camel::search_expression_of(query, false) == conditions + "))"@);
    assert(camel::search_expression_of(query, true) == conditions + condition + "))"@);
}

/// The text that the inside of a string of a search expression stands for.
pub open spec fn unescaped(s: Seq<char>) -> Seq<char>
    decreases s.len(),
{
    if s.len() == 0 {
        Seq::empty()
    } else if s[0] == '\\' && s.len() >= 2 {
        seq![s[1]] + unescaped(s.skip(2))
    } else {
        seq![s[0]] + unescaped(s.skip(1))
    }
}

proof fn lemma_unescaped_front(c: char, rest: Seq<char>)
    ensures
        unescaped((if c == '\\' || c == '"' {
            seq!['\\', c]
        } else {
            seq![c]
        }) + rest) == seq![c] + unescaped(rest),
{
    if c == '\\' || c == '"' {
        let whole = seq!['\\', c] + rest;
        assert(whole.skip(2) =~= rest);
        assert(whole[0] == '\\' && whole[1] == c);
    } else {
        let whole = seq![c] + rest;
        assert(whole.skip(1) =~= rest);
        assert(whole[0] == c);
    }
}

proof fn lemma_escaped_from_the_front(s: Seq<char>)
    requires
        s.len() > 0,
    ensures
        camel::sexp_escaped(s) == (if s[0] == '\\' || s[0] == '"' {
            seq!['\\', s[0]]
        } else {
            seq![s[0]]
        }) + camel::sexp_escaped(s.skip(1)),
    decreases s.len(),
{
    let head = if s[0] == '\\' || s[0] == '"' {
        seq!['\\', s[0]]
    } else {
        seq![s[0]]
    };
    if s.len() == 1 {
        assert(s.drop_last() =~= Seq::empty());
        assert(s.skip(1) =~= Seq::empty());
        assert(camel::sexp_escaped(s) =~= head + camel::sexp_escaped(s.skip(1)));
    } else {
        lemma_escaped_from_the_front(s.drop_last());
        assert(s.drop_last().skip(1) =~= s.skip(1).drop_last());
        assert(s.skip(1).last() == s.last());
        assert(camel::sexp_escaped(s) =~= head + camel::sexp_escaped(s.skip(1)));
    }
}

/// What is looked for is the query itself: the string in the search expression stands for it.
pub proof fn lemma_escaped_query_is_the_query(s: Seq<char>)
    ensures
        unescaped(camel::sexp_escaped(s)) == s,
    decreases s.len(),
{
    if s.len() > 0 {
        lemma_escaped_from_the_front(s);
        lemma_unescaped_front(s[0], camel::sexp_escaped(s.skip(1)));
        lemma_escaped_query_is_the_query(s.skip(1));
        assert(seq![s[0]] + s.skip(1) =~= s);
    }
}

/// A mailbox with an address is shown with the whole address at the end: alone, or in angle
/// brackets behind the name. So two mailboxes with different addresses are never shown
/// alike, unless an address looks like a named mailbox.
pub proof fn lemma_shown_mailbox_holds_its_address(address: HeaderAddress)
    ensures
        ({
            let name = text::trimmed(text::view_opt(address.name).unwrap_or(Seq::empty()));
            let email = text::trimmed(text::view_opt(address.email).unwrap_or(Seq::empty()));
            &&& email.len() > 0 && name.len() == 0 ==> camel::shown_address(address) == Some(email)
            &&& email.len() > 0 && name.len() > 0 ==> camel::shown_address(address) == Some(
                name + seq![' ', '<'] + email + seq!['>'],
            )
            &&& email.len() == 0 && name.len() > 0 ==> camel::shown_address(address) == Some(name)
            &&& email.len() == 0 && name.len() == 0 ==> camel::shown_address(address) is None
        }),
{
    reveal_strlit(" <");
    assert(" <"@ =~= seq![' ', '<']);
}

/// Two mailboxes of one name with different addresses are shown differently.
pub proof fn lemma_addresses_tell_mailboxes_apart(a: HeaderAddress, b: HeaderAddress)
    requires
        text::view_opt(a.name) == text::view_opt(b.name),
        text::trimmed(text::view_opt(a.email).unwrap_or(Seq::empty())) != text::trimmed(
            text::view_opt(b.email).unwrap_or(Seq::empty()),
        ),
    ensures
        camel::shown_address(a) != camel::shown_address(b),
{
    lemma_shown_mailbox_holds_its_address(a);
    lemma_shown_mailbox_holds_its_address(b);
    let name = text::trimmed(text::view_opt(a.name).unwrap_or(Seq::empty()));
    let x = text::trimmed(text::view_opt(a.email).unwrap_or(Seq::empty()));
    let y = text::trimmed(text::view_opt(b.email).unwrap_or(Seq::empty()));
    assert(name == text::trimmed(text::view_opt(b.name).unwrap_or(Seq::empty())));
    if name.len() == 0 {
        assert(x.len() > 0 || y.len() > 0) by {
            if x.len() == 0 && y.len() == 0 {
                assert(x =~= y);
            }
        }
    }
    if name.len() > 0 && x.len() == 0 && y.len() == 0 {
        assert(x =~= y);
    }
    if name.len() > 0 {
        let n = name.len() as int;
        if x.len() > 0 && y.len() > 0 {
            let left = name + seq![' ', '<'] + x + seq!['>'];
            let right = name + seq![' ', '<'] + y + seq!['>'];
            if left == right {
                assert(left.subrange(n + 2, left.len() - 1) =~= x);
                assert(right.subrange(n + 2, right.len() - 1) =~= y);
                assert(x == y);
            }
        } else if x.len() > 0 {
            assert((name + seq![' ', '<'] + x + seq!['>']).len() > name.len());
        } else {
            assert((name + seq![' ', '<'] + y + seq!['>']).len() > name.len());
        }
    }
}

/// Each mailbox of a header that says something is shown, in order, and nothing else is.
pub proof fn lemma_each_mailbox_is_shown(addresses: Seq<HeaderAddress>)
    ensures
        forall|i: int|
            0 <= i < addresses.len() && camel::shown_address(#[trigger] addresses[i]) is Some
                ==> camel::shown_addresses(addresses).contains(
                camel::shown_address(addresses[i])->0,
            ),
        forall|shown: Seq<char>| #[trigger]
            camel::shown_addresses(addresses).contains(shown) ==> exists|i: int|
                0 <= i < addresses.len() && camel::shown_address(#[trigger] addresses[i]) == Some(
                    shown,
                ),
        (forall|i: int|
            0 <= i < addresses.len() ==> camel::shown_address(#[trigger] addresses[i]) is Some)
            ==> camel::shown_addresses(addresses).len() == addresses.len() && forall|i: int|
            0 <= i < addresses.len() ==> #[trigger] camel::shown_addresses(addresses)[i]
                == camel::shown_address(addresses[i])->0,
    decreases addresses.len(),
{
    if addresses.len() > 0 {
        let rest = addresses.drop_last();
        let last = addresses.last();
        let n = addresses.len() - 1;
        assert(addresses[n] == last);
        lemma_each_mailbox_is_shown(rest);
        let before = camel::shown_addresses(rest);
        assert forall|i: int|
            0 <= i < addresses.len() && camel::shown_address(
                #[trigger] addresses[i],
            ) is Some implies camel::shown_addresses(addresses).contains(
            camel::shown_address(addresses[i])->0,
        ) by {
            if i < n {
                assert(rest[i] == addresses[i]);
            }
            if camel::shown_address(last) is Some {
                lemma_pushed(
                    before,
                    camel::shown_address(last)->0,
                    camel::shown_address(addresses[i])->0,
                );
            }
        }
        assert forall|shown: Seq<char>| #[trigger]
            camel::shown_addresses(addresses).contains(shown) implies exists|i: int|
            0 <= i < addresses.len() && camel::shown_address(#[trigger] addresses[i]) == Some(
                shown,
            ) by {
            if camel::shown_address(last) is Some {
                lemma_pushed(before, camel::shown_address(last)->0, shown);
            }
            if before.contains(shown) {
                let i = choose|i: int|
                    0 <= i < rest.len() && camel::shown_address(#[trigger] rest[i]) == Some(shown);
                assert(addresses[i] == rest[i]);
            } else {
                assert(camel::shown_address(addresses[n]) == Some(shown));
            }
        }
        if forall|i: int|
            0 <= i < addresses.len() ==> camel::shown_address(#[trigger] addresses[i]) is Some {
            assert forall|i: int| 0 <= i < rest.len() implies camel::shown_address(
                #[trigger] rest[i],
            ) is Some by {
                assert(rest[i] == addresses[i]);
            }
            assert(camel::shown_address(addresses[n]) is Some);
            assert forall|i: int| 0 <= i < addresses.len() implies
                #[trigger] camel::shown_addresses(addresses)[i] == camel::shown_address(
                addresses[i],
            )->0 by {
                if i < n {
                    assert(rest[i] == addresses[i]);
                    assert(camel::shown_addresses(addresses)[i] == before[i]);
                }
            }
        }
    }
}

/// An opened message shows its own headers: its sender first, then its recipients, each list
/// from its own header, its subject, unless it is blank, its date, and whether it is starred
/// and unread by its flags. It is answered at the first mailbox of its own reply header.
pub proof fn lemma_opened_message_shows_its_headers(
    detail: MessageDetail,
    uid: Seq<char>,
    conversation_id: Seq<char>,
    info: MessageInfo,
    message: MimeMessage,
    rendered: Seq<char>,
)
    requires
        camel::shows(detail, uid, conversation_id, info, message, rendered),
    ensures
        detail.conversation_id@ == conversation_id,
        match message.message_id {
            Some(id) => detail.message_id@ == id@,
            None => detail.message_id@ == uid,
        },
        message.subject is Some && text::trimmed((message.subject->0)@).len() > 0
            ==> detail.subject@ == (message.subject->0)@,
        (message.subject is None || text::trimmed((message.subject->0)@).len() == 0)
            && info.subject is Some ==> detail.subject@ == (info.subject->0)@,
        camel::shown_addresses(message.from@).len() > 0 ==> detail.from@ == camel::shown_addresses(
            message.from@,
        )[0],
        camel::shown_addresses(message.from@).len() == 0 && info.from is Some ==> detail.from@ == (
        info.from->0)@,
        text::views(detail.to@) == camel::shown_addresses(message.to@),
        text::views(detail.cc@) == camel::shown_addresses(message.cc@),
        text::views(detail.bcc@) == camel::shown_addresses(message.bcc@),
        camel::shown_addresses(message.reply_to@).len() > 0 ==> text::view_opt(detail.reply_to)
            == Some(camel::shown_addresses(message.reply_to@)[0]),
        camel::shown_addresses(message.reply_to@).len() == 0 ==> detail.reply_to is None,
        message.date_sent > 0 ==> detail.date_unix_secs == message.date_sent,
        message.date_sent <= 0 && message.date_received > 0 ==> detail.date_unix_secs
            == message.date_received,
        detail.starred <==> info.flags & 0x8 != 0,
        detail.unread <==> info.flags & 0x10 == 0,
        message.attachments is None ==> detail.attachments@.len() == 0,
{
}

/// The body of a message is made of its parts: both are kept as they are, and what is missing
/// is made of the other one.
pub proof fn lemma_body_keeps_the_parts(html: Seq<char>, plain: Seq<char>, rendered: Seq<char>)
    ensures
        text::trimmed(html).len() > 0 && text::trimmed(plain).len() > 0 ==> mail::body_of(
            html,
            plain,
            rendered,
        ) == (BodyView::Alternative { html, text: plain }),
        text::trimmed(html).len() > 0 && text::trimmed(plain).len() == 0 ==> (mail::body_of(
            html,
            plain,
            rendered,
        ) matches BodyView::Html { html: kept, presentation_text } && kept == html
            && presentation_text.len() <= rendered.len() && presentation_text == rendered.take(
            presentation_text.len() as int,
        ) && (presentation_text.len() == 0 || presentation_text.last() != '\n') && forall|i: int|
            presentation_text.len() <= i < rendered.len() ==> #[trigger] rendered[i] == '\n'),
        text::trimmed(html).len() == 0 && text::trimmed(plain).len() > 0 ==> (mail::body_of(
            html,
            plain,
            rendered,
        ) matches BodyView::Text { text: kept, presentation_html } && kept == plain
            && presentation_html == mail::html_of_text(plain)),
        text::trimmed(html).len() == 0 && text::trimmed(plain).len() == 0 ==> mail::body_of(
            html,
            plain,
            rendered,
        ) is Empty,
{
    lemma_without_trailing(rendered, '\n');
}

proof fn lemma_without_trailing(s: Seq<char>, c: char)
    ensures
        ({
            let kept = text::without_trailing(s, c);
            &&& kept.len() <= s.len()
            &&& kept == s.take(kept.len() as int)
            &&& kept.len() == 0 || kept.last() != c
            &&& forall|i: int| kept.len() <= i < s.len() ==> #[trigger] s[i] == c
        }),
    decreases s.len(),
{
    let kept = text::without_trailing(s, c);
    if s.len() > 0 && s.last() == c {
        let rest = s.drop_last();
        lemma_without_trailing(rest, c);
        assert(rest.take(kept.len() as int) =~= s.take(kept.len() as int));
        assert forall|i: int| kept.len() <= i < s.len() implies #[trigger] s[i] == c by {
            if i < rest.len() {
                assert(rest[i] == s[i]);
            }
        }
    } else {
        assert(s.take(s.len() as int) =~= s);
    }
}

/// A line of a conversation list names the message it stands for, is counted unread, starred
/// and with attachments by the flags of the message, bears its subject and preview, and is
/// as new as the message.
pub proof fn lemma_row_tells_of_its_message(info: MessageInfo, folder: Seq<char>, uid: Seq<char>)
    ensures
        ({
            let row = camel::summary_of(info, folder, uid);
            &&& row.folder_id == folder
            &&& row.id == folder + seq!['\u{1f}'] + uid
            &&& row.message_count == 1
            &&& row.unread_count == (if info.flags & 0x10 == 0 {
                1int
            } else {
                0
            })
            &&& row.starred <==> info.flags & 0x8 != 0
            &&& row.attachment_count > 0 <==> info.flags & 0x20 != 0
            &&& info.subject is Some && text::trimmed((info.subject->0)@).len() > 0
                ==> row.subject == (info.subject->0)@
            &&& row.participants.len() == 1
            &&& info.date_sent > 0 && info.date_sent * 1000 <= i64::MAX
                ==> row.last_updated_unix_ms == info.date_sent * 1000
            &&& info.date_sent <= 0 && info.date_received > 0 && info.date_received * 1000
                <= i64::MAX ==> row.last_updated_unix_ms == info.date_received * 1000
            &&& info.preview is Some ==> row.preview == text::trimmed((info.preview->0)@)
            &&& info.from is Some && text::trimmed((info.from->0)@).len() > 0
                && text::first_at(text::trimmed((info.from->0)@), '<') == text::trimmed(
                (info.from->0)@,
            ).len() ==> row.participants[0] == text::trimmed((info.from->0)@)
        }),
{
}

proof fn lemma_filled_values(values: Seq<Seq<char>>)
    ensures
        forall|i: int|
            0 <= i < values.len() && text::trimmed(#[trigger] values[i]).len() > 0
                ==> camel::filled_values(values).contains(text::trimmed(values[i])),
        forall|line: Seq<char>| #[trigger]
            camel::filled_values(values).contains(line) ==> exists|i: int|
                0 <= i < values.len() && text::trimmed(#[trigger] values[i]) == line && line.len()
                    > 0,
        (forall|i: int| 0 <= i < values.len() ==> text::trimmed(#[trigger] values[i]).len() > 0)
            ==> camel::filled_values(values).len() == values.len() && forall|i: int|
            0 <= i < values.len() ==> #[trigger] camel::filled_values(values)[i] == text::trimmed(
                values[i],
            ),
    decreases values.len(),
{
    if values.len() > 0 {
        let rest = values.drop_last();
        let last = values.last();
        let n = values.len() - 1;
        assert(values[n] == last);
        lemma_filled_values(rest);
        let before = camel::filled_values(rest);
        let all = camel::filled_values(values);
        assert forall|i: int|
            0 <= i < values.len() && text::trimmed(#[trigger] values[i]).len()
                > 0 implies all.contains(text::trimmed(values[i])) by {
            lemma_pushed(before, text::trimmed(last), text::trimmed(values[i]));
            if i < n {
                assert(rest[i] == values[i]);
            }
        }
        assert forall|line: Seq<char>| #[trigger] all.contains(line) implies exists|i: int|
            0 <= i < values.len() && text::trimmed(#[trigger] values[i]) == line && line.len()
                > 0 by {
            lemma_pushed(before, text::trimmed(last), line);
            if before.contains(line) {
                let i = choose|i: int|
                    0 <= i < rest.len() && text::trimmed(#[trigger] rest[i]) == line && line.len()
                        > 0;
                assert(values[i] == rest[i]);
            } else {
                assert(text::trimmed(values[n]) == line);
            }
        }
        if forall|i: int| 0 <= i < values.len() ==> text::trimmed(#[trigger] values[i]).len() > 0 {
            assert forall|i: int| 0 <= i < rest.len() implies text::trimmed(
                #[trigger] rest[i],
            ).len() > 0 by {
                assert(rest[i] == values[i]);
            }
            assert(text::trimmed(values[n]).len() > 0);
            assert forall|i: int| 0 <= i < values.len() implies #[trigger] all[i]
                == text::trimmed(values[i]) by {
                if i < n {
                    assert(rest[i] == values[i]);
                    assert(all[i] == before[i]);
                }
            }
        }
    }
}

/// Every recipient that is more than white space is handed to the store, trimmed, in order;
/// and nothing else is.
pub proof fn lemma_no_recipient_is_lost(values: Seq<Seq<char>>)
    ensures
        forall|i: int|
            0 <= i < values.len() && text::trimmed(#[trigger] values[i]).len() > 0
                ==> camel::filled_values(values).contains(text::trimmed(values[i])),
        forall|line: Seq<char>| #[trigger]
            camel::filled_values(values).contains(line) ==> exists|i: int|
                0 <= i < values.len() && text::trimmed(#[trigger] values[i]) == line && line.len()
                    > 0,
        (forall|i: int| 0 <= i < values.len() ==> text::trimmed(#[trigger] values[i]).len() > 0)
            ==> camel::filled_values(values).len() == values.len() && forall|i: int|
            0 <= i < values.len() ==> #[trigger] camel::filled_values(values)[i] == text::trimmed(
                values[i],
            ),
{
    lemma_filled_values(values);
}

/// A message is stored only where none of its parts holds a NUL character and none of its
/// recipients and attachments a line break; and one without any is stored.
pub proof fn lemma_stored_message_is_sound(source_uid: Seq<char>, request: AppendMessageRequest)
    ensures
        camel::append_error(source_uid, request) is None ==> {
            &&& !request.folder_id@.contains('\0')
            &&& !source_uid.contains('\0')
            &&& !request.from@.contains('\0')
            &&& !request.subject@.contains('\0')
            &&& !request.html_body@.contains('\0')
            &&& !request.plain_body@.contains('\0')
            &&& request.message_id is Some ==> !(request.message_id->0)@.contains('\0')
            &&& request.reply_to is Some ==> !(request.reply_to->0)@.contains('\0')
            &&& camel::line_error(text::views(request.to@)) is None
            &&& camel::line_error(text::views(request.cc@)) is None
            &&& camel::line_error(text::views(request.bcc@)) is None
            &&& camel::line_error(text::views(request.attachment_uris@)) is None
        },
        !request.folder_id@.contains('\0') && !source_uid.contains('\0') && !request.from@.contains(
            '\0',
        ) && !request.subject@.contains('\0') && !request.html_body@.contains('\0')
            && !request.plain_body@.contains('\0') && (request.message_id is Some ==> !(
        request.message_id->0)@.contains('\0')) && (request.reply_to is Some ==> !(
        request.reply_to->0)@.contains('\0')) && camel::line_error(text::views(request.to@)) is None
            && camel::line_error(text::views(request.cc@)) is None && camel::line_error(
            text::views(request.bcc@),
        ) is None && camel::line_error(text::views(request.attachment_uris@)) is None
            ==> camel::append_error(source_uid, request) is None,
{
}

/// A list is written one to a line just where no entry breaks its line and none holds
/// a NUL character.
pub proof fn lemma_sound_lines(values: Seq<Seq<char>>)
    requires
        camel::line_error(values) is None,
    ensures
        forall|i: int|
            0 <= i < camel::filled_values(values).len() ==> !(
            #[trigger] camel::filled_values(values)[i]).contains('\n')
                && !camel::filled_values(values)[i].contains('\r'),
        !camel::serialized_lines(values).contains('\0'),
{
    assert forall|i: int| 0 <= i < camel::filled_values(values).len() implies !(
    #[trigger] camel::filled_values(values)[i]).contains('\n') && !camel::filled_values(
        values,
    )[i].contains('\r') by {
        assert(!camel::breaks_line(camel::filled_values(values)[i]));
    }
}

/// An attachment is listed under the name that its record encodes and opened by the token
/// behind the tab.
pub proof fn lemma_attachment_record_is_read(
    encoded: Seq<char>,
    name: Seq<char>,
    token: Seq<char>,
)
    requires
        !encoded.contains('\t'),
        camel::percent_text(encoded) == Some(name),
        name.len() > 0,
        text::u32_of(token) is Some,
        text::u32_of(token) != Some(0u32),
    ensures
        camel::attachment_of(encoded + seq!['\t'] + token) == Ok::<_, camel::AttachmentError>(
            (name, token),
        ),
{
    let line = encoded + seq!['\t'] + token;
    text::lemma_first_at(line, '\t');
    let at = text::first_at(line, '\t');
    assert(line[encoded.len() as int] == '\t');
    if at < encoded.len() {
        assert(encoded[at] == line[at]);
        assert(encoded.contains('\t'));
    }
    assert(line.take(at) =~= encoded);
    assert(line.skip(at + 1) =~= token);
}

proof fn lemma_attachment_lines(lines: Seq<Seq<char>>)
    requires
        camel::attachments_of(lines) is Ok,
    ensures
        camel::attachments_of(lines)->Ok_0.len() == lines.len(),
        forall|i: int|
            0 <= i < lines.len() ==> camel::attachment_of(#[trigger] lines[i]) == Ok::<
                camel::AttachmentView,
                camel::AttachmentError,
            >(camel::attachments_of(lines)->Ok_0[i]),
    decreases lines.len(),
{
    if lines.len() > 0 {
        let rest = lines.drop_last();
        lemma_attachment_lines(rest);
        let before = camel::attachments_of(rest)->Ok_0;
        let all = camel::attachments_of(lines)->Ok_0;
        assert forall|i: int| 0 <= i < lines.len() implies camel::attachment_of(
            #[trigger] lines[i],
        ) == Ok::<camel::AttachmentView, camel::AttachmentError>(all[i]) by {
            if i < rest.len() {
                assert(rest[i] == lines[i]);
                assert(all[i] == before[i]);
            }
        }
    }
}

/// A message lists one attachment for each line of its records, in order.
pub proof fn lemma_each_attachment_is_listed(serialized: Seq<char>)
    requires
        camel::records_of(serialized) is Ok,
    ensures
        serialized.len() > 0,
        camel::records_of(serialized)->Ok_0.len() == text::lines_of(serialized).len(),
        forall|i: int|
            0 <= i < text::lines_of(serialized).len() ==> camel::attachment_of(
                #[trigger] text::lines_of(serialized)[i],
            ) == Ok::<camel::AttachmentView, camel::AttachmentError>(
                camel::records_of(serialized)->Ok_0[i],
            ),
{
    lemma_attachment_lines(text::lines_of(serialized));
}

/// What a folder is for is told by its flags, and the inbox stands first in the list, then
/// what is being written and sent, then what is put away, and the user's own folders last.
pub proof fn lemma_folder_kinds(flags: u32)
    ensures
        camel::kind_of(flags) is Inbox <==> flags & 0xfc00 == 0x400,
        camel::kind_of(flags) is Outbox <==> flags & 0xfc00 == 0x800,
        camel::kind_of(flags) is Trash <==> flags & 0xfc00 == 0xc00,
        camel::kind_of(flags) is Spam <==> flags & 0xfc00 == 0x1000,
        camel::kind_of(flags) is Sent <==> flags & 0xfc00 == 0x1400,
        camel::kind_of(flags) is Archive <==> flags & 0xfc00 == 0x2c00,
        camel::kind_of(flags) is Drafts <==> flags & 0xfc00 == 0x3000,
        camel::rank_of(FolderKind::Inbox) < camel::rank_of(FolderKind::Drafts) < camel::rank_of(
            FolderKind::Outbox,
        ) < camel::rank_of(FolderKind::Sent) < camel::rank_of(FolderKind::Archive)
            < camel::rank_of(FolderKind::Trash) < camel::rank_of(FolderKind::Spam)
            < camel::rank_of(FolderKind::Custom),
{
}

proof fn lemma_folders_from(infos: Seq<FolderInfo>)
    ensures
        camel::folders_from(infos) is Some <==> forall|i: int|
            0 <= i < infos.len() ==> (#[trigger] infos[i]).full_name is Some && (
            infos[i].full_name->0)@.len() > 0,
        camel::folders_from(infos) matches Some(folders) ==> folders.len() == infos.len()
            && forall|i: int|
            0 <= i < infos.len() ==> Some(#[trigger] folders[i]) == camel::folder_from(infos[i]),
    decreases infos.len(),
{
    if infos.len() > 0 {
        let rest = infos.drop_last();
        let n = infos.len() - 1;
        lemma_folders_from(rest);
        assert(infos[n] == infos.last());
        assert forall|i: int| 0 <= i < n implies #[trigger] rest[i] == infos[i] by {}
        if forall|i: int|
            0 <= i < infos.len() ==> (#[trigger] infos[i]).full_name is Some && (
            infos[i].full_name->0)@.len() > 0 {
            assert forall|i: int| 0 <= i < rest.len() implies (#[trigger] rest[i]).full_name is Some
                && (rest[i].full_name->0)@.len() > 0 by {
                assert(infos[i] == rest[i]);
            }
            assert(infos[n].full_name is Some);
        }
        if camel::folders_from(infos) is Some {
            assert forall|i: int| 0 <= i < infos.len() implies (
            #[trigger] infos[i]).full_name is Some && (infos[i].full_name->0)@.len() > 0 by {
                if i < n {
                    assert(rest[i] == infos[i]);
                }
            }
            let folders = camel::folders_from(infos)->0;
            let before = camel::folders_from(rest)->0;
            assert forall|i: int| 0 <= i < infos.len() implies Some(#[trigger] folders[i])
                == camel::folder_from(infos[i]) by {
                if i < n {
                    assert(folders[i] == before[i]);
                    assert(rest[i] == infos[i]);
                }
            }
        }
    }
}

/// Every folder of a store is listed under its own name, with what it is for and how many
/// unread messages it has; a folder without a name makes the list invalid.
pub proof fn lemma_each_folder_is_listed(infos: Seq<FolderInfo>)
    ensures
        camel::folders_from(infos) is Some <==> forall|i: int|
            0 <= i < infos.len() ==> (#[trigger] infos[i]).full_name is Some && (
            infos[i].full_name->0)@.len() > 0,
        camel::folders_from(infos) matches Some(folders) ==> folders.len() == infos.len()
            && forall|i: int|
            0 <= i < infos.len() ==> {
                &&& (#[trigger] folders[i]).id == (infos[i].full_name->0)@
                &&& infos[i].display_name is Some ==> folders[i].name == (
                infos[i].display_name->0)@
                &&& infos[i].display_name is None ==> folders[i].name == folders[i].id
                &&& infos[i].unread >= 0 ==> folders[i].unread_count == infos[i].unread
                &&& infos[i].unread < 0 ==> folders[i].unread_count == 0
                &&& folders[i].kind == camel::kind_of(infos[i].flags)
            },
{
    lemma_folders_from(infos);
    if camel::folders_from(infos) is Some {
        let folders = camel::folders_from(infos)->0;
        assert forall|i: int| 0 <= i < infos.len() implies {
            &&& (#[trigger] folders[i]).id == (infos[i].full_name->0)@
            &&& infos[i].display_name is Some ==> folders[i].name == (infos[i].display_name->0)@
            &&& infos[i].display_name is None ==> folders[i].name == folders[i].id
            &&& infos[i].unread >= 0 ==> folders[i].unread_count == infos[i].unread
            &&& infos[i].unread < 0 ==> folders[i].unread_count == 0
            &&& folders[i].kind == camel::kind_of(infos[i].flags)
        } by {
            assert(Some(folders[i]) == camel::folder_from(infos[i]));
        }
    }
}

/// The folders that have to exist for a local folder are those that its path leads through.
pub proof fn lemma_parent_folders(path: Seq<char>, parent: Seq<char>)
    ensures
        camel::parents_of(path).contains(parent) <==> parent.len() < path.len() && path.take(
            parent.len() as int,
        ) == parent && path[parent.len() as int] == '/',
    decreases path.len(),
{
    if path.len() > 0 {
        let rest = path.drop_last();
        lemma_parent_folders(rest, parent);
        lemma_pushed(camel::parents_of(rest), rest, parent);
        let n = parent.len() as int;
        if n < rest.len() {
            assert(rest.take(n) =~= path.take(n));
            assert(rest[n] == path[n]);
        } else if n == rest.len() {
            assert(path.take(n) =~= rest);
            assert(path[n] == path.last());
        }
    }
}

/// A page holds the entries from its start on, as many as were asked for or are left.
pub proof fn lemma_page_is_cut_out(list: Seq<SummaryView>, offset: nat, limit: nat)
    ensures
        ({
            let page = camel::page_of(list, offset, limit);
            &&& forall|i: int|
                0 <= i < page.len() ==> offset + i < list.len() && #[trigger] page[i] == list[offset
                    + i]
            &&& limit > 0 && offset + limit <= list.len() ==> page.len() == limit
            &&& (limit == 0 || offset + limit > list.len()) && offset <= list.len() ==> page.len()
                == list.len() - offset
            &&& offset > list.len() ==> page.len() == 0
        }),
{
}

/// What is found in any folder of a store is among what the search gives.
pub proof fn lemma_nothing_found_is_lost(
    found: Seq<Vec<ConversationSummary>>,
    row: SummaryView,
)
    ensures
        camel::all_found(found).contains(row) <==> exists|k: int|
            0 <= k < found.len() && mail::summaries((#[trigger] found[k])@).contains(row),
    decreases found.len(),
{
    if found.len() > 0 {
        let rest = found.drop_last();
        let n = found.len() - 1;
        lemma_nothing_found_is_lost(rest, row);
        lemma_in_either(camel::all_found(rest), mail::summaries(found.last()@), row);
        assert(found[n] == found.last());
        if exists|k: int|
            0 <= k < rest.len() && mail::summaries((#[trigger] rest[k])@).contains(row) {
            let k = choose|k: int|
                0 <= k < rest.len() && mail::summaries((#[trigger] rest[k])@).contains(row);
            assert(found[k] == rest[k]);
        }
        if exists|k: int|
            0 <= k < found.len() && mail::summaries((#[trigger] found[k])@).contains(row) {
            let k = choose|k: int|
                0 <= k < found.len() && mail::summaries((#[trigger] found[k])@).contains(row);
            if k < n {
                assert(rest[k] == found[k]);
            }
        }
    }
}

/// A message that is opened shows its parts as they are, says where it has no subject and no
/// sender, and lists an attachment for each record, in their order.
pub proof fn lemma_opened_message_shows_its_parts(
    detail: MessageDetail,
    uid: Seq<char>,
    conversation_id: Seq<char>,
    info: MessageInfo,
    message: MimeMessage,
    rendered: Seq<char>,
)
    requires
        camel::shows(detail, uid, conversation_id, info, message, rendered),
    ensures
        ({
            let has_html = message.html is Some && text::trimmed((message.html->0)@).len() > 0;
            let has_text = message.text is Some && text::trimmed((message.text->0)@).len() > 0;
            match detail.body@ {
                BodyView::Empty => !has_html && !has_text,
                BodyView::Html { html, .. } => has_html && !has_text && html == (message.html->0)@,
                BodyView::Text { text, presentation_html } => !has_html && has_text && text == (
                message.text->0)@ && presentation_html == mail::html_of_text(text),
                BodyView::Alternative { html, text } => has_html && has_text && html == (
                message.html->0)@ && text == (message.text->0)@,
            }
        }),
        message.subject is None && info.subject is None ==> detail.subject@ == "(No subject)"@,
        camel::shown_addresses(message.from@).len() == 0 && info.from is None ==> detail.from@
            == "Unknown sender"@,
        message.date_sent <= 0 && message.date_received <= 0 ==> detail.date_unix_secs == 0,
        message.attachments matches Some(records) ==> (camel::records_of(records@) is Ok
            ==> detail.attachments@.len() == camel::records_of(records@)->Ok_0.len()),
{
    text::lemma_trimmed_identity(Seq::empty());
}

/// A message cannot be shown just where its attachments cannot be read, or where it has a
/// formatted part alone that could not be turned into text.
pub proof fn lemma_which_messages_cannot_be_shown(
    message: MimeMessage,
    elsewhere: Option<Seq<char>>,
)
    ensures
        message.attachments is None && (message.text is Some && text::trimmed(
            (message.text->0)@,
        ).len() > 0) ==> camel::detail_error(message, elsewhere) is None,
        message.attachments is None && message.html is None ==> camel::detail_error(
            message,
            elsewhere,
        ) is None,
        message.attachments matches Some(records) ==> (camel::records_of(records@) is Err
            ==> camel::detail_error(message, elsewhere) is Some),
        camel::detail_error(message, elsewhere) is None && message.html is Some && text::trimmed(
            (message.html->0)@,
        ).len() > 0 && message.text is None ==> mail::text_of_html(
            (message.html->0)@,
            elsewhere,
        ) is Some,
{
    text::lemma_trimmed_identity(Seq::empty());
}

} // verus!
