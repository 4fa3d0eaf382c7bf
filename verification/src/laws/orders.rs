//! What holds of orders, of names and of what is told apart by a hash.
use crate::integration::account;
use crate::integration::account::Entry;
use crate::integration::camel;
use crate::integration::camel::MessageInfo;
use crate::integration::registry;
use crate::integration::registry::InfoView;
use crate::model::mail;
use crate::model::mail::{FolderView, SummaryView};
use crate::text;
use vstd::prelude::*;

verus! {

/// Texts are in the order of their first characters that differ, and a text stands behind
/// its own beginning.
pub proof fn lemma_order_of_texts(
    common: Seq<char>,
    left: char,
    right: char,
    a: Seq<char>,
    b: Seq<char>,
)
    requires
        left < right,
    ensures
        text::before(common + seq![left] + a, common + seq![right] + b),
        !text::before(common + seq![right] + b, common + seq![left] + a),
        text::before(common, common + seq![left] + a),
        !text::before(common + seq![left] + a, common),
        !text::before(common, common),
    decreases common.len(),
{
    let x = common + seq![left] + a;
    let y = common + seq![right] + b;
    if common.len() == 0 {
        assert(x[0] == left && y[0] == right);
    } else {
        let rest = common.skip(1);
        lemma_order_of_texts(rest, left, right, a, b);
        assert(x.skip(1) =~= rest + seq![left] + a);
        assert(y.skip(1) =~= rest + seq![right] + b);
        assert(x[0] == common[0] && y[0] == common[0]);
    }
}

/// A sorted list of conversations has the newer ones first, and of two of one time the one
/// whose subject comes first; it holds what it held before.
pub proof fn lemma_newest_conversations_come_first(list: Seq<SummaryView>, i: int, j: int)
    requires
        0 <= i < j < mail::ranked(list).len(),
    ensures
        mail::ranked(list).len() == list.len(),
        mail::ranked(list).to_multiset() == list.to_multiset(),
        mail::ranked(list)[i].last_updated_unix_ms >= mail::ranked(list)[j].last_updated_unix_ms,
        mail::ranked(list)[i].last_updated_unix_ms == mail::ranked(list)[j].last_updated_unix_ms
            ==> !text::before(mail::ranked(list)[j].subject, mail::ranked(list)[i].subject),
{
    mail::lemma_ranked_is_a_stable_sort(list);
    mail::lemma_ranked_ids(list);
    let sorted = mail::ranked(list);
    assert(!mail::ranks_above(sorted[j], sorted[i]));
}

/// A catalog lists accounts by their names, and accounts of one name by their identities.
pub proof fn lemma_order_of_accounts(entries: Seq<Entry>, i: int, j: int)
    requires
        account::in_catalog_order(entries),
        0 <= i < j < entries.len(),
    ensures
        !text::before(entries[j].0.display_name, entries[i].0.display_name),
        entries[i].0.display_name == entries[j].0.display_name ==> text::before(
            entries[i].0.id,
            entries[j].0.id,
        ),
{
    assert(account::listed_before(entries[i], entries[j]));
    let a = entries[i].0.display_name;
    let b = entries[j].0.display_name;
    text::lemma_before_irreflexive(a);
    if text::before(a, b) && text::before(b, a) {
        text::lemma_before_transitive(a, b, a);
    }
}

/// Folders are listed by their kinds, the inbox first, and folders of one kind by name.
pub proof fn lemma_order_of_folders(list: Seq<FolderView>, i: int, j: int)
    requires
        camel::in_order(list),
        0 <= i < j < list.len(),
    ensures
        camel::rank_of(list[i].kind) <= camel::rank_of(list[j].kind),
        list[i].kind == list[j].kind ==> !text::before(list[j].name, list[i].name),
        list[j].kind is Inbox ==> list[i].kind is Inbox,
        list[i].kind is Custom ==> list[j].kind is Custom,
{
    assert(!camel::stands_above(list[j], list[i]));
}

/// A sender is shown by the name that stands before the address, without quotes, and by
/// the address where there is no name.
pub proof fn lemma_sender_is_shown_by_name(name: Seq<char>, address: Seq<char>)
    requires
        name.len() > 0,
        !text::is_space(name[0]) && !text::is_space(name.last()),
        name[0] != '"' && name.last() != '"',
        !name.contains('<'),
        address.len() > 0,
        !text::is_space(address[0]) && !text::is_space(address.last()),
        !address.contains('<'),
    ensures
        camel::participant_of(name + " <"@ + address + ">"@) == name,
        camel::participant_of("\""@ + name + "\" <"@ + address + ">"@) == name,
        camel::participant_of(address) == address,
        camel::participant_of("<"@ + address + ">"@) == "<"@ + address + ">"@,
{
    reveal_strlit(" <");
    reveal_strlit("\" <");
    reveal_strlit("\"");
    reveal_strlit(">");
    reveal_strlit("<");
    let n = name.len() as int;
    assert(!text::is_space('"') && !text::is_space('<') && !text::is_space('>'));
    assert(text::is_space(' '));
    let plain = name + " <"@ + address + ">"@;
    text::lemma_trimmed_identity(plain);
    lemma_first_bracket(plain, n + 1);
    assert(plain.take(n + 1) =~= name.push(' '));
    lemma_blank_behind(name);
    lemma_unquoted(name);
    let quoted = "\""@ + name + "\" <"@ + address + ">"@;
    text::lemma_trimmed_identity(quoted);
    lemma_first_bracket(quoted, n + 3);
    let named = seq!['"'] + name + seq!['"'];
    assert(quoted.take(n + 3) =~= named.push(' '));
    lemma_blank_behind(named);
    assert(named.skip(1) =~= name.push('"'));
    reveal_with_fuel(text::without_leading, 2);
    assert(text::without_leading(named, '"') == name.push('"'));
    reveal_with_fuel(text::without_trailing, 2);
    assert(name.push('"').drop_last() =~= name);
    assert(text::without_trailing(name.push('"'), '"') == name);
    text::lemma_trimmed_identity(name);
    text::lemma_trimmed_identity(address);
    text::lemma_first_at(address, '<');
    if text::first_at(address, '<') < address.len() {
        assert(address.contains(address[text::first_at(address, '<')]));
    }
    let bare = "<"@ + address + ">"@;
    text::lemma_trimmed_identity(bare);
    assert(bare[0] == '<');
    assert(text::first_at(bare, '<') == 0);
    assert(bare.take(0) =~= Seq::empty());
    text::lemma_trimmed_identity(Seq::empty());
}

proof fn lemma_first_bracket(s: Seq<char>, at: int)
    requires
        0 <= at < s.len(),
        s[at] == '<',
        forall|i: int| 0 <= i < at ==> #[trigger] s[i] != '<',
    ensures
        text::first_at(s, '<') == at,
{
    text::lemma_first_at(s, '<');
    let found = text::first_at(s, '<');
    if found < at {
        assert(s[found] != '<');
    }
}

proof fn lemma_blank_behind(s: Seq<char>)
    requires
        s.len() > 0,
        !text::is_space(s[0]) && !text::is_space(s.last()),
    ensures
        text::trimmed(s.push(' ')) == s,
{
    let longer = s.push(' ');
    assert(longer.drop_last() =~= s);
    assert(longer.last() == ' ');
    assert(longer[0] == s[0]);
    assert(text::trimmed_start(longer) == longer);
    reveal_with_fuel(text::trimmed_end, 2);
}

proof fn lemma_unquoted(s: Seq<char>)
    requires
        s.len() > 0,
        s[0] != '"' && s.last() != '"',
        !text::is_space(s[0]) && !text::is_space(s.last()),
    ensures
        text::trimmed(text::without_trailing(text::without_leading(s, '"'), '"')) == s,
{
    text::lemma_trimmed_identity(s);
}

/// A message without a subject, a sender or a time says so.
pub proof fn lemma_row_of_a_bare_message(info: MessageInfo, folder: Seq<char>, uid: Seq<char>)
    ensures
        ({
            let row = camel::summary_of(info, folder, uid);
            &&& info.subject is None ==> row.subject == "(No subject)"@
            &&& info.subject is Some && text::trimmed((info.subject->0)@).len() == 0
                ==> row.subject == "(No subject)"@
            &&& info.from is None ==> row.participants[0] == camel::participant_of(
                "Unknown sender"@,
            )
            &&& info.from is Some && text::trimmed((info.from->0)@).len() > 0
                ==> row.participants[0] == camel::participant_of((info.from->0)@)
            &&& info.date_sent <= 0 && info.date_received <= 0 ==> row.last_updated_unix_ms == 0
        }),
{
}

/// What is written with percent signs is read byte by byte: a sign and two hexadecimal
/// digits are one byte, and any other byte is itself.
pub proof fn lemma_percent_signs(high: u8, low: u8, other: u8, rest: Seq<u8>)
    requires
        0x30 <= high <= 0x39 || 0x41 <= high <= 0x46 || 0x61 <= high <= 0x66,
        0x30 <= low <= 0x39 || 0x41 <= low <= 0x46 || 0x61 <= low <= 0x66,
        other != 0x25,
    ensures
        ({
            let upper: int = if high <= 0x39 {
                high - 0x30
            } else if high <= 0x46 {
                high - 0x37
            } else {
                high - 0x57
            };
            let lower: int = if low <= 0x39 {
                low - 0x30
            } else if low <= 0x46 {
                low - 0x37
            } else {
                low - 0x57
            };
            camel::percent_decoded(seq![0x25u8, high, low] + rest) == seq![
                (upper * 16 + lower) as u8,
            ] + camel::percent_decoded(rest)
        }),
        camel::percent_decoded(seq![other] + rest) == seq![other] + camel::percent_decoded(rest),
        camel::percent_decoded(Seq::empty()).len() == 0,
{
    let coded = seq![0x25u8, high, low] + rest;
    assert(coded.skip(3) =~= rest);
    assert(coded[0] == 0x25 && coded[1] == high && coded[2] == low);
    let plain = seq![other] + rest;
    assert(plain.skip(1) =~= rest);
    assert(plain[0] == other);
}

/// What is hashed of a source and of those above it is the name and the configuration of
/// each, in their order.
pub proof fn lemma_hash_covers_each_source(sources: Seq<InfoView>, i: int)
    requires
        0 <= i < sources.len(),
    ensures
        registry::configuration_chunks(sources).len() == 4 * sources.len(),
        registry::configuration_chunks(sources)[4 * i] == vstd::utf8::encode_utf8(sources[i].uid),
        registry::configuration_chunks(sources)[4 * i + 1] == seq![0xffu8],
        registry::configuration_chunks(sources)[4 * i + 2] == vstd::utf8::encode_utf8(
            sources[i].serialized_configuration,
        ),
        registry::configuration_chunks(sources)[4 * i + 3] == seq![0xffu8],
    decreases sources.len(),
{
    lemma_chunk_count(sources);
    let rest = sources.drop_last();
    lemma_chunk_count(rest);
    let before = registry::configuration_chunks(rest);
    let after = registry::configuration_chunks(sources);
    if i < rest.len() {
        lemma_hash_covers_each_source(rest, i);
        assert(rest[i] == sources[i]);
        assert(after[4 * i] == before[4 * i]);
        assert(after[4 * i + 1] == before[4 * i + 1]);
        assert(after[4 * i + 2] == before[4 * i + 2]);
        assert(after[4 * i + 3] == before[4 * i + 3]);
    } else {
        assert(sources.last() == sources[i]);
    }
}

proof fn lemma_chunk_count(sources: Seq<InfoView>)
    ensures
        registry::configuration_chunks(sources).len() == 4 * sources.len(),
    decreases sources.len(),
{
    if sources.len() > 0 {
        lemma_chunk_count(sources.drop_last());
    }
}

/// A signature is formatted where its type is that of such documents, whatever parameters
/// the type has and however it is written.
pub proof fn lemma_type_of_a_signature(lead: Seq<char>, rest: Seq<char>)
    requires
        !lead.contains(';'),
    ensures
        account::is_html_type(lead) <==> text::lowered(text::trimmed(lead)) == text::lowered(
            "text/html"@,
        ),
        account::is_html_type(lead + ";"@ + rest) <==> account::is_html_type(lead),
{
    reveal_strlit(";");
    let n = lead.len() as int;
    text::lemma_first_at(lead, ';');
    let at = text::first_at(lead, ';');
    if at < n {
        assert(lead.contains(lead[at]));
    }
    assert(lead.take(n) =~= lead);
    let longer = lead + ";"@ + rest;
    text::lemma_first_at(longer, ';');
    let there = text::first_at(longer, ';');
    assert(longer[n] == ';');
    if there < n {
        assert(longer[there] == lead[there]);
        assert(lead.contains(lead[there]));
    }
    assert(longer.take(n) =~= lead);
}

} // verus!
