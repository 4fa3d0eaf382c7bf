//! What the mail client reads out of mail stores and hands to them.
use crate::integration::registry::{DecodedAddress, DecodedAddressView};
use crate::model::mail;
use crate::model::mail::{
    AttachmentInfo, AttachmentLocation, ConversationId, ConversationSummary, FolderId, FolderKind,
    FolderView, MailFolder, MessageBody, MessageDetail, MessageId, StoredMessageRef, SummaryView,
};
use crate::text;
use vstd::prelude::*;

verus! {

/// The bits of a folder's flags that say what it is for.
pub const FOLDER_TYPE_MASK: u32 = 0xfc00;

pub const FOLDER_TYPE_INBOX: u32 = 0x0400;

pub const FOLDER_TYPE_OUTBOX: u32 = 0x0800;

pub const FOLDER_TYPE_TRASH: u32 = 0x0c00;

pub const FOLDER_TYPE_JUNK: u32 = 0x1000;

pub const FOLDER_TYPE_SENT: u32 = 0x1400;

pub const FOLDER_TYPE_ARCHIVE: u32 = 0x2c00;

pub const FOLDER_TYPE_DRAFTS: u32 = 0x3000;

/// The flags of a message.
pub const MESSAGE_DELETED: u32 = 0x2;

pub const MESSAGE_DRAFT: u32 = 0x4;

pub const MESSAGE_FLAGGED: u32 = 0x8;

pub const MESSAGE_SEEN: u32 = 0x10;

pub const MESSAGE_ATTACHMENTS: u32 = 0x20;

/// Set on a message whose flags the provider has still to be told.
pub const MESSAGE_FOLDER_FLAGGED: u32 = 0x10000;

/// The tag under which the delivery of a message is recorded.
pub const DELIVERY_STATE_USER_TAG: &'static str = "$DeliveryState";

/// The message was handed to the transport, and it is not known what became of it.
pub const DELIVERY_SUBMITTING: &'static str = "submitting";

/// The message was delivered, and the provider stores the copy.
pub const DELIVERY_PROVIDER_COPY: &'static str = "provider-copy";

/// The message was delivered, and the copy has still to be stored.
pub const DELIVERY_COPY_REQUIRED: &'static str = "copy-required";

/// Set on a draft that the provider has.
pub const DRAFT_SYNCED_USER_FLAG: &'static str = "$DraftSynced";

/// Set on a draft that a later revision replaces.
pub const DRAFT_SUPERSEDED_USER_FLAG: &'static str = "$DraftSuperseded";

/// Stands between the folder and the message in the name of a conversation.
pub const CONVERSATION_ID_SEPARATOR: char = '\u{1f}';

/// How a mail store is used.
#[derive(Debug, Clone, Copy, PartialEq, Eq, Structural)]
pub enum CamelAccessMode {
    CachedOnly,
    Local,
    Online,
}

impl CamelAccessMode {
    /// Whether a message that is not cached may be loaded.
    pub fn may_load_message(self) -> (r: bool)
        ensures
            r == (self is Local || self is Online),
    {
        self == CamelAccessMode::Local || self == CamelAccessMode::Online
    }
}

/// What a mail store records of the synchronisation of a message.
#[derive(Debug)]
pub struct MessageSyncState {
    pub conversation_id: ConversationId,
    pub message_id_hash: u64,
    pub delivery_state: Option<String>,
    pub draft_synced: bool,
    pub draft_superseded: bool,
}

/// What a mail store records of a message, as a value.
#[verifier::ext_equal]
pub struct SyncStateView {
    pub conversation_id: Seq<char>,
    pub message_id_hash: u64,
    pub delivery_state: Option<Seq<char>>,
    pub draft_synced: bool,
    pub draft_superseded: bool,
}

impl View for MessageSyncState {
    type V = SyncStateView;

    open spec fn view(&self) -> SyncStateView {
        SyncStateView {
            conversation_id: self.conversation_id@,
            message_id_hash: self.message_id_hash,
            delivery_state: text::view_opt(self.delivery_state),
            draft_synced: self.draft_synced,
            draft_superseded: self.draft_superseded,
        }
    }
}

impl Clone for MessageSyncState {
    fn clone(&self) -> (r: Self)
        ensures
            r@ == self@,
    {
        MessageSyncState {
            conversation_id: self.conversation_id.clone(),
            message_id_hash: self.message_id_hash,
            delivery_state: text::clone_opt(&self.delivery_state),
            draft_synced: self.draft_synced,
            draft_superseded: self.draft_superseded,
        }
    }
}

/// The values of a list of records.
pub open spec fn state_views(list: Seq<MessageSyncState>) -> Seq<SyncStateView> {
    list.map_values(|state: MessageSyncState| state@)
}

/// The marker of a message that was delivered.
pub open spec fn delivered_marker(provider_copy_expected: bool) -> Seq<char> {
    if provider_copy_expected {
        DELIVERY_PROVIDER_COPY@
    } else {
        DELIVERY_COPY_REQUIRED@
    }
}

/// The marker of a message that was delivered.
pub fn completion_marker(provider_copy_expected: bool) -> (marker: &'static str)
    ensures
        marker@ == delivered_marker(provider_copy_expected),
{
    if provider_copy_expected {
        DELIVERY_PROVIDER_COPY
    } else {
        DELIVERY_COPY_REQUIRED
    }
}

/// What a mail store records of the message `uid` of a folder.
pub fn message_sync_state(
    folder_id: &FolderId,
    uid: &str,
    message_id_hash: u64,
    delivery_state: Option<String>,
    draft_synced: bool,
    draft_superseded: bool,
) -> (state: MessageSyncState)
    ensures
        state@ == (SyncStateView {
            conversation_id: composed(folder_id@, uid@),
            message_id_hash,
            delivery_state: text::view_opt(delivery_state),
            draft_synced,
            draft_superseded,
        }),
{
    MessageSyncState {
        conversation_id: ConversationId(compose_conversation_id(folder_id.0.as_str(), uid)),
        message_id_hash,
        delivery_state,
        draft_synced,
        draft_superseded,
    }
}

/// Where a message is read.
#[derive(Debug, Clone, Copy, PartialEq, Eq, Structural)]
pub enum MessageAccess {
    /// The copy that is cached.
    Cached,
    /// The store, which has to load it.
    Load,
    /// Nowhere.
    Unavailable,
}

impl CamelAccessMode {
    /// Where a message is read; `cached` says whether a copy of it is cached.
    pub fn message_access(self, cached: bool) -> (access: MessageAccess)
        ensures
            access == (if cached {
                MessageAccess::Cached
            } else if self is CachedOnly {
                MessageAccess::Unavailable
            } else {
                MessageAccess::Load
            }),
    {
        if cached {
            MessageAccess::Cached
        } else if self.may_load_message() {
            MessageAccess::Load
        } else {
            MessageAccess::Unavailable
        }
    }
}

/// Which source a service is configured from.
#[derive(Debug, Clone, Copy, PartialEq, Eq, Structural)]
pub enum ConfigSource {
    Account,
    Parent,
}

/// What is known of the parent of a source.
#[derive(Debug, Clone, Copy, PartialEq, Eq, Structural)]
pub enum ParentSource {
    /// The source has no parent.
    Absent,
    /// The parent is not to be had.
    Unknown,
    /// The parent is there.
    Known { configures: bool },
}

/// Which source a service is configured from: the first of the account and its parent that
/// has settings for the service, or else a mail account itself. An account whose parent is
/// not to be had is not configured, unless it has the settings.
pub fn service_config_source(
    account_configures: bool,
    parent: ParentSource,
    is_mail_account: bool,
) -> (source: Option<ConfigSource>)
    ensures
        source == (if account_configures {
            Some(ConfigSource::Account)
        } else if parent is Unknown {
            None
        } else if parent == (ParentSource::Known { configures: true }) {
            Some(ConfigSource::Parent)
        } else if is_mail_account {
            Some(ConfigSource::Account)
        } else {
            None
        }),
{
    if account_configures {
        return Some(ConfigSource::Account);
    }
    match parent {
        ParentSource::Unknown => {
            return None;
        },
        ParentSource::Known { configures } => {
            if configures {
                return Some(ConfigSource::Parent);
            }
        },
        ParentSource::Absent => {},
    }
    if is_mail_account {
        Some(ConfigSource::Account)
    } else {
        None
    }
}

/// What a flag is set to.
pub fn flag_value(flag: u32, enabled: bool) -> (value: u32)
    ensures
        value == (if enabled {
            flag
        } else {
            0
        }),
{
    if enabled {
        flag
    } else {
        0
    }
}

/// Whether a tag of a message is as it was set.
pub fn tag_was_stored(stored: &Option<String>, value: &str) -> (r: bool)
    ensures
        r == (text::view_opt(*stored) == Some(value@)),
{
    match stored {
        Some(stored) => text::same(stored.as_str(), value),
        None => false,
    }
}

/// The conversations of several lists, one list after another.
pub open spec fn all_found(found: Seq<Vec<ConversationSummary>>) -> Seq<SummaryView>
    decreases found.len(),
{
    if found.len() == 0 {
        Seq::empty()
    } else {
        all_found(found.drop_last()) + mail::summaries(found.last()@)
    }
}

/// What was found in the folders of a store, in order, with each conversation once.
pub fn search_conversations(found: Vec<Vec<ConversationSummary>>) -> (results: Vec<
    ConversationSummary,
>)
    ensures
        mail::summaries(results@) == mail::ranked(mail::first_of_each(all_found(found@))),
{
    let ghost all = found@;
    let mut results: Vec<ConversationSummary> = Vec::new();
    assert(all.take(0) =~= Seq::empty());
    assert(mail::summaries(results@) =~= Seq::empty());
    for list in it: found
        invariant
            all == it.seq(),
            mail::summaries(results@) == all_found(all.take(it.index())),
    {
        let ghost before = mail::summaries(results@);
        let ghost rows = mail::summaries(list@);
        proof {
            assert(all.take(it.index() + 1).drop_last() =~= all.take(it.index()));
        }
        for row in rest: list
            invariant
                rows == mail::summaries(rest.seq()),
                mail::summaries(results@) == before + rows.take(rest.index()),
        {
            let ghost value = row@;
            let ghost earlier = mail::summaries(results@);
            results.push(row);
            proof {
                assert(mail::summaries(results@) =~= earlier.push(value));
                assert(before + rows.take(rest.index() + 1) =~= earlier.push(value));
            }
        }
        assert(rows.take(rows.len() as int) =~= rows);
    }
    assert(all.take(all.len() as int) =~= all);
    mail::sort_and_deduplicate_conversations(&mut results);
    results
}

/// Whether a flag is as it was set.
pub fn flag_was_stored(actual: u32, flag: u32, enabled: bool) -> (r: bool)
    ensures
        r == ((actual & flag != 0) == enabled),
{
    (actual & flag != 0) == enabled
}

/// Whether a flag is as it was set, and the provider will be told.
pub fn flag_was_marked_for_sync(actual: u32, flag: u32, enabled: bool) -> (r: bool)
    ensures
        r == ((actual & flag != 0) == enabled && actual & MESSAGE_FOLDER_FLAGGED != 0),
{
    (actual & flag != 0) == enabled && actual & MESSAGE_FOLDER_FLAGGED != 0
}

/// `s` with a backslash before each backslash and each quotation mark.
pub open spec fn sexp_escaped(s: Seq<char>) -> Seq<char>
    decreases s.len(),
{
    if s.len() == 0 {
        Seq::empty()
    } else if s.last() == '\\' || s.last() == '"' {
        sexp_escaped(s.drop_last()).push('\\').push(s.last())
    } else {
        sexp_escaped(s.drop_last()).push(s.last())
    }
}

/// A condition on one header.
pub open spec fn header_clause(field: Seq<char>, escaped: Seq<char>) -> Seq<char> {
    "(header-contains \""@ + field + "\" \""@ + escaped + "\")"@
}

/// The search expression for `query`: it is met by messages that hold the trimmed
/// query in one of four headers or, with `include_body`, in the body.
pub open spec fn search_expression_of(query: Seq<char>, include_body: bool) -> Seq<char> {
    let escaped = sexp_escaped(text::trimmed(query));
    "(match-all (or "@ + header_clause("subject"@, escaped) + seq![' '] + header_clause(
        "from"@,
        escaped,
    ) + seq![' '] + header_clause("to"@, escaped) + seq![' '] + header_clause("cc"@, escaped) + (
    if include_body {
        " (body-contains \""@ + escaped + "\")"@
    } else {
        Seq::empty()
    }) + "))"@
}

fn escape_sexp(text: &str) -> (escaped: String)
    ensures
        escaped@ == sexp_escaped(text@),
{
    let chars = text::chars_of(text);
    let mut escaped = String::new();
    let mut i: usize = 0;
    while i < chars.len()
        invariant
            i <= chars.len(),
            chars@ == text@,
            escaped@ == sexp_escaped(text@.take(i as int)),
        decreases chars.len() - i,
    {
        assert(text@.take(i + 1).drop_last() =~= text@.take(i as int));
        if chars[i] == '\\' || chars[i] == '"' {
            escaped.push('\\');
        }
        escaped.push(chars[i]);
        i += 1;
    }
    assert(text@.take(i as int) =~= text@);
    escaped
}

fn append_header_clause(expression: &mut String, field: &str, escaped: &str)
    ensures
        final(expression)@ == old(expression)@ + header_clause(field@, escaped@),
{
    expression.append("(header-contains \"");
    expression.append(field);
    expression.append("\" \"");
    expression.append(escaped);
    expression.append("\")");
    assert(expression@ =~= old(expression)@ + header_clause(field@, escaped@));
}

/// No file was named for an attachment.
#[derive(Debug, Clone, Copy, PartialEq, Eq, Structural)]
pub struct EmptyUri;

/// The file that an attachment was written to.
pub fn exported_attachment(uri: String) -> (result: Result<String, EmptyUri>)
    ensures
        match result {
            Ok(exported) => uri@.len() > 0 && exported@ == uri@,
            Err(_) => uri@.len() == 0,
        },
{
    if uri.as_str().is_empty() {
        Err(EmptyUri)
    } else {
        Ok(uri)
    }
}

/// A text holds a NUL character where none can be stored.
#[derive(Debug, Clone, Copy, PartialEq, Eq, Structural)]
pub struct InteriorNul;

/// The search expression for `query`.
pub fn search_expression(query: &str, include_body: bool) -> (result: Result<String, InteriorNul>)
    ensures
        result is Err <==> text::trimmed(query@).contains('\0'),
        result matches Ok(expression) ==> expression@ == search_expression_of(query@, include_body),
{
    let trimmed = text::trim(query);
    if text::contains_char(trimmed, '\0') {
        return Err(InteriorNul);
    }
    let escaped = escape_sexp(trimmed);
    let mut expression = String::new();
    expression.append("(match-all (or ");
    append_header_clause(&mut expression, "subject", escaped.as_str());
    expression.push(' ');
    append_header_clause(&mut expression, "from", escaped.as_str());
    expression.push(' ');
    append_header_clause(&mut expression, "to", escaped.as_str());
    expression.push(' ');
    append_header_clause(&mut expression, "cc", escaped.as_str());
    if include_body {
        expression.append(" (body-contains \"");
        expression.append(escaped.as_str());
        expression.append("\")");
    }
    expression.append("))");
    assert(expression@ =~= search_expression_of(query@, include_body));
    Ok(expression)
}

/// Whether the text that a string of a search expression stands for ends before `s`
/// does: a quotation mark that no backslash precedes.
pub open spec fn ends_string(s: Seq<char>) -> bool
    decreases s.len(),
{
    if s.len() == 0 {
        false
    } else if s[0] == '\\' {
        s.len() == 1 || ends_string(s.skip(2))
    } else {
        s[0] == '"' || ends_string(s.skip(1))
    }
}

/// An escaped query does not end the string that it stands in.
pub proof fn lemma_escaped_query_stays_in_its_string(s: Seq<char>)
    ensures
        !ends_string(sexp_escaped(s)),
    decreases s.len(),
{
    if s.len() > 0 {
        let head = sexp_escaped(s.drop_last());
        lemma_escaped_query_stays_in_its_string(s.drop_last());
        let tail = if s.last() == '\\' || s.last() == '"' {
            seq!['\\', s.last()]
        } else {
            seq![s.last()]
        };
        assert(sexp_escaped(s) =~= head + tail);
        assert(!ends_string(tail)) by {
            reveal_with_fuel(ends_string, 3);
            assert(tail.skip(2).len() == 0 || tail.len() < 2);
            if tail.len() == 1 {
                assert(tail.skip(1).len() == 0);
            }
        }
        lemma_ends_string_concat(head, tail);
    }
}

proof fn lemma_ends_string_concat(a: Seq<char>, b: Seq<char>)
    requires
        !ends_string(a),
        !ends_string(b),
    ensures
        !ends_string(a + b),
    decreases a.len(),
{
    if a.len() == 0 {
        assert(a + b =~= b);
    } else if a[0] == '\\' {
        lemma_ends_string_concat(a.skip(2), b);
        assert((a + b).skip(2) =~= a.skip(2) + b);
    } else {
        lemma_ends_string_concat(a.skip(1), b);
        assert((a + b).skip(1) =~= a.skip(1) + b);
    }
}

/// Why a list of texts cannot be written one to a line.
#[derive(Debug, Clone, Copy, PartialEq, Eq, Structural)]
pub enum LineError {
    LineBreak,
    InteriorNul,
}

/// Whether `s` holds a line break.
pub open spec fn breaks_line(s: Seq<char>) -> bool {
    s.contains('\r') || s.contains('\n')
}

/// The texts that hold more than white space, trimmed.
pub open spec fn filled_values(values: Seq<Seq<char>>) -> Seq<Seq<char>>
    decreases values.len(),
{
    if values.len() == 0 {
        Seq::empty()
    } else if text::trimmed(values.last()).len() == 0 {
        filled_values(values.drop_last())
    } else {
        filled_values(values.drop_last()).push(text::trimmed(values.last()))
    }
}

/// Whether one of `values` holds a line break.
pub open spec fn any_breaks(values: Seq<Seq<char>>) -> bool {
    exists|i: int| 0 <= i < values.len() && breaks_line(#[trigger] values[i])
}

/// The texts that hold more than white space, one to a line.
pub open spec fn serialized_lines(values: Seq<Seq<char>>) -> Seq<char> {
    text::joined(filled_values(values), "\n"@)
}

fn serialize_lines(values: &Vec<String>) -> (result: Result<String, LineError>)
    ensures
        ({
            let all = text::views(values@);
            match result {
                Ok(serialized) => !any_breaks(filled_values(all)) && serialized@
                    == serialized_lines(all) && !serialized@.contains('\0'),
                Err(LineError::LineBreak) => any_breaks(filled_values(all)),
                Err(LineError::InteriorNul) => !any_breaks(filled_values(all)) && serialized_lines(
                    all,
                ).contains('\0'),
            }
        }),
{
    let ghost all = text::views(values@);
    let mut lines: Vec<String> = Vec::new();
    let mut i: usize = 0;
    while i < values.len()
        invariant
            i <= values.len(),
            all == text::views(values@),
            text::views(lines@) == filled_values(all.take(i as int)),
            !any_breaks(text::views(lines@)),
        decreases values.len() - i,
    {
        let ghost before = text::views(lines@);
        proof {
            assert(all.take(i + 1).drop_last() =~= all.take(i as int));
            assert(all.take(i + 1).last() == values@[i as int]@);
        }
        let value = text::trim(values[i].as_str());
        if !value.is_empty() {
            if text::contains_char(value, '\r') || text::contains_char(value, '\n') {
                proof {
                    let broken = filled_values(all.take(i + 1));
                    assert(breaks_line(broken[broken.len() - 1]));
                    lemma_break_stays(all, i + 1);
                }
                return Err(LineError::LineBreak);
            }
            lines.push(value.to_owned());
            proof {
                let after = text::views(lines@);
                assert(after =~= before.push(value@));
                assert forall|j: int| 0 <= j < after.len() implies !breaks_line(
                    #[trigger] after[j],
                ) by {
                    if j < before.len() {
                        assert(!breaks_line(before[j]));
                    }
                }
            }
        }
        i += 1;
    }
    assert(all.take(i as int) =~= all);
    let serialized = text::join(&lines, "\n");
    if text::contains_char(serialized.as_str(), '\0') {
        Err(LineError::InteriorNul)
    } else {
        Ok(serialized)
    }
}

proof fn lemma_break_stays(values: Seq<Seq<char>>, n: int)
    requires
        0 <= n <= values.len(),
        any_breaks(filled_values(values.take(n))),
    ensures
        any_breaks(filled_values(values)),
    decreases values.len() - n,
{
    if n < values.len() {
        let before = filled_values(values.take(n));
        let after = filled_values(values.take(n + 1));
        assert(values.take(n + 1).drop_last() =~= values.take(n));
        let i = choose|i: int| 0 <= i < before.len() && breaks_line(#[trigger] before[i]);
        assert(after[i] == before[i]);
        lemma_break_stays(values, n + 1);
    } else {
        assert(values.take(n) =~= values);
    }
}

/// The recipients of a message, one to a line.
pub fn serialize_recipients(values: &Vec<String>) -> (result: Result<String, LineError>)
    ensures
        ({
            let all = text::views(values@);
            match result {
                Ok(serialized) => !any_breaks(filled_values(all)) && serialized@
                    == serialized_lines(all) && !serialized@.contains('\0'),
                Err(LineError::LineBreak) => any_breaks(filled_values(all)),
                Err(LineError::InteriorNul) => !any_breaks(filled_values(all)) && serialized_lines(
                    all,
                ).contains('\0'),
            }
        }),
{
    serialize_lines(values)
}

/// The attachments of a message, one to a line.
pub fn serialize_attachment_uris(values: &Vec<String>) -> (result: Result<String, LineError>)
    ensures
        ({
            let all = text::views(values@);
            match result {
                Ok(serialized) => !any_breaks(filled_values(all)) && serialized@
                    == serialized_lines(all) && !serialized@.contains('\0'),
                Err(LineError::LineBreak) => any_breaks(filled_values(all)),
                Err(LineError::InteriorNul) => !any_breaks(filled_values(all)) && serialized_lines(
                    all,
                ).contains('\0'),
            }
        }),
{
    serialize_lines(values)
}

/// What is written one to a line is read back line by line: no text makes two lines.
pub proof fn lemma_serialized_lines_are_read_back(values: Seq<Seq<char>>)
    requires
        !any_breaks(filled_values(values)),
        filled_values(values).len() > 0,
    ensures
        text::split_on(serialized_lines(values), '\n') == filled_values(values),
{
    lemma_joined_lines_split(filled_values(values));
}

proof fn lemma_joined_lines_split(lines: Seq<Seq<char>>)
    requires
        !any_breaks(lines),
        lines.len() > 0,
    ensures
        text::split_on(text::joined(lines, "\n"@), '\n') == lines,
    decreases lines.len(),
{
    reveal_strlit("\n");
    let last = lines.last();
    assert(!breaks_line(lines[lines.len() - 1]));
    let none = Seq::<char>::empty();
    if lines.len() == 1 {
        assert(none + last =~= last);
        lemma_split_of_unbroken(none, last);
        let parts = text::split_on(last, '\n');
        assert(none.push('a').drop_last() =~= none);
        assert(parts =~= lines);
    } else {
        let rest = lines.drop_last();
        assert(!any_breaks(rest)) by {
            if any_breaks(rest) {
                let i = choose|i: int| 0 <= i < rest.len() && breaks_line(#[trigger] rest[i]);
                assert(breaks_line(lines[i]));
            }
        }
        lemma_joined_lines_split(rest);
        let before = text::joined(rest, "\n"@).push('\n');
        assert(before.drop_last() =~= text::joined(rest, "\n"@));
        assert(text::joined(lines, "\n"@) =~= before + last);
        lemma_split_of_unbroken(before, last);
        let parts = text::split_on(before, '\n');
        assert(parts == rest.push(none));
        assert(parts.drop_last() =~= rest);
        assert(none + last =~= last);
        assert(rest.push(last) =~= lines);
    }
}

proof fn lemma_split_of_unbroken(a: Seq<char>, s: Seq<char>)
    requires
        !breaks_line(s),
    ensures
        text::split_on(a + s, '\n') == text::split_on(a, '\n').drop_last().push(
            text::split_on(a, '\n').last() + s,
        ),
    decreases s.len(),
{
    text::lemma_split_is_not_empty(a, '\n');
    let parts = text::split_on(a, '\n');
    if s.len() == 0 {
        assert(a + s =~= a);
        assert(parts.last() + s =~= parts.last());
        assert(parts.drop_last().push(parts.last()) =~= parts);
    } else {
        let rest = s.drop_last();
        assert(!breaks_line(rest)) by {
            if rest.contains('\r') {
                let i = choose|i: int| 0 <= i < rest.len() && rest[i] == '\r';
                assert(s[i] == '\r');
            }
            if rest.contains('\n') {
                let i = choose|i: int| 0 <= i < rest.len() && rest[i] == '\n';
                assert(s[i] == '\n');
            }
        }
        lemma_split_of_unbroken(a, rest);
        assert((a + s).drop_last() =~= a + rest);
        assert((a + s).last() == s.last());
        assert(s[s.len() - 1] == s.last());
        let before = text::split_on(a + rest, '\n');
        assert(before.drop_last() =~= parts.drop_last());
        assert((parts.last() + rest).push(s.last()) =~= parts.last() + s);
    }
}

/// The name of the message `uid` of a folder.
pub open spec fn composed(folder: Seq<char>, uid: Seq<char>) -> Seq<char> {
    folder + seq![CONVERSATION_ID_SEPARATOR] + uid
}

/// The folder and the message that the name of a conversation is made of.
pub open spec fn id_parts(id: Seq<char>) -> Option<(Seq<char>, Seq<char>)> {
    let at = text::first_at(id, CONVERSATION_ID_SEPARATOR);
    if 0 < at && at + 1 < id.len() {
        Some((id.take(at), id.skip(at + 1)))
    } else {
        None
    }
}

/// The name of the message `uid` of a folder.
pub fn compose_conversation_id(folder_name: &str, uid: &str) -> (id: String)
    ensures
        id@ == composed(folder_name@, uid@),
{
    let mut id = folder_name.to_owned();
    id.push(CONVERSATION_ID_SEPARATOR);
    id.append(uid);
    assert(id@ =~= composed(folder_name@, uid@));
    id
}

/// The folder and the message that the name of a conversation is made of.
pub fn conversation_id_parts<'a>(value: &'a str) -> (parts: Option<(&'a str, &'a str)>)
    ensures
        match parts {
            Some((folder, uid)) => id_parts(value@) == Some((folder@, uid@)),
            None => id_parts(value@) is None,
        },
{
    proof {
        text::lemma_first_at(value@, CONVERSATION_ID_SEPARATOR);
    }
    match text::split_once(value, CONVERSATION_ID_SEPARATOR) {
        Some((folder, uid)) => {
            if folder.is_empty() || uid.is_empty() {
                None
            } else {
                Some((folder, uid))
            }
        },
        None => None,
    }
}

/// The folder and the message of a conversation are read back out of its name, as long
/// as the folder's name does not hold the separator.
pub proof fn lemma_conversation_id_is_read_back(folder: Seq<char>, uid: Seq<char>)
    requires
        folder.len() > 0,
        uid.len() > 0,
        !folder.contains(CONVERSATION_ID_SEPARATOR),
    ensures
        id_parts(composed(folder, uid)) == Some((folder, uid)),
{
    let id = composed(folder, uid);
    text::lemma_first_at(id, CONVERSATION_ID_SEPARATOR);
    let at = text::first_at(id, CONVERSATION_ID_SEPARATOR);
    assert(id[folder.len() as int] == CONVERSATION_ID_SEPARATOR);
    if at < folder.len() {
        assert(folder[at] == id[at]);
    }
    assert(id.take(at) =~= folder);
    assert(id.skip(at + 1) =~= uid);
}

/// The folder that a conversation is in, by its name.
pub open spec fn folder_of(id: Seq<char>) -> Option<Seq<char>> {
    match id_parts(id) {
        Some((folder, _)) => Some(folder),
        None => None,
    }
}

/// The folder that a conversation is in, by its name.
pub fn conversation_folder_id<'a>(conversation_id: &'a ConversationId) -> (folder: Option<&'a str>)
    ensures
        match folder {
            Some(folder) => folder_of(conversation_id@) == Some(folder@),
            None => folder_of(conversation_id@) is None,
        },
{
    match conversation_id_parts(conversation_id.0.as_str()) {
        Some((folder, _)) => Some(folder),
        None => None,
    }
}

/// What is shown for the sender `value`: the name before the address, where there is
/// one.
pub open spec fn participant_of(value: Seq<char>) -> Seq<char> {
    let trimmed = text::trimmed(value);
    let at = text::first_at(trimmed, '<');
    let name = text::trimmed(
        text::without_trailing(
            text::without_leading(text::trimmed(trimmed.take(at)), '"'),
            '"',
        ),
    );
    if at < trimmed.len() && name.len() > 0 {
        name
    } else {
        trimmed
    }
}

/// What is shown for the sender `value`.
pub fn compact_participant(value: &str) -> (participant: String)
    ensures
        participant@ == participant_of(value@),
{
    let trimmed = text::trim(value);
    if let Some((display, _)) = text::split_once(trimmed, '<') {
        let bare = text::trim_end_char(text::trim_start_char(text::trim(display), '"'), '"');
        let name = text::trim(bare);
        if !name.is_empty() {
            return name.to_owned();
        }
    }
    trimmed.to_owned()
}

/// The first of two times that is set.
pub open spec fn first_set_time(primary: i64, secondary: i64) -> i64 {
    if primary > 0 {
        primary
    } else if secondary > 0 {
        secondary
    } else {
        0
    }
}

/// The first of two times that is set.
pub fn choose_message_timestamp(primary: i64, secondary: i64) -> (time: i64)
    ensures
        time == first_set_time(primary, secondary),
{
    if primary > 0 {
        primary
    } else if secondary > 0 {
        secondary
    } else {
        0
    }
}

/// What a mail store knows of a message without loading it.
#[derive(Debug)]
pub struct MessageInfo {
    pub flags: u32,
    pub subject: Option<String>,
    pub from: Option<String>,
    pub preview: Option<String>,
    pub date_sent: i64,
    pub date_received: i64,
}

/// `value`, unless it is missing or blank.
pub open spec fn unless_blank(value: Option<Seq<char>>, otherwise: Seq<char>) -> Seq<char> {
    match value {
        Some(value) if text::trimmed(value).len() > 0 => value,
        _ => otherwise,
    }
}

fn text_unless_blank(value: &Option<String>, otherwise: &str) -> (r: String)
    ensures
        r@ == unless_blank(text::view_opt(*value), otherwise@),
{
    match value {
        Some(value) if !text::trim(value.as_str()).is_empty() => value.clone(),
        _ => otherwise.to_owned(),
    }
}

/// A time in milliseconds, as far as it can be written so.
pub open spec fn milliseconds(seconds: i64) -> i64 {
    if seconds * 1000 > i64::MAX {
        i64::MAX
    } else {
        (seconds * 1000) as i64
    }
}

/// The line of a conversation list for the message `uid` of a folder.
pub open spec fn summary_of(info: MessageInfo, folder: Seq<char>, uid: Seq<char>) -> SummaryView {
    SummaryView {
        id: composed(folder, uid),
        folder_id: folder,
        subject: unless_blank(text::view_opt(info.subject), "(No subject)"@),
        participants: seq![
            participant_of(unless_blank(text::view_opt(info.from), "Unknown sender"@)),
        ],
        message_count: 1,
        unread_count: if info.flags & MESSAGE_SEEN == 0 {
            1
        } else {
            0
        },
        attachment_count: if info.flags & MESSAGE_ATTACHMENTS != 0 {
            1
        } else {
            0
        },
        starred: info.flags & MESSAGE_FLAGGED != 0,
        last_updated_unix_ms: milliseconds(first_set_time(info.date_sent, info.date_received)),
        preview: text::trimmed(text::view_opt(info.preview).unwrap_or(Seq::empty())),
    }
}

/// The line of a conversation list for the message `uid` of a folder.
pub fn conversation_from_message_info(
    info: &MessageInfo,
    folder_name: &str,
    uid: &str,
) -> (summary: ConversationSummary)
    ensures
        summary@ == summary_of(*info, folder_name@, uid@),
{
    let from = text_unless_blank(&info.from, "Unknown sender");
    let preview = match &info.preview {
        Some(preview) => text::trim(preview.as_str()).to_owned(),
        None => {
            proof {
                text::lemma_trimmed_identity(Seq::empty());
            }
            String::new()
        },
    };
    let seconds = choose_message_timestamp(info.date_sent, info.date_received);
    let last_updated_unix_ms: i64 = if seconds > 9223372036854775 {
        9223372036854775807
    } else {
        seconds * 1000
    };
    let mut participants: Vec<String> = Vec::new();
    participants.push(compact_participant(from.as_str()));
    assert(text::views(participants@) =~= seq![participant_of(from@)]);
    ConversationSummary {
        id: ConversationId(compose_conversation_id(folder_name, uid)),
        folder_id: FolderId(folder_name.to_owned()),
        subject: text_unless_blank(&info.subject, "(No subject)"),
        participants,
        message_count: 1,
        unread_count: if info.flags & MESSAGE_SEEN == 0 {
            1
        } else {
            0
        },
        attachment_count: if info.flags & MESSAGE_ATTACHMENTS != 0 {
            1
        } else {
            0
        },
        starred: info.flags & MESSAGE_FLAGGED != 0,
        last_updated_unix_ms,
        preview,
    }
}

/// The `limit` entries of `list` from `offset` on, or all of them where `limit` is 0.
pub open spec fn page_of(list: Seq<SummaryView>, offset: nat, limit: nat) -> Seq<SummaryView> {
    if offset >= list.len() {
        Seq::empty()
    } else if limit == 0 || offset + limit > list.len() {
        list.skip(offset as int)
    } else {
        list.subrange(offset as int, (offset + limit) as int)
    }
}

/// A page and what follows it make up the list from the start of the page on.
pub proof fn lemma_pages_make_up_the_list(list: Seq<SummaryView>, offset: nat, limit: nat)
    requires
        limit > 0,
    ensures
        page_of(list, offset, limit) + page_of(list, offset + limit, 0) == page_of(
            list,
            offset,
            0,
        ),
        page_of(list, offset, limit).len() <= limit,
        page_of(list, 0, 0) == list,
{
    assert(page_of(list, offset, limit) + page_of(list, offset + limit, 0) =~= page_of(
        list,
        offset,
        0,
    ));
    assert(page_of(list, 0, 0) =~= list);
}

/// The first `count` pages of `limit` entries, one behind the other.
pub open spec fn joined_pages(list: Seq<SummaryView>, limit: nat, count: nat) -> Seq<SummaryView>
    decreases count,
{
    if count == 0 {
        Seq::empty()
    } else {
        joined_pages(list, limit, (count - 1) as nat) + page_of(
            list,
            ((count - 1) * limit) as nat,
            limit,
        )
    }
}

/// The pages of a list, one behind the other, are the list, and a page past its end is empty.
pub proof fn lemma_joined_pages_are_the_list(list: Seq<SummaryView>, limit: nat, count: nat)
    requires
        limit > 0,
    ensures
        count * limit >= list.len() ==> joined_pages(list, limit, count) == list,
        count * limit < list.len() ==> joined_pages(list, limit, count) == list.take(
            (count * limit) as int,
        ),
        count * limit >= list.len() ==> page_of(list, count * limit, limit).len() == 0,
    decreases count,
{
    if count == 0 {
        assert(joined_pages(list, limit, count) =~= list.take(0));
        assert(0 * limit == 0);
        if list.len() == 0 {
            assert(joined_pages(list, limit, count) =~= list);
        }
    } else {
        let before = (count - 1) as nat;
        lemma_joined_pages_are_the_list(list, limit, before);
        assert(count * limit == before * limit + limit) by (nonlinear_arith)
            requires
                count == before + 1,
        ;
        if before * limit >= list.len() {
            assert(joined_pages(list, limit, count) =~= list);
        } else if count * limit >= list.len() {
            assert(joined_pages(list, limit, count) =~= list);
        } else {
            assert(joined_pages(list, limit, count) =~= list.take((count * limit) as int));
        }
    }
}

/// The `limit` entries of a list from `offset` on, or all of them where `limit` is 0.
pub fn page(conversations: &Vec<ConversationSummary>, offset: usize, limit: usize) -> (page: Vec<
    ConversationSummary,
>)
    ensures
        mail::summaries(page@) == page_of(
            mail::summaries(conversations@),
            offset as nat,
            limit as nat,
        ),
{
    let ghost all = mail::summaries(conversations@);
    let length: usize = conversations.len();
    let mut page: Vec<ConversationSummary> = Vec::new();
    if offset >= length {
        assert(mail::summaries(page@) =~= Seq::empty());
        return page;
    }
    let end: usize = if limit == 0 || limit > length - offset {
        length
    } else {
        offset + limit
    };
    let mut i: usize = offset;
    while i < end
        invariant
            offset <= i <= end,
            end <= conversations@.len(),
            all == mail::summaries(conversations@),
            mail::summaries(page@) == all.subrange(offset as int, i as int),
        decreases end - i,
    {
        let ghost before = mail::summaries(page@);
        page.push(conversations[i].clone());
        proof {
            assert(mail::summaries(page@) =~= before.push(all[i as int]));
            assert(all.subrange(offset as int, i + 1) =~= before.push(all[i as int]));
        }
        i += 1;
    }
    assert(all.subrange(offset as int, end as int) =~= page_of(all, offset as nat, limit as nat));
    page
}

/// One page of the conversations of a folder, in order.
pub fn collect_conversations(
    conversations: Vec<ConversationSummary>,
    offset: usize,
    limit: usize,
) -> (page: Vec<ConversationSummary>)
    ensures
        mail::summaries(page@) == page_of(
            mail::ranked(mail::summaries(conversations@)),
            offset as nat,
            limit as nat,
        ),
{
    let mut conversations = conversations;
    mail::sort_conversations(&mut conversations);
    self::page(&conversations, offset, limit)
}

/// Whether the messages of a folder have to be fetched again: it has some, and none is
/// known.
pub fn folder_needs_refresh(known: usize, message_count: i32) -> (r: bool)
    ensures
        r == (known == 0 && message_count > 0),
{
    known == 0 && message_count > 0
}

/// One mailbox of a message header.
#[derive(Debug)]
pub struct HeaderAddress {
    pub name: Option<String>,
    pub email: Option<String>,
}

/// The trimmed text, empty where it is missing.
pub open spec fn trimmed_or_empty(value: Option<Seq<char>>) -> Seq<char> {
    text::trimmed(value.unwrap_or(Seq::empty()))
}

/// How a mailbox is shown; `None` where it says nothing.
pub open spec fn shown_address(address: HeaderAddress) -> Option<Seq<char>> {
    let name = trimmed_or_empty(text::view_opt(address.name));
    let email = trimmed_or_empty(text::view_opt(address.email));
    if name.len() == 0 && email.len() == 0 {
        None
    } else if name.len() == 0 {
        Some(email)
    } else if email.len() == 0 {
        Some(name)
    } else {
        Some(name + " <"@ + email + seq!['>'])
    }
}

/// How the mailboxes of a header are shown.
pub open spec fn shown_addresses(addresses: Seq<HeaderAddress>) -> Seq<Seq<char>>
    decreases addresses.len(),
{
    if addresses.len() == 0 {
        Seq::empty()
    } else {
        match shown_address(addresses.last()) {
            Some(shown) => shown_addresses(addresses.drop_last()).push(shown),
            None => shown_addresses(addresses.drop_last()),
        }
    }
}

fn trim_or_empty(value: &Option<String>) -> (r: String)
    ensures
        r@ == trimmed_or_empty(text::view_opt(*value)),
{
    match value {
        Some(value) => text::trim(value.as_str()).to_owned(),
        None => {
            proof {
                text::lemma_trimmed_identity(Seq::empty());
            }
            String::new()
        },
    }
}

fn format_address(address: &HeaderAddress) -> (shown: Option<String>)
    ensures
        text::view_opt(shown) == shown_address(*address),
{
    let name = trim_or_empty(&address.name);
    let email = trim_or_empty(&address.email);
    if name.as_str().is_empty() && email.as_str().is_empty() {
        None
    } else if name.as_str().is_empty() {
        Some(email)
    } else if email.as_str().is_empty() {
        Some(name)
    } else {
        let mut shown = name.clone();
        shown.append(" <");
        shown.append(email.as_str());
        shown.push('>');
        assert(shown@ =~= name@ + " <"@ + email@ + seq!['>']);
        Some(shown)
    }
}

/// How the mailboxes of a header are shown.
pub fn address_list_strings(addresses: &Vec<HeaderAddress>) -> (shown: Vec<String>)
    ensures
        text::views(shown@) == shown_addresses(addresses@),
{
    let mut shown: Vec<String> = Vec::new();
    let mut i: usize = 0;
    while i < addresses.len()
        invariant
            i <= addresses.len(),
            text::views(shown@) == shown_addresses(addresses@.take(i as int)),
        decreases addresses.len() - i,
    {
        let ghost before = text::views(shown@);
        assert(addresses@.take(i + 1).drop_last() =~= addresses@.take(i as int));
        if let Some(value) = format_address(&addresses[i]) {
            let ghost view = value@;
            shown.push(value);
            assert(text::views(shown@) =~= before.push(view));
        }
        i += 1;
    }
    assert(addresses@.take(i as int) =~= addresses@);
    shown
}

/// The first of the shown mailboxes.
pub open spec fn first_shown(addresses: Seq<HeaderAddress>) -> Option<Seq<char>> {
    if shown_addresses(addresses).len() > 0 {
        Some(shown_addresses(addresses)[0])
    } else {
        None
    }
}

fn first_address_string(addresses: &Vec<HeaderAddress>) -> (shown: Option<String>)
    ensures
        text::view_opt(shown) == first_shown(addresses@),
{
    let all = address_list_strings(addresses);
    if all.len() > 0 {
        assert(text::views(all@)[0] == all@[0]@);
        Some(all[0].clone())
    } else {
        None
    }
}

/// One mailbox of an address list as it is used: one without an address is left out,
/// and a blank name counts as none.
pub open spec fn usable_address(
    name: Option<Seq<char>>,
    address: Option<Seq<char>>,
) -> Option<DecodedAddressView> {
    match address {
        Some(address) if address.len() > 0 => Some(
            DecodedAddressView {
                address,
                display_name: match name {
                    Some(name) if text::trimmed(name).len() > 0 => Some(name),
                    _ => None,
                },
            },
        ),
        _ => None,
    }
}

/// One mailbox of an address list as it is used.
pub fn decoded_address(name: Option<String>, address: Option<String>) -> (decoded: Option<
    DecodedAddress,
>)
    ensures
        match decoded {
            Some(decoded) => usable_address(text::view_opt(name), text::view_opt(address)) == Some(
                decoded@,
            ),
            None => usable_address(text::view_opt(name), text::view_opt(address)) is None,
        },
{
    match address {
        Some(address) if !address.as_str().is_empty() => {
            let display_name = match name {
                Some(name) if !text::trim(name.as_str()).is_empty() => Some(name),
                _ => None,
            };
            Some(DecodedAddress { address, display_name })
        },
        _ => None,
    }
}

/// The value of a hexadecimal digit.
pub open spec fn hex_value(b: u8) -> Option<u8> {
    if 0x30 <= b <= 0x39 {
        Some((b - 0x30) as u8)
    } else if 0x41 <= b <= 0x46 {
        Some((b - 0x41 + 10) as u8)
    } else if 0x61 <= b <= 0x66 {
        Some((b - 0x61 + 10) as u8)
    } else {
        None
    }
}

/// The bytes that percent-encoded bytes stand for. A `%` that two hexadecimal digits do
/// not follow stands for itself.
pub open spec fn percent_decoded(bytes: Seq<u8>) -> Seq<u8>
    decreases bytes.len(),
{
    if bytes.len() == 0 {
        Seq::empty()
    } else if bytes[0] == 0x25 && bytes.len() >= 3 && hex_value(bytes[1]) is Some && hex_value(
        bytes[2],
    ) is Some {
        seq![(hex_value(bytes[1])->0 * 16 + hex_value(bytes[2])->0) as u8] + percent_decoded(
            bytes.skip(3),
        )
    } else {
        seq![bytes[0]] + percent_decoded(bytes.skip(1))
    }
}

/// The text that a percent-encoded text stands for, where it is a text.
pub open spec fn percent_text(encoded: Seq<char>) -> Option<Seq<char>> {
    let bytes = percent_decoded(vstd::utf8::encode_utf8(encoded));
    if vstd::utf8::valid_utf8(bytes) {
        Some(vstd::utf8::decode_utf8(bytes))
    } else {
        None
    }
}

/// Calls `percent_encoding::percent_decode_str` on `encoded` and `decode_utf8` on what
/// it gives: each `%` with two hexadecimal digits becomes the byte they write, other
/// bytes stay, and the bytes are read as UTF-8; there is no text where they are not.
#[verifier::external_body]
fn decode_percent(encoded: &str) -> (decoded: Option<String>)
    ensures
        text::view_opt(decoded) == percent_text(encoded@),
{
    match percent_encoding::percent_decode_str(encoded).decode_utf8() {
        Ok(decoded) => Some(decoded.into_owned()),
        Err(_) => None,
    }
}

/// Why a list of attachments cannot be read.
#[derive(Debug, Clone, Copy, PartialEq, Eq, Structural)]
pub enum AttachmentError {
    Empty,
    NoSeparator,
    NameNotUtf8,
    InvalidToken,
    Incomplete,
}

impl AttachmentError {
    /// What is reported.
    pub fn message(self) -> (message: &'static str)
        ensures
            message@ == (match self {
                AttachmentError::Empty => "attachment records are empty"@,
                AttachmentError::NoSeparator => "attachment record has no token separator"@,
                AttachmentError::NameNotUtf8 => "attachment display name is not UTF-8"@,
                AttachmentError::InvalidToken => "attachment record has an invalid token"@,
                AttachmentError::Incomplete => "attachment record is incomplete"@,
            }),
    {
        match self {
            AttachmentError::Empty => "attachment records are empty",
            AttachmentError::NoSeparator => "attachment record has no token separator",
            AttachmentError::NameNotUtf8 => "attachment display name is not UTF-8",
            AttachmentError::InvalidToken => "attachment record has an invalid token",
            AttachmentError::Incomplete => "attachment record is incomplete",
        }
    }
}

/// The name and the token of an attachment.
pub type AttachmentView = (Seq<char>, Seq<char>);

/// The attachment that a line describes: its name, percent-encoded, a tab, and its
/// token, a positive number.
pub open spec fn attachment_of(line: Seq<char>) -> Result<AttachmentView, AttachmentError> {
    let at = text::first_at(line, '\t');
    let name = percent_text(line.take(at));
    let token = line.skip(at + 1);
    if at == line.len() {
        Err(AttachmentError::NoSeparator)
    } else if name is None {
        Err(AttachmentError::NameNotUtf8)
    } else if text::u32_of(token) is None {
        Err(AttachmentError::InvalidToken)
    } else if (name->0).len() == 0 || text::u32_of(token) == Some(0u32) {
        Err(AttachmentError::Incomplete)
    } else {
        Ok((name->0, token))
    }
}

/// The attachments that lines describe, or what is wrong with the first that describes
/// none.
pub open spec fn attachments_of(lines: Seq<Seq<char>>) -> Result<
    Seq<AttachmentView>,
    AttachmentError,
>
    decreases lines.len(),
{
    if lines.len() == 0 {
        Ok(Seq::empty())
    } else {
        match attachments_of(lines.drop_last()) {
            Err(error) => Err(error),
            Ok(before) => match attachment_of(lines.last()) {
                Err(error) => Err(error),
                Ok(attachment) => Ok(before.push(attachment)),
            },
        }
    }
}

/// The attachments that a list of records describes.
pub open spec fn records_of(serialized: Seq<char>) -> Result<Seq<AttachmentView>, AttachmentError> {
    if serialized.len() == 0 {
        Err(AttachmentError::Empty)
    } else {
        attachments_of(text::lines_of(serialized))
    }
}

/// Whether `attachments` are the cached attachments that `views` say.
pub open spec fn are_cached(
    attachments: Seq<AttachmentInfo>,
    views: Seq<AttachmentView>,
) -> bool {
    &&& attachments.len() == views.len()
    &&& forall|i: int|
        0 <= i < attachments.len() ==> (#[trigger] attachments[i]).display_name@ == views[i].0 && (
        attachments[i].location matches AttachmentLocation::CachedToken(token) && token@
            == views[i].1)
}

/// The attachment that a line describes, given its decoded name.
pub fn attachment_from_parts(name: Option<String>, token: &str) -> (result: Result<
    AttachmentInfo,
    AttachmentError,
>)
    ensures
        match result {
            Ok(attachment) => {
                &&& name is Some
                &&& attachment.display_name@ == (name->0)@
                &&& (attachment.location matches AttachmentLocation::CachedToken(own) && own@
                    == token@)
                &&& (name->0)@.len() > 0
                &&& text::u32_of(token@) is Some
                &&& text::u32_of(token@) != Some(0u32)
            },
            Err(error) => error == (if name is None {
                AttachmentError::NameNotUtf8
            } else if text::u32_of(token@) is None {
                AttachmentError::InvalidToken
            } else {
                AttachmentError::Incomplete
            }) && (name is None || text::u32_of(token@) is None || (name->0)@.len() == 0
                || text::u32_of(token@) == Some(0u32)),
        },
{
    match name {
        None => Err(AttachmentError::NameNotUtf8),
        Some(name) => match text::parse_u32(token) {
            None => Err(AttachmentError::InvalidToken),
            Some(index) => if name.as_str().is_empty() || index == 0 {
                Err(AttachmentError::Incomplete)
            } else {
                Ok(
                    AttachmentInfo {
                        display_name: name,
                        location: AttachmentLocation::CachedToken(token.to_owned()),
                    },
                )
            },
        },
    }
}

fn parse_attachment_line(line: &str) -> (result: Result<AttachmentInfo, AttachmentError>)
    ensures
        match (result, attachment_of(line@)) {
            (Ok(attachment), Ok(expected)) => attachment.display_name@ == expected.0 && (
            attachment.location matches AttachmentLocation::CachedToken(token) && token@
                == expected.1),
            (Err(error), Err(expected)) => error == expected,
            _ => false,
        },
{
    match text::split_once(line, '\t') {
        None => Err(AttachmentError::NoSeparator),
        Some((encoded, token)) => attachment_from_parts(decode_percent(encoded), token),
    }
}

/// Reads the attachments of a message out of their records.
pub fn parse_attachment_records(serialized: &str) -> (result: Result<
    Vec<AttachmentInfo>,
    AttachmentError,
>)
    ensures
        match (result, records_of(serialized@)) {
            (Ok(attachments), Ok(expected)) => are_cached(attachments@, expected),
            (Err(error), Err(expected)) => error == expected,
            _ => false,
        },
{
    if serialized.is_empty() {
        return Err(AttachmentError::Empty);
    }
    let lines = text::lines(serialized);
    let ghost all = text::views(lines@);
    let mut attachments: Vec<AttachmentInfo> = Vec::new();
    let ghost mut read: Seq<AttachmentView> = Seq::empty();
    let mut i: usize = 0;
    assert(all.take(0) =~= Seq::empty());
    while i < lines.len()
        invariant
            i <= lines.len(),
            all == text::views(lines@),
            all == text::lines_of(serialized@),
            serialized@.len() > 0,
            attachments_of(all.take(i as int)) == Ok::<Seq<AttachmentView>, AttachmentError>(read),
            are_cached(attachments@, read),
        decreases lines.len() - i,
    {
        proof {
            assert(all.take(i + 1).drop_last() =~= all.take(i as int));
            assert(all.take(i + 1).last() == lines@[i as int]@);
        }
        match parse_attachment_line(lines[i].as_str()) {
            Ok(attachment) => {
                attachments.push(attachment);
                proof {
                    read = read.push(attachment_of(all[i as int])->Ok_0);
                }
            },
            Err(error) => {
                proof {
                    lemma_attachment_error_stays(all, i + 1);
                }
                return Err(error);
            },
        }
        i += 1;
    }
    assert(all.take(i as int) =~= all);
    Ok(attachments)
}

proof fn lemma_attachment_error_stays(lines: Seq<Seq<char>>, n: int)
    requires
        0 <= n <= lines.len(),
        attachments_of(lines.take(n)) is Err,
    ensures
        attachments_of(lines) == attachments_of(lines.take(n)),
    decreases lines.len() - n,
{
    if n < lines.len() {
        assert(lines.take(n + 1).drop_last() =~= lines.take(n));
        lemma_attachment_error_stays(lines, n + 1);
    } else {
        assert(lines.take(n) =~= lines);
    }
}

/// What a mail store gives of a message that it loaded.
#[derive(Debug)]
pub struct MimeMessage {
    pub message_id: Option<String>,
    pub subject: Option<String>,
    pub from: Vec<HeaderAddress>,
    pub reply_to: Vec<HeaderAddress>,
    pub to: Vec<HeaderAddress>,
    pub cc: Vec<HeaderAddress>,
    pub bcc: Vec<HeaderAddress>,
    pub html: Option<String>,
    pub text: Option<String>,
    /// The records of its attachments, where it has any.
    pub attachments: Option<String>,
    pub date_sent: i64,
    pub date_received: i64,
}

/// Why a message cannot be shown.
#[derive(Debug, Clone, Copy, PartialEq, Eq, Structural)]
pub enum DetailError {
    Attachments(AttachmentError),
    /// The HTML part has to be shown as text and cannot be.
    Body,
}

/// The HTML part of a message as plain text, where `elsewhere` is what was made of it
/// elsewhere.
pub open spec fn rendered_part(message: MimeMessage, elsewhere: Option<Seq<char>>) -> Option<
    Seq<char>,
> {
    mail::text_of_html(text::view_opt(message.html).unwrap_or(Seq::empty()), elsewhere)
}

/// Why a message cannot be shown.
pub open spec fn detail_error(message: MimeMessage, elsewhere: Option<Seq<char>>) -> Option<
    DetailError,
> {
    let html = text::view_opt(message.html).unwrap_or(Seq::empty());
    let plain = text::view_opt(message.text).unwrap_or(Seq::empty());
    if message.attachments is Some && records_of((message.attachments->0)@) is Err {
        Some(DetailError::Attachments(records_of((message.attachments->0)@)->Err_0))
    } else if mail::needs_rendering(html, plain) && rendered_part(message, elsewhere) is None {
        Some(DetailError::Body)
    } else {
        None
    }
}

/// Whether `detail` shows the message `uid`, of which the store knows `info`, where
/// `rendered` is the HTML part as plain text.
pub open spec fn shows(
    detail: MessageDetail,
    uid: Seq<char>,
    conversation_id: Seq<char>,
    info: MessageInfo,
    message: MimeMessage,
    rendered: Seq<char>,
) -> bool {
    let html = text::view_opt(message.html).unwrap_or(Seq::empty());
    let plain = text::view_opt(message.text).unwrap_or(Seq::empty());
    &&& detail.message_id@ == text::view_opt(message.message_id).unwrap_or(uid)
    &&& detail.conversation_id@ == conversation_id
    &&& detail.subject@ == unless_blank(
        text::view_opt(message.subject),
        text::view_opt(info.subject).unwrap_or("(No subject)"@),
    )
    &&& detail.from@ == first_shown(message.from@).unwrap_or(
        text::view_opt(info.from).unwrap_or("Unknown sender"@),
    )
    &&& text::views(detail.to@) == shown_addresses(message.to@)
    &&& text::views(detail.cc@) == shown_addresses(message.cc@)
    &&& text::views(detail.bcc@) == shown_addresses(message.bcc@)
    &&& text::view_opt(detail.reply_to) == first_shown(message.reply_to@)
    &&& detail.date_unix_secs == first_set_time(message.date_sent, message.date_received)
    &&& detail.starred == (info.flags & MESSAGE_FLAGGED != 0)
    &&& detail.unread == (info.flags & MESSAGE_SEEN == 0)
    &&& match message.attachments {
        Some(records) => are_cached(detail.attachments@, records_of(records@)->Ok_0),
        None => detail.attachments@.len() == 0,
    }
    &&& detail.body@ == mail::body_of(html, plain, rendered)
}

fn text_or(value: &Option<String>, otherwise: &str) -> (r: String)
    ensures
        r@ == text::view_opt(*value).unwrap_or(otherwise@),
{
    match value {
        Some(value) => value.clone(),
        None => otherwise.to_owned(),
    }
}

fn text_or_empty(value: Option<String>) -> (r: String)
    ensures
        r@ == text::view_opt(value).unwrap_or(Seq::empty()),
{
    match value {
        Some(value) => value,
        None => String::new(),
    }
}

/// The message `uid` as it is shown, made of what the store knows of it and of what it
/// loaded. Where its HTML part is not one that can be rendered here, `rendered` is what was
/// made of it elsewhere.
pub fn build_message_detail(
    uid: &str,
    conversation_id: &ConversationId,
    info: &MessageInfo,
    message: MimeMessage,
    rendered: Option<&str>,
) -> (result: Result<MessageDetail, DetailError>)
    ensures
        ({
            let elsewhere = match rendered {
                Some(rendered) => Some(rendered@),
                None => None,
            };
            match result {
                Ok(detail) => detail_error(message, elsewhere) is None && shows(
                    detail,
                    uid@,
                    conversation_id@,
                    *info,
                    message,
                    rendered_part(message, elsewhere).unwrap_or(Seq::empty()),
                ),
                Err(error) => detail_error(message, elsewhere) == Some(error),
            }
        }),
{
    let info_subject = text_or(&info.subject, "(No subject)");
    let subject = text_unless_blank(&message.subject, info_subject.as_str());
    let from = match first_address_string(&message.from) {
        Some(from) => from,
        None => text_or(&info.from, "Unknown sender"),
    };
    let reply_to = first_address_string(&message.reply_to);
    let to = address_list_strings(&message.to);
    let cc = address_list_strings(&message.cc);
    let bcc = address_list_strings(&message.bcc);
    let message_id = text_or(&message.message_id, uid);
    let attachments = match &message.attachments {
        Some(records) => match parse_attachment_records(records.as_str()) {
            Ok(attachments) => attachments,
            Err(error) => return Err(DetailError::Attachments(error)),
        },
        None => Vec::new(),
    };
    let date_unix_secs = choose_message_timestamp(message.date_sent, message.date_received);
    let html = text_or_empty(message.html);
    let plain = text_or_empty(message.text);
    match MessageBody::from_parts_rendered(html, plain, rendered) {
        Some(body) => Ok(
            MessageDetail {
                message_id: MessageId(message_id),
                conversation_id: conversation_id.clone(),
                subject,
                from,
                to,
                cc,
                bcc,
                reply_to,
                date_unix_secs,
                starred: info.flags & MESSAGE_FLAGGED != 0,
                unread: info.flags & MESSAGE_SEEN == 0,
                attachments,
                body,
            },
        ),
        None => Err(DetailError::Body),
    }
}

/// A message that is to be stored.
#[derive(Debug)]
pub struct AppendMessageRequest {
    pub message_id: Option<String>,
    pub folder_id: FolderId,
    pub from: String,
    pub reply_to: Option<String>,
    pub to: Vec<String>,
    pub cc: Vec<String>,
    pub bcc: Vec<String>,
    pub subject: String,
    pub html_body: String,
    pub plain_body: String,
    pub attachment_uris: Vec<String>,
    pub is_draft: bool,
}

/// The lists of a message as they are handed to a store.
#[derive(Debug)]
pub struct SerializedLists {
    pub to: String,
    pub cc: String,
    pub bcc: String,
    pub attachment_uris: String,
}

/// Which part of a message cannot be stored.
#[derive(Debug, Clone, Copy, PartialEq, Eq, Structural)]
pub enum AppendError {
    FolderName,
    SourceUid,
    MessageId,
    From,
    ReplyTo,
    Recipient(LineError),
    Subject,
    HtmlBody,
    PlainBody,
    Attachment(LineError),
}

/// Why a list cannot be written one to a line.
pub open spec fn line_error(values: Seq<Seq<char>>) -> Option<LineError> {
    if any_breaks(filled_values(values)) {
        Some(LineError::LineBreak)
    } else if serialized_lines(values).contains('\0') {
        Some(LineError::InteriorNul)
    } else {
        None
    }
}

/// Whether an optional text holds a NUL character.
pub open spec fn has_nul(value: Option<Seq<char>>) -> bool {
    value matches Some(value) && value.contains('\0')
}

/// The first part of a message that cannot be stored.
pub open spec fn append_error(source_uid: Seq<char>, request: AppendMessageRequest) -> Option<
    AppendError,
> {
    if request.folder_id@.contains('\0') {
        Some(AppendError::FolderName)
    } else if source_uid.contains('\0') {
        Some(AppendError::SourceUid)
    } else if has_nul(text::view_opt(request.message_id)) {
        Some(AppendError::MessageId)
    } else if request.from@.contains('\0') {
        Some(AppendError::From)
    } else if has_nul(text::view_opt(request.reply_to)) {
        Some(AppendError::ReplyTo)
    } else if line_error(text::views(request.to@)) is Some {
        Some(AppendError::Recipient(line_error(text::views(request.to@))->0))
    } else if line_error(text::views(request.cc@)) is Some {
        Some(AppendError::Recipient(line_error(text::views(request.cc@))->0))
    } else if line_error(text::views(request.bcc@)) is Some {
        Some(AppendError::Recipient(line_error(text::views(request.bcc@))->0))
    } else if request.subject@.contains('\0') {
        Some(AppendError::Subject)
    } else if request.html_body@.contains('\0') {
        Some(AppendError::HtmlBody)
    } else if request.plain_body@.contains('\0') {
        Some(AppendError::PlainBody)
    } else if line_error(text::views(request.attachment_uris@)) is Some {
        Some(AppendError::Attachment(line_error(text::views(request.attachment_uris@))->0))
    } else {
        None
    }
}

fn holds_nul(value: &Option<String>) -> (r: bool)
    ensures
        r == has_nul(text::view_opt(*value)),
{
    match value {
        Some(value) => text::contains_char(value.as_str(), '\0'),
        None => false,
    }
}

/// Checks a message that is to be stored and writes its lists one to a line.
pub fn prepare_append(source_uid: &str, request: &AppendMessageRequest) -> (result: Result<
    SerializedLists,
    AppendError,
>)
    ensures
        match result {
            Ok(lists) => {
                &&& append_error(source_uid@, *request) is None
                &&& lists.to@ == serialized_lines(text::views(request.to@))
                &&& lists.cc@ == serialized_lines(text::views(request.cc@))
                &&& lists.bcc@ == serialized_lines(text::views(request.bcc@))
                &&& lists.attachment_uris@ == serialized_lines(
                    text::views(request.attachment_uris@),
                )
            },
            Err(error) => append_error(source_uid@, *request) == Some(error),
        },
{
    if text::contains_char(request.folder_id.0.as_str(), '\0') {
        return Err(AppendError::FolderName);
    }
    if text::contains_char(source_uid, '\0') {
        return Err(AppendError::SourceUid);
    }
    if holds_nul(&request.message_id) {
        return Err(AppendError::MessageId);
    }
    if text::contains_char(request.from.as_str(), '\0') {
        return Err(AppendError::From);
    }
    if holds_nul(&request.reply_to) {
        return Err(AppendError::ReplyTo);
    }
    let to = match serialize_recipients(&request.to) {
        Ok(to) => to,
        Err(error) => return Err(AppendError::Recipient(error)),
    };
    let cc = match serialize_recipients(&request.cc) {
        Ok(cc) => cc,
        Err(error) => return Err(AppendError::Recipient(error)),
    };
    let bcc = match serialize_recipients(&request.bcc) {
        Ok(bcc) => bcc,
        Err(error) => return Err(AppendError::Recipient(error)),
    };
    if text::contains_char(request.subject.as_str(), '\0') {
        return Err(AppendError::Subject);
    }
    if text::contains_char(request.html_body.as_str(), '\0') {
        return Err(AppendError::HtmlBody);
    }
    if text::contains_char(request.plain_body.as_str(), '\0') {
        return Err(AppendError::PlainBody);
    }
    let attachment_uris = match serialize_attachment_uris(&request.attachment_uris) {
        Ok(attachment_uris) => attachment_uris,
        Err(error) => return Err(AppendError::Attachment(error)),
    };
    Ok(SerializedLists { to, cc, bcc, attachment_uris })
}

/// What is missing of a message that was stored.
#[derive(Debug, Clone, Copy, PartialEq, Eq, Structural)]
pub enum StoredMessageError {
    NoUid,
    NoMessageId,
}

/// Names a message that was stored in `folder_id`.
pub fn stored_message(
    folder_id: &FolderId,
    appended_uid: Option<String>,
    message_id: Option<String>,
) -> (result: Result<StoredMessageRef, StoredMessageError>)
    ensures
        ({
            let uid = text::view_opt(appended_uid).unwrap_or(Seq::empty());
            let id = text::view_opt(message_id).unwrap_or(Seq::empty());
            match result {
                Ok(stored) => uid.len() > 0 && id.len() > 0 && stored.conversation_id@ == composed(
                    folder_id@,
                    uid,
                ) && stored.message_id@ == id,
                Err(StoredMessageError::NoUid) => uid.len() == 0,
                Err(StoredMessageError::NoMessageId) => uid.len() > 0 && id.len() == 0,
            }
        }),
{
    let uid = text_or_empty(appended_uid);
    let id = text_or_empty(message_id);
    if uid.as_str().is_empty() {
        return Err(StoredMessageError::NoUid);
    }
    if id.as_str().is_empty() {
        return Err(StoredMessageError::NoMessageId);
    }
    Ok(
        StoredMessageRef {
            conversation_id: ConversationId(
                compose_conversation_id(folder_id.0.as_str(), uid.as_str()),
            ),
            message_id: MessageId(id),
        },
    )
}

/// What a folder is for, by its flags.
pub open spec fn kind_of(flags: u32) -> FolderKind {
    let bits = flags & FOLDER_TYPE_MASK;
    if bits == FOLDER_TYPE_INBOX {
        FolderKind::Inbox
    } else if bits == FOLDER_TYPE_OUTBOX {
        FolderKind::Outbox
    } else if bits == FOLDER_TYPE_DRAFTS {
        FolderKind::Drafts
    } else if bits == FOLDER_TYPE_SENT {
        FolderKind::Sent
    } else if bits == FOLDER_TYPE_ARCHIVE {
        FolderKind::Archive
    } else if bits == FOLDER_TYPE_TRASH {
        FolderKind::Trash
    } else if bits == FOLDER_TYPE_JUNK {
        FolderKind::Spam
    } else {
        FolderKind::Custom
    }
}

/// What a folder is for, by its flags.
pub fn classify_folder_kind(flags: u32) -> (kind: FolderKind)
    ensures
        kind == kind_of(flags),
{
    let bits: u32 = flags & FOLDER_TYPE_MASK;
    if bits == FOLDER_TYPE_INBOX {
        FolderKind::Inbox
    } else if bits == FOLDER_TYPE_OUTBOX {
        FolderKind::Outbox
    } else if bits == FOLDER_TYPE_DRAFTS {
        FolderKind::Drafts
    } else if bits == FOLDER_TYPE_SENT {
        FolderKind::Sent
    } else if bits == FOLDER_TYPE_ARCHIVE {
        FolderKind::Archive
    } else if bits == FOLDER_TYPE_TRASH {
        FolderKind::Trash
    } else if bits == FOLDER_TYPE_JUNK {
        FolderKind::Spam
    } else {
        FolderKind::Custom
    }
}

/// Where folders of a kind stand in a folder list.
pub open spec fn rank_of(kind: FolderKind) -> int {
    match kind {
        FolderKind::Inbox => 0,
        FolderKind::Drafts => 1,
        FolderKind::Outbox => 2,
        FolderKind::Sent => 3,
        FolderKind::Archive => 4,
        FolderKind::Trash => 5,
        FolderKind::Spam => 6,
        FolderKind::Custom => 7,
    }
}

/// Where folders of a kind stand in a folder list.
pub fn folder_rank(kind: FolderKind) -> (rank: usize)
    ensures
        rank == rank_of(kind),
{
    match kind {
        FolderKind::Inbox => 0,
        FolderKind::Drafts => 1,
        FolderKind::Outbox => 2,
        FolderKind::Sent => 3,
        FolderKind::Archive => 4,
        FolderKind::Trash => 5,
        FolderKind::Spam => 6,
        FolderKind::Custom => 7,
    }
}

/// Whether `a` stands above `b` in a folder list: by kind, then by name.
pub open spec fn stands_above(a: FolderView, b: FolderView) -> bool {
    rank_of(a.kind) < rank_of(b.kind) || (rank_of(a.kind) == rank_of(b.kind) && text::before(
        a.name,
        b.name,
    ))
}

/// Whether `left` stands above `right` in a folder list.
pub fn folder_stands_above(left: &MailFolder, right: &MailFolder) -> (r: bool)
    ensures
        r == stands_above(left@, right@),
{
    folder_rank(left.kind) < folder_rank(right.kind) || (folder_rank(left.kind) == folder_rank(
        right.kind,
    ) && text::precedes(left.name.as_str(), right.name.as_str()))
}

/// `list` with `folder` behind every entry that does not stand below it.
pub open spec fn folder_insert(list: Seq<FolderView>, folder: FolderView) -> Seq<FolderView>
    decreases list.len(),
{
    if list.len() > 0 && stands_above(folder, list.last()) {
        folder_insert(list.drop_last(), folder).push(list.last())
    } else {
        list.push(folder)
    }
}

/// `list` in the order of a folder list; folders of one kind and name stay in order.
pub open spec fn folders_sorted(list: Seq<FolderView>) -> Seq<FolderView>
    decreases list.len(),
{
    if list.len() == 0 {
        Seq::empty()
    } else {
        folder_insert(folders_sorted(list.drop_last()), list.last())
    }
}

/// `list` without each folder that has the name of the one before it.
pub open spec fn without_repeats(list: Seq<FolderView>) -> Seq<FolderView>
    decreases list.len(),
{
    if list.len() == 0 {
        Seq::empty()
    } else {
        let kept = without_repeats(list.drop_last());
        if kept.len() > 0 && kept.last().id == list.last().id {
            kept
        } else {
            kept.push(list.last())
        }
    }
}

/// One folder as a mail store describes it.
#[derive(Debug)]
pub struct FolderInfo {
    pub full_name: Option<String>,
    pub display_name: Option<String>,
    pub unread: i32,
    pub flags: u32,
}

/// The folder that a store describes; `None` where it has no name.
pub open spec fn folder_from(info: FolderInfo) -> Option<FolderView> {
    match text::view_opt(info.full_name) {
        Some(full_name) if full_name.len() > 0 => Some(
            FolderView {
                id: full_name,
                name: text::view_opt(info.display_name).unwrap_or(full_name),
                unread_count: if info.unread > 0 {
                    info.unread as u32
                } else {
                    0
                },
                kind: kind_of(info.flags),
            },
        ),
        _ => None,
    }
}

/// The folders that a store describes, in its order; `None` where one has no name.
pub open spec fn folders_from(infos: Seq<FolderInfo>) -> Option<Seq<FolderView>>
    decreases infos.len(),
{
    if infos.len() == 0 {
        Some(Seq::empty())
    } else {
        match (folders_from(infos.drop_last()), folder_from(infos.last())) {
            (Some(before), Some(folder)) => Some(before.push(folder)),
            _ => None,
        }
    }
}

/// The folder that a store describes.
pub fn collect_folder_info(info: &FolderInfo) -> (folder: Option<MailFolder>)
    ensures
        match folder {
            Some(folder) => folder_from(*info) == Some(folder@),
            None => folder_from(*info) is None,
        },
{
    match &info.full_name {
        Some(full_name) if !full_name.as_str().is_empty() => {
            let unread_count: u32 = if info.unread > 0 {
                info.unread as u32
            } else {
                0
            };
            Some(
                MailFolder {
                    id: FolderId(full_name.clone()),
                    name: text_or(&info.display_name, full_name.as_str()),
                    unread_count,
                    kind: classify_folder_kind(info.flags),
                },
            )
        },
        _ => None,
    }
}

proof fn lemma_folder_insert_at(list: Seq<FolderView>, folder: FolderView, k: int)
    requires
        0 <= k <= list.len(),
        forall|i: int| k <= i < list.len() ==> stands_above(folder, #[trigger] list[i]),
        k > 0 ==> !stands_above(folder, list[k - 1]),
    ensures
        folder_insert(list, folder) == list.insert(k, folder),
    decreases list.len(),
{
    if k < list.len() {
        assert(stands_above(folder, list[list.len() - 1]));
        lemma_folder_insert_at(list.drop_last(), folder, k);
        assert(list.insert(k, folder) =~= list.drop_last().insert(k, folder).push(list.last()));
    } else {
        assert(list.insert(k, folder) =~= list.push(folder));
    }
}

fn insert_folder(list: &mut Vec<MailFolder>, folder: MailFolder)
    ensures
        mail::folder_views(final(list)@) == folder_insert(
            mail::folder_views(old(list)@),
            folder@,
        ),
{
    let mut position: usize = list.len();
    while position > 0 && folder_stands_above(&folder, &list[position - 1])
        invariant
            position <= list.len(),
            forall|i: int|
                position <= i < list.len() ==> stands_above(
                    folder@,
                    #[trigger] mail::folder_views(list@)[i],
                ),
        decreases position,
    {
        position -= 1;
    }
    let ghost before = list@;
    proof {
        lemma_folder_insert_at(mail::folder_views(before), folder@, position as int);
    }
    list.insert(position, folder);
    assert(mail::folder_views(list@) =~= mail::folder_views(before).insert(
        position as int,
        folder@,
    ));
}

/// The folder list that a store describes: sorted, and each name once.
pub fn load_folder_tree(infos: &Vec<FolderInfo>) -> (folders: Option<Vec<MailFolder>>)
    ensures
        match folders {
            Some(folders) => folders_from(infos@) is Some && mail::folder_views(folders@)
                == without_repeats(folders_sorted(folders_from(infos@)->0)),
            None => folders_from(infos@) is None,
        },
{
    let mut sorted: Vec<MailFolder> = Vec::new();
    let ghost mut read: Seq<FolderView> = Seq::empty();
    let mut i: usize = 0;
    assert(infos@.take(0) =~= Seq::empty());
    assert(mail::folder_views(sorted@) =~= Seq::empty());
    while i < infos.len()
        invariant
            i <= infos.len(),
            folders_from(infos@.take(i as int)) == Some(read),
            mail::folder_views(sorted@) == folders_sorted(read),
        decreases infos.len() - i,
    {
        assert(infos@.take(i + 1).drop_last() =~= infos@.take(i as int));
        match collect_folder_info(&infos[i]) {
            Some(folder) => {
                proof {
                    let more = read.push(folder@);
                    assert(more.drop_last() =~= read);
                    read = more;
                }
                insert_folder(&mut sorted, folder);
            },
            None => {
                proof {
                    lemma_nameless_folder_stays(infos@, i + 1);
                }
                return None;
            },
        }
        i += 1;
    }
    assert(infos@.take(i as int) =~= infos@);
    let ghost all = mail::folder_views(sorted@);
    let mut folders: Vec<MailFolder> = Vec::new();
    assert(mail::folder_views(folders@) =~= Seq::empty());
    for folder in it: sorted
        invariant
            all == mail::folder_views(it.seq()),
            mail::folder_views(folders@) == without_repeats(all.take(it.index())),
    {
        let ghost before = mail::folder_views(folders@);
        proof {
            assert(all.take(it.index() + 1).drop_last() =~= all.take(it.index()));
            assert(all.take(it.index() + 1).last() == folder@);
        }
        let length: usize = folders.len();
        let repeated = length > 0 && folders[length - 1].id.0 == folder.id.0;
        if !repeated {
            folders.push(folder);
            assert(mail::folder_views(folders@) =~= before.push(folder@));
        }
    }
    assert(all.take(all.len() as int) =~= all);
    Some(folders)
}

/// Whether no folder of a list stands above one that comes before it.
pub open spec fn in_order(list: Seq<FolderView>) -> bool {
    forall|i: int, j: int|
        0 <= i < j < list.len() ==> !stands_above(#[trigger] list[j], #[trigger] list[i])
}

proof fn lemma_stands_above(a: FolderView, b: FolderView, c: FolderView)
    ensures
        stands_above(a, b) ==> !stands_above(b, a),
        stands_above(a, c) && !stands_above(b, c) ==> stands_above(a, b),
{
    if rank_of(a.kind) == rank_of(b.kind) {
        text::lemma_before_irreflexive(a.name);
        if text::before(a.name, b.name) && text::before(b.name, a.name) {
            text::lemma_before_transitive(a.name, b.name, a.name);
        }
        if text::before(a.name, c.name) && !text::before(b.name, c.name) {
            text::lemma_before_total(b.name, c.name);
            if text::before(c.name, b.name) {
                text::lemma_before_transitive(a.name, c.name, b.name);
            }
        }
    }
}

proof fn lemma_folder_insert_in_order(list: Seq<FolderView>, folder: FolderView)
    requires
        in_order(list),
    ensures
        in_order(folder_insert(list, folder)),
        forall|entry: FolderView| #[trigger]
            folder_insert(list, folder).contains(entry) <==> entry == folder || list.contains(
                entry,
            ),
    decreases list.len(),
{
    let inserted = folder_insert(list, folder);
    if list.len() > 0 && stands_above(folder, list.last()) {
        let before = folder_insert(list.drop_last(), folder);
        lemma_folder_insert_in_order(list.drop_last(), folder);
        assert(inserted == before.push(list.last()));
        assert forall|i: int| 0 <= i < before.len() implies !stands_above(
            list.last(),
            #[trigger] before[i],
        ) by {
            assert(before.contains(before[i]));
            if before[i] == folder {
                lemma_stands_above(folder, list.last(), list.last());
            } else {
                let k = choose|k: int|
                    0 <= k < list.drop_last().len() && list.drop_last()[k] == before[i];
                assert(list[k] == before[i]);
                assert(!stands_above(list[list.len() - 1], list[k]));
            }
        }
        assert(in_order(inserted)) by {
            assert forall|i: int, j: int| 0 <= i < j < inserted.len() implies !stands_above(
                #[trigger] inserted[j],
                #[trigger] inserted[i],
            ) by {
                assert(inserted[i] == before[i]);
                if j < before.len() {
                    assert(inserted[j] == before[j]);
                }
            }
        }
        assert forall|entry: FolderView| #[trigger]
            inserted.contains(entry) <==> entry == folder || list.contains(entry) by {
            if inserted.contains(entry) {
                let k = choose|k: int| 0 <= k < inserted.len() && inserted[k] == entry;
                if k < before.len() {
                    assert(before[k] == entry);
                    assert(before.contains(entry));
                    if entry != folder {
                        let m = choose|m: int|
                            0 <= m < list.drop_last().len() && list.drop_last()[m] == entry;
                        assert(list[m] == entry);
                    }
                } else {
                    assert(list[list.len() - 1] == entry);
                }
            }
            if entry == folder || list.contains(entry) {
                if entry != folder && entry != list.last() {
                    let m = choose|m: int| 0 <= m < list.len() && list[m] == entry;
                    assert(list.drop_last()[m] == entry);
                    assert(list.drop_last().contains(entry));
                }
                if before.contains(entry) {
                    let m = choose|m: int| 0 <= m < before.len() && before[m] == entry;
                    assert(inserted[m] == entry);
                } else {
                    assert(inserted[before.len() as int] == entry);
                }
            }
        }
    } else {
        assert(inserted == list.push(folder));
        assert forall|i: int| 0 <= i < list.len() implies !stands_above(
            folder,
            #[trigger] list[i],
        ) by {
            if i < list.len() - 1 {
                assert(!stands_above(list[list.len() - 1], list[i]));
                lemma_stands_above(folder, list.last(), list[i]);
            }
        }
        assert forall|entry: FolderView| #[trigger]
            inserted.contains(entry) <==> entry == folder || list.contains(entry) by {
            if list.contains(entry) {
                let m = choose|m: int| 0 <= m < list.len() && list[m] == entry;
                assert(inserted[m] == entry);
            }
            assert(inserted[list.len() as int] == folder);
        }
    }
}

proof fn lemma_folders_sorted(list: Seq<FolderView>)
    ensures
        in_order(folders_sorted(list)),
        forall|entry: FolderView| #[trigger]
            folders_sorted(list).contains(entry) <==> list.contains(entry),
    decreases list.len(),
{
    if list.len() > 0 {
        let before = list.drop_last();
        lemma_folders_sorted(before);
        lemma_folder_insert_in_order(folders_sorted(before), list.last());
        assert forall|entry: FolderView| #[trigger]
            folders_sorted(list).contains(entry) <==> list.contains(entry) by {
            assert(folders_sorted(before).contains(entry) <==> before.contains(entry));
            if before.contains(entry) {
                let m = choose|m: int| 0 <= m < before.len() && before[m] == entry;
                assert(list[m] == entry);
            }
            if list.contains(entry) && entry != list.last() {
                let m = choose|m: int| 0 <= m < list.len() && list[m] == entry;
                assert(before[m] == entry);
            }
            assert(list[list.len() - 1] == list.last());
        }
    }
}

proof fn lemma_without_repeats(list: Seq<FolderView>)
    requires
        in_order(list),
    ensures
        in_order(without_repeats(list)),
        forall|k: int|
            0 <= k < without_repeats(list).len() ==> list.contains(
                #[trigger] without_repeats(list)[k],
            ),
        forall|k: int|
            0 <= k < list.len() ==> exists|m: int|
                0 <= m < without_repeats(list).len() && without_repeats(list)[m].id == (
                #[trigger] list[k]).id,
        list.len() > 0 ==> without_repeats(list).len() > 0,
    decreases list.len(),
{
    if list.len() > 0 {
        let before = list.drop_last();
        let kept = without_repeats(before);
        let out = without_repeats(list);
        lemma_without_repeats(before);
        assert forall|k: int| 0 <= k < kept.len() implies list.contains(#[trigger] kept[k]) by {
            let m = choose|m: int| 0 <= m < before.len() && before[m] == kept[k];
            assert(list[m] == kept[k]);
        }
        assert forall|k: int| 0 <= k < out.len() implies list.contains(#[trigger] out[k]) by {
            if k < kept.len() {
                assert(out[k] == kept[k]);
            } else {
                assert(out[k] == list[list.len() - 1]);
            }
        }
        assert(in_order(out)) by {
            assert forall|i: int, j: int| 0 <= i < j < out.len() implies !stands_above(
                #[trigger] out[j],
                #[trigger] out[i],
            ) by {
                assert(out[i] == kept[i]);
                if j < kept.len() {
                    assert(out[j] == kept[j]);
                } else {
                    let m = choose|m: int| 0 <= m < before.len() && before[m] == kept[i];
                    assert(list[m] == kept[i]);
                    assert(!stands_above(list[list.len() - 1], list[m]));
                }
            }
        }
        assert forall|k: int| 0 <= k < list.len() implies exists|m: int|
            0 <= m < out.len() && out[m].id == (#[trigger] list[k]).id by {
            if k < before.len() {
                assert(before[k] == list[k]);
                let m = choose|m: int| 0 <= m < kept.len() && kept[m].id == before[k].id;
                assert(out[m] == kept[m]);
            } else {
                assert(out[out.len() - 1].id == list[k].id);
            }
        }
    }
}

/// The folder list that a store describes is in order, holds only folders of the store,
/// and misses none by name.
pub proof fn lemma_folders_are_listed_in_order(list: Seq<FolderView>)
    ensures
        in_order(without_repeats(folders_sorted(list))),
        forall|k: int|
            0 <= k < without_repeats(folders_sorted(list)).len() ==> list.contains(
                #[trigger] without_repeats(folders_sorted(list))[k],
            ),
        forall|k: int|
            0 <= k < list.len() ==> exists|m: int|
                0 <= m < without_repeats(folders_sorted(list)).len() && without_repeats(
                    folders_sorted(list),
                )[m].id == (#[trigger] list[k]).id,
{
    let sorted = folders_sorted(list);
    let out = without_repeats(sorted);
    lemma_folders_sorted(list);
    lemma_without_repeats(sorted);
    assert forall|k: int| 0 <= k < out.len() implies list.contains(#[trigger] out[k]) by {
        assert(sorted.contains(out[k]));
    }
    assert forall|k: int| 0 <= k < list.len() implies exists|m: int|
        0 <= m < out.len() && out[m].id == (#[trigger] list[k]).id by {
        assert(list.contains(list[k]));
        assert(sorted.contains(list[k]));
        let n = choose|n: int| 0 <= n < sorted.len() && sorted[n] == list[k];
        assert(sorted[n].id == list[k].id);
    }
}

proof fn lemma_nameless_folder_stays(infos: Seq<FolderInfo>, n: int)
    requires
        0 <= n <= infos.len(),
        folders_from(infos.take(n)) is None,
    ensures
        folders_from(infos) is None,
    decreases infos.len() - n,
{
    if n < infos.len() {
        assert(infos.take(n + 1).drop_last() =~= infos.take(n));
        lemma_nameless_folder_stays(infos, n + 1);
    } else {
        assert(infos.take(n) =~= infos);
    }
}

/// A folder path that cannot be created.
#[derive(Debug, Clone, Copy, PartialEq, Eq, Structural)]
pub struct InvalidFolderPath;

/// Whether a component may stand in the path of a local folder.
pub open spec fn is_component(s: Seq<char>) -> bool {
    s.len() > 0 && s != "."@ && s != ".."@
}

/// Whether `path` names a local folder.
pub open spec fn is_folder_path(path: Seq<char>) -> bool {
    forall|i: int|
        0 <= i < text::split_on(path, '/').len() ==> is_component(
            #[trigger] text::split_on(path, '/')[i],
        )
}

/// The parts of `path` that end before a `/`, from the shortest on.
pub open spec fn parents_of(path: Seq<char>) -> Seq<Seq<char>>
    decreases path.len(),
{
    if path.len() == 0 {
        Seq::empty()
    } else if path.last() == '/' {
        parents_of(path.drop_last()).push(path.drop_last())
    } else {
        parents_of(path.drop_last())
    }
}

/// The folders that have to exist for the local folder `folder_path`, itself included.
pub fn local_folder_path_prefixes(folder_path: &str) -> (result: Result<
    Vec<String>,
    InvalidFolderPath,
>)
    ensures
        result is Ok <==> is_folder_path(folder_path@),
        result matches Ok(prefixes) ==> text::views(prefixes@) == parents_of(
            folder_path@,
        ).push(folder_path@),
{
    let components = text::split(folder_path, '/');
    let ghost all = text::views(components@);
    let mut k: usize = 0;
    while k < components.len()
        invariant
            k <= components.len(),
            all == text::views(components@),
            all == text::split_on(folder_path@, '/'),
            forall|j: int| 0 <= j < k ==> is_component(#[trigger] all[j]),
        decreases components.len() - k,
    {
        let component = components[k].as_str();
        if component.is_empty() || text::same(component, ".") || text::same(component, "..") {
            assert(!is_component(all[k as int]));
            return Err(InvalidFolderPath);
        }
        k += 1;
    }
    let chars = text::chars_of(folder_path);
    let mut prefixes: Vec<String> = Vec::new();
    let mut i: usize = 0;
    while i < chars.len()
        invariant
            i <= chars.len(),
            chars@ == folder_path@,
            text::views(prefixes@) == parents_of(folder_path@.take(i as int)),
        decreases chars.len() - i,
    {
        let ghost before = text::views(prefixes@);
        assert(folder_path@.take(i + 1).drop_last() =~= folder_path@.take(i as int));
        if chars[i] == '/' {
            let prefix = folder_path.substring_char(0, i);
            assert(prefix@ =~= folder_path@.take(i as int));
            prefixes.push(prefix.to_owned());
            assert(text::views(prefixes@) =~= before.push(prefix@));
        }
        i += 1;
    }
    assert(folder_path@.take(i as int) =~= folder_path@);
    let ghost before = text::views(prefixes@);
    prefixes.push(folder_path.to_owned());
    assert(text::views(prefixes@) =~= before.push(folder_path@));
    Ok(prefixes)
}

/// The address of a folder, made of the encoded names of its store and of itself.
pub fn folder_uri(encoded_service: &str, encoded_folder: &str) -> (uri: String)
    ensures
        uri@ == "folder://"@ + encoded_service@ + seq!['/'] + encoded_folder@,
{
    let mut uri = "folder://".to_owned();
    uri.append(encoded_service);
    uri.push('/');
    uri.append(encoded_folder);
    assert(uri@ =~= "folder://"@ + encoded_service@ + seq!['/'] + encoded_folder@);
    uri
}

} // verus!
