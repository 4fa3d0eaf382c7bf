//! Folders, conversations, messages and drafts.
use crate::model::account::MailAccountId;
use crate::model::html;
use crate::text;
use vstd::prelude::*;

verus! {

/// Marks the part of a composed document that holds the signature.
pub const SIGNATURE_REGION_ATTRIBUTE: &'static str = "data-signature-region";

/// How many conversations one page of a folder holds.
pub const CONVERSATION_PAGE_SIZE: usize = 50;

/// What stands for `c` in HTML text.
pub open spec fn html_escape(c: char) -> Seq<char> {
    if c == '&' {
        "&amp;"@
    } else if c == '<' {
        "&lt;"@
    } else if c == '>' {
        "&gt;"@
    } else if c == '\'' {
        "&apos;"@
    } else if c == '"' {
        "&quot;"@
    } else {
        seq![c]
    }
}

/// `s` as HTML text.
pub open spec fn html_escaped(s: Seq<char>) -> Seq<char>
    decreases s.len(),
{
    if s.len() == 0 {
        Seq::empty()
    } else {
        html_escaped(s.drop_last()) + html_escape(s.last())
    }
}

/// `s` with each line end (`\r\n`, `\r` or `\n`) as one `\n`.
pub open spec fn unified_line_ends(s: Seq<char>) -> Seq<char>
    decreases s.len(),
{
    if s.len() == 0 {
        Seq::empty()
    } else if s.last() == '\r' {
        unified_line_ends(s.drop_last()).push('\n')
    } else if s.last() == '\n' && s.len() > 1 && s[s.len() - 2] == '\r' {
        unified_line_ends(s.drop_last())
    } else {
        unified_line_ends(s.drop_last()).push(s.last())
    }
}

/// Plain text as HTML, its line ends as `<br>`.
pub open spec fn html_of_text(s: Seq<char>) -> Seq<char> {
    text::replaced(html_escaped(unified_line_ends(s)), '\n', "<br>"@)
}

/// Escapes what HTML text and attribute values may not hold as it is.
pub fn escape_html_text(text: &str) -> (escaped: String)
    ensures
        escaped@ == html_escaped(text@),
{
    let chars = text::chars_of(text);
    let mut escaped = String::new();
    let mut i: usize = 0;
    while i < chars.len()
        invariant
            i <= chars.len(),
            chars@ == text@,
            escaped@ == html_escaped(text@.take(i as int)),
        decreases chars.len() - i,
    {
        assert(text@.take(i + 1).drop_last() =~= text@.take(i as int));
        let character = chars[i];
        if character == '&' {
            escaped.append("&amp;");
        } else if character == '<' {
            escaped.append("&lt;");
        } else if character == '>' {
            escaped.append("&gt;");
        } else if character == '\'' {
            escaped.append("&apos;");
        } else if character == '"' {
            escaped.append("&quot;");
        } else {
            escaped.push(character);
            assert(html_escaped(text@.take(i as int)) + seq![character] =~= html_escaped(
                text@.take(i as int),
            ).push(character));
        }
        i += 1;
    }
    assert(text@.take(i as int) =~= text@);
    escaped
}

/// Each line end of `text` as one line feed.
fn unify_line_ends(text: &str) -> (unified: String)
    ensures
        unified@ == unified_line_ends(text@),
{
    let chars = text::chars_of(text);
    let mut unified = String::new();
    let mut i: usize = 0;
    while i < chars.len()
        invariant
            i <= chars.len(),
            chars@ == text@,
            unified@ == unified_line_ends(text@.take(i as int)),
        decreases chars.len() - i,
    {
        let ghost prefix = text@.take(i + 1);
        assert(prefix.drop_last() =~= text@.take(i as int));
        if chars[i] == '\r' {
            unified.push('\n');
        } else if chars[i] == '\n' && i > 0 && chars[i - 1] == '\r' {
            assert(prefix[prefix.len() - 2] == '\r');
        } else {
            unified.push(chars[i]);
        }
        i += 1;
    }
    assert(text@.take(i as int) =~= text@);
    unified
}

/// Shows plain text as HTML.
pub fn plain_text_to_html(text: &str) -> (html: String)
    ensures
        html@ == html_of_text(text@),
{
    let unified = unify_line_ends(text);
    let escaped = escape_html_text(unified.as_str());
    text::replace_char(escaped.as_str(), '\n', "<br>")
}

/// Escaped text holds no character that opens or closes a tag or an attribute value.
pub proof fn lemma_escaped_text_holds_no_markup(s: Seq<char>)
    ensures
        forall|i: int|
            0 <= i < html_escaped(s).len() ==> {
                let c = #[trigger] html_escaped(s)[i];
                c != '<' && c != '>' && c != '\'' && c != '"'
            },
    decreases s.len(),
{
    if s.len() > 0 {
        lemma_escaped_text_holds_no_markup(s.drop_last());
        reveal_strlit("&amp;");
        reveal_strlit("&lt;");
        reveal_strlit("&gt;");
        reveal_strlit("&apos;");
        reveal_strlit("&quot;");
        let head = html_escaped(s.drop_last());
        let tail = html_escape(s.last());
        assert forall|i: int| 0 <= i < html_escaped(s).len() implies {
            let c = #[trigger] html_escaped(s)[i];
            c != '<' && c != '>' && c != '\'' && c != '"'
        } by {
            if i < head.len() {
                assert(html_escaped(s)[i] == head[i]);
            } else {
                assert(html_escaped(s)[i] == tail[i - head.len()]);
            }
        }
    }
}

/// What the mailbox window shows.
#[derive(Debug, Clone, Copy, PartialEq, Eq)]
pub enum MailboxMode {
    Loading,
    Live,
    NoAccount,
    Unavailable,
}

/// What became of a write.
#[derive(Debug, Clone, Copy, PartialEq, Eq, Structural)]
pub enum WriteOutcome {
    Unchanged,
    Applied,
    Queued,
}

impl WriteOutcome {
    /// Whether the user sees a change.
    pub fn changed(self) -> (r: bool)
        ensures
            r == (self !is Unchanged),
    {
        self != WriteOutcome::Unchanged
    }

    /// Whether the change still has to reach the server.
    pub fn requires_convergence(self) -> (r: bool)
        ensures
            r == (self is Queued),
    {
        self == WriteOutcome::Queued
    }
}

/// What the user does to a message.
#[derive(Debug, PartialEq, Eq)]
pub enum MessageAction {
    SetStarred(bool),
    SetRead(bool),
    MoveTo(FolderId),
}

impl Clone for MessageAction {
    fn clone(&self) -> (r: Self)
        ensures
            r == *self,
    {
        match self {
            MessageAction::SetStarred(starred) => MessageAction::SetStarred(*starred),
            MessageAction::SetRead(read) => MessageAction::SetRead(*read),
            MessageAction::MoveTo(folder) => MessageAction::MoveTo(folder.clone()),
        }
    }
}

/// What the user does with an attachment.
#[derive(Debug, Clone, Copy, PartialEq, Eq)]
pub enum AttachmentOperation {
    Open,
    SaveAs,
}

/// Names a folder of an account.
#[derive(Debug, PartialEq, Eq, Hash)]
pub struct FolderId(pub String);

impl View for FolderId {
    type V = Seq<char>;

    open spec fn view(&self) -> Seq<char> {
        self.0@
    }
}

impl Clone for FolderId {
    fn clone(&self) -> (r: Self)
        ensures
            r == *self,
    {
        FolderId(self.0.clone())
    }
}

/// Names a conversation of an account.
#[derive(Debug, PartialEq, Eq, Hash)]
pub struct ConversationId(pub String);

impl View for ConversationId {
    type V = Seq<char>;

    open spec fn view(&self) -> Seq<char> {
        self.0@
    }
}

impl Clone for ConversationId {
    fn clone(&self) -> (r: Self)
        ensures
            r == *self,
    {
        ConversationId(self.0.clone())
    }
}


/// The values of a list of conversation names.
pub open spec fn id_views(list: Seq<ConversationId>) -> Seq<Seq<char>> {
    list.map_values(|id: ConversationId| id@)
}

/// Whether `list` holds `id`.
pub fn lists_id(list: &Vec<ConversationId>, id: &ConversationId) -> (r: bool)
    ensures
        r == id_views(list@).contains(id@),
{
    let ghost views = id_views(list@);
    let mut i: usize = 0;
    while i < list.len()
        invariant
            i <= list.len(),
            views == id_views(list@),
            forall|j: int| 0 <= j < i ==> (#[trigger] views[j]) != id@,
        decreases list.len() - i,
    {
        if list[i].0 == id.0 {
            assert(views[i as int] == id@);
            return true;
        }
        i += 1;
    }
    false
}

/// Names a message.
#[derive(Debug, PartialEq, Eq, Hash)]
pub struct MessageId(pub String);

impl View for MessageId {
    type V = Seq<char>;

    open spec fn view(&self) -> Seq<char> {
        self.0@
    }
}

impl Clone for MessageId {
    fn clone(&self) -> (r: Self)
        ensures
            r == *self,
    {
        MessageId(self.0.clone())
    }
}

/// Where the bytes of an attachment are.
#[derive(Debug, PartialEq, Eq)]
pub enum AttachmentLocation {
    CachedToken(String),
    ExternalUri(String),
}

impl AttachmentLocation {
    /// The token of an attachment that is still part of a cached message.
    pub fn cached_token(&self) -> (token: Option<&str>)
        ensures
            match (self, token) {
                (AttachmentLocation::CachedToken(own), Some(given)) => given@ == own@,
                (AttachmentLocation::ExternalUri(_), None) => true,
                _ => false,
            },
    {
        match self {
            AttachmentLocation::CachedToken(token) => Some(token.as_str()),
            AttachmentLocation::ExternalUri(_) => None,
        }
    }
}

impl Clone for AttachmentLocation {
    fn clone(&self) -> (r: Self)
        ensures
            r == *self,
    {
        match self {
            AttachmentLocation::CachedToken(token) => AttachmentLocation::CachedToken(token.clone()),
            AttachmentLocation::ExternalUri(uri) => AttachmentLocation::ExternalUri(uri.clone()),
        }
    }
}

/// One attachment of a message or a draft.
#[derive(Debug)]
pub struct AttachmentInfo {
    pub display_name: String,
    pub location: AttachmentLocation,
}

impl Clone for AttachmentInfo {
    fn clone(&self) -> (r: Self)
        ensures
            r == *self,
    {
        AttachmentInfo { display_name: self.display_name.clone(), location: self.location.clone() }
    }
}

/// What is known of a conversation, as a value.
#[verifier::ext_equal]
pub struct SummaryView {
    pub id: Seq<char>,
    pub folder_id: Seq<char>,
    pub subject: Seq<char>,
    pub participants: Seq<Seq<char>>,
    pub message_count: u32,
    pub unread_count: u32,
    pub attachment_count: u32,
    pub starred: bool,
    pub last_updated_unix_ms: i64,
    pub preview: Seq<char>,
}

/// One line of a conversation list.
#[derive(Debug, PartialEq, Eq)]
pub struct ConversationSummary {
    pub id: ConversationId,
    pub folder_id: FolderId,
    pub subject: String,
    pub participants: Vec<String>,
    pub message_count: u32,
    pub unread_count: u32,
    pub attachment_count: u32,
    pub starred: bool,
    pub last_updated_unix_ms: i64,
    pub preview: String,
}

impl View for ConversationSummary {
    type V = SummaryView;

    open spec fn view(&self) -> SummaryView {
        SummaryView {
            id: self.id@,
            folder_id: self.folder_id@,
            subject: self.subject@,
            participants: text::views(self.participants@),
            message_count: self.message_count,
            unread_count: self.unread_count,
            attachment_count: self.attachment_count,
            starred: self.starred,
            last_updated_unix_ms: self.last_updated_unix_ms,
            preview: self.preview@,
        }
    }
}

impl Clone for ConversationSummary {
    fn clone(&self) -> (r: Self)
        ensures
            r@ == self@,
    {
        ConversationSummary {
            id: self.id.clone(),
            folder_id: self.folder_id.clone(),
            subject: self.subject.clone(),
            participants: text::clone_texts(&self.participants),
            message_count: self.message_count,
            unread_count: self.unread_count,
            attachment_count: self.attachment_count,
            starred: self.starred,
            last_updated_unix_ms: self.last_updated_unix_ms,
            preview: self.preview.clone(),
        }
    }
}

/// The values of a list of conversations.
pub open spec fn summaries(list: Seq<ConversationSummary>) -> Seq<SummaryView> {
    list.map_values(|summary: ConversationSummary| summary@)
}

/// Whether two conversations are described in the same way.
pub fn same_summary(a: &ConversationSummary, b: &ConversationSummary) -> (r: bool)
    ensures
        r == (a@ == b@),
{
    a.id.0 == b.id.0 && a.folder_id.0 == b.folder_id.0 && a.subject == b.subject
        && text::same_texts(&a.participants, &b.participants) && a.message_count
        == b.message_count && a.unread_count == b.unread_count && a.attachment_count
        == b.attachment_count && a.starred == b.starred && a.last_updated_unix_ms
        == b.last_updated_unix_ms && a.preview == b.preview
}

/// A copy of a list of conversations.
pub fn clone_summaries(list: &Vec<ConversationSummary>) -> (r: Vec<ConversationSummary>)
    ensures
        summaries(r@) == summaries(list@),
{
    let mut r: Vec<ConversationSummary> = Vec::new();
    let mut i: usize = 0;
    while i < list.len()
        invariant
            i <= list.len(),
            summaries(r@) == summaries(list@).take(i as int),
        decreases list.len() - i,
    {
        let ghost prefix = summaries(r@);
        r.push(list[i].clone());
        assert(summaries(r@) =~= prefix.push(list@[i as int]@));
        assert(summaries(list@).take(i + 1) =~= prefix.push(list@[i as int]@));
        i += 1;
    }
    assert(summaries(list@).take(i as int) =~= summaries(list@));
    r
}

/// Whether `a` stands above `b` in a conversation list: the one that was updated
/// last comes first, and of two updated at the same time the one whose subject
/// comes first.
pub open spec fn ranks_above(a: SummaryView, b: SummaryView) -> bool {
    a.last_updated_unix_ms > b.last_updated_unix_ms || (a.last_updated_unix_ms
        == b.last_updated_unix_ms && text::before(a.subject, b.subject))
}

/// `list` with `summary` behind every entry that does not rank below it.
pub open spec fn ranked_insert(list: Seq<SummaryView>, summary: SummaryView) -> Seq<SummaryView>
    decreases list.len(),
{
    if list.len() > 0 && ranks_above(summary, list.last()) {
        ranked_insert(list.drop_last(), summary).push(list.last())
    } else {
        list.push(summary)
    }
}

/// `list` in the order of a conversation list; entries of one rank stay in order.
pub open spec fn ranked(list: Seq<SummaryView>) -> Seq<SummaryView>
    decreases list.len(),
{
    if list.len() == 0 {
        Seq::empty()
    } else {
        ranked_insert(ranked(list.drop_last()), list.last())
    }
}

/// Whether one of `list` has the identity `id`.
pub open spec fn has_id(list: Seq<SummaryView>, id: Seq<char>) -> bool {
    exists|i: int| 0 <= i < list.len() && #[trigger] list[i].id == id
}

/// The first entry of each identity, in order.
pub open spec fn first_of_each(list: Seq<SummaryView>) -> Seq<SummaryView>
    decreases list.len(),
{
    if list.len() == 0 {
        Seq::empty()
    } else {
        let kept = first_of_each(list.drop_last());
        if has_id(kept, list.last().id) {
            kept
        } else {
            kept.push(list.last())
        }
    }
}

/// Whether `left` stands above `right` in a conversation list.
fn stands_above(left: &ConversationSummary, right: &ConversationSummary) -> (r: bool)
    ensures
        r == ranks_above(left@, right@),
{
    left.last_updated_unix_ms > right.last_updated_unix_ms || (left.last_updated_unix_ms
        == right.last_updated_unix_ms && text::precedes(
        left.subject.as_str(),
        right.subject.as_str(),
    ))
}

proof fn lemma_ranked_insert_at(list: Seq<SummaryView>, summary: SummaryView, k: int)
    requires
        0 <= k <= list.len(),
        forall|i: int| k <= i < list.len() ==> ranks_above(summary, #[trigger] list[i]),
        k > 0 ==> !ranks_above(summary, list[k - 1]),
    ensures
        ranked_insert(list, summary) == list.insert(k, summary),
    decreases list.len(),
{
    if k < list.len() {
        assert(ranks_above(summary, list[list.len() - 1]));
        lemma_ranked_insert_at(list.drop_last(), summary, k);
        assert(list.insert(k, summary) =~= list.drop_last().insert(k, summary).push(list.last()));
    } else {
        assert(list.insert(k, summary) =~= list.push(summary));
    }
}

/// Inserts `summary` in a list that is in order.
fn insert_ranked(list: &mut Vec<ConversationSummary>, summary: ConversationSummary)
    ensures
        summaries(final(list)@) == ranked_insert(summaries(old(list)@), summary@),
{
    let mut position: usize = list.len();
    while position > 0 && stands_above(&summary, &list[position - 1])
        invariant
            position <= list.len(),
            forall|i: int|
                position <= i < list.len() ==> ranks_above(summary@, #[trigger] summaries(list@)[i]),
        decreases position,
    {
        position -= 1;
    }
    let ghost before = list@;
    proof {
        lemma_ranked_insert_at(summaries(before), summary@, position as int);
    }
    list.insert(position, summary);
    assert(summaries(list@) =~= summaries(before).insert(position as int, summary@));
}

/// Puts conversations in the order of a conversation list.
pub fn sort_conversations(conversations: &mut Vec<ConversationSummary>)
    ensures
        summaries(final(conversations)@) == ranked(summaries(old(conversations)@)),
{
    let mut pending: Vec<ConversationSummary> = Vec::new();
    std::mem::swap(conversations, &mut pending);
    let ghost all = summaries(pending@);
    for summary in it: pending
        invariant
            summaries(conversations@) == ranked(all.take(it.index())),
            all == summaries(it.seq()),
    {
        proof {
            assert(all.take(it.index() + 1).drop_last() =~= all.take(it.index()));
            assert(all.take(it.index() + 1).last() == summary@);
        }
        insert_ranked(conversations, summary);
    }
    assert(all.take(all.len() as int) =~= all);
}

/// Whether one of `list` has the identity `id`.
pub fn contains_id(list: &Vec<ConversationSummary>, id: &ConversationId) -> (r: bool)
    ensures
        r == has_id(summaries(list@), id@),
{
    let mut i: usize = 0;
    while i < list.len()
        invariant
            i <= list.len(),
            forall|j: int| 0 <= j < i ==> #[trigger] summaries(list@)[j].id != id@,
        decreases list.len() - i,
    {
        if list[i].id.0 == id.0 {
            assert(summaries(list@)[i as int].id == id@);
            return true;
        }
        i += 1;
    }
    false
}

/// Keeps the first conversation of each identity and sorts what is left.
pub fn sort_and_deduplicate_conversations(conversations: &mut Vec<ConversationSummary>)
    ensures
        summaries(final(conversations)@) == ranked(first_of_each(summaries(old(conversations)@))),
{
    let mut pending: Vec<ConversationSummary> = Vec::new();
    std::mem::swap(conversations, &mut pending);
    let ghost all = summaries(pending@);
    for summary in it: pending
        invariant
            summaries(conversations@) == first_of_each(all.take(it.index())),
            all == summaries(it.seq()),
    {
        let ghost kept = summaries(conversations@);
        proof {
            assert(all.take(it.index() + 1).drop_last() =~= all.take(it.index()));
            assert(all.take(it.index() + 1).last() == summary@);
        }
        if !contains_id(conversations, &summary.id) {
            conversations.push(summary);
            assert(summaries(conversations@) =~= kept.push(summary@));
        }
    }
    assert(all.take(all.len() as int) =~= all);
    sort_conversations(conversations);
}

/// Whether no entry of `list` ranks above one that stands before it.
pub open spec fn in_order(list: Seq<SummaryView>) -> bool {
    forall|i: int, j: int|
        #![trigger list[i], list[j]]
        0 <= i < j < list.len() ==> !ranks_above(list[j], list[i])
}

/// Whether `a` and `b` have one rank.
pub open spec fn same_rank(a: SummaryView, b: SummaryView) -> bool {
    a.last_updated_unix_ms == b.last_updated_unix_ms && a.subject == b.subject
}

/// The entries of `list` that have the rank of `summary`, in order.
pub open spec fn of_rank(list: Seq<SummaryView>, summary: SummaryView) -> Seq<SummaryView> {
    list.filter(|other: SummaryView| same_rank(other, summary))
}

/// Whether no two entries of `list` have one identity.
pub open spec fn unique_ids(list: Seq<SummaryView>) -> bool {
    forall|i: int, j: int|
        #![trigger list[i], list[j]]
        0 <= i < j < list.len() ==> list[i].id != list[j].id
}

/// An entry that ranks above a second ranks above, or below is ranked by, any third.
proof fn lemma_rank_is_weak_order(a: SummaryView, b: SummaryView, c: SummaryView)
    requires
        ranks_above(a, c),
    ensures
        ranks_above(a, b) || ranks_above(b, c),
        !ranks_above(c, a),
        !same_rank(a, c),
{
    text::lemma_before_total(a.subject, c.subject);
    text::lemma_before_irreflexive(a.subject);
    text::lemma_before_total(a.subject, b.subject);
    text::lemma_before_total(b.subject, c.subject);
    if text::before(b.subject, a.subject) && text::before(a.subject, c.subject) {
        text::lemma_before_transitive(b.subject, a.subject, c.subject);
    }
}

proof fn lemma_ranked_insert_position(list: Seq<SummaryView>, summary: SummaryView) -> (k: int)
    ensures
        0 <= k <= list.len(),
        forall|i: int| k <= i < list.len() ==> ranks_above(summary, #[trigger] list[i]),
        k > 0 ==> !ranks_above(summary, list[k - 1]),
        ranked_insert(list, summary) == list.insert(k, summary),
    decreases list.len(),
{
    if list.len() > 0 && ranks_above(summary, list.last()) {
        let k = lemma_ranked_insert_position(list.drop_last(), summary);
        assert forall|i: int| k <= i < list.len() implies ranks_above(
            summary,
            #[trigger] list[i],
        ) by {
            if i < list.len() - 1 {
                assert(list.drop_last()[i] == list[i]);
            }
        }
        lemma_ranked_insert_at(list, summary, k);
        k
    } else {
        lemma_ranked_insert_at(list, summary, list.len() as int);
        list.len() as int
    }
}

proof fn lemma_ranked_insert_in_order(list: Seq<SummaryView>, summary: SummaryView)
    requires
        in_order(list),
    ensures
        in_order(ranked_insert(list, summary)),
{
    let k = lemma_ranked_insert_position(list, summary);
    let result = list.insert(k, summary);
    assert forall|i: int, j: int|
        #![trigger result[i], result[j]]
        0 <= i < j < result.len() implies !ranks_above(result[j], result[i]) by {
        if j == k {
            assert(result[i] == list[i]);
            if ranks_above(summary, list[i]) {
                lemma_rank_is_weak_order(summary, list[k - 1], list[i]);
            }
        } else if i == k {
            assert(result[j] == list[j - 1]);
            lemma_rank_is_weak_order(summary, summary, list[j - 1]);
        } else {
            let a = if i < k { i } else { i - 1 };
            let b = if j < k { j } else { j - 1 };
            assert(result[i] == list[a] && result[j] == list[b]);
        }
    }
}

proof fn lemma_ranked_insert_of_rank(
    list: Seq<SummaryView>,
    summary: SummaryView,
    other: SummaryView,
)
    ensures
        of_rank(ranked_insert(list, summary), other) == of_rank(list.push(summary), other),
{
    let k = lemma_ranked_insert_position(list, summary);
    let pred = |s: SummaryView| same_rank(s, other);
    let head = list.take(k);
    let tail = list.skip(k);
    assert(list =~= head + tail);
    assert(list.insert(k, summary) =~= (head + seq![summary]) + tail);
    assert(list.push(summary) =~= (head + tail) + seq![summary]);
    Seq::filter_distributes_over_add(head + seq![summary], tail, pred);
    Seq::filter_distributes_over_add(head, seq![summary], pred);
    Seq::filter_distributes_over_add(head + tail, seq![summary], pred);
    Seq::filter_distributes_over_add(head, tail, pred);
    let one = seq![summary].filter(pred);
    if pred(summary) {
        assert forall|i: int| 0 <= i < tail.len() implies !pred(#[trigger] tail[i]) by {
            assert(tail[i] == list[i + k]);
            lemma_rank_is_weak_order(summary, summary, list[i + k]);
        }
        assert(tail.filter(pred).len() == 0) by {
            lemma_filter_none(tail, pred);
        }
        assert((head.filter(pred) + one) + tail.filter(pred) =~= (head.filter(pred) + tail.filter(
            pred,
        )) + one);
    } else {
        assert(one =~= Seq::empty()) by {
            lemma_filter_none(seq![summary], pred);
        }
        assert((head.filter(pred) + one) + tail.filter(pred) =~= (head.filter(pred) + tail.filter(
            pred,
        )) + one);
    }
}

proof fn lemma_filter_none<A>(list: Seq<A>, pred: spec_fn(A) -> bool)
    requires
        forall|i: int| 0 <= i < list.len() ==> !pred(#[trigger] list[i]),
    ensures
        list.filter(pred).len() == 0,
    decreases list.len(),
{
    reveal(Seq::filter);
    if list.len() > 0 {
        assert(!pred(list[list.len() - 1]));
        lemma_filter_none(list.drop_last(), pred);
    }
}

/// A ranked list is in order, holds the same conversations, and leaves those of one
/// rank in the order in which they were.
pub proof fn lemma_ranked_is_a_stable_sort(list: Seq<SummaryView>)
    ensures
        in_order(ranked(list)),
        ranked(list).to_multiset() == list.to_multiset(),
        forall|other: SummaryView| #[trigger] of_rank(ranked(list), other) == of_rank(list, other),
    decreases list.len(),
{
    broadcast use vstd::seq_lib::group_to_multiset_ensures;

    if list.len() > 0 {
        let rest = list.drop_last();
        let last = list.last();
        lemma_ranked_is_a_stable_sort(rest);
        lemma_ranked_insert_in_order(ranked(rest), last);
        let k = lemma_ranked_insert_position(ranked(rest), last);
        assert(list =~= rest.push(last));
        vstd::seq_lib::to_multiset_insert(ranked(rest), k, last);
        assert forall|other: SummaryView| #[trigger]
            of_rank(ranked(list), other) == of_rank(list, other) by {
            lemma_ranked_insert_of_rank(ranked(rest), last, other);
            let pred = |s: SummaryView| same_rank(s, other);
            assert(of_rank(ranked(rest).push(last), other) == of_rank(list, other)) by {
                assert(ranked(rest).push(last) =~= ranked(rest) + seq![last]);
                assert(list =~= rest + seq![last]);
                Seq::filter_distributes_over_add(ranked(rest), seq![last], pred);
                Seq::filter_distributes_over_add(rest, seq![last], pred);
                assert(of_rank(ranked(rest), other) == of_rank(rest, other));
            }
        }
    }
}

/// A list that is in order is left as it is.
pub proof fn lemma_ranked_of_ordered(list: Seq<SummaryView>)
    requires
        in_order(list),
    ensures
        ranked(list) == list,
    decreases list.len(),
{
    if list.len() > 0 {
        let rest = list.drop_last();
        assert forall|i: int, j: int|
            #![trigger rest[i], rest[j]]
            0 <= i < j < rest.len() implies !ranks_above(rest[j], rest[i]) by {
            assert(rest[i] == list[i] && rest[j] == list[j]);
        }
        lemma_ranked_of_ordered(rest);
        if rest.len() > 0 {
            assert(!ranks_above(list[list.len() - 1], list[rest.len() - 1]));
        }
        assert(list =~= rest.push(list.last()));
    }
}

/// A ranked list names the conversations that the list named, each as often.
pub proof fn lemma_ranked_ids(list: Seq<SummaryView>)
    ensures
        forall|id: Seq<char>| #[trigger] has_id(ranked(list), id) == has_id(list, id),
        unique_ids(list) ==> unique_ids(ranked(list)),
        ranked(list).len() == list.len(),
    decreases list.len(),
{
    if list.len() > 0 {
        let rest = list.drop_last();
        let last = list.last();
        let sorted = ranked(rest);
        lemma_ranked_ids(rest);
        let k = lemma_ranked_insert_position(sorted, last);
        let result = sorted.insert(k, last);
        assert forall|id: Seq<char>| #[trigger] has_id(ranked(list), id) == has_id(list, id) by {
            lemma_has_id_insert(sorted, k, last, id);
            assert(list =~= rest.insert(rest.len() as int, last));
            lemma_has_id_insert(rest, rest.len() as int, last, id);
            assert(has_id(sorted, id) == has_id(rest, id));
        }
        if unique_ids(list) {
            assert forall|i: int, j: int|
                #![trigger rest[i], rest[j]]
                0 <= i < j < rest.len() implies rest[i].id != rest[j].id by {
                assert(rest[i] == list[i] && rest[j] == list[j]);
            }
            assert(!has_id(sorted, last.id)) by {
                if has_id(rest, last.id) {
                    let i = choose|i: int| 0 <= i < rest.len() && #[trigger] rest[i].id == last.id;
                    assert(list[i].id == list[list.len() - 1].id);
                }
                assert(has_id(sorted, last.id) == has_id(rest, last.id));
            }
            assert forall|i: int, j: int|
                #![trigger result[i], result[j]]
                0 <= i < j < result.len() implies result[i].id != result[j].id by {
                if i == k {
                    assert(result[j] == sorted[j - 1]);
                } else if j == k {
                    assert(result[i] == sorted[i]);
                } else {
                    let a = if i < k { i } else { i - 1 };
                    let b = if j < k { j } else { j - 1 };
                    assert(result[i] == sorted[a] && result[j] == sorted[b]);
                }
            }
        }
    }
}

proof fn lemma_has_id_insert(list: Seq<SummaryView>, k: int, summary: SummaryView, id: Seq<char>)
    requires
        0 <= k <= list.len(),
    ensures
        has_id(list.insert(k, summary), id) == (has_id(list, id) || summary.id == id),
{
    let result = list.insert(k, summary);
    if has_id(list, id) {
        let i = choose|i: int| 0 <= i < list.len() && #[trigger] list[i].id == id;
        let j = if i < k { i } else { i + 1 };
        assert(result[j].id == id);
    }
    if summary.id == id {
        assert(result[k].id == id);
    }
    if has_id(result, id) && summary.id != id {
        let i = choose|i: int| 0 <= i < result.len() && #[trigger] result[i].id == id;
        let j = if i < k { i } else { i - 1 };
        assert(list[j].id == id);
    }
}

/// Deduplication keeps every identity, and keeps each once.
pub proof fn lemma_first_of_each_ids(list: Seq<SummaryView>)
    ensures
        unique_ids(first_of_each(list)),
        forall|id: Seq<char>| #[trigger] has_id(first_of_each(list), id) == has_id(list, id),
    decreases list.len(),
{
    if list.len() > 0 {
        let rest = list.drop_last();
        let last = list.last();
        let kept = first_of_each(rest);
        lemma_first_of_each_ids(rest);
        assert forall|id: Seq<char>| #[trigger]
            has_id(first_of_each(list), id) == has_id(list, id) by {
            assert(list =~= rest.insert(rest.len() as int, last));
            lemma_has_id_insert(rest, rest.len() as int, last, id);
            assert(kept.push(last) =~= kept.insert(kept.len() as int, last));
            lemma_has_id_insert(kept, kept.len() as int, last, id);
            assert(has_id(kept, id) == has_id(rest, id));
        }
        if !has_id(kept, last.id) {
            let result = kept.push(last);
            assert forall|i: int, j: int|
                #![trigger result[i], result[j]]
                0 <= i < j < result.len() implies result[i].id != result[j].id by {
                assert(kept[i].id == result[i].id);
            }
        }
    }
}

/// Deduplication keeps of each identity the entry that stood first.
pub proof fn lemma_first_of_each_keeps_the_first(list: Seq<SummaryView>, i: int)
    requires
        0 <= i < list.len(),
        forall|j: int| 0 <= j < i ==> (#[trigger] list[j]).id != list[i].id,
    ensures
        first_of_each(list).contains(list[i]),
    decreases list.len(),
{
    let rest = list.drop_last();
    let last = list.last();
    let kept = first_of_each(rest);
    let result = first_of_each(list);
    if i < rest.len() {
        assert forall|j: int| 0 <= j < i implies (#[trigger] rest[j]).id != rest[i].id by {
            assert(rest[j] == list[j]);
        }
        lemma_first_of_each_keeps_the_first(rest, i);
        let at = choose|at: int| 0 <= at < kept.len() && kept[at] == rest[i];
        assert(result[at] == rest[i]);
    } else {
        lemma_first_of_each_ids(rest);
        assert(has_id(kept, last.id) == has_id(rest, last.id));
        if has_id(rest, last.id) {
            let j = choose|j: int| 0 <= j < rest.len() && #[trigger] rest[j].id == last.id;
            assert(list[j].id == list[i].id);
        }
        assert(result[kept.len() as int] == last);
    }
}

/// Deduplication leaves a list in which each identity occurs once as it is.
pub proof fn lemma_first_of_each_identity(list: Seq<SummaryView>)
    requires
        unique_ids(list),
    ensures
        first_of_each(list) == list,
    decreases list.len(),
{
    if list.len() > 0 {
        let rest = list.drop_last();
        let last = list.last();
        assert forall|i: int, j: int|
            #![trigger rest[i], rest[j]]
            0 <= i < j < rest.len() implies rest[i].id != rest[j].id by {
            assert(rest[i] == list[i] && rest[j] == list[j]);
        }
        lemma_first_of_each_identity(rest);
        if has_id(rest, last.id) {
            let j = choose|j: int| 0 <= j < rest.len() && #[trigger] rest[j].id == last.id;
            assert(list[j].id == list[list.len() - 1].id);
        }
        assert(list =~= rest.push(last));
    }
}

/// Sorting and deduplicating a second time changes nothing.
pub proof fn lemma_sort_and_deduplicate_idempotent(list: Seq<SummaryView>)
    ensures
        ranked(first_of_each(ranked(first_of_each(list)))) == ranked(first_of_each(list)),
        unique_ids(ranked(first_of_each(list))),
        in_order(ranked(first_of_each(list))),
{
    let once = ranked(first_of_each(list));
    lemma_first_of_each_ids(list);
    lemma_ranked_ids(first_of_each(list));
    lemma_ranked_is_a_stable_sort(first_of_each(list));
    lemma_first_of_each_identity(once);
    lemma_ranked_of_ordered(once);
}

/// Leaving conversations out of a ranked list is the same as ranking without them.
pub proof fn lemma_ranked_filter(list: Seq<SummaryView>, keep: spec_fn(SummaryView) -> bool)
    ensures
        ranked(list).filter(keep) == ranked(list.filter(keep)),
    decreases list.len(),
{
    reveal(Seq::filter);
    if list.len() > 0 {
        let rest = list.drop_last();
        lemma_ranked_filter(rest, keep);
        lemma_ranked_is_a_stable_sort(rest);
        lemma_ranked_insert_filter(ranked(rest), list.last(), keep);
        if keep(list.last()) {
            assert(rest.filter(keep).push(list.last()).drop_last() =~= rest.filter(keep));
        }
    }
}

proof fn lemma_ranked_insert_filter(
    list: Seq<SummaryView>,
    summary: SummaryView,
    keep: spec_fn(SummaryView) -> bool,
)
    requires
        in_order(list),
    ensures
        ranked_insert(list, summary).filter(keep) == (if keep(summary) {
            ranked_insert(list.filter(keep), summary)
        } else {
            list.filter(keep)
        }),
    decreases list.len(),
{
    reveal(Seq::filter);
    if list.len() > 0 && ranks_above(summary, list.last()) {
        let rest = list.drop_last();
        let last = list.last();
        assert forall|i: int, j: int|
            #![trigger rest[i], rest[j]]
            0 <= i < j < rest.len() implies !ranks_above(rest[j], rest[i]) by {
            assert(rest[i] == list[i] && rest[j] == list[j]);
        }
        lemma_ranked_insert_filter(rest, summary, keep);
        assert(ranked_insert(rest, summary).push(last).drop_last() =~= ranked_insert(
            rest,
            summary,
        ));
        if keep(last) {
            assert(rest.filter(keep).push(last).drop_last() =~= rest.filter(keep));
        }
    } else {
        assert(list.push(summary).drop_last() =~= list);
        let kept = list.filter(keep);
        if keep(summary) && kept.len() > 0 {
            assert(kept.contains(kept.last()));
            list.lemma_filter_contains_rev(keep, kept.last());
            let i = choose|i: int| 0 <= i < list.len() && list[i] == kept.last();
            if i < list.len() - 1 && ranks_above(summary, list[i]) {
                assert(!ranks_above(list[list.len() - 1], list[i]));
                lemma_rank_is_weak_order(summary, list.last(), list[i]);
            }
        }
    }
}

/// Ranking the front part of a list first makes no difference.
pub proof fn lemma_ranked_concat(front: Seq<SummaryView>, back: Seq<SummaryView>)
    ensures
        ranked(ranked(front) + back) == ranked(front + back),
    decreases back.len(),
{
    if back.len() == 0 {
        assert(ranked(front) + back =~= ranked(front));
        assert(front + back =~= front);
        lemma_ranked_is_a_stable_sort(front);
        lemma_ranked_of_ordered(ranked(front));
    } else {
        lemma_ranked_concat(front, back.drop_last());
        assert((ranked(front) + back).drop_last() =~= ranked(front) + back.drop_last());
        assert((front + back).drop_last() =~= front + back.drop_last());
    }
}

/// A change that leaves the rank of each conversation alone leaves their order alone.
pub proof fn lemma_ranked_map(
    list: Seq<SummaryView>,
    change: spec_fn(SummaryView) -> SummaryView,
)
    requires
        forall|summary: SummaryView| #[trigger]
            change(summary).last_updated_unix_ms == summary.last_updated_unix_ms && change(
                summary,
            ).subject == summary.subject,
    ensures
        ranked(list.map_values(change)) == ranked(list).map_values(change),
    decreases list.len(),
{
    if list.len() == 0 {
        assert(ranked(list.map_values(change)) =~= ranked(list).map_values(change));
    } else {
        lemma_ranked_map(list.drop_last(), change);
        assert(list.map_values(change).drop_last() =~= list.drop_last().map_values(change));
        lemma_ranked_insert_map(ranked(list.drop_last()), list.last(), change);
    }
}

proof fn lemma_ranked_insert_map(
    list: Seq<SummaryView>,
    summary: SummaryView,
    change: spec_fn(SummaryView) -> SummaryView,
)
    requires
        forall|summary: SummaryView| #[trigger]
            change(summary).last_updated_unix_ms == summary.last_updated_unix_ms && change(
                summary,
            ).subject == summary.subject,
    ensures
        ranked_insert(list.map_values(change), change(summary)) == ranked_insert(
            list,
            summary,
        ).map_values(change),
    decreases list.len(),
{
    if list.len() > 0 {
        assert(list.map_values(change).drop_last() =~= list.drop_last().map_values(change));
        assert(list.map_values(change).last() == change(list.last()));
        lemma_ranked_insert_map(list.drop_last(), summary, change);
    }
    assert(ranked_insert(list.map_values(change), change(summary)) =~= ranked_insert(
        list,
        summary,
    ).map_values(change));
}

/// A ranked list holds what the list holds.
pub proof fn lemma_ranked_contains(list: Seq<SummaryView>, summary: SummaryView)
    ensures
        ranked(list).contains(summary) <==> list.contains(summary),
{
    broadcast use vstd::seq_lib::group_to_multiset_ensures;

    lemma_ranked_is_a_stable_sort(list);
    assert(ranked(list).to_multiset().count(summary) == list.to_multiset().count(summary));
}

/// What a folder is for.
#[derive(Debug, Clone, Copy, PartialEq, Eq, Structural)]
pub enum FolderKind {
    Inbox,
    Drafts,
    Outbox,
    Sent,
    Archive,
    Trash,
    Spam,
    Custom,
}

/// A folder, as a value.
#[verifier::ext_equal]
pub struct FolderView {
    pub id: Seq<char>,
    pub name: Seq<char>,
    pub unread_count: u32,
    pub kind: FolderKind,
}

/// One folder of an account.
#[derive(Debug)]
pub struct MailFolder {
    pub id: FolderId,
    pub name: String,
    pub unread_count: u32,
    pub kind: FolderKind,
}

impl View for MailFolder {
    type V = FolderView;

    open spec fn view(&self) -> FolderView {
        FolderView {
            id: self.id@,
            name: self.name@,
            unread_count: self.unread_count,
            kind: self.kind,
        }
    }
}

impl Clone for MailFolder {
    fn clone(&self) -> (r: Self)
        ensures
            r@ == self@,
    {
        MailFolder {
            id: self.id.clone(),
            name: self.name.clone(),
            unread_count: self.unread_count,
            kind: self.kind,
        }
    }
}

/// The values of a list of folders.
pub open spec fn folder_views(list: Seq<MailFolder>) -> Seq<FolderView> {
    list.map_values(|folder: MailFolder| folder@)
}

/// A copy of a list of folders.
pub fn clone_folders(list: &Vec<MailFolder>) -> (r: Vec<MailFolder>)
    ensures
        folder_views(r@) == folder_views(list@),
{
    let mut r: Vec<MailFolder> = Vec::new();
    let mut i: usize = 0;
    while i < list.len()
        invariant
            i <= list.len(),
            folder_views(r@) == folder_views(list@).take(i as int),
        decreases list.len() - i,
    {
        let ghost prefix = folder_views(r@);
        r.push(list[i].clone());
        assert(folder_views(r@) =~= prefix.push(list@[i as int]@));
        assert(folder_views(list@).take(i + 1) =~= prefix.push(list@[i as int]@));
        i += 1;
    }
    assert(folder_views(list@).take(i as int) =~= folder_views(list@));
    r
}

/// A message as it is shown.
#[derive(Debug)]
pub struct MessageDetail {
    pub message_id: MessageId,
    pub conversation_id: ConversationId,
    pub subject: String,
    pub from: String,
    pub to: Vec<String>,
    pub cc: Vec<String>,
    pub bcc: Vec<String>,
    pub reply_to: Option<String>,
    pub date_unix_secs: i64,
    pub starred: bool,
    pub unread: bool,
    pub attachments: Vec<AttachmentInfo>,
    pub body: MessageBody,
}

/// A message, as a value.
#[verifier::ext_equal]
pub struct DetailView {
    pub message_id: Seq<char>,
    pub conversation_id: Seq<char>,
    pub subject: Seq<char>,
    pub from: Seq<char>,
    pub to: Seq<Seq<char>>,
    pub cc: Seq<Seq<char>>,
    pub bcc: Seq<Seq<char>>,
    pub reply_to: Option<Seq<char>>,
    pub date_unix_secs: i64,
    pub starred: bool,
    pub unread: bool,
    pub attachments: Seq<AttachmentInfo>,
    pub body: BodyView,
}

impl View for MessageDetail {
    type V = DetailView;

    open spec fn view(&self) -> DetailView {
        DetailView {
            message_id: self.message_id@,
            conversation_id: self.conversation_id@,
            subject: self.subject@,
            from: self.from@,
            to: text::views(self.to@),
            cc: text::views(self.cc@),
            bcc: text::views(self.bcc@),
            reply_to: text::view_opt(self.reply_to),
            date_unix_secs: self.date_unix_secs,
            starred: self.starred,
            unread: self.unread,
            attachments: self.attachments@,
            body: self.body@,
        }
    }
}

impl Clone for MessageDetail {
    fn clone(&self) -> (r: Self)
        ensures
            r@ == self@,
    {
        let mut attachments: Vec<AttachmentInfo> = Vec::new();
        let mut i: usize = 0;
        while i < self.attachments.len()
            invariant
                i <= self.attachments.len(),
                attachments@ == self.attachments@.take(i as int),
            decreases self.attachments.len() - i,
        {
            attachments.push(self.attachments[i].clone());
            assert(self.attachments@.take(i + 1) =~= self.attachments@.take(i as int).push(
                self.attachments@[i as int],
            ));
            i += 1;
        }
        assert(self.attachments@.take(i as int) =~= self.attachments@);
        MessageDetail {
            message_id: self.message_id.clone(),
            conversation_id: self.conversation_id.clone(),
            subject: self.subject.clone(),
            from: self.from.clone(),
            to: text::clone_texts(&self.to),
            cc: text::clone_texts(&self.cc),
            bcc: text::clone_texts(&self.bcc),
            reply_to: text::clone_opt(&self.reply_to),
            date_unix_secs: self.date_unix_secs,
            starred: self.starred,
            unread: self.unread,
            attachments,
            body: self.body.clone(),
        }
    }
}

/// What a message says: its parts, and what is shown where one is missing.
#[derive(Debug)]
pub enum MessageBody {
    Empty,
    Html { html: String, presentation_text: String },
    Text { text: String, presentation_html: String },
    Alternative { html: String, text: String },
}

/// What a message says, as a value.
#[verifier::ext_equal]
pub enum BodyView {
    Empty,
    Html { html: Seq<char>, presentation_text: Seq<char> },
    Text { text: Seq<char>, presentation_html: Seq<char> },
    Alternative { html: Seq<char>, text: Seq<char> },
}

impl View for MessageBody {
    type V = BodyView;

    open spec fn view(&self) -> BodyView {
        match self {
            MessageBody::Empty => BodyView::Empty,
            MessageBody::Html { html, presentation_text } => BodyView::Html {
                html: html@,
                presentation_text: presentation_text@,
            },
            MessageBody::Text { text, presentation_html } => BodyView::Text {
                text: text@,
                presentation_html: presentation_html@,
            },
            MessageBody::Alternative { html, text } => BodyView::Alternative {
                html: html@,
                text: text@,
            },
        }
    }
}

/// Whether `s` holds nothing but white space.
pub open spec fn is_blank(s: Seq<char>) -> bool {
    text::trimmed(s).len() == 0
}

/// The body made of an HTML part and a text part, where `rendered` is the HTML part
/// as plain text. A blank part counts as missing.
pub open spec fn body_of(html: Seq<char>, text: Seq<char>, rendered: Seq<char>) -> BodyView {
    if is_blank(html) && is_blank(text) {
        BodyView::Empty
    } else if is_blank(text) {
        BodyView::Html { html, presentation_text: text::without_trailing(rendered, '\n') }
    } else if is_blank(html) {
        BodyView::Text { text, presentation_html: html_of_text(text) }
    } else {
        BodyView::Alternative { html, text }
    }
}

/// The plain text, wrapped to `width` columns, that `html2text::from_read` makes of
/// the document `html`; `None` where it reports an error.
pub uninterp spec fn html_as_text(html: Seq<char>, width: usize) -> Option<Seq<char>>;

/// Calls `html2text::from_read` on the bytes of `html`: its result is taken to be
/// a function of the document and the width. It reports an error where the document
/// nests so deep that no column is left.
///
/// What is asked of the document keeps `html2text` from stopping. Its table of columns
/// misses a wide cell that hangs below the last row, so cells that span rows span one
/// column. A cell that hangs there by more than one row is drawn into the next table, so
/// it spans two rows unless there is no other table. The sum of the columns that cells
/// span, and the numbers of a list, stay within the machine's integers. A tab in
/// preformatted text needs a column to go to, and a quote or a list in a table may have
/// none. The columns left in a line are counted by characters and filled by texts, which
/// agree unless characters join. Control characters never reach a word, because they have
/// no width.
#[verifier::external_body]
fn render_html(html: &str, width: usize) -> (rendered: Option<String>)
    requires
        html::is_renderable(html@),
        width == HTML_TEXT_WIDTH,
    ensures
        text::view_opt(rendered) == html_as_text(html@, width),
{
    html2text::from_read(html.as_bytes(), width).ok()
}

/// The width to which HTML is wrapped when it is shown as text.
pub const HTML_TEXT_WIDTH: usize = 65535;

/// Whether the document `html` can be shown as plain text.
pub open spec fn shows_as_text(html: Seq<char>) -> bool {
    html::is_renderable(html) && html_as_text(html, HTML_TEXT_WIDTH) is Some
}

/// Whether an HTML part has to be rendered because there is no text part.
pub open spec fn needs_rendering(html: Seq<char>, text: Seq<char>) -> bool {
    !is_blank(html) && is_blank(text)
}

/// The document `html` as plain text: rendered here where it can be, and else as it was
/// rendered elsewhere, where it was.
pub open spec fn text_of_html(html: Seq<char>, elsewhere: Option<Seq<char>>) -> Option<Seq<char>> {
    if html::is_renderable(html) {
        html_as_text(html, HTML_TEXT_WIDTH)
    } else {
        elsewhere
    }
}

/// Whether an HTML part has to be rendered because there is no text part.
pub fn has_to_be_rendered(html: &str, text: &str) -> (r: bool)
    ensures
        r == needs_rendering(html@, text@),
{
    !text::trim(html).is_empty() && text::trim(text).is_empty()
}

impl MessageBody {
    /// The body made of two parts, where `rendered` is the HTML part as plain text.
    pub fn from_rendered(html: String, text: String, rendered: &str) -> (body: Self)
        ensures
            body@ == body_of(html@, text@, rendered@),
    {
        let no_html = text::trim(html.as_str()).is_empty();
        let no_text = text::trim(text.as_str()).is_empty();
        if no_html && no_text {
            MessageBody::Empty
        } else if no_text {
            let presentation_text = text::trim_end_char(rendered, '\n').to_owned();
            MessageBody::Html { html, presentation_text }
        } else if no_html {
            let presentation_html = plain_text_to_html(text.as_str());
            MessageBody::Text { text, presentation_html }
        } else {
            MessageBody::Alternative { html, text }
        }
    }

    /// The body made of two parts.
    pub fn from_parts(html: String, text: String) -> (body: Self)
        requires
            needs_rendering(html@, text@) ==> shows_as_text(html@),
        ensures
            body@ == body_of(
                html@,
                text@,
                html_as_text(html@, HTML_TEXT_WIDTH).unwrap_or(Seq::empty()),
            ),
    {
        let mut rendered = String::new();
        if has_to_be_rendered(html.as_str(), text.as_str()) {
            if let Some(text) = render_html(html.as_str(), HTML_TEXT_WIDTH) {
                rendered = text;
            }
        }
        Self::from_rendered(html, text, rendered.as_str())
    }

    /// The body made of two parts; `None` where the HTML part has to be shown as text
    /// and cannot be.
    pub fn try_from_parts(html: String, text: String) -> (body: Option<Self>)
        ensures
            body is None <==> needs_rendering(html@, text@) && !shows_as_text(html@),
            body matches Some(body) ==> body@ == body_of(
                html@,
                text@,
                html_as_text(html@, HTML_TEXT_WIDTH).unwrap_or(Seq::empty()),
            ),
    {
        if has_to_be_rendered(html.as_str(), text.as_str()) && (!html::can_be_rendered(
            html.as_str(),
        ) || render_html(html.as_str(), HTML_TEXT_WIDTH).is_none()) {
            return None;
        }
        Some(Self::from_parts(html, text))
    }

    /// The body made of two parts, where `rendered` is the HTML part as plain text if it was
    /// rendered elsewhere; `None` where the HTML part has to be shown as text and cannot be.
    pub fn from_parts_rendered(html: String, text: String, rendered: Option<&str>) -> (body: Option<
        Self,
    >)
        ensures
            ({
                let elsewhere = match rendered {
                    Some(rendered) => Some(rendered@),
                    None => None,
                };
                let shown = text_of_html(html@, elsewhere);
                &&& body is None <==> needs_rendering(html@, text@) && shown is None
                &&& body matches Some(body) ==> body@ == body_of(
                    html@,
                    text@,
                    shown.unwrap_or(Seq::empty()),
                )
            }),
    {
        if !has_to_be_rendered(html.as_str(), text.as_str()) {
            return Some(Self::from_rendered(html, text, ""));
        }
        if html::can_be_rendered(html.as_str()) {
            return Self::try_from_parts(html, text);
        }
        match rendered {
            Some(rendered) => Some(Self::from_rendered(html, text, rendered)),
            None => None,
        }
    }

    /// The HTML part, where the message has one.
    pub fn html_part(&self) -> (part: Option<&str>)
        ensures
            match self@ {
                BodyView::Html { html, .. } => part matches Some(p) && p@ == html,
                BodyView::Alternative { html, .. } => part matches Some(p) && p@ == html,
                _ => part is None,
            },
    {
        match self {
            MessageBody::Html { html, .. } => Some(html.as_str()),
            MessageBody::Alternative { html, .. } => Some(html.as_str()),
            _ => None,
        }
    }

    /// The text part, where the message has one.
    pub fn text_part(&self) -> (part: Option<&str>)
        ensures
            match self@ {
                BodyView::Text { text, .. } => part matches Some(p) && p@ == text,
                BodyView::Alternative { text, .. } => part matches Some(p) && p@ == text,
                _ => part is None,
            },
    {
        match self {
            MessageBody::Text { text, .. } => Some(text.as_str()),
            MessageBody::Alternative { text, .. } => Some(text.as_str()),
            _ => None,
        }
    }

    /// What is shown in the HTML view.
    pub fn presentation_html(&self) -> (shown: &str)
        ensures
            match self@ {
                BodyView::Empty => shown@.len() == 0,
                BodyView::Html { html, .. } => shown@ == html,
                BodyView::Text { presentation_html, .. } => shown@ == presentation_html,
                BodyView::Alternative { html, .. } => shown@ == html,
            },
    {
        match self {
            MessageBody::Empty => {
                proof {
                    reveal_strlit("");
                }
                ""
            },
            MessageBody::Html { html, .. } => html.as_str(),
            MessageBody::Text { presentation_html, .. } => presentation_html.as_str(),
            MessageBody::Alternative { html, .. } => html.as_str(),
        }
    }

    /// What is shown in the text view.
    pub fn presentation_text(&self) -> (shown: &str)
        ensures
            match self@ {
                BodyView::Empty => shown@.len() == 0,
                BodyView::Html { presentation_text, .. } => shown@ == presentation_text,
                BodyView::Text { text, .. } => shown@ == text,
                BodyView::Alternative { text, .. } => shown@ == text,
            },
    {
        match self {
            MessageBody::Empty => {
                proof {
                    reveal_strlit("");
                }
                ""
            },
            MessageBody::Html { presentation_text, .. } => presentation_text.as_str(),
            MessageBody::Text { text, .. } => text.as_str(),
            MessageBody::Alternative { text, .. } => text.as_str(),
        }
    }
}

impl Clone for MessageBody {
    fn clone(&self) -> (r: Self)
        ensures
            r == *self,
    {
        match self {
            MessageBody::Empty => MessageBody::Empty,
            MessageBody::Html { html, presentation_text } => MessageBody::Html {
                html: html.clone(),
                presentation_text: presentation_text.clone(),
            },
            MessageBody::Text { text, presentation_html } => MessageBody::Text {
                text: text.clone(),
                presentation_html: presentation_html.clone(),
            },
            MessageBody::Alternative { html, text } => MessageBody::Alternative {
                html: html.clone(),
                text: text.clone(),
            },
        }
    }
}

/// A part of a text, by character offsets.
#[derive(Debug, Clone, Copy, PartialEq, Eq, Structural)]
pub struct TextRange {
    pub start: usize,
    pub end: usize,
}

impl TextRange {
    /// Whether the range lies in a text.
    pub open spec fn lies_in(self, text: Seq<char>) -> bool {
        self.start <= self.end <= text.len()
    }

    /// The range of `segment` behind `prefix`.
    pub fn for_segment(prefix: &str, segment: &str) -> (range: Self)
        requires
            prefix@.len() + segment@.len() <= usize::MAX,
        ensures
            range.start == prefix@.len(),
            range.end == prefix@.len() + segment@.len(),
    {
        let start: usize = prefix.unicode_len();
        TextRange { start, end: start + segment.unicode_len() }
    }

    /// The text before, in and behind the range.
    pub fn split<'a>(self, text: &'a str) -> (parts: Option<(&'a str, &'a str, &'a str)>)
        ensures
            parts is Some <==> self.lies_in(text@),
            parts matches Some((before, inside, behind)) ==> {
                &&& before@ == text@.take(self.start as int)
                &&& inside@ == text@.subrange(self.start as int, self.end as int)
                &&& behind@ == text@.skip(self.end as int)
            },
    {
        let length: usize = text.unicode_len();
        if self.start > self.end || self.end > length {
            return None;
        }
        let before = text.substring_char(0, self.start);
        let inside = text.substring_char(self.start, self.end);
        let behind = text.substring_char(self.end, length);
        assert(before@ =~= text@.take(self.start as int));
        assert(behind@ =~= text@.skip(self.end as int));
        Some((before, inside, behind))
    }

    /// Whether the range lies in `text`.
    pub fn is_valid_for(self, text: &str) -> (r: bool)
        ensures
            r == self.lies_in(text@),
    {
        self.split(text).is_some()
    }
}

/// The three parts of a split text make up the text.
pub proof fn lemma_split_parts_make_up_the_text(text: Seq<char>, range: TextRange)
    requires
        range.lies_in(text),
    ensures
        text.take(range.start as int) + text.subrange(range.start as int, range.end as int)
            + text.skip(range.end as int) == text,
{
    assert(text.take(range.start as int) + text.subrange(range.start as int, range.end as int)
        + text.skip(range.end as int) =~= text);
}

/// The range of a segment covers that segment in any text that starts with the
/// prefix and the segment.
pub proof fn lemma_segment_range_covers_the_segment(
    prefix: Seq<char>,
    segment: Seq<char>,
    rest: Seq<char>,
    range: TextRange,
)
    requires
        range.start == prefix.len(),
        range.end == prefix.len() + segment.len(),
    ensures
        range.lies_in(prefix + segment + rest),
        (prefix + segment + rest).subrange(range.start as int, range.end as int) == segment,
{
    assert((prefix + segment + rest).subrange(range.start as int, range.end as int) =~= segment);
}

/// What is written in a draft, as a value.
#[verifier::ext_equal]
pub struct DraftBodyView {
    pub html: Seq<char>,
    pub text: Seq<char>,
    pub text_signature: Option<TextRange>,
}

impl DraftBodyView {
    /// Whether the signature lies in the text.
    pub open spec fn valid(self) -> bool {
        self.text_signature matches Some(range) ==> range.lies_in(self.text)
    }
}

/// What is written in a draft.
#[derive(Debug)]
pub struct DraftBody {
    html: String,
    text: String,
    text_signature: Option<TextRange>,
}

impl View for DraftBody {
    type V = DraftBodyView;

    closed spec fn view(&self) -> DraftBodyView {
        DraftBodyView {
            html: self.html@,
            text: self.text@,
            text_signature: self.text_signature,
        }
    }
}

impl Clone for DraftBody {
    fn clone(&self) -> (r: Self)
        ensures
            r@ == self@,
    {
        DraftBody {
            html: self.html.clone(),
            text: self.text.clone(),
            text_signature: self.text_signature,
        }
    }
}

impl Default for DraftBody {
    fn default() -> (body: Self)
        ensures
            body@ == (DraftBodyView {
                html: Seq::empty(),
                text: Seq::empty(),
                text_signature: None,
            }),
    {
        DraftBody { html: String::new(), text: String::new(), text_signature: None }
    }
}

impl DraftBody {
    /// The HTML that was written.
    pub fn html(&self) -> (html: &str)
        ensures
            html@ == self@.html,
    {
        self.html.as_str()
    }

    /// The text that was written.
    pub fn text(&self) -> (text: &str)
        ensures
            text@ == self@.text,
    {
        self.text.as_str()
    }

    /// Where the signature stands in the text.
    pub fn text_signature(&self) -> (range: Option<TextRange>)
        ensures
            range == self@.text_signature,
    {
        self.text_signature
    }

    /// Replaces the HTML.
    pub fn set_html(&mut self, html: String)
        ensures
            final(self)@ == (DraftBodyView { html: html@, ..old(self)@ }),
            old(self)@.valid() ==> final(self)@.valid(),
    {
        self.html = html;
    }

    /// Replaces the text. A signature that does not lie in it is dropped.
    pub fn set_text(&mut self, text: String, text_signature: Option<TextRange>)
        ensures
            final(self)@.html == old(self)@.html,
            final(self)@.text == text@,
            final(self)@.text_signature == (match text_signature {
                Some(range) if range.lies_in(text@) => Some(range),
                _ => None,
            }),
            final(self)@.valid(),
    {
        self.text_signature = match text_signature {
            Some(range) if range.is_valid_for(text.as_str()) => Some(range),
            _ => None,
        };
        self.text = text;
    }

    /// Replaces all that was written.
    pub fn replace(&mut self, html: String, text: String, text_signature: Option<TextRange>)
        ensures
            final(self)@.html == html@,
            final(self)@.text == text@,
            final(self)@.text_signature == (match text_signature {
                Some(range) if range.lies_in(text@) => Some(range),
                _ => None,
            }),
            final(self)@.valid(),
    {
        self.set_html(html);
        self.set_text(text, text_signature);
    }
}

/// Names a message in the store that holds it.
#[derive(Debug, PartialEq, Eq)]
pub struct StoredMessageRef {
    pub conversation_id: ConversationId,
    pub message_id: MessageId,
}

impl Clone for StoredMessageRef {
    fn clone(&self) -> (r: Self)
        ensures
            r == *self,
    {
        StoredMessageRef {
            conversation_id: self.conversation_id.clone(),
            message_id: self.message_id.clone(),
        }
    }
}

/// What a `mailto:` link asks for.
#[derive(Debug, Clone, PartialEq, Eq, Default)]
pub struct MailtoRequest {
    pub to: Vec<String>,
    pub cc: Vec<String>,
    pub bcc: Vec<String>,
    pub subject: String,
    pub body: String,
}

impl MailtoRequest {
    /// Whether the link asks for nothing but an empty message.
    pub fn is_empty(&self) -> (r: bool)
        ensures
            r == (self.to@.len() == 0 && self.cc@.len() == 0 && self.bcc@.len() == 0
                && self.subject@.len() == 0 && self.body@.len() == 0),
    {
        self.to.len() == 0 && self.cc.len() == 0 && self.bcc.len() == 0
            && self.subject.as_str().is_empty() && self.body.as_str().is_empty()
    }
}

/// The message whose cached attachments a draft shows.
#[derive(Debug, PartialEq, Eq)]
pub struct AttachmentSource {
    pub account_id: MailAccountId,
    pub conversation_id: ConversationId,
}

impl Clone for AttachmentSource {
    fn clone(&self) -> (r: Self)
        ensures
            r == *self,
    {
        AttachmentSource {
            account_id: self.account_id.clone(),
            conversation_id: self.conversation_id.clone(),
        }
    }
}

/// A message that is being written.
#[derive(Debug, Clone)]
pub struct DraftMessage {
    pub conversation_id: Option<ConversationId>,
    pub message_id: Option<MessageId>,
    pub account_id: MailAccountId,
    pub from: String,
    pub reply_to: Option<String>,
    pub to: Vec<String>,
    pub cc: Vec<String>,
    pub bcc: Vec<String>,
    pub subject: String,
    pub attachments: Vec<AttachmentInfo>,
    attachment_source: Option<AttachmentSource>,
    pub body: DraftBody,
}

/// The fields of a draft.
pub struct DraftFields {
    pub conversation_id: Option<ConversationId>,
    pub message_id: Option<MessageId>,
    pub account_id: MailAccountId,
    pub from: String,
    pub reply_to: Option<String>,
    pub to: Vec<String>,
    pub cc: Vec<String>,
    pub bcc: Vec<String>,
    pub subject: String,
    pub attachments: Vec<AttachmentInfo>,
    pub attachment_source: Option<AttachmentSource>,
    pub body: DraftBody,
}

impl View for DraftMessage {
    type V = DraftFields;

    closed spec fn view(&self) -> DraftFields {
        DraftFields {
            conversation_id: self.conversation_id,
            message_id: self.message_id,
            account_id: self.account_id,
            from: self.from,
            reply_to: self.reply_to,
            to: self.to,
            cc: self.cc,
            bcc: self.bcc,
            subject: self.subject,
            attachments: self.attachments,
            attachment_source: self.attachment_source,
            body: self.body,
        }
    }
}

/// A message that can be stored or sent as it is.
#[derive(Debug, Clone)]
pub struct PreparedMessage {
    pub conversation_id: Option<ConversationId>,
    pub message_id: Option<MessageId>,
    pub from: String,
    pub reply_to: Option<String>,
    pub to: Vec<String>,
    pub cc: Vec<String>,
    pub bcc: Vec<String>,
    pub subject: String,
    pub attachment_uris: Vec<String>,
    pub body: DraftBody,
}

/// Whether one of `attachments` is still part of a cached message.
pub open spec fn any_cached(attachments: Seq<AttachmentInfo>) -> bool {
    exists|i: int|
        0 <= i < attachments.len() && (#[trigger] attachments[i]).location is CachedToken
}

impl DraftMessage {
    /// A draft in which nothing is written yet.
    pub fn empty(account_id: MailAccountId, from: String) -> (draft: Self)
        ensures
            draft@.conversation_id is None,
            draft@.message_id is None,
            draft@.account_id == account_id,
            draft@.from == from,
            draft@.reply_to is None,
            draft@.to@.len() == 0,
            draft@.cc@.len() == 0,
            draft@.bcc@.len() == 0,
            draft@.subject@.len() == 0,
            draft@.attachments@.len() == 0,
            draft@.attachment_source is None,
            draft@.body@ == (DraftBodyView {
                html: Seq::empty(),
                text: Seq::empty(),
                text_signature: None,
            }),
    {
        DraftMessage {
            conversation_id: None,
            message_id: None,
            account_id,
            from,
            reply_to: None,
            to: Vec::new(),
            cc: Vec::new(),
            bcc: Vec::new(),
            subject: String::new(),
            attachments: Vec::new(),
            attachment_source: None,
            body: DraftBody::default(),
        }
    }

    /// Whether an attachment is still part of a cached message.
    pub fn has_cached_attachments(&self) -> (r: bool)
        ensures
            r == any_cached(self@.attachments@),
    {
        let mut i: usize = 0;
        while i < self.attachments.len()
            invariant
                i <= self.attachments.len(),
                forall|j: int|
                    0 <= j < i ==> (#[trigger] self.attachments@[j]).location !is CachedToken,
            decreases self.attachments.len() - i,
        {
            if self.attachments[i].location.cached_token().is_some() {
                assert(self.attachments@[i as int].location is CachedToken);
                return true;
            }
            i += 1;
        }
        false
    }

    /// The message whose cached attachments the draft shows.
    pub fn attachment_source(&self) -> (source: Option<&AttachmentSource>)
        ensures
            match (source, self@.attachment_source) {
                (Some(given), Some(own)) => *given == own,
                (None, None) => true,
                _ => false,
            },
    {
        self.attachment_source.as_ref()
    }

    /// Remembers the message whose cached attachments the draft shows, as long as it
    /// shows any.
    pub fn set_attachment_source(&mut self, source: Option<AttachmentSource>)
        ensures
            final(self)@ == (DraftFields {
                attachment_source: if any_cached(old(self)@.attachments@) {
                    source
                } else {
                    None
                },
                ..old(self)@
            }),
    {
        self.attachment_source = if self.has_cached_attachments() {
            source
        } else {
            None
        };
    }

    /// The message that can be stored or sent, once every attachment has a location of
    /// its own.
    pub fn into_prepared(self) -> (result: Result<PreparedMessage, &'static str>)
        ensures
            result is Err <==> any_cached(self@.attachments@),
            result matches Err(message) ==> message@
                == "draft contains an unresolved cached attachment"@,
            result matches Ok(prepared) ==> {
                &&& prepared.conversation_id == self@.conversation_id
                &&& prepared.message_id == self@.message_id
                &&& prepared.from == self@.from
                &&& prepared.reply_to == self@.reply_to
                &&& prepared.to == self@.to
                &&& prepared.cc == self@.cc
                &&& prepared.bcc == self@.bcc
                &&& prepared.subject == self@.subject
                &&& prepared.body == self@.body
                &&& prepared.attachment_uris@.len() == self@.attachments@.len()
                &&& forall|i: int|
                    0 <= i < self@.attachments@.len() ==> self@.attachments@[i].location
                        == AttachmentLocation::ExternalUri(#[trigger] prepared.attachment_uris@[i])
            },
    {
        let mut attachment_uris: Vec<String> = Vec::new();
        let mut i: usize = 0;
        while i < self.attachments.len()
            invariant
                i <= self.attachments.len(),
                attachment_uris@.len() == i,
                forall|j: int|
                    0 <= j < i ==> (#[trigger] self.attachments@[j]).location !is CachedToken,
                forall|j: int|
                    0 <= j < i ==> self.attachments@[j].location
                        == AttachmentLocation::ExternalUri(#[trigger] attachment_uris@[j]),
            decreases self.attachments.len() - i,
        {
            match &self.attachments[i].location {
                AttachmentLocation::ExternalUri(uri) => attachment_uris.push(uri.clone()),
                AttachmentLocation::CachedToken(_) => {
                    assert(self.attachments@[i as int].location is CachedToken);
                    return Err("draft contains an unresolved cached attachment");
                },
            }
            i += 1;
        }
        Ok(
            PreparedMessage {
                conversation_id: self.conversation_id,
                message_id: self.message_id,
                from: self.from,
                reply_to: self.reply_to,
                to: self.to,
                cc: self.cc,
                bcc: self.bcc,
                subject: self.subject,
                attachment_uris,
                body: self.body,
            },
        )
    }
}

/// Whether one of `recipients` holds more than white space.
pub open spec fn any_filled(recipients: Seq<Seq<char>>) -> bool {
    exists|i: int| 0 <= i < recipients.len() && !is_blank(#[trigger] recipients[i])
}

fn any_filled_recipient(recipients: &Vec<String>) -> (r: bool)
    ensures
        r == any_filled(text::views(recipients@)),
{
    let mut i: usize = 0;
    while i < recipients.len()
        invariant
            i <= recipients.len(),
            forall|j: int| 0 <= j < i ==> is_blank(#[trigger] text::views(recipients@)[j]),
        decreases recipients.len() - i,
    {
        if !text::trim(recipients[i].as_str()).is_empty() {
            assert(!is_blank(text::views(recipients@)[i as int]));
            return true;
        }
        i += 1;
    }
    false
}

impl PreparedMessage {
    /// Whether the message names anyone to send it to.
    pub fn has_recipient(&self) -> (r: bool)
        ensures
            r == (any_filled(text::views(self.to@)) || any_filled(text::views(self.cc@))
                || any_filled(text::views(self.bcc@))),
    {
        any_filled_recipient(&self.to) || any_filled_recipient(&self.cc) || any_filled_recipient(
            &self.bcc,
        )
    }
}

} // verus!
