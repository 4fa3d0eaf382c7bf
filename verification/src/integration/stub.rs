//! The mailbox that is shown while there is no usable account. It lives in memory, and
//! nothing can be changed in it.
use crate::integration::backend;
use crate::integration::backend::{NoRecipient, RefreshOutcome};
use crate::integration::camel;
use crate::integration::local;
use crate::model::account::{
    AccountView, IdentityView, MailAccount, MailAccountId, SendingIdentity, Signature,
    SignatureView,
};
use crate::model::mail;
use crate::model::mail::{
    BodyView, ConversationId, ConversationSummary, DetailView, FolderId, FolderKind, FolderView,
    MailFolder, MessageBody, MessageDetail, MessageId, PreparedMessage, StoredMessageRef,
    SummaryView, WriteOutcome,
};
use crate::text;
use vstd::prelude::*;

verus! {

/// The name of the account that lives in memory.
pub const STUB_ACCOUNT_ID: &'static str = "local-stub";

/// The address of that account.
pub const STUB_ADDRESS: &'static str = "welcome@pigeon.invalid";

/// Whether `account_id` is the account that lives in memory.
pub fn is_stub_account_id(account_id: &MailAccountId) -> (r: bool)
    ensures
        r == (account_id@ == STUB_ACCOUNT_ID@),
{
    text::same(account_id.0.as_str(), STUB_ACCOUNT_ID)
}

/// The name of the account that lives in memory.
pub fn stub_account_id() -> (id: MailAccountId)
    ensures
        id@ == STUB_ACCOUNT_ID@,
{
    MailAccountId(STUB_ACCOUNT_ID.to_owned())
}

/// The identity of the account that lives in memory.
pub open spec fn stub_identity() -> IdentityView {
    IdentityView {
        address: STUB_ADDRESS@,
        display_name: "Pigeon Mail"@,
        reply_to: None,
        signature: SignatureView { html: "<p>Pigeon Mail</p>"@, text: "Pigeon Mail"@ },
    }
}

proof fn lemma_stub_identity()
    ensures
        stub_identity().tidied() == stub_identity(),
        stub_identity().key().len() > 0,
        text::trimmed("Pigeon Mail Stub"@) == "Pigeon Mail Stub"@,
        text::trimmed("Pigeon Mail Stub"@).len() > 0,
{
    reveal_strlit("welcome@pigeon.invalid");
    reveal_strlit("Pigeon Mail");
    reveal_strlit("Pigeon Mail Stub");
    text::lemma_trimmed_identity(STUB_ADDRESS@);
    text::lemma_trimmed_identity("Pigeon Mail"@);
    text::lemma_trimmed_identity("Pigeon Mail Stub"@);
    reveal_with_fuel(text::last_at, 23);
    assert(text::last_at(STUB_ADDRESS@, '<') == -1);
    assert(stub_identity().tidied() =~= stub_identity());
}

/// The account that lives in memory.
pub fn stub_account() -> (account: MailAccount)
    ensures
        account@ == (AccountView {
            id: STUB_ACCOUNT_ID@,
            display_name: "Pigeon Mail Stub"@,
            aliases: seq![stub_identity()],
            primary_address: STUB_ADDRESS@,
            default_address: STUB_ADDRESS@,
        }),
        account@.valid(),
{
    proof {
        lemma_stub_identity();
    }
    let identity = SendingIdentity::new(
        STUB_ADDRESS.to_owned(),
        "Pigeon Mail".to_owned(),
        None,
        Signature { html: "<p>Pigeon Mail</p>".to_owned(), text: "Pigeon Mail".to_owned() },
    );
    assert(identity@ == stub_identity());
    MailAccount::new(stub_account_id(), "Pigeon Mail Stub".to_owned(), identity)
}

/// A message of the mailbox.
#[derive(Debug)]
pub struct ConversationRecord {
    pub summary: ConversationSummary,
    pub detail: MessageDetail,
}

/// A message of the mailbox, as a value.
#[verifier::ext_equal]
pub struct RecordView {
    pub summary: SummaryView,
    pub detail: DetailView,
}

impl View for ConversationRecord {
    type V = RecordView;

    open spec fn view(&self) -> RecordView {
        RecordView { summary: self.summary@, detail: self.detail@ }
    }
}

/// The values of a list of messages.
pub open spec fn record_views(list: Seq<ConversationRecord>) -> Seq<RecordView> {
    list.map_values(|record: ConversationRecord| record@)
}

/// What the messages of the mailbox differ in.
#[verifier::ext_equal]
pub struct SeedView {
    pub folder_id: Seq<char>,
    pub conversation_id: Seq<char>,
    pub message_id: Seq<char>,
    pub subject: Seq<char>,
    pub unread_count: u32,
    pub starred: bool,
    pub preview: Seq<char>,
    pub body_html: Seq<char>,
    pub body_text: Seq<char>,
}

/// Who sends the messages of the mailbox.
pub const STUB_SENDER: &'static str = "Pigeon Mail Stub <stub@pigeon.invalid>";

/// A message of the mailbox.
pub open spec fn seeded(seed: SeedView, recipient: Seq<char>) -> RecordView {
    RecordView {
        summary: SummaryView {
            id: seed.conversation_id,
            folder_id: seed.folder_id,
            subject: seed.subject,
            participants: seq!["Pigeon Mail"@],
            message_count: 1,
            unread_count: seed.unread_count,
            attachment_count: 0,
            starred: seed.starred,
            last_updated_unix_ms: 0,
            preview: seed.preview,
        },
        detail: DetailView {
            message_id: seed.message_id,
            conversation_id: seed.conversation_id,
            subject: seed.subject,
            from: STUB_SENDER@,
            to: seq![recipient],
            cc: Seq::empty(),
            bcc: Seq::empty(),
            reply_to: None,
            date_unix_secs: 0,
            starred: seed.starred,
            unread: seed.unread_count > 0,
            attachments: Seq::empty(),
            body: BodyView::Alternative { html: seed.body_html, text: seed.body_text },
        },
    }
}

/// What a message of the mailbox is made of.
struct Seed {
    folder_id: &'static str,
    conversation_id: &'static str,
    message_id: &'static str,
    subject: &'static str,
    unread_count: u32,
    starred: bool,
    preview: &'static str,
    body_html: &'static str,
    body_text: &'static str,
}

impl Seed {
    spec fn value(self) -> SeedView {
        SeedView {
            folder_id: self.folder_id@,
            conversation_id: self.conversation_id@,
            message_id: self.message_id@,
            subject: self.subject@,
            unread_count: self.unread_count,
            starred: self.starred,
            preview: self.preview@,
            body_html: self.body_html@,
            body_text: self.body_text@,
        }
    }
}

fn seeded_record(seed: Seed, recipient: &str) -> (record: ConversationRecord)
    ensures
        record@ == seeded(seed.value(), recipient@),
{
    let mut participants: Vec<String> = Vec::new();
    participants.push("Pigeon Mail".to_owned());
    let mut to: Vec<String> = Vec::new();
    to.push(recipient.to_owned());
    let none: Vec<String> = Vec::new();
    let none_either: Vec<String> = Vec::new();
    proof {
        assert(text::views(participants@) =~= seq!["Pigeon Mail"@]);
        assert(text::views(to@) =~= seq![recipient@]);
        assert(text::views(none@) =~= Seq::empty());
        assert(text::views(none_either@) =~= Seq::empty());
    }
    ConversationRecord {
        summary: ConversationSummary {
            id: ConversationId(seed.conversation_id.to_owned()),
            folder_id: FolderId(seed.folder_id.to_owned()),
            subject: seed.subject.to_owned(),
            participants,
            message_count: 1,
            unread_count: seed.unread_count,
            attachment_count: 0,
            starred: seed.starred,
            last_updated_unix_ms: 0,
            preview: seed.preview.to_owned(),
        },
        detail: MessageDetail {
            message_id: MessageId(seed.message_id.to_owned()),
            conversation_id: ConversationId(seed.conversation_id.to_owned()),
            subject: seed.subject.to_owned(),
            from: STUB_SENDER.to_owned(),
            to,
            cc: none,
            bcc: none_either,
            reply_to: None,
            date_unix_secs: 0,
            starred: seed.starred,
            unread: seed.unread_count > 0,
            attachments: Vec::new(),
            body: MessageBody::Alternative {
                html: seed.body_html.to_owned(),
                text: seed.body_text.to_owned(),
            },
        },
    }
}

/// The message that says that there is no account.
pub open spec fn account_seed() -> SeedView {
    SeedView {
        folder_id: "inbox"@,
        conversation_id: "stub-account"@,
        message_id: "stub-account-message"@,
        subject: "Mail account unavailable"@,
        unread_count: 1,
        starred: true,
        preview: "No usable mail account is currently available."@,
        body_html: ACCOUNT_HTML@,
        body_text: ACCOUNT_TEXT@,
    }
}

/// The message that says how to move around.
pub open spec fn navigation_seed() -> SeedView {
    SeedView {
        folder_id: "inbox"@,
        conversation_id: "stub-navigation"@,
        message_id: "stub-navigation-message"@,
        subject: "Explore the three-pane mailbox"@,
        unread_count: 0,
        starred: false,
        preview: NAVIGATION_PREVIEW@,
        body_html: NAVIGATION_HTML@,
        body_text: NAVIGATION_TEXT@,
    }
}

/// What the first message says.
pub const ACCOUNT_HTML: &'static str =
    "<p><b>No usable mail account is currently available.</b></p><p>Account discovery or \
        the mail service may be unavailable.</p>";

/// What the first message says, as text.
pub const ACCOUNT_TEXT: &'static str =
    "No usable mail account is currently available.\n\nAccount discovery or the mail \
        service may be unavailable.";

/// How the second message starts.
pub const NAVIGATION_PREVIEW: &'static str =
    "Use the folder list, message list, and reading pane with the mouse or keyboard.";

/// What the second message says.
pub const NAVIGATION_HTML: &'static str =
    "<p>Use \u{2191} and \u{2193} inside a list, and \u{2190} and \u{2192} to move between the \
        folder list, message list, and reading pane. Activating a message opens it; focus \
        and selection remain useful visual indicators.</p>";

/// What the second message says, as text.
pub const NAVIGATION_TEXT: &'static str =
    "Use Up and Down inside a list, and Left and Right to move between the folder list, \
        message list, and reading pane. Activating a message opens it; focus and selection \
        remain useful visual indicators.";

/// The messages of the mailbox, addressed to `recipient`.
pub open spec fn stub_messages(recipient: Seq<char>) -> Seq<RecordView> {
    seq![seeded(account_seed(), recipient), seeded(navigation_seed(), recipient)]
}

fn stub_records(recipient: &str) -> (records: Vec<ConversationRecord>)
    ensures
        record_views(records@) == stub_messages(recipient@),
{
    let account = seeded_record(
        Seed {
            folder_id: "inbox",
            conversation_id: "stub-account",
            message_id: "stub-account-message",
            subject: "Mail account unavailable",
            unread_count: 1,
            starred: true,
            preview: "No usable mail account is currently available.",
            body_html: ACCOUNT_HTML,
            body_text: ACCOUNT_TEXT,
        },
        recipient,
    );
    let navigation = seeded_record(
        Seed {
            folder_id: "inbox",
            conversation_id: "stub-navigation",
            message_id: "stub-navigation-message",
            subject: "Explore the three-pane mailbox",
            unread_count: 0,
            starred: false,
            preview: NAVIGATION_PREVIEW,
            body_html: NAVIGATION_HTML,
            body_text: NAVIGATION_TEXT,
        },
        recipient,
    );
    let mut records: Vec<ConversationRecord> = Vec::new();
    records.push(account);
    records.push(navigation);
    assert(record_views(records@) =~= stub_messages(recipient@));
    records
}

/// A folder of the mailbox, without unread messages.
pub open spec fn empty_folder(id: Seq<char>, name: Seq<char>, kind: FolderKind) -> FolderView {
    FolderView { id, name, unread_count: 0, kind }
}

/// The folders of the mailbox, without unread messages.
pub open spec fn standard_folders() -> Seq<FolderView> {
    seq![
        empty_folder("inbox"@, "Inbox"@, FolderKind::Inbox),
        empty_folder("drafts"@, "Drafts"@, FolderKind::Drafts),
        empty_folder("sent"@, "Sent"@, FolderKind::Sent),
        empty_folder("archive"@, "Archive"@, FolderKind::Archive),
        empty_folder("trash"@, "Trash"@, FolderKind::Trash),
    ]
}

fn list_standard_folders() -> (folders: Vec<MailFolder>)
    ensures
        mail::folder_views(folders@) == standard_folders(),
{
    let mut folders: Vec<MailFolder> = Vec::new();
    folders.push(standard_folder("inbox", "Inbox", FolderKind::Inbox));
    folders.push(standard_folder("drafts", "Drafts", FolderKind::Drafts));
    folders.push(standard_folder("sent", "Sent", FolderKind::Sent));
    folders.push(standard_folder("archive", "Archive", FolderKind::Archive));
    folders.push(standard_folder("trash", "Trash", FolderKind::Trash));
    assert(mail::folder_views(folders@) =~= standard_folders());
    folders
}

fn standard_folder(id: &str, name: &str, kind: FolderKind) -> (folder: MailFolder)
    ensures
        folder@ == empty_folder(id@, name@, kind),
{
    MailFolder { id: FolderId(id.to_owned()), name: name.to_owned(), unread_count: 0, kind }
}

/// The summaries of the messages in a folder.
pub open spec fn summaries_in(records: Seq<RecordView>, folder: Seq<char>) -> Seq<SummaryView>
    decreases records.len(),
{
    if records.len() == 0 {
        Seq::empty()
    } else if records.last().summary.folder_id == folder {
        summaries_in(records.drop_last(), folder).push(records.last().summary)
    } else {
        summaries_in(records.drop_last(), folder)
    }
}

/// The folders of the mailbox.
pub open spec fn folders_of(records: Seq<RecordView>) -> Seq<FolderView> {
    standard_folders().map_values(
        |folder: FolderView|
            FolderView {
                unread_count: local::unread_sum(summaries_in(records, folder.id)),
                ..folder
            },
    )
}

/// The first message of a conversation.
pub open spec fn record_of(records: Seq<RecordView>, id: Seq<char>) -> Option<RecordView>
    decreases records.len(),
{
    if records.len() == 0 {
        None
    } else {
        match record_of(records.drop_last(), id) {
            Some(record) => Some(record),
            None => if records.last().summary.id == id {
                Some(records.last())
            } else {
                None
            },
        }
    }
}

/// What a query is looked for in.
pub open spec fn searched_text(record: RecordView) -> Seq<char> {
    backend::searched_text(record.summary) + seq![' '] + record.detail.from
}

/// The summaries of the messages that a query finds.
pub open spec fn found_in(records: Seq<RecordView>, query: Seq<char>) -> Seq<SummaryView>
    decreases records.len(),
{
    if records.len() == 0 {
        Seq::empty()
    } else if text::occurs_in(
        text::lowercase_of(searched_text(records.last())),
        text::lowercase_of(query),
    ) {
        found_in(records.drop_last(), query).push(records.last().summary)
    } else {
        found_in(records.drop_last(), query)
    }
}

/// The messages of the mailbox.
#[derive(Debug)]
pub struct StubMailboxStore {
    pub messages: Vec<ConversationRecord>,
}

impl StubMailboxStore {
    /// The mailbox, addressed to the account that lives in memory.
    pub fn seeded() -> (store: Self)
        ensures
            record_views(store.messages@) == stub_messages(stub_identity().mailbox()),
    {
        let account = stub_account();
        let identity = account.default_identity();
        proof {
            lemma_stub_identity();
            assert(account@.aliases[0] == stub_identity());
        }
        let recipient = identity.mailbox();
        StubMailboxStore { messages: stub_records(recipient.as_str()) }
    }

    fn find_record(&self, conversation_id: &str) -> (found: Option<&ConversationRecord>)
        ensures
            match found {
                Some(record) => record_of(record_views(self.messages@), conversation_id@) == Some(
                    record@,
                ),
                None => record_of(record_views(self.messages@), conversation_id@) is None,
            },
    {
        let ghost all = record_views(self.messages@);
        let mut found: Option<usize> = None;
        let mut i: usize = 0;
        while i < self.messages.len()
            invariant
                i <= self.messages.len(),
                all == record_views(self.messages@),
                match found {
                    Some(at) => at < i && record_of(all.take(i as int), conversation_id@) == Some(
                        self.messages@[at as int]@,
                    ),
                    None => record_of(all.take(i as int), conversation_id@) is None,
                },
            decreases self.messages.len() - i,
        {
            proof {
                assert(all.take(i + 1).drop_last() =~= all.take(i as int));
                assert(all.take(i + 1).last() == self.messages@[i as int]@);
            }
            if found.is_none() && text::same(
                self.messages[i].summary.id.0.as_str(),
                conversation_id,
            ) {
                found = Some(i);
            }
            i += 1;
        }
        assert(all.take(i as int) =~= all);
        match found {
            Some(at) => Some(&self.messages[at]),
            None => None,
        }
    }

    /// The messages in a folder.
    pub fn conversations(&self, folder_id: &FolderId) -> (rows: Vec<ConversationSummary>)
        ensures
            mail::summaries(rows@) == summaries_in(record_views(self.messages@), folder_id@),
    {
        let ghost all = record_views(self.messages@);
        let mut rows: Vec<ConversationSummary> = Vec::new();
        let mut i: usize = 0;
        assert(all.take(0) =~= Seq::empty());
        assert(mail::summaries(rows@) =~= Seq::empty());
        while i < self.messages.len()
            invariant
                i <= self.messages.len(),
                all == record_views(self.messages@),
                mail::summaries(rows@) == summaries_in(all.take(i as int), folder_id@),
            decreases self.messages.len() - i,
        {
            let ghost before = mail::summaries(rows@);
            proof {
                assert(all.take(i + 1).drop_last() =~= all.take(i as int));
                assert(all.take(i + 1).last() == self.messages@[i as int]@);
            }
            if self.messages[i].summary.folder_id.0 == folder_id.0 {
                rows.push(self.messages[i].summary.clone());
                assert(mail::summaries(rows@) =~= before.push(all[i as int].summary));
            }
            i += 1;
        }
        assert(all.take(i as int) =~= all);
        rows
    }

    /// The folders, with the unread messages of each counted.
    pub fn folders(&self) -> (folders: Vec<MailFolder>)
        ensures
            mail::folder_views(folders@) == folders_of(record_views(self.messages@)),
    {
        let ghost records = record_views(self.messages@);
        let ghost change = |folder: FolderView|
            FolderView {
                unread_count: local::unread_sum(summaries_in(records, folder.id)),
                ..folder
            };
        let listed = list_standard_folders();
        let mut folders: Vec<MailFolder> = Vec::new();
        let ghost all = standard_folders();
        assert(mail::folder_views(folders@) =~= all.take(0).map_values(change));
        for folder in it: listed
            invariant
                all == mail::folder_views(it.seq()),
                records == record_views(self.messages@),
                change == (|folder: FolderView|
                    FolderView {
                        unread_count: local::unread_sum(summaries_in(records, folder.id)),
                        ..folder
                    }),
                mail::folder_views(folders@) == all.take(it.index()).map_values(change),
        {
            let ghost before = mail::folder_views(folders@);
            let ghost old_value = folder@;
            let mut folder = folder;
            let rows = self.conversations(&folder.id);
            folder.unread_count = local::sum_unread(&rows);
            let ghost value = folder@;
            assert(value == change(old_value));
            folders.push(folder);
            proof {
                assert(mail::folder_views(folders@) =~= before.push(value));
                assert(all.take(it.index() + 1).map_values(change) =~= before.push(value));
            }
        }
        assert(all.take(all.len() as int) =~= all);
        folders
    }

    /// A message.
    pub fn message_detail(&self, conversation_id: &str) -> (detail: Option<MessageDetail>)
        ensures
            match (detail, record_of(record_views(self.messages@), conversation_id@)) {
                (Some(detail), Some(record)) => detail@ == record.detail,
                (None, None) => true,
                _ => false,
            },
    {
        match self.find_record(conversation_id) {
            Some(record) => Some(record.detail.clone()),
            None => None,
        }
    }

    /// The messages that a query finds, whatever the case of the letters.
    pub fn search(&self, query: &str) -> (rows: Vec<ConversationSummary>)
        ensures
            mail::summaries(rows@) == found_in(record_views(self.messages@), query@),
    {
        let query_text = text::to_lowercase(query);
        let ghost all = record_views(self.messages@);
        let mut rows: Vec<ConversationSummary> = Vec::new();
        let mut i: usize = 0;
        proof {
            reveal_strlit(" ");
            assert(" "@ =~= seq![' ']);
        }
        assert(all.take(0) =~= Seq::empty());
        assert(mail::summaries(rows@) =~= Seq::empty());
        while i < self.messages.len()
            invariant
                i <= self.messages.len(),
                all == record_views(self.messages@),
                " "@ == seq![' '],
                query_text@ == text::lowercase_of(query@),
                mail::summaries(rows@) == found_in(all.take(i as int), query@),
            decreases self.messages.len() - i,
        {
            let ghost before = mail::summaries(rows@);
            proof {
                assert(all.take(i + 1).drop_last() =~= all.take(i as int));
                assert(all.take(i + 1).last() == self.messages@[i as int]@);
            }
            let record = &self.messages[i];
            let mut haystack = record.summary.subject.clone();
            haystack.push(' ');
            haystack.append(record.summary.preview.as_str());
            haystack.push(' ');
            haystack.append(text::join(&record.summary.participants, " ").as_str());
            haystack.push(' ');
            haystack.append(record.detail.from.as_str());
            assert(haystack@ =~= searched_text(record@));
            let haystack = text::to_lowercase(haystack.as_str());
            if text::contains_text(haystack.as_str(), query_text.as_str()) {
                rows.push(record.summary.clone());
                assert(mail::summaries(rows@) =~= before.push(all[i as int].summary));
            }
            i += 1;
        }
        assert(all.take(i as int) =~= all);
        rows
    }
}

/// Why nothing is done in the mailbox.
#[derive(Debug, PartialEq, Eq)]
pub enum StubError {
    UnknownConversation(String),
    UnknownFolder(String),
}

/// Why nothing is done in the mailbox, as a value.
#[verifier::ext_equal]
pub enum StubErrorView {
    UnknownConversation(Seq<char>),
    UnknownFolder(Seq<char>),
}

impl View for StubError {
    type V = StubErrorView;

    open spec fn view(&self) -> StubErrorView {
        match self {
            StubError::UnknownConversation(id) => StubErrorView::UnknownConversation(id@),
            StubError::UnknownFolder(id) => StubErrorView::UnknownFolder(id@),
        }
    }
}

impl StubError {
    /// What is reported.
    pub fn message(&self) -> (message: String)
        ensures
            message@ == (match self@ {
                StubErrorView::UnknownConversation(id) => "stub conversation '"@ + id
                    + "' is unavailable"@,
                StubErrorView::UnknownFolder(id) => "stub folder '"@ + id + "' is unavailable"@,
            }),
    {
        match self {
            StubError::UnknownConversation(id) => text::enclosed(
                "stub conversation '",
                id.as_str(),
                "' is unavailable",
            ),
            StubError::UnknownFolder(id) => text::enclosed(
                "stub folder '",
                id.as_str(),
                "' is unavailable",
            ),
        }
    }
}

/// The backend of the account that lives in memory. It checks what it is asked to do, and
/// changes nothing.
#[derive(Debug)]
pub struct StubBackend {
    pub account_id: MailAccountId,
    pub store: StubMailboxStore,
}

impl StubBackend {
    /// The messages, as values.
    pub open spec fn records(&self) -> Seq<RecordView> {
        record_views(self.store.messages@)
    }

    /// The backend of an account.
    pub fn new(account_id: MailAccountId) -> (backend: Self)
        ensures
            backend.account_id == account_id,
            backend.records() == stub_messages(stub_identity().mailbox()),
    {
        StubBackend { account_id, store: StubMailboxStore::seeded() }
    }

    /// The account.
    pub fn account_id(&self) -> (id: &MailAccountId)
        ensures
            *id == self.account_id,
    {
        &self.account_id
    }

    /// No change waits to be told to anyone.
    pub fn unresolved_message_action_count(&self) -> (n: usize)
        ensures
            n == 0,
    {
        0
    }

    fn conversation_exists(&self, conversation_id: &ConversationId) -> (r: bool)
        ensures
            r == record_of(self.records(), conversation_id@) is Some,
    {
        self.store.message_detail(conversation_id.0.as_str()).is_some()
    }

    fn ensure_stub_conversation(&self, conversation_id: &ConversationId) -> (result: Result<
        (),
        StubError,
    >)
        ensures
            match result {
                Ok(()) => record_of(self.records(), conversation_id@) is Some,
                Err(error) => record_of(self.records(), conversation_id@) is None && error@
                    == StubErrorView::UnknownConversation(conversation_id@),
            },
    {
        if self.conversation_exists(conversation_id) {
            Ok(())
        } else {
            Err(StubError::UnknownConversation(conversation_id.0.clone()))
        }
    }

    /// The folders.
    pub fn list_folders(&self) -> (folders: Vec<MailFolder>)
        ensures
            mail::folder_views(folders@) == folders_of(self.records()),
    {
        self.store.folders()
    }

    /// A part of the messages in a folder.
    pub fn list_conversations(&self, folder_id: &FolderId, offset: usize, limit: usize) -> (rows:
        Vec<ConversationSummary>)
        ensures
            mail::summaries(rows@) == camel::page_of(
                summaries_in(self.records(), folder_id@),
                offset as nat,
                limit as nat,
            ),
    {
        let conversations = self.store.conversations(folder_id);
        backend::slice_conversations(&conversations, offset, limit)
    }

    /// Whether the mailbox holds a message.
    pub fn fill_message_cache(&self, conversation_id: &ConversationId) -> (r: bool)
        ensures
            r == record_of(self.records(), conversation_id@) is Some,
    {
        self.conversation_exists(conversation_id)
    }

    /// A message.
    pub fn get_cached_message_detail(&self, conversation_id: &ConversationId) -> (detail: Option<
        MessageDetail,
    >)
        ensures
            match (detail, record_of(self.records(), conversation_id@)) {
                (Some(detail), Some(record)) => detail@ == record.detail,
                (None, None) => true,
                _ => false,
            },
    {
        self.store.message_detail(conversation_id.0.as_str())
    }

    /// No message has an attachment.
    pub fn materialize_attachment(
        &self,
        _conversation_id: &ConversationId,
        _attachment_token: &str,
    ) -> (uri: Option<String>)
        ensures
            uri is None,
    {
        None
    }

    /// The messages that a query finds, in order.
    pub fn search(&self, query: &str) -> (rows: Vec<ConversationSummary>)
        ensures
            mail::summaries(rows@) == mail::ranked(
                mail::first_of_each(found_in(self.records(), query@)),
            ),
    {
        let mut matches = self.store.search(query);
        mail::sort_and_deduplicate_conversations(&mut matches);
        matches
    }

    /// There is no provider to be in line with.
    pub fn refresh(&self) -> (outcome: RefreshOutcome)
        ensures
            !outcome.convergence_incomplete,
            !outcome.projection_stale,
    {
        RefreshOutcome::default()
    }

    /// Checks that a message can be starred, and leaves it as it is.
    pub fn set_starred(&self, conversation_id: &ConversationId, _starred: bool) -> (result: Result<
        WriteOutcome,
        StubError,
    >)
        ensures
            match result {
                Ok(outcome) => record_of(self.records(), conversation_id@) is Some && outcome
                    == WriteOutcome::Unchanged,
                Err(error) => record_of(self.records(), conversation_id@) is None && error@
                    == StubErrorView::UnknownConversation(conversation_id@),
            },
    {
        match self.ensure_stub_conversation(conversation_id) {
            Err(error) => Err(error),
            Ok(()) => Ok(WriteOutcome::Unchanged),
        }
    }

    /// Checks that a message can be marked as read, and leaves it as it is.
    pub fn set_read(&self, conversation_id: &ConversationId, _read: bool) -> (result: Result<
        WriteOutcome,
        StubError,
    >)
        ensures
            match result {
                Ok(outcome) => record_of(self.records(), conversation_id@) is Some && outcome
                    == WriteOutcome::Unchanged,
                Err(error) => record_of(self.records(), conversation_id@) is None && error@
                    == StubErrorView::UnknownConversation(conversation_id@),
            },
    {
        match self.ensure_stub_conversation(conversation_id) {
            Err(error) => Err(error),
            Ok(()) => Ok(WriteOutcome::Unchanged),
        }
    }

    /// Checks that a message can be moved to a folder, and leaves it where it is.
    pub fn move_to_folder(&self, conversation_id: &ConversationId, folder_id: &FolderId) -> (result:
        Result<WriteOutcome, StubError>)
        ensures
            match result {
                Ok(outcome) => record_of(self.records(), conversation_id@) is Some
                    && local::has_folder(folders_of(self.records()), folder_id@) && outcome
                    == WriteOutcome::Unchanged,
                Err(error) => if record_of(self.records(), conversation_id@) is None {
                    error@ == StubErrorView::UnknownConversation(conversation_id@)
                } else {
                    !local::has_folder(folders_of(self.records()), folder_id@) && error@
                        == StubErrorView::UnknownFolder(folder_id@)
                },
            },
    {
        match self.ensure_stub_conversation(conversation_id) {
            Err(error) => Err(error),
            Ok(()) => if local::find_folder(&self.store.folders(), folder_id).is_some() {
                Ok(WriteOutcome::Unchanged)
            } else {
                Err(StubError::UnknownFolder(folder_id.0.clone()))
            },
        }
    }

    /// A draft is not kept.
    pub fn save_draft(&self, _message: &PreparedMessage) -> (stored: Option<StoredMessageRef>)
        ensures
            stored is None,
    {
        None
    }

    /// Checks that a message can be sent, and does not send it.
    pub fn queue_delivery(&self, message: &PreparedMessage) -> (result: Result<
        WriteOutcome,
        NoRecipient,
    >)
        ensures
            match result {
                Ok(outcome) => outcome == WriteOutcome::Unchanged,
                Err(_) => true,
            },
            result is Ok <==> mail::any_filled(text::views(message.to@)) || mail::any_filled(
                text::views(message.cc@),
            ) || mail::any_filled(text::views(message.bcc@)),
    {
        match backend::check_recipients(message) {
            Ok(()) => Ok(WriteOutcome::Unchanged),
            Err(error) => Err(error),
        }
    }
}

} // verus!
