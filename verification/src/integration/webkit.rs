//! The documents that a web view shows, and what its editor reports.
use crate::text;
use vstd::prelude::*;

verus! {

/// The channel on which the editor reports.
pub const COMPOSER_CHANNEL: &'static str = "mailEditor";

/// The editor's document up to what it shows.
pub const COMPOSER_HEAD: &'static str =
    "<!doctype html><html><head><meta charset=\"utf-8\"><meta name=\"viewport\" \
        content=\"width=device-width, initial-scale=1\"><meta http-equiv=\"Content-Security-Policy\" \
        content=\"default-src 'none'; img-src data: cid:; style-src 'unsafe-inline'; \
        script-src 'nonce-mail-editor'\"><style>html, body { margin: 0; \
        min-height: 100%; max-width: 100%; overflow-x: hidden; }body { \
        font: 11pt sans-serif; line-height: 1.5; padding: 18px; box-sizing: \
        border-box; overflow-wrap: anywhere; word-break: break-word; outline: \
        none; }* { max-width: 100%; box-sizing: border-box; }img, video, \
        iframe, table { max-width: 100% !important; height: auto !important; \
        }table { table-layout: fixed; width: 100% !important; }pre, code \
        { white-space: pre-wrap; overflow-wrap: anywhere; }</style><script \
        nonce=\"mail-editor\">document.addEventListener('DOMContentLoaded', \
        () => {document.body.innerHTML = ";

/// The editor's document from there up to the name of the channel.
pub const COMPOSER_SCRIPT: &'static str =
    ";const currentHtml = () => {const hasText = document.body.innerText.trim().length \
        > 0;const hasEmbeddedContent = document.body.querySelector('img,video,audio,table,hr') \
        !== null;return hasText || hasEmbeddedContent ? document.body.innerHTML \
        : '';};const publish = (requestId = null) => window.webkit.messageHandlers.";

/// The editor's document from there up to its generation.
pub const COMPOSER_GENERATION: &'static str =
    ".postMessage(JSON.stringify({generation: ";

/// The rest of the editor's document.
pub const COMPOSER_TAIL: &'static str =
    ", request_id: requestId, html: currentHtml(), text: document.body.innerText}\
        ));window.mailEditorPublish = publish;document.addEventListener('input', \
        () => publish());});</script></head><body spellcheck=\"true\">\
        </body></html>";

/// The document of a message up to what it shows.
pub const HTML_HEAD: &'static str =
    "<html><head><meta name=\"viewport\" content=\"width=device-width, \
        initial-scale=1\"><style>html, body { margin: 0; padding: 0; max-width: \
        100%; overflow-x: hidden; }body { font: 11pt sans-serif; line-height: \
        1.5; padding: 18px; box-sizing: border-box; overflow-wrap: anywhere; \
        word-break: break-word; }* { max-width: 100%; box-sizing: border-box; \
        }img, video, iframe, table { max-width: 100% !important; height: \
        auto !important; }table { table-layout: fixed; width: 100% !important; \
        }pre, code { white-space: pre-wrap; overflow-wrap: anywhere; }\
        </style></head><body>";

/// The rest of the document of a message.
pub const HTML_TAIL: &'static str =
    "</body></html>";

/// What is reported where the editor did not answer.
pub const CAPTURE_FAILED: &'static str = "The current message could not be read from the editor.";

/// What is reported where the editor got another content before it answered.
pub const CAPTURE_SUPERSEDED: &'static str =
    "The editor content changed before it could be captured.";

/// What the editor shows.
#[derive(Debug, PartialEq, Eq)]
pub struct ComposerContent {
    pub html: String,
    pub text: String,
}

/// What the editor shows, as a value.
#[verifier::ext_equal]
pub struct ContentView {
    pub html: Seq<char>,
    pub text: Seq<char>,
}

impl View for ComposerContent {
    type V = ContentView;

    open spec fn view(&self) -> ContentView {
        ContentView { html: self.html@, text: self.text@ }
    }
}

impl Clone for ComposerContent {
    fn clone(&self) -> (r: Self)
        ensures
            r@ == self@,
    {
        ComposerContent { html: self.html.clone(), text: self.text.clone() }
    }
}

impl Default for ComposerContent {
    fn default() -> (content: Self)
        ensures
            content@ == (ContentView { html: Seq::empty(), text: Seq::empty() }),
    {
        ComposerContent { html: String::new(), text: String::new() }
    }
}

/// What the editor reports.
#[derive(Debug)]
pub struct ComposerUpdate {
    pub generation: u64,
    pub request_id: Option<u64>,
    pub html: String,
    pub text: String,
}

/// The content that a report stands for: a space is a space, whether or not lines break
/// at it.
pub open spec fn reported(update: ComposerUpdate) -> ContentView {
    ContentView { html: update.html@, text: text::replaced(update.text@, '\u{a0}', seq![' ']) }
}

/// Takes over what the editor reports, unless that is about an older content. Tells whether
/// that changed anything.
pub fn apply_composer_update(
    content: &mut ComposerContent,
    current_generation: u64,
    update: ComposerUpdate,
) -> (changed: bool)
    ensures
        final(content)@ == (if update.generation == current_generation {
            reported(update)
        } else {
            old(content)@
        }),
        changed == (update.generation == current_generation && old(content)@ != reported(update)),
{
    if update.generation != current_generation {
        return false;
    }
    proof {
        reveal_strlit(" ");
        assert(" "@ =~= seq![' ']);
    }
    let next = ComposerContent {
        html: update.html,
        text: text::replace_char(update.text.as_str(), '\u{a0}', " "),
    };
    if content.html == next.html && content.text == next.text {
        return false;
    }
    *content = next;
    true
}

/// A hexadecimal digit.
pub open spec fn hex_digit(n: nat) -> char {
    if n < 10 {
        ((48 + n) as u8) as char
    } else {
        ((87 + n) as u8) as char
    }
}

/// A character as it stands in a JSON string.
pub open spec fn json_escape(c: char) -> Seq<char> {
    if c == '"' {
        seq!['\\', '"']
    } else if c == '\\' {
        seq!['\\', '\\']
    } else if c == '\u{8}' {
        seq!['\\', 'b']
    } else if c == '\u{c}' {
        seq!['\\', 'f']
    } else if c == '\n' {
        seq!['\\', 'n']
    } else if c == '\r' {
        seq!['\\', 'r']
    } else if c == '\t' {
        seq!['\\', 't']
    } else if 0x20 > (c as nat) {
        seq!['\\', 'u', '0', '0', hex_digit(c as nat / 16), hex_digit(c as nat % 16)]
    } else {
        seq![c]
    }
}

/// A text as it stands between the quotes of a JSON string.
pub open spec fn json_escaped(s: Seq<char>) -> Seq<char>
    decreases s.len(),
{
    if s.len() == 0 {
        Seq::empty()
    } else {
        json_escaped(s.drop_last()) + json_escape(s.last())
    }
}

/// A text as a JSON string.
pub open spec fn json_of(s: Seq<char>) -> Seq<char> {
    seq!['"'] + json_escaped(s) + seq!['"']
}

/// Calls `serde_json::to_string` on a text: it writes the text between double quotes, with
/// quotes, backslashes and the control characters below the space escaped, the latter by
/// their short names or in four hexadecimal digits, and never fails.
#[verifier::external_body]
fn json_string(text: &str) -> (json: String)
    ensures
        json@ == json_of(text@),
{
    serde_json::to_string(text).expect("a text can be written as JSON")
}

/// A text as it stands in a script of a document: a JSON string without a character that
/// could end the script.
pub open spec fn script_string(s: Seq<char>) -> Seq<char> {
    text::replaced(json_of(s), '<', "\\u003c"@)
}

/// The document of the editor, which shows `body` and reports with that generation.
pub open spec fn composer_document(body: Seq<char>, generation: u64) -> Seq<char> {
    COMPOSER_HEAD@ + script_string(body) + COMPOSER_SCRIPT@ + COMPOSER_CHANNEL@
        + COMPOSER_GENERATION@ + text::decimal_of(generation as nat) + COMPOSER_TAIL@
}

/// The document of the editor, which shows `body` and reports with that generation.
pub fn wrap_composer_document(body: &str, generation: u64) -> (document: String)
    ensures
        document@ == composer_document(body@, generation),
{
    let json = json_string(body);
    composer_document_of(json.as_str(), generation)
}

/// The document of the editor, which shows the JSON string `json`.
pub fn composer_document_of(json: &str, generation: u64) -> (document: String)
    ensures
        document@ == COMPOSER_HEAD@ + text::replaced(json@, '<', "\\u003c"@) + COMPOSER_SCRIPT@
            + COMPOSER_CHANNEL@ + COMPOSER_GENERATION@ + text::decimal_of(generation as nat)
            + COMPOSER_TAIL@,
{
    let mut document = COMPOSER_HEAD.to_owned();
    document.append(text::replace_char(json, '<', "\\u003c").as_str());
    document.append(COMPOSER_SCRIPT);
    document.append(COMPOSER_CHANNEL);
    document.append(COMPOSER_GENERATION);
    document.append(text::decimal(generation).as_str());
    document.append(COMPOSER_TAIL);
    document
}

/// The document of a message.
pub fn wrap_html_document(body: &str) -> (document: String)
    ensures
        document@ == HTML_HEAD@ + body@ + HTML_TAIL@,
{
    text::enclosed(HTML_HEAD, body, HTML_TAIL)
}

proof fn lemma_replaced_holds_none(s: Seq<char>, c: char, by: Seq<char>)
    requires
        !by.contains(c),
    ensures
        !text::replaced(s, c, by).contains(c),
    decreases s.len(),
{
    if s.len() > 0 {
        let rest = text::replaced(s.drop_last(), c, by);
        let all = text::replaced(s, c, by);
        lemma_replaced_holds_none(s.drop_last(), c, by);
        if all.contains(c) {
            let i = choose|i: int| 0 <= i < all.len() && all[i] == c;
            if i < rest.len() {
                assert(rest[i] == c);
            } else if s.last() == c {
                assert(by[i - rest.len()] == c);
            }
        }
    }
}

/// Whatever the editor shows, the script of its document holds no markup of it: nothing of
/// it can end the script.
pub proof fn lemma_script_holds_no_markup(body: Seq<char>)
    ensures
        !script_string(body).contains('<'),
{
    reveal_strlit("\\u003c");
    lemma_replaced_holds_none(json_of(body), '<', "\\u003c"@);
}

/// What has to be done after the editor reported.
#[derive(Debug, Clone, Copy, PartialEq, Eq, Structural)]
pub struct ComposerReceipt {
    /// The content changed.
    pub changed: bool,
    /// That request was answered.
    pub answered: Option<u64>,
}

/// A request to the editor to report.
#[derive(Debug)]
pub struct CaptureRequest {
    pub request_id: u64,
    pub script: String,
}

/// The numbers in a list without the first that is `id`.
pub open spec fn without_number(list: Seq<u64>, id: u64) -> Seq<u64>
    decreases list.len(),
{
    if list.len() == 0 {
        Seq::empty()
    } else if list.drop_last().contains(id) {
        without_number(list.drop_last(), id).push(list.last())
    } else if list.last() == id {
        list.drop_last()
    } else {
        list
    }
}

/// The editor, as a value.
#[verifier::ext_equal]
pub struct ComposerView {
    pub content: ContentView,
    pub generation: u64,
    pub next_request_id: u64,
    pub pending: Seq<u64>,
}

/// What the editor shows, and the requests that it has not answered.
#[derive(Debug)]
pub struct WebKitComposer {
    content: ComposerContent,
    generation: u64,
    next_request_id: u64,
    pending: Vec<u64>,
}

impl View for WebKitComposer {
    type V = ComposerView;

    closed spec fn view(&self) -> ComposerView {
        ComposerView {
            content: self.content@,
            generation: self.generation,
            next_request_id: self.next_request_id,
            pending: self.pending@,
        }
    }
}

/// The number behind `n`.
pub open spec fn next_number(n: u64) -> u64 {
    if n == u64::MAX {
        0
    } else {
        (n + 1) as u64
    }
}

fn find_number(list: &Vec<u64>, id: u64) -> (found: Option<usize>)
    ensures
        match found {
            Some(i) => i < list@.len() && list@[i as int] == id && (forall|j: int|
                0 <= j < i ==> list@[j] != id),
            None => !list@.contains(id),
        },
{
    let mut i: usize = 0;
    while i < list.len()
        invariant
            i <= list.len(),
            forall|j: int| 0 <= j < i ==> list@[j] != id,
        decreases list.len() - i,
    {
        if list[i] == id {
            return Some(i);
        }
        i += 1;
    }
    None
}

proof fn lemma_without_number_at(list: Seq<u64>, at: int)
    requires
        0 <= at < list.len(),
        forall|j: int| 0 <= j < at ==> list[j] != list[at],
    ensures
        without_number(list, list[at]) == list.remove(at),
    decreases list.len(),
{
    let rest = list.drop_last();
    let id = list[at];
    if at == list.len() - 1 {
        assert forall|j: int| 0 <= j < rest.len() implies rest[j] != id by {
            assert(list[j] != id);
        }
        assert(list.remove(at) =~= rest);
    } else {
        assert(rest[at] == id);
        assert(rest.contains(id));
        lemma_without_number_at(rest, at);
        assert(list.remove(at) =~= rest.remove(at).push(list.last()));
    }
}

impl WebKitComposer {
    /// An empty editor.
    pub fn new() -> (composer: Self)
        ensures
            composer@ == (ComposerView {
                content: ContentView { html: Seq::empty(), text: Seq::empty() },
                generation: 0,
                next_request_id: 0,
                pending: Seq::empty(),
            }),
    {
        WebKitComposer {
            content: ComposerContent::default(),
            generation: 0,
            next_request_id: 0,
            pending: Vec::new(),
        }
    }

    /// The document that the web view has to load.
    pub fn document(&self) -> (document: String)
        ensures
            document@ == composer_document(self@.content.html, self@.generation),
    {
        wrap_composer_document(self.content.html.as_str(), self.generation)
    }

    /// What the editor shows.
    pub fn current_content(&self) -> (content: ComposerContent)
        ensures
            content@ == self@.content,
    {
        self.content.clone()
    }

    /// Asks the editor to report.
    pub fn capture_content(&mut self) -> (request: CaptureRequest)
        ensures
            request.request_id == next_number(old(self)@.next_request_id),
            request.script@ == "window.mailEditorPublish("@ + text::decimal_of(
                request.request_id as nat,
            ) + ")"@,
            final(self)@ == (ComposerView {
                next_request_id: request.request_id,
                pending: if old(self)@.pending.contains(request.request_id) {
                    old(self)@.pending
                } else {
                    old(self)@.pending.push(request.request_id)
                },
                ..old(self)@
            }),
    {
        let request_id = self.next_request_id.wrapping_add(1);
        self.next_request_id = request_id;
        if find_number(&self.pending, request_id).is_none() {
            self.pending.push(request_id);
        }
        CaptureRequest {
            request_id,
            script: text::enclosed(
                "window.mailEditorPublish(",
                text::decimal(request_id).as_str(),
                ")",
            ),
        }
    }

    /// Takes a request back. Tells whether the editor had not answered it.
    pub fn abandon_capture(&mut self, request_id: u64) -> (waited: bool)
        ensures
            waited == old(self)@.pending.contains(request_id),
            final(self)@ == (ComposerView {
                pending: without_number(old(self)@.pending, request_id),
                ..old(self)@
            }),
    {
        let ghost before = self.pending@;
        match find_number(&self.pending, request_id) {
            None => {
                proof {
                    lemma_without_absent_number(before, request_id);
                }
                false
            },
            Some(at) => {
                proof {
                    lemma_without_number_at(before, at as int);
                }
                let _ = self.pending.remove(at);
                true
            },
        }
    }

    /// Takes over what the editor reports. A report about an older content is ignored, and
    /// answers no request.
    pub fn receive(&mut self, update: ComposerUpdate) -> (receipt: ComposerReceipt)
        ensures
            ({
                let before = old(self)@;
                let accepted = update.generation == before.generation;
                let answers = accepted && update.request_id is Some && before.pending.contains(
                    update.request_id->0,
                );
                &&& receipt.changed == (accepted && before.content != reported(update))
                &&& receipt.answered == (if answers {
                    update.request_id
                } else {
                    None
                })
                &&& final(self)@ == (ComposerView {
                    content: if accepted {
                        reported(update)
                    } else {
                        before.content
                    },
                    pending: if answers {
                        without_number(before.pending, update.request_id->0)
                    } else {
                        before.pending
                    },
                    ..before
                })
            }),
    {
        let ghost before = self@;
        let request_id = update.request_id;
        let accepted = update.generation == self.generation;
        let changed = apply_composer_update(&mut self.content, self.generation, update);
        let answered = if accepted {
            match request_id {
                Some(request_id) => if find_number(&self.pending, request_id).is_some() {
                    let _ = self.abandon_capture(request_id);
                    Some(request_id)
                } else {
                    None
                },
                None => None,
            }
        } else {
            None
        };
        ComposerReceipt { changed, answered }
    }

    /// Shows another content. Gives the requests that the editor will no longer answer.
    pub fn set_content(&mut self, html: &str, text: &str) -> (superseded: Vec<u64>)
        ensures
            superseded@ == old(self)@.pending,
            final(self)@ == (ComposerView {
                content: ContentView { html: html@, text: text@ },
                generation: next_number(old(self)@.generation),
                next_request_id: old(self)@.next_request_id,
                pending: Seq::empty(),
            }),
    {
        let mut superseded: Vec<u64> = Vec::new();
        std::mem::swap(&mut superseded, &mut self.pending);
        self.content = ComposerContent { html: html.to_owned(), text: text.to_owned() };
        self.generation = self.generation.wrapping_add(1);
        superseded
    }
}

proof fn lemma_without_absent_number(list: Seq<u64>, id: u64)
    requires
        !list.contains(id),
    ensures
        without_number(list, id) == list,
{
    if list.len() > 0 {
        assert(list[list.len() - 1] != id);
        assert forall|i: int| 0 <= i < list.drop_last().len() implies list.drop_last()[i] != id by {
            assert(list[i] != id);
        }
    }
}

/// Once the editor shows another content, what it reports about the one before is ignored.
pub proof fn lemma_older_reports_are_refused(generation: u64)
    ensures
        next_number(generation) != generation,
{
}

} // verus!
