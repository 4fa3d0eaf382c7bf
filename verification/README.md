# Pigeon

Pigeon is the mail logic of a desktop mail client: accounts and their sending
identities, the folders and conversations that are shown, what waits to be told to
the provider, local drafts and deliveries, and the documents of the rich text
editor. Every function of the library states what it does in a contract that Verus
proves.

## Layout

- `src/model/`: addresses, accounts, messages, drafts, events and settings, and which
  HTML documents can be rendered as text (`html.rs`).
- `src/integration/registry.rs`, `account.rs`, `identity.rs`: what the account
  registry says, read into accounts, and accounts written back.
- `src/integration/camel.rs`: what a mail store says of folders and messages.
- `src/integration/local.rs` with `local/`: the drafts, the outbox and the sent
  messages that are kept locally.
- `src/integration/backend.rs` with `backend/`: what is shown of an account, the
  changes that wait, and the backends of the accounts.
- `src/integration/journal.rs`: the waiting changes as they are kept in files.
- `src/integration/mailbox.rs`: conversations by folder.
- `src/integration/stub.rs`: the mailbox that is shown without an account.
- `src/integration/webkit.rs`, `settings.rs`, `src/logging.rs`: the editor, the
  stored settings and the log.
- `src/text.rs`: texts as sequences of characters.
- `app/`: the program around the library, which talks to Evolution Data Server,
  Camel, GSettings, WebKit and the file system.
- `tests/`: the library from outside.

## What is trusted

The library believes five outside functions: `String::push` and `str::to_lowercase`
of the standard library, `html2text::from_read`, the decoder of `percent-encoding`,
and `serde_json::to_string` on a text. Each stands behind one item whose comment says
what is claimed of it. `html2text` is handed only documents that it is sure to get
through; the program renders the others by itself and hands the text in.

Where a result takes chance, the time zone or another process, the library takes it
as an argument: fresh names for signatures, addresses that the mail library decoded,
and the encoded name of a folder.
