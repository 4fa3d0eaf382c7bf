//! A journal of changes that the provider has not been told of yet.
//!
//! The journal is written as a whole. Each change gives the list that has to be written;
//! once it is, the list is committed.
use crate::integration::backend::actions;
use crate::integration::backend::actions::{FlagView, MessageFlagIntent, MoveView};
use crate::integration::backend::projection;
use crate::integration::mailbox;
use crate::integration::mailbox::MailboxConversations;
use crate::model::account::MailAccountId;
use crate::model::mail;
use crate::model::mail::{ConversationId, ConversationSummary, FolderId, SummaryView};
use vstd::prelude::*;

verus! {

/// The file that holds the moves.
pub const PENDING_MAIL_ACTIONS_FILE: &'static str = "pending-mail-actions.json";

/// The file that holds the marks.
pub const PENDING_MESSAGE_FLAGS_FILE: &'static str = "pending-message-flags.json";

/// A message of an account is to be moved.
#[derive(Debug)]
pub struct PendingMove {
    pub account_id: MailAccountId,
    pub destination_folder_id: FolderId,
    pub summary: ConversationSummary,
}

/// A message of an account is to be moved, as a value.
#[verifier::ext_equal]
pub struct PendingMoveView {
    pub account: Seq<char>,
    pub intent: MoveView,
}

impl View for PendingMove {
    type V = PendingMoveView;

    open spec fn view(&self) -> PendingMoveView {
        PendingMoveView {
            account: self.account_id@,
            intent: MoveView {
                destination: self.destination_folder_id@,
                summary: self.summary@,
            },
        }
    }
}

impl Clone for PendingMove {
    fn clone(&self) -> (r: Self)
        ensures
            r@ == self@,
    {
        PendingMove {
            account_id: self.account_id.clone(),
            destination_folder_id: self.destination_folder_id.clone(),
            summary: self.summary.clone(),
        }
    }
}

/// The values of a list of moves.
pub open spec fn move_views(list: Seq<PendingMove>) -> Seq<PendingMoveView> {
    list.map_values(|pending: PendingMove| pending@)
}

/// A message of an account is to be marked.
#[derive(Debug, PartialEq, Eq)]
pub struct PendingMessageFlags {
    pub account_id: MailAccountId,
    pub conversation_id: ConversationId,
    pub read: Option<bool>,
    pub starred: Option<bool>,
}

/// A message of an account is to be marked, as a value.
#[verifier::ext_equal]
pub struct PendingFlagsView {
    pub account: Seq<char>,
    pub flag: FlagView,
}

impl View for PendingMessageFlags {
    type V = PendingFlagsView;

    open spec fn view(&self) -> PendingFlagsView {
        PendingFlagsView {
            account: self.account_id@,
            flag: FlagView {
                conversation_id: self.conversation_id@,
                read: self.read,
                starred: self.starred,
            },
        }
    }
}

impl Clone for PendingMessageFlags {
    fn clone(&self) -> (r: Self)
        ensures
            r@ == self@,
    {
        PendingMessageFlags {
            account_id: self.account_id.clone(),
            conversation_id: self.conversation_id.clone(),
            read: self.read,
            starred: self.starred,
        }
    }
}

/// The values of a list of marks.
pub open spec fn flag_views(list: Seq<PendingMessageFlags>) -> Seq<PendingFlagsView> {
    list.map_values(|pending: PendingMessageFlags| pending@)
}

/// Whether an entry is the move of that message.
pub open spec fn moves_that(pending: PendingMoveView, account: Seq<char>, id: Seq<char>) -> bool {
    pending.account == account && pending.intent.summary.id == id
}

/// Whether an entry is the mark of that message.
pub open spec fn marks_that(pending: PendingFlagsView, account: Seq<char>, id: Seq<char>) -> bool {
    pending.account == account && pending.flag.conversation_id == id
}

/// Where the first move of that message stands, behind the end if there is none.
pub open spec fn move_position(list: Seq<PendingMoveView>, account: Seq<char>, id: Seq<char>) -> int
    decreases list.len(),
{
    if list.len() == 0 {
        0
    } else {
        let before = move_position(list.drop_last(), account, id);
        if before < list.len() - 1 || moves_that(list.last(), account, id) {
            before
        } else {
            list.len() as int
        }
    }
}

/// Where the first mark of that message stands, behind the end if there is none.
pub open spec fn flag_position(list: Seq<PendingFlagsView>, account: Seq<char>, id: Seq<char>) -> int
    decreases list.len(),
{
    if list.len() == 0 {
        0
    } else {
        let before = flag_position(list.drop_last(), account, id);
        if before < list.len() - 1 || marks_that(list.last(), account, id) {
            before
        } else {
            list.len() as int
        }
    }
}

/// The moves with another one. A newer move of a message takes the place of the older.
pub open spec fn with_move(list: Seq<PendingMoveView>, pending: PendingMoveView) -> Seq<
    PendingMoveView,
> {
    let at = move_position(list, pending.account, pending.intent.summary.id);
    if at < list.len() {
        list.update(at, pending)
    } else {
        list.push(pending)
    }
}

/// The marks with another one. A newer mark takes the place of the older of its kind.
pub open spec fn with_flags(
    list: Seq<PendingFlagsView>,
    account: Seq<char>,
    id: Seq<char>,
    read: Option<bool>,
    starred: Option<bool>,
) -> Seq<PendingFlagsView> {
    let at = flag_position(list, account, id);
    if 0 <= at < list.len() {
        list.update(
            at,
            PendingFlagsView { account, flag: actions::merged(list[at].flag, read, starred) },
        )
    } else {
        list.push(
            PendingFlagsView { account, flag: FlagView { conversation_id: id, read, starred } },
        )
    }
}

/// Notes a move. A newer move of a message takes the place of the older.
pub fn upsert_move(moves: &mut Vec<PendingMove>, pending: PendingMove)
    ensures
        move_views(final(moves)@) == with_move(move_views(old(moves)@), pending@),
{
    let ghost listed = move_views(moves@);
    let ghost account = pending.account_id@;
    let ghost id = pending.summary@.id;
    let length: usize = moves.len();
    let mut i: usize = 0;
    assert(listed.take(0) =~= Seq::empty());
    while i < length
        invariant
            i <= length,
            length == moves@.len(),
            listed == move_views(moves@),
            account == pending.account_id@,
            id == pending.summary@.id,
            move_position(listed.take(i as int), account, id) == i,
            *moves == *old(moves),
        decreases length - i,
    {
        proof {
            assert(listed.take(i + 1).drop_last() =~= listed.take(i as int));
            assert(listed.take(i + 1).last() == moves@[i as int]@);
        }
        if moves[i].account_id.0 == pending.account_id.0 && moves[i].summary.id.0
            == pending.summary.id.0 {
            proof {
                lemma_move_position_stays(listed, account, id, i + 1);
            }
            let ghost value = pending@;
            moves.set(i, pending);
            assert(move_views(moves@) =~= listed.update(i as int, value));
            return ;
        }
        i += 1;
    }
    assert(listed.take(i as int) =~= listed);
    let ghost value = pending@;
    moves.push(pending);
    assert(move_views(moves@) =~= listed.push(value));
}

proof fn lemma_move_position_stays(
    list: Seq<PendingMoveView>,
    account: Seq<char>,
    id: Seq<char>,
    n: int,
)
    requires
        0 <= n <= list.len(),
        move_position(list.take(n), account, id) < n,
    ensures
        move_position(list, account, id) == move_position(list.take(n), account, id),
    decreases list.len() - n,
{
    if n < list.len() {
        assert(list.take(n + 1).drop_last() =~= list.take(n));
        lemma_move_position_stays(list, account, id, n + 1);
    } else {
        assert(list.take(n) =~= list);
    }
}

proof fn lemma_flag_position_stays(
    list: Seq<PendingFlagsView>,
    account: Seq<char>,
    id: Seq<char>,
    n: int,
)
    requires
        0 <= n <= list.len(),
        flag_position(list.take(n), account, id) < n,
    ensures
        flag_position(list, account, id) == flag_position(list.take(n), account, id),
    decreases list.len() - n,
{
    if n < list.len() {
        assert(list.take(n + 1).drop_last() =~= list.take(n));
        lemma_flag_position_stays(list, account, id, n + 1);
    } else {
        assert(list.take(n) =~= list);
    }
}

/// Notes a mark. A newer mark takes the place of the older of its kind; the mark of the
/// other kind stays.
pub fn upsert_flags(
    flags: &mut Vec<PendingMessageFlags>,
    account_id: MailAccountId,
    conversation_id: ConversationId,
    read: Option<bool>,
    starred: Option<bool>,
)
    ensures
        flag_views(final(flags)@) == with_flags(
            flag_views(old(flags)@),
            account_id@,
            conversation_id@,
            read,
            starred,
        ),
{
    let ghost listed = flag_views(flags@);
    let ghost account = account_id@;
    let ghost id = conversation_id@;
    let length: usize = flags.len();
    let mut i: usize = 0;
    assert(listed.take(0) =~= Seq::empty());
    while i < length
        invariant
            i <= length,
            length == flags@.len(),
            listed == flag_views(flags@),
            account == account_id@,
            id == conversation_id@,
            flag_position(listed.take(i as int), account, id) == i,
            *flags == *old(flags),
        decreases length - i,
    {
        proof {
            assert(listed.take(i + 1).drop_last() =~= listed.take(i as int));
            assert(listed.take(i + 1).last() == flags@[i as int]@);
        }
        if flags[i].account_id.0 == account_id.0 && flags[i].conversation_id.0
            == conversation_id.0 {
            proof {
                lemma_flag_position_stays(listed, account, id, i + 1);
            }
            let merged = PendingMessageFlags {
                account_id,
                conversation_id,
                read: if read.is_some() {
                    read
                } else {
                    flags[i].read
                },
                starred: if starred.is_some() {
                    starred
                } else {
                    flags[i].starred
                },
            };
            let ghost value = merged@;
            flags.set(i, merged);
            assert(flag_views(flags@) =~= listed.update(i as int, value));
            return ;
        }
        i += 1;
    }
    assert(listed.take(i as int) =~= listed);
    let added = PendingMessageFlags { account_id, conversation_id, read, starred };
    let ghost value = added@;
    flags.push(added);
    assert(flag_views(flags@) =~= listed.push(value));
}

/// The moves of one account.
pub open spec fn account_moves(list: Seq<PendingMoveView>, account: Seq<char>) -> Seq<
    PendingMoveView,
>
    decreases list.len(),
{
    if list.len() == 0 {
        Seq::empty()
    } else if list.last().account == account {
        account_moves(list.drop_last(), account).push(list.last())
    } else {
        account_moves(list.drop_last(), account)
    }
}

/// The marks of one account.
pub open spec fn account_flags(list: Seq<PendingFlagsView>, account: Seq<char>) -> Seq<
    PendingFlagsView,
>
    decreases list.len(),
{
    if list.len() == 0 {
        Seq::empty()
    } else if list.last().account == account {
        account_flags(list.drop_last(), account).push(list.last())
    } else {
        account_flags(list.drop_last(), account)
    }
}

/// The moves without those of an account whose messages are in `ids`, or, where `kept`,
/// whose messages are not. Other accounts keep theirs.
pub open spec fn reconciled_moves(
    list: Seq<PendingMoveView>,
    account: Seq<char>,
    ids: Seq<Seq<char>>,
    kept: bool,
) -> Seq<PendingMoveView>
    decreases list.len(),
{
    if list.len() == 0 {
        Seq::empty()
    } else {
        let rest = reconciled_moves(list.drop_last(), account, ids, kept);
        if list.last().account != account || ids.contains(list.last().intent.summary.id) == kept {
            rest.push(list.last())
        } else {
            rest
        }
    }
}

/// The marks without those of an account whose messages are in `ids`. Other accounts keep
/// theirs.
pub open spec fn reconciled_flags(
    list: Seq<PendingFlagsView>,
    account: Seq<char>,
    ids: Seq<Seq<char>>,
) -> Seq<PendingFlagsView>
    decreases list.len(),
{
    if list.len() == 0 {
        Seq::empty()
    } else {
        let rest = reconciled_flags(list.drop_last(), account, ids);
        if list.last().account != account || !ids.contains(list.last().flag.conversation_id) {
            rest.push(list.last())
        } else {
            rest
        }
    }
}

/// A copy of a list of moves, reconciled.
fn reconcile_moves(
    moves: &Vec<PendingMove>,
    account_id: &MailAccountId,
    ids: &Vec<ConversationId>,
    kept: bool,
) -> (left: Vec<PendingMove>)
    ensures
        move_views(left@) == reconciled_moves(
            move_views(moves@),
            account_id@,
            mail::id_views(ids@),
            kept,
        ),
{
    let ghost all = move_views(moves@);
    let ghost named = mail::id_views(ids@);
    let mut left: Vec<PendingMove> = Vec::new();
    let mut i: usize = 0;
    assert(all.take(0) =~= Seq::empty());
    assert(move_views(left@) =~= Seq::empty());
    while i < moves.len()
        invariant
            i <= moves.len(),
            all == move_views(moves@),
            named == mail::id_views(ids@),
            move_views(left@) == reconciled_moves(all.take(i as int), account_id@, named, kept),
        decreases moves.len() - i,
    {
        let ghost before = move_views(left@);
        proof {
            assert(all.take(i + 1).drop_last() =~= all.take(i as int));
            assert(all.take(i + 1).last() == moves@[i as int]@);
        }
        if moves[i].account_id.0 != account_id.0 || mail::lists_id(ids, &moves[i].summary.id)
            == kept {
            left.push(moves[i].clone());
            assert(move_views(left@) =~= before.push(moves@[i as int]@));
        }
        i += 1;
    }
    assert(all.take(i as int) =~= all);
    left
}

/// The moves of one account.
fn select_moves(moves: &Vec<PendingMove>, account_id: &MailAccountId) -> (selected: Vec<
    PendingMove,
>)
    ensures
        move_views(selected@) == account_moves(move_views(moves@), account_id@),
{
    let ghost all = move_views(moves@);
    let mut selected: Vec<PendingMove> = Vec::new();
    let mut i: usize = 0;
    assert(all.take(0) =~= Seq::empty());
    assert(move_views(selected@) =~= Seq::empty());
    while i < moves.len()
        invariant
            i <= moves.len(),
            all == move_views(moves@),
            move_views(selected@) == account_moves(all.take(i as int), account_id@),
        decreases moves.len() - i,
    {
        let ghost before = move_views(selected@);
        proof {
            assert(all.take(i + 1).drop_last() =~= all.take(i as int));
            assert(all.take(i + 1).last() == moves@[i as int]@);
        }
        if moves[i].account_id.0 == account_id.0 {
            selected.push(moves[i].clone());
            assert(move_views(selected@) =~= before.push(moves@[i as int]@));
        }
        i += 1;
    }
    assert(all.take(i as int) =~= all);
    selected
}

/// The marks of one account.
fn select_flags(flags: &Vec<PendingMessageFlags>, account_id: &MailAccountId) -> (selected: Vec<
    PendingMessageFlags,
>)
    ensures
        flag_views(selected@) == account_flags(flag_views(flags@), account_id@),
{
    let ghost all = flag_views(flags@);
    let mut selected: Vec<PendingMessageFlags> = Vec::new();
    let mut i: usize = 0;
    assert(all.take(0) =~= Seq::empty());
    assert(flag_views(selected@) =~= Seq::empty());
    while i < flags.len()
        invariant
            i <= flags.len(),
            all == flag_views(flags@),
            flag_views(selected@) == account_flags(all.take(i as int), account_id@),
        decreases flags.len() - i,
    {
        let ghost before = flag_views(selected@);
        proof {
            assert(all.take(i + 1).drop_last() =~= all.take(i as int));
            assert(all.take(i + 1).last() == flags@[i as int]@);
        }
        if flags[i].account_id.0 == account_id.0 {
            selected.push(flags[i].clone());
            assert(flag_views(selected@) =~= before.push(flags@[i as int]@));
        }
        i += 1;
    }
    assert(all.take(i as int) =~= all);
    selected
}

/// The moves of a list of entries.
pub open spec fn intents_of(list: Seq<PendingMoveView>) -> Seq<MoveView> {
    list.map_values(|pending: PendingMoveView| pending.intent)
}

/// The marks of a list of entries.
pub open spec fn flags_of(list: Seq<PendingFlagsView>) -> Seq<FlagView> {
    list.map_values(|pending: PendingFlagsView| pending.flag)
}

/// A list without entries that repeat the identity of the one before them.
pub open spec fn without_repeats(list: Seq<SummaryView>) -> Seq<SummaryView>
    decreases list.len(),
{
    if list.len() == 0 {
        Seq::empty()
    } else {
        let rest = without_repeats(list.drop_last());
        if rest.len() > 0 && rest.last().id == list.last().id {
            rest
        } else {
            rest.push(list.last())
        }
    }
}

/// The folders as they are shown once a message was moved: it is taken out of every
/// folder, and shown in its destination, where that is loaded, as it was noted.
pub open spec fn moved(map: Map<Seq<char>, Seq<SummaryView>>, intent: MoveView) -> Map<
    Seq<char>,
    Seq<SummaryView>,
> {
    let left = map.map_values(
        |list: Seq<SummaryView>| mailbox::without(list, intent.summary.id),
    );
    if left.contains_key(intent.destination) {
        left.insert(
            intent.destination,
            without_repeats(mail::ranked(left[intent.destination].push(intent.summary))),
        )
    } else {
        left
    }
}

/// The folders as they are shown once all messages were moved, one by one.
pub open spec fn moved_all(map: Map<Seq<char>, Seq<SummaryView>>, moves: Seq<MoveView>) -> Map<
    Seq<char>,
    Seq<SummaryView>,
>
    decreases moves.len(),
{
    if moves.len() == 0 {
        map
    } else {
        moved(moved_all(map, moves.drop_last()), moves.last())
    }
}

fn drop_repeats(list: Vec<ConversationSummary>) -> (kept: Vec<ConversationSummary>)
    ensures
        mail::summaries(kept@) == without_repeats(mail::summaries(list@)),
{
    let ghost all = mail::summaries(list@);
    let mut kept: Vec<ConversationSummary> = Vec::new();
    assert(all.take(0) =~= Seq::empty());
    assert(mail::summaries(kept@) =~= Seq::empty());
    for summary in it: list
        invariant
            all == mail::summaries(it.seq()),
            mail::summaries(kept@) == without_repeats(all.take(it.index())),
    {
        let ghost before = mail::summaries(kept@);
        let ghost value = summary@;
        proof {
            assert(all.take(it.index() + 1).drop_last() =~= all.take(it.index()));
            assert(all.take(it.index() + 1).last() == summary@);
            assert(before.len() == kept@.len());
        }
        let length: usize = kept.len();
        let repeats = length > 0 && kept[length - 1].id.0 == summary.id.0;
        if !repeats {
            kept.push(summary);
            assert(mail::summaries(kept@) =~= before.push(value));
        }
    }
    assert(all.take(all.len() as int) =~= all);
    kept
}

/// Shows the folders as they are once the messages of an account were moved.
pub fn apply_move_overlay(
    account_id: &MailAccountId,
    pending_moves: &Vec<PendingMove>,
    conversations: &mut MailboxConversations,
)
    ensures
        final(conversations)@ == moved_all(
            old(conversations)@,
            intents_of(account_moves(move_views(pending_moves@), account_id@)),
        ),
        final(conversations).order() == old(conversations).order(),
{
    let selected = select_moves(pending_moves, account_id);
    let ghost start = conversations@;
    let ghost order = conversations.order();
    let ghost moves = intents_of(move_views(selected@));
    let mut i: usize = 0;
    assert(moves.take(0) =~= Seq::empty());
    while i < selected.len()
        invariant
            i <= selected.len(),
            moves == intents_of(move_views(selected@)),
            conversations.order() == order,
            conversations@ == moved_all(start, moves.take(i as int)),
        decreases selected.len() - i,
    {
        let pending = &selected[i];
        proof {
            assert(moves.take(i + 1).drop_last() =~= moves.take(i as int));
            assert(moves.take(i + 1).last() == selected@[i as int]@.intent);
        }
        conversations.remove_everywhere(&pending.summary.id);
        let destination = match conversations.get(&pending.destination_folder_id) {
            Some(rows) => Some(mail::clone_summaries(rows)),
            None => None,
        };
        if let Some(rows) = destination {
            let mut rows = rows;
            let ghost listed = mail::summaries(rows@);
            rows.push(pending.summary.clone());
            assert(mail::summaries(rows@) =~= listed.push(pending@.intent.summary));
            mail::sort_conversations(&mut rows);
            conversations.insert(pending.destination_folder_id.clone(), drop_repeats(rows));
        }
        i += 1;
    }
    assert(moves.take(i as int) =~= moves);
}

/// Shows the folders as they are once the messages of an account were marked.
pub fn apply_flag_overlay(
    account_id: &MailAccountId,
    pending: &Vec<PendingMessageFlags>,
    conversations: &mut MailboxConversations,
)
    ensures
        final(conversations)@ == old(conversations)@.map_values(
            |list: Seq<SummaryView>|
                actions::flagged(
                    list,
                    flags_of(account_flags(flag_views(pending@), account_id@)),
                ),
        ),
        final(conversations).order() == old(conversations).order(),
{
    let selected = select_flags(pending, account_id);
    let mut flags: Vec<MessageFlagIntent> = Vec::new();
    let ghost all = flags_of(flag_views(selected@));
    let mut i: usize = 0;
    assert(actions::flag_views(flags@) =~= all.take(0));
    while i < selected.len()
        invariant
            i <= selected.len(),
            all == flags_of(flag_views(selected@)),
            actions::flag_views(flags@) == all.take(i as int),
        decreases selected.len() - i,
    {
        let ghost before = actions::flag_views(flags@);
        flags.push(
            MessageFlagIntent {
                conversation_id: selected[i].conversation_id.clone(),
                read: selected[i].read,
                starred: selected[i].starred,
            },
        );
        proof {
            assert(actions::flag_views(flags@) =~= before.push(selected@[i as int]@.flag));
            assert(all.take(i + 1) =~= before.push(selected@[i as int]@.flag));
        }
        i += 1;
    }
    assert(all.take(i as int) =~= all);
    actions::apply_flags_everywhere(&flags, conversations);
}

/// The journal could not be read, so it is not written.
#[derive(Debug, Clone, Copy, PartialEq, Eq, Structural)]
pub enum JournalUnavailable {
    Moves,
    Flags,
}

impl JournalUnavailable {
    /// What is reported.
    pub fn message(self) -> (message: &'static str)
        ensures
            message@ == (match self {
                JournalUnavailable::Moves => "pending move local cache journal is unavailable"@,
                JournalUnavailable::Flags => "pending flag local cache journal is unavailable"@,
            }),
    {
        match self {
            JournalUnavailable::Moves => "pending move local cache journal is unavailable",
            JournalUnavailable::Flags => "pending flag local cache journal is unavailable",
        }
    }
}

/// The journal of changes that the provider has not been told of.
#[derive(Debug)]
pub struct PendingMailActionStore {
    pub moves: Vec<PendingMove>,
    pub moves_available: bool,
    pub flags: Vec<PendingMessageFlags>,
    pub flags_available: bool,
}

impl PendingMailActionStore {
    /// The journal as it was read. A part that could not be read is `None`: it counts as
    /// empty, and is not written.
    pub fn open(
        moves: Option<Vec<PendingMove>>,
        flags: Option<Vec<PendingMessageFlags>>,
    ) -> (store: Self)
        ensures
            store.moves_available == moves is Some,
            move_views(store.moves@) == (match moves {
                Some(moves) => move_views(moves@),
                None => Seq::empty(),
            }),
            store.flags_available == flags is Some,
            flag_views(store.flags@) == (match flags {
                Some(flags) => flag_views(flags@),
                None => Seq::empty(),
            }),
    {
        let moves_available = moves.is_some();
        let flags_available = flags.is_some();
        let moves = match moves {
            Some(moves) => moves,
            None => Vec::new(),
        };
        let flags = match flags {
            Some(flags) => flags,
            None => Vec::new(),
        };
        let store = PendingMailActionStore { moves, moves_available, flags, flags_available };
        assert(!moves_available ==> move_views(store.moves@) =~= Seq::empty());
        assert(!flags_available ==> flag_views(store.flags@) =~= Seq::empty());
        store
    }

    /// The moves of an account.
    pub fn for_account(&self, account_id: &MailAccountId) -> (moves: Vec<PendingMove>)
        ensures
            move_views(moves@) == account_moves(move_views(self.moves@), account_id@),
    {
        select_moves(&self.moves, account_id)
    }

    /// The marks of an account.
    pub fn flags_for_account(&self, account_id: &MailAccountId) -> (flags: Vec<
        PendingMessageFlags,
    >)
        ensures
            flag_views(flags@) == account_flags(flag_views(self.flags@), account_id@),
    {
        select_flags(&self.flags, account_id)
    }

    /// The moves to write once a message is to be moved.
    pub fn queue_move(&self, pending: PendingMove) -> (next: Result<
        Vec<PendingMove>,
        JournalUnavailable,
    >)
        ensures
            match next {
                Ok(next) => self.moves_available && move_views(next@) == with_move(
                    move_views(self.moves@),
                    pending@,
                ),
                Err(error) => !self.moves_available && error == JournalUnavailable::Moves,
            },
    {
        if !self.moves_available {
            return Err(JournalUnavailable::Moves);
        }
        let mut next = clone_pending_moves(&self.moves);
        upsert_move(&mut next, pending);
        Ok(next)
    }

    /// The marks to write once a message is to be marked as read or unread.
    pub fn queue_read(
        &self,
        account_id: MailAccountId,
        conversation_id: ConversationId,
        read: bool,
    ) -> (next: Result<Vec<PendingMessageFlags>, JournalUnavailable>)
        ensures
            match next {
                Ok(next) => self.flags_available && flag_views(next@) == with_flags(
                    flag_views(self.flags@),
                    account_id@,
                    conversation_id@,
                    Some(read),
                    None,
                ),
                Err(error) => !self.flags_available && error == JournalUnavailable::Flags,
            },
    {
        if !self.flags_available {
            return Err(JournalUnavailable::Flags);
        }
        let mut next = clone_pending_flags(&self.flags);
        upsert_flags(&mut next, account_id, conversation_id, Some(read), None);
        Ok(next)
    }

    /// The marks to write once a message is to be marked as starred or not.
    pub fn queue_starred(
        &self,
        account_id: MailAccountId,
        conversation_id: ConversationId,
        starred: bool,
    ) -> (next: Result<Vec<PendingMessageFlags>, JournalUnavailable>)
        ensures
            match next {
                Ok(next) => self.flags_available && flag_views(next@) == with_flags(
                    flag_views(self.flags@),
                    account_id@,
                    conversation_id@,
                    None,
                    Some(starred),
                ),
                Err(error) => !self.flags_available && error == JournalUnavailable::Flags,
            },
    {
        if !self.flags_available {
            return Err(JournalUnavailable::Flags);
        }
        let mut next = clone_pending_flags(&self.flags);
        upsert_flags(&mut next, account_id, conversation_id, None, Some(starred));
        Ok(next)
    }

    /// The marks to write once the provider was told of those of `completed`.
    pub fn remove_completed_flags(
        &self,
        account_id: &MailAccountId,
        completed: &Vec<ConversationId>,
    ) -> (next: Result<Vec<PendingMessageFlags>, JournalUnavailable>)
        ensures
            match next {
                Ok(next) => self.flags_available && flag_views(next@) == reconciled_flags(
                    flag_views(self.flags@),
                    account_id@,
                    mail::id_views(completed@),
                ),
                Err(error) => !self.flags_available && error == JournalUnavailable::Flags,
            },
    {
        if !self.flags_available {
            return Err(JournalUnavailable::Flags);
        }
        let ghost all = flag_views(self.flags@);
        let ghost named = mail::id_views(completed@);
        let mut next: Vec<PendingMessageFlags> = Vec::new();
        let mut i: usize = 0;
        assert(all.take(0) =~= Seq::empty());
        assert(flag_views(next@) =~= Seq::empty());
        while i < self.flags.len()
            invariant
                i <= self.flags.len(),
                all == flag_views(self.flags@),
                named == mail::id_views(completed@),
                flag_views(next@) == reconciled_flags(all.take(i as int), account_id@, named),
            decreases self.flags.len() - i,
        {
            let ghost before = flag_views(next@);
            proof {
                assert(all.take(i + 1).drop_last() =~= all.take(i as int));
                assert(all.take(i + 1).last() == self.flags@[i as int]@);
            }
            if self.flags[i].account_id.0 != account_id.0 || !mail::lists_id(
                completed,
                &self.flags[i].conversation_id,
            ) {
                next.push(self.flags[i].clone());
                assert(flag_views(next@) =~= before.push(self.flags@[i as int]@));
            }
            i += 1;
        }
        assert(all.take(i as int) =~= all);
        Ok(next)
    }

    /// The moves to write once those of `completed` were carried out.
    pub fn remove_completed(
        &self,
        account_id: &MailAccountId,
        completed: &Vec<ConversationId>,
    ) -> (next: Result<Vec<PendingMove>, JournalUnavailable>)
        ensures
            match next {
                Ok(next) => self.moves_available && move_views(next@) == reconciled_moves(
                    move_views(self.moves@),
                    account_id@,
                    mail::id_views(completed@),
                    false,
                ),
                Err(error) => !self.moves_available && error == JournalUnavailable::Moves,
            },
    {
        if !self.moves_available {
            return Err(JournalUnavailable::Moves);
        }
        Ok(reconcile_moves(&self.moves, account_id, completed, false))
    }

    /// The moves to write once it is known which messages the provider still has where
    /// they were: the others were moved.
    pub fn discard_missing_remote_sources(
        &self,
        account_id: &MailAccountId,
        remote_ids: &Vec<ConversationId>,
    ) -> (next: Result<Vec<PendingMove>, JournalUnavailable>)
        ensures
            match next {
                Ok(next) => self.moves_available && move_views(next@) == reconciled_moves(
                    move_views(self.moves@),
                    account_id@,
                    mail::id_views(remote_ids@),
                    true,
                ),
                Err(error) => !self.moves_available && error == JournalUnavailable::Moves,
            },
    {
        if !self.moves_available {
            return Err(JournalUnavailable::Moves);
        }
        Ok(reconcile_moves(&self.moves, account_id, remote_ids, true))
    }

    /// Keeps the moves that were written.
    pub fn commit_moves(&mut self, next: Vec<PendingMove>)
        ensures
            final(self).moves == next,
            final(self).moves_available == old(self).moves_available,
            final(self).flags == old(self).flags,
            final(self).flags_available == old(self).flags_available,
    {
        self.moves = next;
    }

    /// Keeps the marks that were written.
    pub fn commit_flags(&mut self, next: Vec<PendingMessageFlags>)
        ensures
            final(self).flags == next,
            final(self).flags_available == old(self).flags_available,
            final(self).moves == old(self).moves,
            final(self).moves_available == old(self).moves_available,
    {
        self.flags = next;
    }
}

fn clone_pending_moves(list: &Vec<PendingMove>) -> (r: Vec<PendingMove>)
    ensures
        move_views(r@) == move_views(list@),
{
    let mut r: Vec<PendingMove> = Vec::new();
    let mut i: usize = 0;
    assert(move_views(r@) =~= move_views(list@).take(0));
    while i < list.len()
        invariant
            i <= list.len(),
            move_views(r@) == move_views(list@).take(i as int),
        decreases list.len() - i,
    {
        let ghost before = move_views(r@);
        r.push(list[i].clone());
        proof {
            assert(move_views(r@) =~= before.push(list@[i as int]@));
            assert(move_views(list@).take(i + 1) =~= before.push(list@[i as int]@));
        }
        i += 1;
    }
    assert(move_views(list@).take(i as int) =~= move_views(list@));
    r
}

fn clone_pending_flags(list: &Vec<PendingMessageFlags>) -> (r: Vec<PendingMessageFlags>)
    ensures
        flag_views(r@) == flag_views(list@),
{
    let mut r: Vec<PendingMessageFlags> = Vec::new();
    let mut i: usize = 0;
    assert(flag_views(r@) =~= flag_views(list@).take(0));
    while i < list.len()
        invariant
            i <= list.len(),
            flag_views(r@) == flag_views(list@).take(i as int),
        decreases list.len() - i,
    {
        let ghost before = flag_views(r@);
        r.push(list[i].clone());
        proof {
            assert(flag_views(r@) =~= before.push(list@[i as int]@));
            assert(flag_views(list@).take(i + 1) =~= before.push(list@[i as int]@));
        }
        i += 1;
    }
    assert(flag_views(list@).take(i as int) =~= flag_views(list@));
    r
}

/// Whatever is reconciled for an account, the entries of other accounts stay.
pub proof fn lemma_reconciliation_is_scoped(
    list: Seq<PendingMoveView>,
    account: Seq<char>,
    ids: Seq<Seq<char>>,
    kept: bool,
    other: Seq<char>,
)
    requires
        other != account,
    ensures
        account_moves(reconciled_moves(list, account, ids, kept), other) == account_moves(
            list,
            other,
        ),
    decreases list.len(),
{
    if list.len() > 0 {
        let rest = reconciled_moves(list.drop_last(), account, ids, kept);
        lemma_reconciliation_is_scoped(list.drop_last(), account, ids, kept, other);
        assert(rest.push(list.last()).drop_last() =~= rest);
    }
}

/// What the moves bring into a folder.
pub open spec fn arrivals(moves: Seq<MoveView>, folder: Seq<char>) -> Seq<SummaryView>
    decreases moves.len(),
{
    if moves.len() == 0 {
        Seq::empty()
    } else if moves.last().destination == folder {
        arrivals(moves.drop_last(), folder).push(moves.last().summary)
    } else {
        arrivals(moves.drop_last(), folder)
    }
}

/// What a folder holds once all moves are carried out: the rows that no move concerns and,
/// in their places among them, those that the moves bring in.
pub open spec fn settled(
    map: Map<Seq<char>, Seq<SummaryView>>,
    moves: Seq<MoveView>,
    folder: Seq<char>,
) -> Seq<SummaryView> {
    let staying = projection::unmoved(map[folder], moves);
    let coming = arrivals(moves, folder);
    if coming.len() == 0 {
        staying
    } else {
        mail::ranked(staying + coming)
    }
}

/// Whether no folder lists a message twice.
pub open spec fn each_listed_once(map: Map<Seq<char>, Seq<SummaryView>>) -> bool {
    forall|folder: Seq<char>| #[trigger]
        map.contains_key(folder) ==> mail::unique_ids(map[folder])
}

proof fn lemma_without_is_filter(list: Seq<SummaryView>, id: Seq<char>)
    ensures
        mailbox::without(list, id) == list.filter(|summary: SummaryView| summary.id != id),
    decreases list.len(),
{
    reveal(Seq::filter);
    if list.len() > 0 {
        lemma_without_is_filter(list.drop_last(), id);
    } else {
        assert(mailbox::without(list, id) =~= list.filter(
            |summary: SummaryView| summary.id != id,
        ));
    }
}

proof fn lemma_no_repeats(list: Seq<SummaryView>)
    requires
        mail::unique_ids(list),
    ensures
        without_repeats(list) == list,
    decreases list.len(),
{
    if list.len() > 0 {
        let rest = list.drop_last();
        assert forall|i: int, j: int|
            #![trigger rest[i], rest[j]]
            0 <= i < j < rest.len() implies rest[i].id != rest[j].id by {
            assert(list[i].id != list[j].id);
        }
        lemma_no_repeats(rest);
        if rest.len() > 0 {
            assert(list[rest.len() - 1].id != list[list.len() - 1].id);
        }
        assert(list =~= rest.push(list.last()));
    }
}

proof fn lemma_arrivals(moves: Seq<MoveView>, folder: Seq<char>)
    requires
        actions::distinct_moves(moves),
    ensures
        mail::unique_ids(arrivals(moves, folder)),
        forall|k: int|
            0 <= k < arrivals(moves, folder).len() ==> actions::moves_message(
                moves,
                #[trigger] arrivals(moves, folder)[k].id,
            ),
    decreases moves.len(),
{
    if moves.len() > 0 {
        let rest = moves.drop_last();
        let before = arrivals(rest, folder);
        let all = arrivals(moves, folder);
        projection::lemma_distinct_rest(moves);
        lemma_arrivals(rest, folder);
        assert forall|k: int| 0 <= k < all.len() implies actions::moves_message(
            moves,
            #[trigger] all[k].id,
        ) by {
            projection::lemma_moves_message_last(moves, all[k].id);
            if k < before.len() {
                assert(all[k] == before[k]);
            }
        }
        if moves.last().destination == folder {
            let id = moves.last().summary.id;
            if mail::has_id(before, id) {
                let k = choose|k: int| 0 <= k < before.len() && #[trigger] before[k].id == id;
                assert(actions::moves_message(rest, before[k].id));
            }
            projection::lemma_unique_push(before, moves.last().summary);
        }
    }
}

proof fn lemma_settled_once(
    map: Map<Seq<char>, Seq<SummaryView>>,
    moves: Seq<MoveView>,
    folder: Seq<char>,
)
    requires
        actions::distinct_moves(moves),
        mail::unique_ids(map[folder]),
    ensures
        mail::unique_ids(projection::unmoved(map[folder], moves) + arrivals(moves, folder)),
        mail::unique_ids(settled(map, moves, folder)),
{
    let keep = |summary: SummaryView| !actions::moves_message(moves, summary.id);
    let staying = projection::unmoved(map[folder], moves);
    let coming = arrivals(moves, folder);
    lemma_arrivals(moves, folder);
    projection::lemma_unique_filter(map[folder], keep);
    assert forall|i: int| 0 <= i < coming.len() implies !mail::has_id(
        staying,
        #[trigger] coming[i].id,
    ) by {
        assert(actions::moves_message(moves, coming[i].id));
        if mail::has_id(staying, coming[i].id) {
            let k = choose|k: int| 0 <= k < staying.len() && #[trigger] staying[k].id == coming[i].id;
            assert(staying.contains(staying[k]));
            projection::lemma_filter_contains(map[folder], keep, staying[k]);
        }
    }
    projection::lemma_unique_concat(staying, coming);
    mail::lemma_ranked_ids(staying + coming);
}

proof fn lemma_leaving(
    map: Map<Seq<char>, Seq<SummaryView>>,
    moves: Seq<MoveView>,
    folder: Seq<char>,
)
    requires
        moves.len() > 0,
        actions::distinct_moves(moves),
    ensures
        ({
            let before = arrivals(moves.drop_last(), folder);
            let staying = projection::unmoved(map[folder], moves);
            mailbox::without(settled(map, moves.drop_last(), folder), moves.last().summary.id) == (
            if before.len() == 0 {
                staying
            } else {
                mail::ranked(staying + before)
            })
        }),
{
    let id = moves.last().summary.id;
    let rest = moves.drop_last();
    let before = arrivals(rest, folder);
    let staying = projection::unmoved(map[folder], moves);
    let earlier = projection::unmoved(map[folder], rest);
    let rows = settled(map, rest, folder);
    let other = |summary: SummaryView| summary.id != id;
    let keep = |summary: SummaryView| !actions::moves_message(rest, summary.id);
    let keep_all = |summary: SummaryView| !actions::moves_message(moves, summary.id);
    let both = |summary: SummaryView| keep(summary) && other(summary);
    lemma_without_is_filter(rows, id);
    projection::lemma_distinct_rest(moves);
    lemma_arrivals(rest, folder);
    projection::lemma_filter_twice(map[folder], keep, other);
    assert forall|i: int| 0 <= i < map[folder].len() implies both(#[trigger] map[folder][i])
        == keep_all(map[folder][i]) by {
        projection::lemma_moves_message_last(moves, map[folder][i].id);
    }
    projection::lemma_filter_same(map[folder], both, keep_all);
    assert(earlier.filter(other) == staying);
    assert forall|i: int| 0 <= i < before.len() implies other(#[trigger] before[i]) by {
        assert(actions::moves_message(rest, before[i].id));
    }
    projection::lemma_filter_all(before, other);
    Seq::filter_distributes_over_add(earlier, before, other);
    mail::lemma_ranked_filter(earlier + before, other);
}

/// Moves, carried out one by one, leave each folder with the rows that no move concerns
/// and, in their places among them, those that the moves bring in.
pub proof fn lemma_moves_settle(map: Map<Seq<char>, Seq<SummaryView>>, moves: Seq<MoveView>)
    requires
        each_listed_once(map),
        actions::distinct_moves(moves),
    ensures
        moved_all(map, moves).dom() == map.dom(),
        forall|folder: Seq<char>| #[trigger]
            map.contains_key(folder) ==> moved_all(map, moves)[folder] == settled(
                map,
                moves,
                folder,
            ),
    decreases moves.len(),
{
    if moves.len() == 0 {
        assert forall|folder: Seq<char>| #[trigger] map.contains_key(folder) implies map[folder]
            == settled(map, moves, folder) by {
            let keep = |summary: SummaryView| !actions::moves_message(moves, summary.id);
            assert forall|i: int| 0 <= i < map[folder].len() implies keep(
                #[trigger] map[folder][i],
            ) by {}
            projection::lemma_filter_all(map[folder], keep);
        }
    } else {
        let rest = moves.drop_last();
        let intent = moves.last();
        projection::lemma_distinct_rest(moves);
        lemma_moves_settle(map, rest);
        let current = moved_all(map, rest);
        assert forall|folder: Seq<char>| #[trigger] map.contains_key(folder) implies moved_all(
            map,
            moves,
        )[folder] == settled(map, moves, folder) by {
            let before = arrivals(rest, folder);
            let staying = projection::unmoved(map[folder], moves);
            assert(current.contains_key(folder));
            lemma_leaving(map, moves, folder);
            if folder == intent.destination {
                let rows = mailbox::without(current[folder], intent.summary.id);
                lemma_settled_once(map, moves, folder);
                assert(staying + before.push(intent.summary) =~= (staying + before).push(
                    intent.summary,
                ));
                mail::lemma_ranked_ids((staying + before).push(intent.summary));
                if before.len() == 0 {
                    assert(staying + before =~= staying);
                } else {
                    assert(rows.push(intent.summary) =~= rows + seq![intent.summary]);
                    mail::lemma_ranked_concat(staying + before, seq![intent.summary]);
                    assert((staying + before) + seq![intent.summary] =~= (staying + before).push(
                        intent.summary,
                    ));
                }
                lemma_no_repeats(mail::ranked((staying + before).push(intent.summary)));
            }
        }
        assert(moved_all(map, moves).dom() =~= map.dom());
    }
}

/// Carrying out moves that were carried out changes nothing.
pub proof fn lemma_moving_again_changes_nothing(
    map: Map<Seq<char>, Seq<SummaryView>>,
    moves: Seq<MoveView>,
)
    requires
        each_listed_once(map),
        actions::distinct_moves(moves),
    ensures
        moved_all(moved_all(map, moves), moves) == moved_all(map, moves),
{
    let after = moved_all(map, moves);
    lemma_moves_settle(map, moves);
    assert forall|folder: Seq<char>| #[trigger] after.contains_key(folder) implies mail::unique_ids(
        after[folder],
    ) by {
        assert(map.contains_key(folder));
        lemma_settled_once(map, moves, folder);
    }
    lemma_moves_settle(after, moves);
    let again = moved_all(after, moves);
    assert forall|folder: Seq<char>| #[trigger] map.contains_key(folder) implies again[folder]
        == after[folder] by {
        assert(after.contains_key(folder));
        let keep = |summary: SummaryView| !actions::moves_message(moves, summary.id);
        let staying = projection::unmoved(map[folder], moves);
        let coming = arrivals(moves, folder);
        lemma_arrivals(moves, folder);
        assert forall|i: int| 0 <= i < staying.len() implies keep(#[trigger] staying[i]) by {
            assert(staying.contains(staying[i]));
            projection::lemma_filter_contains(map[folder], keep, staying[i]);
        }
        projection::lemma_filter_all(staying, keep);
        assert forall|i: int| 0 <= i < coming.len() implies !keep(#[trigger] coming[i]) by {
            assert(actions::moves_message(moves, coming[i].id));
        }
        projection::lemma_filter_none(coming, keep);
        Seq::filter_distributes_over_add(staying, coming, keep);
        mail::lemma_ranked_filter(staying + coming, keep);
        assert(staying + Seq::<SummaryView>::empty() =~= staying);
        mail::lemma_ranked_concat(staying, coming);
    }
    assert(again =~= after);
}

} // verus!
