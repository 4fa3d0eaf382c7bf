//! The conversations of an account, folder by folder.
use crate::model::mail;
use crate::model::mail::{ConversationId, ConversationSummary, FolderId, SummaryView};
use vstd::prelude::*;

verus! {

/// The conversations of one folder.
#[derive(Debug)]
pub struct MailboxEntry {
    pub folder_id: FolderId,
    pub conversations: Vec<ConversationSummary>,
}

/// The conversations of the folders that were loaded.
#[derive(Debug)]
pub struct MailboxConversations {
    entries: Vec<MailboxEntry>,
}

/// Whether one of `entries` is the folder `id`.
spec fn lists_folder(entries: Seq<MailboxEntry>, id: Seq<char>) -> bool {
    exists|i: int| 0 <= i < entries.len() && (#[trigger] entries[i]).folder_id@ == id
}

/// Where the folder `id` stands.
spec fn folder_position(entries: Seq<MailboxEntry>, id: Seq<char>) -> int {
    choose|i: int| 0 <= i < entries.len() && (#[trigger] entries[i]).folder_id@ == id
}

spec fn distinct_folders(entries: Seq<MailboxEntry>) -> bool {
    forall|i: int, j: int|
        #![trigger entries[i], entries[j]]
        0 <= i < j < entries.len() ==> entries[i].folder_id@ != entries[j].folder_id@
}

spec fn folder_map(entries: Seq<MailboxEntry>) -> Map<Seq<char>, Seq<SummaryView>> {
    Map::new(
        |id: Seq<char>| lists_folder(entries, id),
        |id: Seq<char>|
            mail::summaries(entries[folder_position(entries, id)].conversations@),
    )
}

proof fn lemma_folder_at(entries: Seq<MailboxEntry>, i: int)
    requires
        distinct_folders(entries),
        0 <= i < entries.len(),
    ensures
        lists_folder(entries, entries[i].folder_id@),
        folder_position(entries, entries[i].folder_id@) == i,
        folder_map(entries).contains_key(entries[i].folder_id@),
        folder_map(entries)[entries[i].folder_id@] == mail::summaries(entries[i].conversations@),
{
    let at = folder_position(entries, entries[i].folder_id@);
    assert(entries[at].folder_id@ == entries[i].folder_id@);
    if at < i {
        assert(entries[at].folder_id@ != entries[i].folder_id@);
    } else if i < at {
        assert(entries[i].folder_id@ != entries[at].folder_id@);
    }
}

/// The conversations other than `id`, in order.
pub open spec fn without(list: Seq<SummaryView>, id: Seq<char>) -> Seq<SummaryView>
    decreases list.len(),
{
    if list.len() == 0 {
        Seq::empty()
    } else if list.last().id == id {
        without(list.drop_last(), id)
    } else {
        without(list.drop_last(), id).push(list.last())
    }
}

/// Whether a folder holds the conversation `id`.
pub open spec fn holds(map: Map<Seq<char>, Seq<SummaryView>>, id: Seq<char>) -> bool {
    exists|folder: Seq<char>| #[trigger] map.contains_key(folder) && mail::has_id(map[folder], id)
}

/// The first of the folders in `order` that holds the conversation `id`.
pub open spec fn holder(
    map: Map<Seq<char>, Seq<SummaryView>>,
    order: Seq<Seq<char>>,
    id: Seq<char>,
) -> Option<Seq<char>>
    decreases order.len(),
{
    if order.len() == 0 {
        None
    } else {
        match holder(map, order.drop_last(), id) {
            Some(folder) => Some(folder),
            None => if mail::has_id(map[order.last()], id) {
                Some(order.last())
            } else {
                None
            },
        }
    }
}

/// Where the first entry with the identity `id` stands.
pub open spec fn position(list: Seq<SummaryView>, id: Seq<char>) -> int
    decreases list.len(),
{
    if list.len() == 0 {
        -1
    } else if mail::has_id(list.drop_last(), id) {
        position(list.drop_last(), id)
    } else {
        list.len() - 1
    }
}

/// The position of an entry is that of the first with its identity.
pub proof fn lemma_position(list: Seq<SummaryView>, id: Seq<char>)
    requires
        mail::has_id(list, id),
    ensures
        0 <= position(list, id) < list.len(),
        list[position(list, id)].id == id,
        forall|j: int| 0 <= j < position(list, id) ==> #[trigger] list[j].id != id,
    decreases list.len(),
{
    let rest = list.drop_last();
    if mail::has_id(rest, id) {
        lemma_position(rest, id);
        assert forall|j: int| 0 <= j < position(list, id) implies #[trigger] list[j].id != id by {
            assert(rest[j].id != id);
        }
    } else {
        let i = choose|i: int| 0 <= i < list.len() && #[trigger] list[i].id == id;
        if i < rest.len() {
            assert(rest[i].id == id);
        }
        assert forall|j: int| 0 <= j < rest.len() implies #[trigger] list[j].id != id by {
            if list[j].id == id {
                assert(rest[j].id == id);
            }
        }
    }
}

proof fn lemma_position_is(list: Seq<SummaryView>, id: Seq<char>, k: int)
    requires
        0 <= k < list.len(),
        list[k].id == id,
        forall|j: int| 0 <= j < k ==> #[trigger] list[j].id != id,
    ensures
        mail::has_id(list, id),
        position(list, id) == k,
{
    lemma_position(list, id);
    let at = position(list, id);
    if at < k {
        assert(list[at].id != id);
    }
}

/// Whether the folders fit together: each conversation is shown in the folder that lists
/// it, and none is listed twice.
pub open spec fn consistent(map: Map<Seq<char>, Seq<SummaryView>>) -> bool {
    &&& forall|folder: Seq<char>, i: int|
        #![trigger map[folder][i]]
        map.contains_key(folder) && 0 <= i < map[folder].len() ==> map[folder][i].folder_id
            == folder
    &&& forall|folder: Seq<char>| #[trigger]
        map.contains_key(folder) ==> mail::unique_ids(map[folder])
    &&& forall|folder: Seq<char>, other: Seq<char>, id: Seq<char>|
        #![trigger mail::has_id(map[folder], id), mail::has_id(map[other], id)]
        map.contains_key(folder) && map.contains_key(other) && mail::has_id(map[folder], id)
            && mail::has_id(map[other], id) ==> folder == other
}

/// Whether `order` names the folders.
pub open spec fn ordered_by(
    map: Map<Seq<char>, Seq<SummaryView>>,
    order: Seq<Seq<char>>,
) -> bool {
    forall|id: Seq<char>| #[trigger] map.contains_key(id) <==> order.contains(id)
}

/// A folder is found only if it holds the conversation, and one is found if one does.
pub proof fn lemma_holder(
    map: Map<Seq<char>, Seq<SummaryView>>,
    order: Seq<Seq<char>>,
    id: Seq<char>,
)
    ensures
        match holder(map, order, id) {
            Some(folder) => order.contains(folder) && mail::has_id(map[folder], id),
            None => forall|folder: Seq<char>| #[trigger]
                order.contains(folder) ==> !mail::has_id(map[folder], id),
        },
    decreases order.len(),
{
    if order.len() > 0 {
        let rest = order.drop_last();
        lemma_holder(map, rest, id);
        match holder(map, rest, id) {
            Some(folder) => {
                let i = choose|i: int| 0 <= i < rest.len() && rest[i] == folder;
                assert(order[i] == folder);
            },
            None => {
                assert(order[order.len() - 1] == order.last());
                assert forall|folder: Seq<char>| #[trigger]
                    order.contains(folder) && folder != order.last() implies !mail::has_id(
                    map[folder],
                    id,
                ) by {
                    let i = choose|i: int| 0 <= i < order.len() && order[i] == folder;
                    assert(rest[i] == folder);
                    assert(rest.contains(folder));
                }
            },
        }
    }
}

/// Which folder is found depends only on which folders hold the conversation.
pub proof fn lemma_holder_is_the_same(
    map: Map<Seq<char>, Seq<SummaryView>>,
    other: Map<Seq<char>, Seq<SummaryView>>,
    order: Seq<Seq<char>>,
    id: Seq<char>,
)
    requires
        forall|i: int|
            0 <= i < order.len() ==> mail::has_id(map[#[trigger] order[i]], id) == mail::has_id(
                other[order[i]],
                id,
            ),
    ensures
        holder(map, order, id) == holder(other, order, id),
    decreases order.len(),
{
    if order.len() > 0 {
        let rest = order.drop_last();
        assert forall|i: int| 0 <= i < rest.len() implies mail::has_id(
            map[#[trigger] rest[i]],
            id,
        ) == mail::has_id(other[rest[i]], id) by {
            assert(rest[i] == order[i]);
        }
        lemma_holder_is_the_same(map, other, rest, id);
        assert(order[order.len() - 1] == order.last());
    }
}

/// The folders of `order` without `id`.
pub open spec fn without_folder(order: Seq<Seq<char>>, id: Seq<char>) -> Seq<Seq<char>>
    decreases order.len(),
{
    if order.len() == 0 {
        Seq::empty()
    } else if order.last() == id {
        without_folder(order.drop_last(), id)
    } else {
        without_folder(order.drop_last(), id).push(order.last())
    }
}

proof fn lemma_without_absent_folder(order: Seq<Seq<char>>, id: Seq<char>)
    requires
        !order.contains(id),
    ensures
        without_folder(order, id) == order,
    decreases order.len(),
{
    if order.len() > 0 {
        assert(order[order.len() - 1] != id);
        assert forall|i: int| 0 <= i < order.drop_last().len() implies order.drop_last()[i] != id by {
            assert(order[i] != id);
        }
        lemma_without_absent_folder(order.drop_last(), id);
        assert(order =~= order.drop_last().push(order.last()));
    } else {
        assert(without_folder(order, id) =~= order);
    }
}

proof fn lemma_without_folder_at(order: Seq<Seq<char>>, at: int)
    requires
        0 <= at < order.len(),
        forall|i: int, j: int|
            #![trigger order[i], order[j]]
            0 <= i < j < order.len() ==> order[i] != order[j],
    ensures
        without_folder(order, order[at]) == order.remove(at),
    decreases order.len(),
{
    let rest = order.drop_last();
    let id = order[at];
    if at == order.len() - 1 {
        assert forall|i: int| 0 <= i < rest.len() implies rest[i] != id by {
            assert(order[i] != order[at]);
        }
        lemma_without_absent_folder(rest, id);
        assert(order.remove(at) =~= rest);
    } else {
        assert(rest[at] == id);
        assert(order[at] != order[order.len() - 1]);
        assert forall|i: int, j: int|
            #![trigger rest[i], rest[j]]
            0 <= i < j < rest.len() implies rest[i] != rest[j] by {
            assert(order[i] != order[j]);
        }
        lemma_without_folder_at(rest, at);
        assert(order.remove(at) =~= rest.remove(at).push(order.last()));
    }
}

/// Takes the conversation `id` out of a list.
pub fn remove_conversation(list: &mut Vec<ConversationSummary>, id: &ConversationId)
    ensures
        mail::summaries(final(list)@) == without(mail::summaries(old(list)@), id@),
{
    let mut pending: Vec<ConversationSummary> = Vec::new();
    std::mem::swap(list, &mut pending);
    let ghost all = mail::summaries(pending@);
    for summary in it: pending
        invariant
            all == mail::summaries(it.seq()),
            mail::summaries(list@) == without(all.take(it.index()), id@),
    {
        let ghost before = mail::summaries(list@);
        proof {
            assert(all.take(it.index() + 1).drop_last() =~= all.take(it.index()));
            assert(all.take(it.index() + 1).last() == summary@);
        }
        if summary.id.0 != id.0 {
            list.push(summary);
            assert(mail::summaries(list@) =~= before.push(summary@));
        }
    }
    assert(all.take(all.len() as int) =~= all);
}

impl View for MailboxConversations {
    type V = Map<Seq<char>, Seq<SummaryView>>;

    closed spec fn view(&self) -> Map<Seq<char>, Seq<SummaryView>> {
        folder_map(self.entries@)
    }
}

/// The names of `entries`.
spec fn names(entries: Seq<MailboxEntry>) -> Seq<Seq<char>> {
    entries.map_values(|entry: MailboxEntry| entry.folder_id@)
}

impl MailboxConversations {
    #[verifier::type_invariant]
    spec fn well_formed(self) -> bool {
        distinct_folders(self.entries@)
    }

    /// The names of the loaded folders, in the order in which they were loaded.
    pub closed spec fn order(&self) -> Seq<Seq<char>> {
        names(self.entries@)
    }

    /// No folder is loaded.
    pub fn new() -> (mailbox: Self)
        ensures
            mailbox@ == Map::<Seq<char>, Seq<SummaryView>>::empty(),
            mailbox.order() == Seq::<Seq<char>>::empty(),
    {
        let mailbox = MailboxConversations { entries: Vec::new() };
        assert(mailbox@ =~= Map::empty());
        assert(mailbox.order() =~= Seq::empty());
        mailbox
    }

    /// How many folders are loaded.
    pub fn len(&self) -> (n: usize)
        ensures
            n == self@.dom().len(),
            self@.dom().finite(),
    {
        proof {
            use_type_invariant(self);
            lemma_folder_count(self.entries@);
        }
        self.entries.len()
    }

    /// Where the folder `id` stands.
    fn position(&self, id: &FolderId) -> (found: Option<usize>)
        ensures
            match found {
                Some(i) => i < self.entries@.len() && self.entries@[i as int].folder_id@ == id@,
                None => !lists_folder(self.entries@, id@),
            },
    {
        let mut i: usize = 0;
        while i < self.entries.len()
            invariant
                i <= self.entries.len(),
                forall|j: int| 0 <= j < i ==> (#[trigger] self.entries@[j]).folder_id@ != id@,
            decreases self.entries.len() - i,
        {
            if self.entries[i].folder_id.0 == id.0 {
                return Some(i);
            }
            i += 1;
        }
        None
    }

    /// The conversations of a folder, where it is loaded.
    pub fn get(&self, id: &FolderId) -> (conversations: Option<&Vec<ConversationSummary>>)
        ensures
            match conversations {
                Some(conversations) => self@.contains_key(id@) && mail::summaries(conversations@)
                    == self@[id@],
                None => !self@.contains_key(id@),
            },
    {
        proof {
            use_type_invariant(self);
        }
        match self.position(id) {
            Some(at) => {
                proof {
                    lemma_folder_at(self.entries@, at as int);
                }
                Some(&self.entries[at].conversations)
            },
            None => None,
        }
    }

    /// Whether a folder is loaded.
    pub fn contains_folder(&self, id: &FolderId) -> (r: bool)
        ensures
            r == self@.contains_key(id@),
    {
        self.get(id).is_some()
    }

    /// The names of the loaded folders, each once, in the order in which they were loaded.
    pub fn folder_ids(&self) -> (ids: Vec<FolderId>)
        ensures
            ids@.len() == self.order().len(),
            forall|i: int| 0 <= i < ids@.len() ==> (#[trigger] ids@[i])@ == self.order()[i],
            forall|id: Seq<char>| #[trigger] self@.contains_key(id) <==> self.order().contains(id),
            forall|i: int, j: int|
                #![trigger self.order()[i], self.order()[j]]
                0 <= i < j < self.order().len() ==> self.order()[i] != self.order()[j],
    {
        proof {
            use_type_invariant(self);
        }
        let mut ids: Vec<FolderId> = Vec::new();
        let mut i: usize = 0;
        while i < self.entries.len()
            invariant
                i <= self.entries.len(),
                ids@.len() == i,
                forall|j: int| 0 <= j < i ==> (#[trigger] ids@[j])@ == self.entries@[j].folder_id@,
            decreases self.entries.len() - i,
        {
            ids.push(self.entries[i].folder_id.clone());
            i += 1;
        }
        proof {
            lemma_order(self.entries@);
        }
        ids
    }

    /// Replaces the conversations of a folder.
    pub fn insert(&mut self, id: FolderId, conversations: Vec<ConversationSummary>)
        ensures
            final(self)@ == old(self)@.insert(id@, mail::summaries(conversations@)),
            final(self).order() == (if old(self)@.contains_key(id@) {
                old(self).order()
            } else {
                old(self).order().push(id@)
            }),
    {
        proof {
            use_type_invariant(&*self);
        }
        let found = self.position(&id);
        let mut entries: Vec<MailboxEntry> = Vec::new();
        std::mem::swap(&mut entries, &mut self.entries);
        let ghost before = entries@;
        let ghost name = id@;
        let ghost value = mail::summaries(conversations@);
        match found {
            Some(at) => {
                entries[at] = MailboxEntry { folder_id: id, conversations };
                proof {
                    lemma_map_update(before, at as int, entries@[at as int]);
                    lemma_folder_at(before, at as int);
                    assert(names(entries@) =~= names(before));
                }
            },
            None => {
                entries.push(MailboxEntry { folder_id: id, conversations });
                proof {
                    lemma_map_push(before, entries@.last());
                    assert(entries@ =~= before.push(entries@.last()));
                    assert(names(entries@) =~= names(before).push(name));
                }
            },
        }
        self.entries = entries;
    }

    /// Forgets the conversations of a folder.
    pub fn remove(&mut self, id: &FolderId)
        ensures
            final(self)@ == old(self)@.remove(id@),
            final(self).order() == without_folder(old(self).order(), id@),
    {
        proof {
            use_type_invariant(&*self);
        }
        match self.position(id) {
            Some(at) => {
                let mut entries: Vec<MailboxEntry> = Vec::new();
                std::mem::swap(&mut entries, &mut self.entries);
                let ghost before = entries@;
                let _ = entries.remove(at);
                proof {
                    lemma_map_remove(before, at as int);
                    lemma_order(before);
                    lemma_without_folder_at(names(before), at as int);
                    assert(names(entries@) =~= names(before).remove(at as int));
                }
                self.entries = entries;
            },
            None => {
                proof {
                    assert(self@.remove(id@) =~= self@);
                    lemma_order(self.entries@);
                    lemma_without_absent_folder(self.order(), id@);
                }
            },
        }
    }

    /// Takes the conversation `id` out of every folder.
    pub fn remove_everywhere(&mut self, id: &ConversationId)
        ensures
            final(self)@ == old(self)@.map_values(|list: Seq<SummaryView>| without(list, id@)),
            final(self).order() == old(self).order(),
    {
        proof {
            use_type_invariant(&*self);
        }
        let mut pending: Vec<MailboxEntry> = Vec::new();
        std::mem::swap(&mut pending, &mut self.entries);
        let ghost before = pending@;
        let mut entries: Vec<MailboxEntry> = Vec::new();
        for entry in it: pending
            invariant
                it.seq() == before,
                entries@.len() == it.index(),
                forall|j: int|
                    0 <= j < entries@.len() ==> (#[trigger] entries@[j]).folder_id
                        == before[j].folder_id && mail::summaries(entries@[j].conversations@)
                        == without(mail::summaries(before[j].conversations@), id@),
        {
            let mut conversations = entry.conversations;
            remove_conversation(&mut conversations, id);
            entries.push(MailboxEntry { folder_id: entry.folder_id, conversations });
        }
        proof {
            lemma_map_rebuilt(
                before,
                entries@,
                |list: Seq<SummaryView>| without(list, id@),
            );
            assert(names(entries@) =~= names(before));
        }
        self.entries = entries;
    }

    /// Where the conversation `id` stands, where a loaded folder holds it: in the first
    /// folder that does, and the first time there.
    pub fn locate(&self, id: &ConversationId) -> (found: Option<(FolderId, usize)>)
        ensures
            match found {
                Some((folder, at)) => {
                    &&& holder(self@, self.order(), id@) == Some(folder@)
                    &&& self@.contains_key(folder@)
                    &&& mail::has_id(self@[folder@], id@)
                    &&& at == position(self@[folder@], id@)
                    &&& at < self@[folder@].len()
                },
                None => holder(self@, self.order(), id@) is None && !holds(self@, id@),
            },
    {
        proof {
            use_type_invariant(self);
        }
        let ghost order = self.order();
        let mut i: usize = 0;
        while i < self.entries.len()
            invariant
                i <= self.entries.len(),
                distinct_folders(self.entries@),
                order == self.order(),
                order == names(self.entries@),
                holder(self@, order.take(i as int), id@) is None,
                forall|j: int|
                    0 <= j < i ==> !mail::has_id(
                        mail::summaries((#[trigger] self.entries@[j]).conversations@),
                        id@,
                    ),
            decreases self.entries.len() - i,
        {
            let conversations = &self.entries[i].conversations;
            let ghost list = mail::summaries(conversations@);
            proof {
                lemma_folder_at(self.entries@, i as int);
                assert(order.take(i + 1).drop_last() =~= order.take(i as int));
                assert(order.take(i + 1).last() == self.entries@[i as int].folder_id@);
            }
            let mut k: usize = 0;
            while k < conversations.len()
                invariant
                    i < self.entries@.len(),
                    distinct_folders(self.entries@),
                    order == self.order(),
                    order == names(self.entries@),
                    holder(self@, order.take(i as int), id@) is None,
                    order.take(i + 1).drop_last() == order.take(i as int),
                    order.take(i + 1).last() == self.entries@[i as int].folder_id@,
                    *conversations == self.entries@[i as int].conversations,
                    list == mail::summaries(conversations@),
                    self@.contains_key(self.entries@[i as int].folder_id@),
                    self@[self.entries@[i as int].folder_id@] == list,
                    k <= conversations.len(),
                    forall|j: int| 0 <= j < k ==> (#[trigger] list[j]).id != id@,
                decreases conversations.len() - k,
            {
                if conversations[k].id.0 == id.0 {
                    proof {
                        assert(list[k as int] == conversations@[k as int]@);
                        lemma_position_is(list, id@, k as int);
                        lemma_holder_stays(self@, order, id@, i + 1);
                    }
                    return Some((self.entries[i].folder_id.clone(), k));
                }
                k += 1;
            }
            i += 1;
        }
        proof {
            assert(order.take(i as int) =~= order);
            if holds(self@, id@) {
                let folder = choose|folder: Seq<char>| #[trigger]
                    self@.contains_key(folder) && mail::has_id(self@[folder], id@);
                let at = folder_position(self.entries@, folder);
                assert(self.entries@[at].folder_id@ == folder);
            }
        }
        None
    }

    /// A copy of the conversation `id`, where a loaded folder holds it.
    pub fn find(&self, id: &ConversationId) -> (found: Option<ConversationSummary>)
        ensures
            match (found, holder(self@, self.order(), id@)) {
                (Some(summary), Some(folder)) => summary@ == self@[folder][position(
                    self@[folder],
                    id@,
                )],
                (None, None) => !holds(self@, id@),
                _ => false,
            },
    {
        match self.locate(id) {
            None => None,
            Some((folder, at)) => match self.get(&folder) {
                None => None,
                Some(rows) => Some(rows[at].clone()),
            },
        }
    }

    /// Takes the conversation `id` out of the first folder that holds it.
    pub fn take(&mut self, id: &ConversationId) -> (taken: Option<ConversationSummary>)
        ensures
            final(self).order() == old(self).order(),
            match (taken, holder(old(self)@, old(self).order(), id@)) {
                (Some(summary), Some(folder)) => {
                    &&& summary@ == old(self)@[folder][position(old(self)@[folder], id@)]
                    &&& final(self)@ == old(self)@.insert(
                        folder,
                        old(self)@[folder].remove(position(old(self)@[folder], id@)),
                    )
                },
                (None, None) => !holds(old(self)@, id@) && final(self)@ == old(self)@,
                _ => false,
            },
    {
        match self.locate(id) {
            None => None,
            Some((folder, at)) => {
                let mut rows = match self.get(&folder) {
                    None => Vec::new(),
                    Some(rows) => mail::clone_summaries(rows),
                };
                let ghost before = mail::summaries(rows@);
                assert(before == self@[folder@]);
                assert(before.len() == rows@.len());
                let taken = rows.remove(at);
                proof {
                    assert(mail::summaries(rows@) =~= before.remove(at as int));
                    assert(taken@ == before[at as int]);
                }
                self.insert(folder, rows);
                Some(taken)
            },
        }
    }
}

proof fn lemma_holder_stays(
    map: Map<Seq<char>, Seq<SummaryView>>,
    order: Seq<Seq<char>>,
    id: Seq<char>,
    n: int,
)
    requires
        0 <= n <= order.len(),
        holder(map, order.take(n), id) is Some,
    ensures
        holder(map, order, id) == holder(map, order.take(n), id),
    decreases order.len() - n,
{
    if n < order.len() {
        assert(order.take(n + 1).drop_last() =~= order.take(n));
        lemma_holder_stays(map, order, id, n + 1);
    } else {
        assert(order.take(n) =~= order);
    }
}

proof fn lemma_order(entries: Seq<MailboxEntry>)
    requires
        distinct_folders(entries),
    ensures
        forall|id: Seq<char>| #[trigger]
            folder_map(entries).contains_key(id) <==> names(entries).contains(id),
        forall|i: int, j: int|
            #![trigger names(entries)[i], names(entries)[j]]
            0 <= i < j < names(entries).len() ==> names(entries)[i] != names(entries)[j],
{
    let order = names(entries);
    assert forall|id: Seq<char>| #[trigger]
        folder_map(entries).contains_key(id) <==> order.contains(id) by {
        if lists_folder(entries, id) {
            let at = folder_position(entries, id);
            assert(order[at] == id);
        }
        if order.contains(id) {
            let at = choose|i: int| 0 <= i < order.len() && order[i] == id;
            assert(entries[at].folder_id@ == id);
        }
    }
    assert forall|i: int, j: int|
        #![trigger order[i], order[j]]
        0 <= i < j < order.len() implies order[i] != order[j] by {
        assert(entries[i].folder_id@ != entries[j].folder_id@);
    }
}

impl Clone for MailboxConversations {
    fn clone(&self) -> (r: Self)
        ensures
            r@ == self@,
            r.order() == self.order(),
    {
        proof {
            use_type_invariant(self);
        }
        let mut entries: Vec<MailboxEntry> = Vec::new();
        let mut i: usize = 0;
        while i < self.entries.len()
            invariant
                i <= self.entries.len(),
                entries@.len() == i,
                forall|j: int|
                    0 <= j < i ==> (#[trigger] entries@[j]).folder_id == self.entries@[j].folder_id
                        && mail::summaries(entries@[j].conversations@) == mail::summaries(
                        self.entries@[j].conversations@,
                    ),
            decreases self.entries.len() - i,
        {
            let entry = &self.entries[i];
            entries.push(
                MailboxEntry {
                    folder_id: entry.folder_id.clone(),
                    conversations: mail::clone_summaries(&entry.conversations),
                },
            );
            i += 1;
        }
        proof {
            lemma_map_rebuilt(self.entries@, entries@, |list: Seq<SummaryView>| list);
            assert(self@.map_values(|list: Seq<SummaryView>| list) =~= self@);
            assert(names(entries@) =~= names(self.entries@));
        }
        MailboxConversations { entries }
    }
}

proof fn lemma_folder_count(entries: Seq<MailboxEntry>)
    requires
        distinct_folders(entries),
    ensures
        folder_map(entries).dom().finite(),
        folder_map(entries).dom().len() == entries.len(),
{
    let ids = entries.map_values(|entry: MailboxEntry| entry.folder_id@);
    assert forall|i: int, j: int| 0 <= i < ids.len() && 0 <= j < ids.len() && i != j implies ids[i]
        != ids[j] by {
        if i < j {
            assert(entries[i].folder_id@ != entries[j].folder_id@);
        } else {
            assert(entries[j].folder_id@ != entries[i].folder_id@);
        }
    }
    ids.unique_seq_to_set();
    vstd::seq_lib::seq_to_set_is_finite(ids);
    assert(folder_map(entries).dom() =~= ids.to_set()) by {
        assert forall|id: Seq<char>| folder_map(entries).dom().contains(id)
            <==> ids.to_set().contains(id) by {
            if lists_folder(entries, id) {
                let at = folder_position(entries, id);
                assert(ids[at] == id);
            }
            if ids.contains(id) {
                let at = choose|i: int| 0 <= i < ids.len() && ids[i] == id;
                assert(entries[at].folder_id@ == id);
            }
        }
    }
}

proof fn lemma_map_update(entries: Seq<MailboxEntry>, at: int, entry: MailboxEntry)
    requires
        distinct_folders(entries),
        0 <= at < entries.len(),
        entry.folder_id@ == entries[at].folder_id@,
    ensures
        distinct_folders(entries.update(at, entry)),
        folder_map(entries.update(at, entry)) == folder_map(entries).insert(
            entry.folder_id@,
            mail::summaries(entry.conversations@),
        ),
{
    let after = entries.update(at, entry);
    assert forall|i: int, j: int|
        #![trigger after[i], after[j]]
        0 <= i < j < after.len() implies after[i].folder_id@ != after[j].folder_id@ by {
        assert(entries[i].folder_id@ != entries[j].folder_id@);
    }
    lemma_folder_at(after, at);
    assert forall|id: Seq<char>| lists_folder(after, id) <==> lists_folder(entries, id) by {
        if lists_folder(entries, id) {
            let i = folder_position(entries, id);
            assert(after[i].folder_id@ == id);
        }
        if lists_folder(after, id) {
            let i = folder_position(after, id);
            assert(entries[i].folder_id@ == id);
        }
    }
    assert forall|id: Seq<char>|
        lists_folder(entries, id) && id != entry.folder_id@ implies folder_map(after)[id]
        == folder_map(entries)[id] by {
        let i = folder_position(entries, id);
        assert(after[i].folder_id@ == id);
        lemma_folder_at(entries, i);
        lemma_folder_at(after, i);
    }
    lemma_folder_at(entries, at);
    assert(folder_map(after) =~= folder_map(entries).insert(
        entry.folder_id@,
        mail::summaries(entry.conversations@),
    ));
}

proof fn lemma_map_push(entries: Seq<MailboxEntry>, entry: MailboxEntry)
    requires
        distinct_folders(entries),
        !lists_folder(entries, entry.folder_id@),
    ensures
        distinct_folders(entries.push(entry)),
        folder_map(entries.push(entry)) == folder_map(entries).insert(
            entry.folder_id@,
            mail::summaries(entry.conversations@),
        ),
{
    let after = entries.push(entry);
    assert forall|i: int, j: int|
        #![trigger after[i], after[j]]
        0 <= i < j < after.len() implies after[i].folder_id@ != after[j].folder_id@ by {
        assert(after[i] == entries[i]);
    }
    lemma_folder_at(after, entries.len() as int);
    assert forall|id: Seq<char>|
        lists_folder(after, id) <==> lists_folder(entries, id) || id == entry.folder_id@ by {
        if lists_folder(entries, id) {
            let i = folder_position(entries, id);
            assert(after[i].folder_id@ == id);
        }
        if lists_folder(after, id) && id != entry.folder_id@ {
            let i = folder_position(after, id);
            assert(entries[i].folder_id@ == id);
        }
    }
    assert forall|id: Seq<char>| lists_folder(entries, id) implies folder_map(after)[id]
        == folder_map(entries)[id] by {
        let i = folder_position(entries, id);
        assert(after[i].folder_id@ == id);
        lemma_folder_at(entries, i);
        lemma_folder_at(after, i);
    }
    assert(folder_map(after) =~= folder_map(entries).insert(
        entry.folder_id@,
        mail::summaries(entry.conversations@),
    ));
}

proof fn lemma_map_remove(entries: Seq<MailboxEntry>, at: int)
    requires
        distinct_folders(entries),
        0 <= at < entries.len(),
    ensures
        distinct_folders(entries.remove(at)),
        folder_map(entries.remove(at)) == folder_map(entries).remove(entries[at].folder_id@),
{
    let after = entries.remove(at);
    assert forall|i: int, j: int|
        #![trigger after[i], after[j]]
        0 <= i < j < after.len() implies after[i].folder_id@ != after[j].folder_id@ by {
        let a = if i < at { i } else { i + 1 };
        let b = if j < at { j } else { j + 1 };
        assert(after[i] == entries[a] && after[j] == entries[b]);
    }
    assert forall|id: Seq<char>|
        lists_folder(after, id) <==> lists_folder(entries, id) && id
            != entries[at].folder_id@ by {
        if lists_folder(entries, id) && id != entries[at].folder_id@ {
            let i = folder_position(entries, id);
            let a = if i < at { i } else { i - 1 };
            assert(after[a].folder_id@ == id);
        }
        if lists_folder(after, id) {
            let i = folder_position(after, id);
            let a = if i < at { i } else { i + 1 };
            assert(entries[a].folder_id@ == id);
            if a < at {
                assert(entries[a].folder_id@ != entries[at].folder_id@);
            } else {
                assert(entries[at].folder_id@ != entries[a].folder_id@);
            }
        }
    }
    assert forall|id: Seq<char>|
        lists_folder(entries, id) && id != entries[at].folder_id@ implies folder_map(after)[id]
        == folder_map(entries)[id] by {
        let i = folder_position(entries, id);
        let a = if i < at { i } else { i - 1 };
        assert(after[a] == entries[i]);
        lemma_folder_at(entries, i);
        lemma_folder_at(after, a);
    }
    assert(folder_map(after) =~= folder_map(entries).remove(entries[at].folder_id@));
}

proof fn lemma_map_rebuilt(
    before: Seq<MailboxEntry>,
    after: Seq<MailboxEntry>,
    change: spec_fn(Seq<SummaryView>) -> Seq<SummaryView>,
)
    requires
        distinct_folders(before),
        before.len() == after.len(),
        forall|j: int|
            0 <= j < after.len() ==> (#[trigger] after[j]).folder_id == before[j].folder_id
                && mail::summaries(after[j].conversations@) == change(
                mail::summaries(before[j].conversations@),
            ),
    ensures
        distinct_folders(after),
        folder_map(after) == folder_map(before).map_values(change),
{
    assert forall|i: int, j: int|
        #![trigger after[i], after[j]]
        0 <= i < j < after.len() implies after[i].folder_id@ != after[j].folder_id@ by {
        assert(before[i].folder_id@ != before[j].folder_id@);
    }
    assert forall|id: Seq<char>| lists_folder(after, id) <==> lists_folder(before, id) by {
        if lists_folder(before, id) {
            let i = folder_position(before, id);
            assert(after[i].folder_id@ == id);
        }
        if lists_folder(after, id) {
            let i = folder_position(after, id);
            assert(before[i].folder_id@ == id);
        }
    }
    assert forall|id: Seq<char>| lists_folder(before, id) implies folder_map(after)[id] == change(
        folder_map(before)[id],
    ) by {
        let i = folder_position(before, id);
        assert(after[i].folder_id@ == id);
        lemma_folder_at(before, i);
        lemma_folder_at(after, i);
    }
    assert(folder_map(after) =~= folder_map(before).map_values(change));
}

} // verus!
