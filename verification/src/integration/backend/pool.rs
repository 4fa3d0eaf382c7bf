//! The backends of the accounts.
//!
//! A backend is made when its account is used for the first time, and retired when the
//! way to the account changes. `B` stands for a backend; the pool only hands it out.
use crate::integration::account;
use crate::integration::account::{BindingView, EdsAccountBinding};
use crate::integration::backend::actions;
use crate::integration::backend::actions::MessageActionQueue;
use crate::integration::stub;
use crate::model::account::MailAccountId;
use crate::model::mail::MailboxMode;
use crate::text;
use vstd::prelude::*;

verus! {

/// Something that belongs to an account.
#[derive(Debug)]
struct AccountEntry<V> {
    account_id: MailAccountId,
    value: V,
}

/// What belongs to accounts.
#[derive(Debug)]
pub struct AccountMap<V> {
    entries: Vec<AccountEntry<V>>,
}

spec fn lists_account<V>(entries: Seq<AccountEntry<V>>, id: Seq<char>) -> bool {
    exists|i: int| 0 <= i < entries.len() && (#[trigger] entries[i]).account_id@ == id
}

spec fn account_position<V>(entries: Seq<AccountEntry<V>>, id: Seq<char>) -> int {
    choose|i: int| 0 <= i < entries.len() && (#[trigger] entries[i]).account_id@ == id
}

spec fn distinct_accounts<V>(entries: Seq<AccountEntry<V>>) -> bool {
    forall|i: int, j: int|
        #![trigger entries[i], entries[j]]
        0 <= i < j < entries.len() ==> entries[i].account_id@ != entries[j].account_id@
}

spec fn account_map<V>(entries: Seq<AccountEntry<V>>) -> Map<Seq<char>, V> {
    Map::new(
        |id: Seq<char>| lists_account(entries, id),
        |id: Seq<char>| entries[account_position(entries, id)].value,
    )
}

proof fn lemma_account_at<V>(entries: Seq<AccountEntry<V>>, i: int)
    requires
        distinct_accounts(entries),
        0 <= i < entries.len(),
    ensures
        lists_account(entries, entries[i].account_id@),
        account_map(entries).contains_key(entries[i].account_id@),
        account_map(entries)[entries[i].account_id@] == entries[i].value,
{
    let at = account_position(entries, entries[i].account_id@);
    assert(entries[i].account_id@ == entries[i].account_id@);
    if at < i {
        assert(entries[at].account_id@ != entries[i].account_id@);
    } else if i < at {
        assert(entries[i].account_id@ != entries[at].account_id@);
    }
}

proof fn lemma_accounts_update<V>(entries: Seq<AccountEntry<V>>, at: int, entry: AccountEntry<V>)
    requires
        distinct_accounts(entries),
        0 <= at < entries.len(),
        entry.account_id@ == entries[at].account_id@,
    ensures
        distinct_accounts(entries.update(at, entry)),
        account_map(entries.update(at, entry)) == account_map(entries).insert(
            entry.account_id@,
            entry.value,
        ),
{
    let after = entries.update(at, entry);
    assert forall|i: int, j: int|
        #![trigger after[i], after[j]]
        0 <= i < j < after.len() implies after[i].account_id@ != after[j].account_id@ by {
        assert(entries[i].account_id@ != entries[j].account_id@);
    }
    lemma_account_at(after, at);
    lemma_account_at(entries, at);
    assert forall|id: Seq<char>| lists_account(after, id) <==> lists_account(entries, id) by {
        if lists_account(entries, id) {
            let i = account_position(entries, id);
            assert(after[i].account_id@ == id);
        }
        if lists_account(after, id) {
            let i = account_position(after, id);
            assert(entries[i].account_id@ == id);
        }
    }
    assert forall|id: Seq<char>|
        lists_account(entries, id) && id != entry.account_id@ implies account_map(after)[id]
        == account_map(entries)[id] by {
        let i = account_position(entries, id);
        assert(after[i].account_id@ == id);
        lemma_account_at(entries, i);
        lemma_account_at(after, i);
    }
    assert(account_map(after) =~= account_map(entries).insert(entry.account_id@, entry.value));
}

proof fn lemma_accounts_push<V>(entries: Seq<AccountEntry<V>>, entry: AccountEntry<V>)
    requires
        distinct_accounts(entries),
        !lists_account(entries, entry.account_id@),
    ensures
        distinct_accounts(entries.push(entry)),
        account_map(entries.push(entry)) == account_map(entries).insert(
            entry.account_id@,
            entry.value,
        ),
{
    let after = entries.push(entry);
    assert forall|i: int, j: int|
        #![trigger after[i], after[j]]
        0 <= i < j < after.len() implies after[i].account_id@ != after[j].account_id@ by {
        assert(after[i] == entries[i]);
    }
    lemma_account_at(after, entries.len() as int);
    assert forall|id: Seq<char>|
        lists_account(after, id) <==> lists_account(entries, id) || id == entry.account_id@ by {
        if lists_account(entries, id) {
            let i = account_position(entries, id);
            assert(after[i].account_id@ == id);
        }
        if lists_account(after, id) && id != entry.account_id@ {
            let i = account_position(after, id);
            assert(entries[i].account_id@ == id);
        }
    }
    assert forall|id: Seq<char>| lists_account(entries, id) implies account_map(after)[id]
        == account_map(entries)[id] by {
        let i = account_position(entries, id);
        assert(after[i].account_id@ == id);
        lemma_account_at(entries, i);
        lemma_account_at(after, i);
    }
    assert(account_map(after) =~= account_map(entries).insert(entry.account_id@, entry.value));
}

proof fn lemma_accounts_remove<V>(entries: Seq<AccountEntry<V>>, at: int)
    requires
        distinct_accounts(entries),
        0 <= at < entries.len(),
    ensures
        distinct_accounts(entries.remove(at)),
        account_map(entries.remove(at)) == account_map(entries).remove(entries[at].account_id@),
{
    let after = entries.remove(at);
    assert forall|i: int, j: int|
        #![trigger after[i], after[j]]
        0 <= i < j < after.len() implies after[i].account_id@ != after[j].account_id@ by {
        let a = if i < at { i } else { i + 1 };
        let b = if j < at { j } else { j + 1 };
        assert(after[i] == entries[a] && after[j] == entries[b]);
    }
    assert forall|id: Seq<char>|
        lists_account(after, id) <==> lists_account(entries, id) && id
            != entries[at].account_id@ by {
        if lists_account(entries, id) && id != entries[at].account_id@ {
            let i = account_position(entries, id);
            let a = if i < at { i } else { i - 1 };
            assert(after[a].account_id@ == id);
        }
        if lists_account(after, id) {
            let i = account_position(after, id);
            let a = if i < at { i } else { i + 1 };
            assert(entries[a].account_id@ == id);
            if a < at {
                assert(entries[a].account_id@ != entries[at].account_id@);
            } else {
                assert(entries[at].account_id@ != entries[a].account_id@);
            }
        }
    }
    assert forall|id: Seq<char>|
        lists_account(entries, id) && id != entries[at].account_id@ implies account_map(after)[id]
        == account_map(entries)[id] by {
        let i = account_position(entries, id);
        let a = if i < at { i } else { i - 1 };
        assert(after[a] == entries[i]);
        lemma_account_at(entries, i);
        lemma_account_at(after, a);
    }
    assert(account_map(after) =~= account_map(entries).remove(entries[at].account_id@));
}

/// The names of accounts.
pub open spec fn account_names(list: Seq<MailAccountId>) -> Seq<Seq<char>> {
    list.map_values(|id: MailAccountId| id@)
}

impl<V> View for AccountMap<V> {
    type V = Map<Seq<char>, V>;

    closed spec fn view(&self) -> Map<Seq<char>, V> {
        account_map(self.entries@)
    }
}

impl<V> AccountMap<V> {
    #[verifier::type_invariant]
    spec fn well_formed(self) -> bool {
        distinct_accounts(self.entries@)
    }

    /// Nothing belongs to any account.
    pub fn new() -> (map: Self)
        ensures
            map@ == Map::<Seq<char>, V>::empty(),
    {
        let map = AccountMap { entries: Vec::new() };
        assert(map@ =~= Map::empty());
        map
    }

    fn position(&self, id: &MailAccountId) -> (found: Option<usize>)
        ensures
            match found {
                Some(i) => i < self.entries@.len() && self.entries@[i as int].account_id@ == id@,
                None => !lists_account(self.entries@, id@),
            },
    {
        let mut i: usize = 0;
        while i < self.entries.len()
            invariant
                i <= self.entries.len(),
                forall|j: int| 0 <= j < i ==> (#[trigger] self.entries@[j]).account_id@ != id@,
            decreases self.entries.len() - i,
        {
            if self.entries[i].account_id.0 == id.0 {
                return Some(i);
            }
            i += 1;
        }
        None
    }

    /// Whether nothing belongs to any account.
    pub fn is_empty(&self) -> (r: bool)
        ensures
            r == (self@ == Map::<Seq<char>, V>::empty()),
    {
        proof {
            use_type_invariant(self);
            if self.entries@.len() == 0 {
                assert(self@ =~= Map::empty());
            } else {
                lemma_account_at(self.entries@, 0);
            }
        }
        self.entries.len() == 0
    }

    /// What belongs to an account.
    pub fn get(&self, id: &MailAccountId) -> (value: Option<&V>)
        ensures
            match value {
                Some(value) => self@.contains_key(id@) && *value == self@[id@],
                None => !self@.contains_key(id@),
            },
    {
        proof {
            use_type_invariant(self);
        }
        match self.position(id) {
            Some(at) => {
                proof {
                    lemma_account_at(self.entries@, at as int);
                }
                Some(&self.entries[at].value)
            },
            None => None,
        }
    }

    /// The accounts that something belongs to, in order.
    pub fn sorted_names(&self) -> (names: Vec<String>)
        ensures
            text::ordered(text::views(names@)),
            forall|id: Seq<char>| #[trigger]
                text::views(names@).contains(id) <==> self@.contains_key(id),
    {
        proof {
            use_type_invariant(self);
        }
        let mut names: Vec<String> = Vec::new();
        let mut i: usize = 0;
        assert(text::views(names@) =~= Seq::empty());
        while i < self.entries.len()
            invariant
                i <= self.entries.len(),
                text::ordered(text::views(names@)),
                forall|id: Seq<char>| #[trigger]
                    text::views(names@).contains(id) <==> exists|j: int|
                        0 <= j < i && (#[trigger] self.entries@[j]).account_id@ == id,
            decreases self.entries.len() - i,
        {
            let ghost before = text::views(names@);
            text::insert_ordered(&mut names, self.entries[i].account_id.0.as_str());
            proof {
                assert forall|id: Seq<char>| #[trigger]
                    text::views(names@).contains(id) <==> exists|j: int|
                        0 <= j < i + 1 && (#[trigger] self.entries@[j]).account_id@ == id by {
                    assert(before.contains(id) <==> exists|j: int|
                        0 <= j < i && (#[trigger] self.entries@[j]).account_id@ == id);
                    if before.contains(id) {
                        let j = choose|j: int|
                            0 <= j < i && (#[trigger] self.entries@[j]).account_id@ == id;
                        assert(self.entries@[j].account_id@ == id);
                    }
                    if id == self.entries@[i as int].account_id@ {
                        assert(self.entries@[i as int].account_id@ == id);
                    }
                }
            }
            i += 1;
        }
        proof {
            assert forall|id: Seq<char>| #[trigger]
                text::views(names@).contains(id) <==> self@.contains_key(id) by {
                assert(self@.contains_key(id) <==> lists_account(self.entries@, id));
            }
        }
        names
    }

    /// Says what belongs to an account.
    pub fn insert(&mut self, id: MailAccountId, value: V)
        ensures
            final(self)@ == old(self)@.insert(id@, value),
    {
        proof {
            use_type_invariant(&*self);
        }
        let found = self.position(&id);
        let mut entries: Vec<AccountEntry<V>> = Vec::new();
        std::mem::swap(&mut entries, &mut self.entries);
        let ghost before = entries@;
        let entry = AccountEntry { account_id: id, value };
        let ghost added = entry;
        match found {
            Some(at) => {
                entries.set(at, entry);
                proof {
                    lemma_accounts_update(before, at as int, added);
                }
            },
            None => {
                entries.push(entry);
                proof {
                    lemma_accounts_push(before, added);
                }
            },
        }
        self.entries = entries;
    }

    /// Forgets what belongs to an account.
    pub fn remove(&mut self, id: &MailAccountId)
        ensures
            final(self)@ == old(self)@.remove(id@),
    {
        proof {
            use_type_invariant(&*self);
        }
        match self.position(id) {
            Some(at) => {
                let mut entries: Vec<AccountEntry<V>> = Vec::new();
                std::mem::swap(&mut entries, &mut self.entries);
                let ghost before = entries@;
                let _ = entries.remove(at);
                proof {
                    lemma_accounts_remove(before, at as int);
                }
                self.entries = entries;
            },
            None => {
                proof {
                    assert(self@.remove(id@) =~= self@);
                }
            },
        }
    }
}

/// The ways to accounts, as values.
pub open spec fn catalog_view(catalog: Map<Seq<char>, EdsAccountBinding>) -> Map<
    Seq<char>,
    BindingView,
> {
    catalog.map_values(|binding: EdsAccountBinding| binding@)
}

/// The ways to accounts that `bindings` list. Of two to one account the last counts.
pub open spec fn catalog_of(bindings: Seq<EdsAccountBinding>) -> Map<Seq<char>, BindingView>
    decreases bindings.len(),
{
    if bindings.len() == 0 {
        Map::empty()
    } else {
        catalog_of(bindings.drop_last()).insert(
            bindings.last().account_id@,
            bindings.last()@,
        )
    }
}

/// Whether the way to an account changed, came up or went.
pub open spec fn route_changed(
    before: Map<Seq<char>, BindingView>,
    after: Map<Seq<char>, BindingView>,
    id: Seq<char>,
) -> bool {
    before.contains_key(id) != after.contains_key(id) || (before.contains_key(id) && before[id]
        != after[id])
}

/// The pool, as a value.
#[verifier::ext_equal]
pub struct PoolView<B> {
    pub catalog: Map<Seq<char>, BindingView>,
    pub materialized: Map<Seq<char>, B>,
    pub stub: B,
    pub actions: Seq<actions::EntryView>,
}

/// The pool once it has learned the ways to accounts in `catalog`: a backend whose way
/// changed is given up.
pub open spec fn learned<B>(pool: PoolView<B>, catalog: Map<Seq<char>, BindingView>) -> PoolView<
    B,
> {
    PoolView {
        catalog,
        materialized: pool.materialized.restrict(
            Set::new(|id: Seq<char>| !route_changed(pool.catalog, catalog, id)),
        ),
        ..pool
    }
}

/// The backend that serves the account `id`.
pub open spec fn leased<B>(pool: PoolView<B>, id: Seq<char>) -> Option<B> {
    if id == stub::STUB_ACCOUNT_ID@ {
        Some(pool.stub)
    } else if pool.materialized.contains_key(id) {
        Some(pool.materialized[id])
    } else {
        None
    }
}

/// The backends of the accounts.
#[derive(Debug)]
pub struct BackendPool<B> {
    catalog: AccountMap<EdsAccountBinding>,
    materialized: AccountMap<B>,
    stub: B,
    action_queue: MessageActionQueue,
}

impl<B> View for BackendPool<B> {
    type V = PoolView<B>;

    closed spec fn view(&self) -> PoolView<B> {
        PoolView {
            catalog: catalog_view(self.catalog@),
            materialized: self.materialized@,
            stub: self.stub,
            actions: self.action_queue@,
        }
    }
}

/// What has to be done to use an account.
#[derive(Debug)]
pub enum Activation<'a, B> {
    /// The backend is there.
    Active { backend: &'a B, mode: MailboxMode },
    /// The backend has to be made for that way to the account.
    Build(EdsAccountBinding),
    /// No way to the account is known.
    Unavailable,
}

/// The message that is reported where no way to an account is known.
pub fn unavailable_message(account_id: &MailAccountId) -> (message: String)
    ensures
        message@ == "mail account '"@ + account_id@ + "' is unavailable"@,
{
    text::enclosed("mail account '", account_id.0.as_str(), "' is unavailable")
}

impl<B> BackendPool<B> {
    /// A pool without accounts.
    pub fn new(stub: B) -> (pool: Self)
        ensures
            pool@ == (PoolView {
                catalog: Map::empty(),
                materialized: Map::empty(),
                stub,
                actions: Seq::empty(),
            }),
    {
        Self::with_action_queue(stub, MessageActionQueue::new())
    }

    /// A pool without accounts.
    pub fn with_action_queue(stub: B, action_queue: MessageActionQueue) -> (pool: Self)
        ensures
            pool@ == (PoolView {
                catalog: Map::empty(),
                materialized: Map::empty(),
                stub,
                actions: action_queue@,
            }),
    {
        let pool = BackendPool {
            catalog: AccountMap::new(),
            materialized: AccountMap::new(),
            stub,
            action_queue,
        };
        assert(pool@.catalog =~= Map::empty());
        pool
    }

    /// How many changes no provider has been told of.
    pub fn unresolved_message_action_count(&self) -> (n: usize)
        ensures
            n == actions::capped(actions::action_count(self@.actions)),
    {
        self.action_queue.len()
    }

    /// The way to an account, where one is known.
    pub fn catalog_binding(&self, account_id: &MailAccountId) -> (binding: Option<
        EdsAccountBinding,
    >)
        ensures
            match binding {
                Some(binding) => self@.catalog.contains_key(account_id@) && binding@
                    == self@.catalog[account_id@],
                None => !self@.catalog.contains_key(account_id@),
            },
    {
        match self.catalog.get(account_id) {
            Some(binding) => Some(binding.clone()),
            None => None,
        }
    }

    /// Whether no backend was made.
    pub fn is_idle(&self) -> (r: bool)
        ensures
            r == (self@.materialized == Map::<Seq<char>, B>::empty()),
    {
        self.materialized.is_empty()
    }

    /// What has to be done to use an account: nothing where it is the one that stands in
    /// for a missing account or where its backend was made.
    pub fn activate_account(&self, account_id: &MailAccountId) -> (activation: Activation<'_, B>)
        ensures
            match activation {
                Activation::Active { backend, mode } => if account_id@ == stub::STUB_ACCOUNT_ID@ {
                    *backend == self@.stub && mode == MailboxMode::NoAccount
                } else {
                    self@.materialized.contains_key(account_id@) && *backend
                        == self@.materialized[account_id@] && mode == MailboxMode::Live
                },
                Activation::Build(binding) => account_id@ != stub::STUB_ACCOUNT_ID@
                    && !self@.materialized.contains_key(account_id@) && self@.catalog.contains_key(
                    account_id@,
                ) && binding@ == self@.catalog[account_id@],
                Activation::Unavailable => account_id@ != stub::STUB_ACCOUNT_ID@
                    && !self@.materialized.contains_key(account_id@)
                    && !self@.catalog.contains_key(account_id@),
            },
    {
        if stub::is_stub_account_id(account_id) {
            return Activation::Active { backend: &self.stub, mode: MailboxMode::NoAccount };
        }
        if let Some(backend) = self.materialized.get(account_id) {
            return Activation::Active { backend, mode: MailboxMode::Live };
        }
        match self.catalog.get(account_id) {
            Some(binding) => Activation::Build(binding.clone()),
            None => Activation::Unavailable,
        }
    }

    /// Keeps the backend that was made for an account.
    pub fn complete_activation(&mut self, account_id: &MailAccountId, backend: B)
        ensures
            final(self)@ == (PoolView {
                materialized: old(self)@.materialized.insert(account_id@, backend),
                ..old(self)@
            }),
    {
        self.materialized.insert(account_id.clone(), backend);
    }

    /// Learns the ways to the accounts. Gives the accounts whose way changed, came up or
    /// went, in order; their backends are retired.
    pub fn update_binding_catalog(&mut self, bindings: &Vec<EdsAccountBinding>) -> (changed: Vec<
        MailAccountId,
    >)
        ensures
            final(self)@ == learned(old(self)@, catalog_of(bindings@)),
            text::ordered(account_names(changed@)),
            forall|id: Seq<char>| #[trigger]
                account_names(changed@).contains(id) <==> route_changed(
                    old(self)@.catalog,
                    catalog_of(bindings@),
                    id,
                ),
    {
        let ghost before = self@.catalog;
        let ghost after = catalog_of(bindings@);
        let ghost materialized = self.materialized@;
        let mut catalog: AccountMap<EdsAccountBinding> = AccountMap::new();
        let mut i: usize = 0;
        assert(bindings@.take(0) =~= Seq::empty());
        assert(catalog_view(catalog@) =~= Map::empty());
        while i < bindings.len()
            invariant
                i <= bindings.len(),
                catalog_view(catalog@) == catalog_of(bindings@.take(i as int)),
            decreases bindings.len() - i,
        {
            proof {
                assert(bindings@.take(i + 1).drop_last() =~= bindings@.take(i as int));
                assert(bindings@.take(i + 1).last() == bindings@[i as int]);
            }
            let ghost known = catalog_view(catalog@);
            let binding = bindings[i].clone();
            let ghost value = binding@;
            catalog.insert(bindings[i].account_id.clone(), binding);
            assert(catalog_view(catalog@) =~= known.insert(bindings@[i as int].account_id@, value));
            i += 1;
        }
        assert(bindings@.take(i as int) =~= bindings@);
        let names = self.catalog.sorted_names();
        let mut changed_names: Vec<String> = Vec::new();
        let ghost listed = text::views(names@);
        assert(text::views(changed_names@) =~= Seq::empty());
        let mut i: usize = 0;
        while i < names.len()
            invariant
                i <= names.len(),
                listed == text::views(names@),
                before == catalog_view(self.catalog@),
                after == catalog_view(catalog@),
                self.materialized@ == materialized,
                self.stub == old(self).stub,
                self.action_queue == old(self).action_queue,
                text::ordered(text::views(changed_names@)),
                forall|id: Seq<char>| #[trigger]
                    text::views(changed_names@).contains(id) <==> listed.take(i as int).contains(id)
                        && route_changed(before, after, id),
            decreases names.len() - i,
        {
            let id = MailAccountId(names[i].clone());
            let ghost noted = text::views(changed_names@);
            if self.differs(&catalog, &id) {
                text::insert_ordered(&mut changed_names, names[i].as_str());
            }
            proof {
                assert(listed.take(i + 1) =~= listed.take(i as int).push(id@));
                assert forall|other: Seq<char>| #[trigger]
                    text::views(changed_names@).contains(other) <==> listed.take(i + 1).contains(
                        other,
                    ) && route_changed(before, after, other) by {
                    lemma_contains_push(listed.take(i as int), id@, other);
                    assert(noted.contains(other) <==> listed.take(i as int).contains(other)
                        && route_changed(before, after, other));
                }
            }
            i += 1;
        }
        assert(listed.take(i as int) =~= listed);
        let new_names = catalog.sorted_names();
        let ghost new_listed = text::views(new_names@);
        let mut i: usize = 0;
        proof {
            assert forall|id: Seq<char>| #[trigger]
                text::views(changed_names@).contains(id) <==> (listed.contains(id)
                    || new_listed.take(0).contains(id)) && route_changed(before, after, id) by {}
        }
        while i < new_names.len()
            invariant
                i <= new_names.len(),
                new_listed == text::views(new_names@),
                before == catalog_view(self.catalog@),
                after == catalog_view(catalog@),
                self.materialized@ == materialized,
                self.stub == old(self).stub,
                self.action_queue == old(self).action_queue,
                text::ordered(text::views(changed_names@)),
                forall|id: Seq<char>| #[trigger]
                    text::views(changed_names@).contains(id) <==> (listed.contains(id)
                        || new_listed.take(i as int).contains(id)) && route_changed(
                        before,
                        after,
                        id,
                    ),
            decreases new_names.len() - i,
        {
            let id = MailAccountId(new_names[i].clone());
            let ghost noted = text::views(changed_names@);
            if self.differs(&catalog, &id) {
                text::insert_ordered(&mut changed_names, new_names[i].as_str());
            }
            proof {
                assert(new_listed.take(i + 1) =~= new_listed.take(i as int).push(id@));
                assert forall|other: Seq<char>| #[trigger]
                    text::views(changed_names@).contains(other) <==> (listed.contains(other)
                        || new_listed.take(i + 1).contains(other)) && route_changed(
                        before,
                        after,
                        other,
                    ) by {
                    lemma_contains_push(new_listed.take(i as int), id@, other);
                    assert(noted.contains(other) <==> (listed.contains(other) || new_listed.take(
                        i as int,
                    ).contains(other)) && route_changed(before, after, other));
                }
            }
            i += 1;
        }
        assert(new_listed.take(i as int) =~= new_listed);
        self.catalog = catalog;
        let ghost sorted = text::views(changed_names@);
        proof {
            assert forall|id: Seq<char>| #[trigger] sorted.contains(id) <==> route_changed(
                before,
                after,
                id,
            ) by {
                assert(listed.contains(id) <==> before.contains_key(id));
                assert(new_listed.contains(id) <==> after.contains_key(id));
            }
        }
        let mut changed: Vec<MailAccountId> = Vec::new();
        assert(account_names(changed@) =~= sorted.take(0));
        assert(materialized =~= materialized.restrict(
            Set::new(|id: Seq<char>| !sorted.take(0).contains(id)),
        ));
        for name in it: changed_names
            invariant
                sorted == text::views(it.seq()),
                account_names(changed@) == sorted.take(it.index()),
                self.materialized@ == materialized.restrict(
                    Set::new(|id: Seq<char>| !sorted.take(it.index()).contains(id)),
                ),
                catalog_view(self.catalog@) == after,
                self.stub == old(self).stub,
                self.action_queue == old(self).action_queue,
        {
            let ghost before_names = account_names(changed@);
            let ghost kept = self.materialized@;
            let id = MailAccountId(name);
            let ghost value = id@;
            self.materialized.remove(&id);
            changed.push(id);
            proof {
                assert(account_names(changed@) =~= before_names.push(value));
                assert(sorted.take(it.index() + 1) =~= before_names.push(value));
                let gone = Set::new(|id: Seq<char>| !sorted.take(it.index() + 1).contains(id));
                assert forall|other: Seq<char>| #[trigger] gone.contains(other) <==> !sorted.take(
                    it.index(),
                ).contains(other) && other != value by {
                    lemma_contains_push(before_names, value, other);
                }
                assert(self.materialized@ =~= materialized.restrict(gone));
            }
        }
        assert(sorted.take(sorted.len() as int) =~= sorted);
        proof {
            let kept = Set::new(|id: Seq<char>| !sorted.contains(id));
            let expected = Set::new(|id: Seq<char>| !route_changed(before, after, id));
            assert(kept =~= expected);
        }
        changed
    }

    /// Whether the way to an account in `catalog` is not the one that is known.
    fn differs(&self, catalog: &AccountMap<EdsAccountBinding>, id: &MailAccountId) -> (r: bool)
        ensures
            r == route_changed(catalog_view(self.catalog@), catalog_view(catalog@), id@),
    {
        match (self.catalog.get(id), catalog.get(id)) {
            (None, None) => false,
            (Some(known), Some(new)) => !account::same_binding(known, new),
            _ => true,
        }
    }

    /// The backend of an account, where it was made.
    pub fn lease_account_backend(&self, account_id: &MailAccountId) -> (backend: Option<&B>)
        ensures
            match backend {
                Some(backend) => leased(self@, account_id@) == Some(*backend),
                None => leased(self@, account_id@) is None,
            },
    {
        if stub::is_stub_account_id(account_id) {
            return Some(&self.stub);
        }
        self.materialized.get(account_id)
    }
}

proof fn lemma_contains_push(list: Seq<Seq<char>>, value: Seq<char>, other: Seq<char>)
    ensures
        list.push(value).contains(other) <==> list.contains(other) || other == value,
{
    let all = list.push(value);
    if list.contains(other) {
        let i = choose|i: int| 0 <= i < list.len() && list[i] == other;
        assert(all[i] == other);
    }
    if other == value {
        assert(all[list.len() as int] == other);
    }
    if all.contains(other) && other != value {
        let i = choose|i: int| 0 <= i < all.len() && all[i] == other;
        assert(list[i] == other);
    }
}

/// An account whose way changed has no backend any more, every other account is served as
/// before, and learning the same ways again changes nothing.
pub proof fn lemma_catalog_update<B>(
    pool: PoolView<B>,
    catalog: Map<Seq<char>, BindingView>,
    id: Seq<char>,
)
    ensures
        route_changed(pool.catalog, catalog, id) && id != stub::STUB_ACCOUNT_ID@ ==> leased(
            learned(pool, catalog),
            id,
        ) is None,
        !route_changed(pool.catalog, catalog, id) ==> leased(learned(pool, catalog), id) == leased(
            pool,
            id,
        ),
        !route_changed(learned(pool, catalog).catalog, catalog, id),
        learned(learned(pool, catalog), catalog) == learned(pool, catalog),
{
    let once = learned(pool, catalog);
    assert(learned(once, catalog).materialized =~= once.materialized);
}

/// Where each account has one way, the catalog holds just these ways.
pub proof fn lemma_catalog_of(bindings: Seq<EdsAccountBinding>, id: Seq<char>)
    ensures
        catalog_of(bindings).contains_key(id) <==> exists|i: int|
            0 <= i < bindings.len() && (#[trigger] bindings[i]).account_id@ == id,
        (forall|i: int, j: int|
            #![trigger bindings[i], bindings[j]]
            0 <= i < j < bindings.len() ==> bindings[i].account_id@ != bindings[j].account_id@)
            ==> forall|i: int|
            0 <= i < bindings.len() && (#[trigger] bindings[i]).account_id@ == id
                ==> catalog_of(bindings)[id] == bindings[i]@,
    decreases bindings.len(),
{
    if bindings.len() > 0 {
        let rest = bindings.drop_last();
        let n = bindings.len() - 1;
        lemma_catalog_of(rest, id);
        assert(bindings[n] == bindings.last());
        if exists|i: int| 0 <= i < rest.len() && (#[trigger] rest[i]).account_id@ == id {
            let i = choose|i: int| 0 <= i < rest.len() && (#[trigger] rest[i]).account_id@ == id;
            assert(bindings[i].account_id@ == id);
        }
        if exists|i: int| 0 <= i < bindings.len() && (#[trigger] bindings[i]).account_id@ == id {
            let i = choose|i: int|
                0 <= i < bindings.len() && (#[trigger] bindings[i]).account_id@ == id;
            if i < n {
                assert(rest[i].account_id@ == id);
            }
        }
        if forall|i: int, j: int|
            #![trigger bindings[i], bindings[j]]
            0 <= i < j < bindings.len() ==> bindings[i].account_id@ != bindings[j].account_id@ {
            assert forall|i: int, j: int|
                #![trigger rest[i], rest[j]]
                0 <= i < j < rest.len() implies rest[i].account_id@ != rest[j].account_id@ by {
                assert(bindings[i].account_id@ != bindings[j].account_id@);
            }
            assert forall|i: int|
                0 <= i < bindings.len() && (#[trigger] bindings[i]).account_id@
                    == id implies catalog_of(bindings)[id] == bindings[i]@ by {
                if i < n {
                    assert(rest[i].account_id@ == id);
                    assert(bindings[i].account_id@ != bindings[n].account_id@);
                }
            }
        }
    }
}

} // verus!
