//! Mail accounts and the identities they send with.
use crate::model::address;
use crate::text;
use vstd::prelude::*;

verus! {

/// Names a mail account.
#[derive(Debug, PartialEq, Eq, Hash)]
pub struct MailAccountId(pub String);

impl View for MailAccountId {
    type V = Seq<char>;

    open spec fn view(&self) -> Seq<char> {
        self.0@
    }
}

impl Clone for MailAccountId {
    fn clone(&self) -> (r: Self)
        ensures
            r == *self,
    {
        MailAccountId(self.0.clone())
    }
}

/// What stands below the messages of an identity.
#[derive(Debug, PartialEq, Eq)]
pub struct Signature {
    pub html: String,
    pub text: String,
}

/// A signature, as a value.
#[verifier::ext_equal]
pub struct SignatureView {
    pub html: Seq<char>,
    pub text: Seq<char>,
}

impl View for Signature {
    type V = SignatureView;

    open spec fn view(&self) -> SignatureView {
        SignatureView { html: self.html@, text: self.text@ }
    }
}

impl Clone for Signature {
    fn clone(&self) -> (r: Self)
        ensures
            r == *self,
    {
        Signature { html: self.html.clone(), text: self.text.clone() }
    }
}

impl Default for Signature {
    fn default() -> (signature: Self)
        ensures
            signature@ == (SignatureView { html: Seq::empty(), text: Seq::empty() }),
    {
        Signature { html: String::new(), text: String::new() }
    }
}

/// An address from which an account sends, with what is sent along.
#[derive(Debug, PartialEq, Eq)]
pub struct SendingIdentity {
    pub address: String,
    pub display_name: String,
    pub reply_to: Option<String>,
    pub signature: Signature,
}

/// A sending identity, as a value.
#[verifier::ext_equal]
pub struct IdentityView {
    pub address: Seq<char>,
    pub display_name: Seq<char>,
    pub reply_to: Option<Seq<char>>,
    pub signature: SignatureView,
}

impl View for SendingIdentity {
    type V = IdentityView;

    open spec fn view(&self) -> IdentityView {
        IdentityView {
            address: self.address@,
            display_name: self.display_name@,
            reply_to: text::view_opt(self.reply_to),
            signature: self.signature@,
        }
    }
}

impl Clone for SendingIdentity {
    fn clone(&self) -> (r: Self)
        ensures
            r@ == self@,
    {
        SendingIdentity {
            address: self.address.clone(),
            display_name: self.display_name.clone(),
            reply_to: text::clone_opt(&self.reply_to),
            signature: self.signature.clone(),
        }
    }
}

/// The trimmed value, unless nothing is left of it.
pub open spec fn filled(value: Option<Seq<char>>) -> Option<Seq<char>> {
    match value {
        Some(v) if text::trimmed(v).len() > 0 => Some(text::trimmed(v)),
        _ => None,
    }
}

fn trimmed_optional(value: Option<String>) -> (r: Option<String>)
    ensures
        text::view_opt(r) == filled(text::view_opt(value)),
{
    match value {
        Some(value) => {
            let value = text::trim(value.as_str());
            if value.is_empty() {
                None
            } else {
                Some(value.to_owned())
            }
        },
        None => None,
    }
}

impl IdentityView {
    /// The form of the address by which identities are told apart.
    pub open spec fn key(self) -> Seq<char> {
        address::normalized(self.address)
    }

    /// The identity with its texts trimmed.
    pub open spec fn tidied(self) -> IdentityView {
        IdentityView {
            address: text::trimmed(self.address),
            display_name: text::trimmed(self.display_name),
            reply_to: filled(self.reply_to),
            signature: self.signature,
        }
    }

    /// The mailbox that the identity puts in a message.
    pub open spec fn mailbox(self) -> Seq<char> {
        let name = text::trimmed(self.display_name);
        if name.len() == 0 {
            text::trimmed(self.address)
        } else {
            seq!['"'] + quoted_name(name) + "\" <"@ + text::trimmed(self.address) + seq!['>']
        }
    }
}

/// A tidied identity stays as it is.
pub proof fn lemma_tidied_twice(identity: IdentityView)
    ensures
        identity.tidied().tidied() == identity.tidied(),
{
    text::lemma_trimmed_idempotent(identity.address);
    text::lemma_trimmed_idempotent(identity.display_name);
    if identity.reply_to is Some {
        text::lemma_trimmed_idempotent(identity.reply_to->0);
    }
}

/// The only position of a key is the one that is found.
pub proof fn lemma_position_of(aliases: Seq<IdentityView>, i: int)
    requires
        distinct_keys(aliases),
        0 <= i < aliases.len(),
    ensures
        has_key(aliases, aliases[i].key()),
        position_of(aliases, aliases[i].key()) == i,
{
    let at = position_of(aliases, aliases[i].key());
    assert(aliases[at].key() == aliases[i].key());
    if at < i {
        assert(aliases[at].key() != aliases[i].key());
    } else if i < at {
        assert(aliases[i].key() != aliases[at].key());
    }
}

/// `name` as it stands inside a quoted string.
pub open spec fn quoted_name(name: Seq<char>) -> Seq<char> {
    text::replaced(text::replaced(name, '\\', "\\\\"@), '"', "\\\""@)
}

impl SendingIdentity {
    /// An identity with its texts trimmed.
    pub fn new(
        address: String,
        display_name: String,
        reply_to: Option<String>,
        signature: Signature,
    ) -> (identity: Self)
        ensures
            identity@ == (IdentityView {
                address: address@,
                display_name: display_name@,
                reply_to: text::view_opt(reply_to),
                signature: signature@,
            }).tidied(),
    {
        SendingIdentity { address, display_name, reply_to, signature }.normalized()
    }

    /// The identity with its texts trimmed.
    pub fn normalized(self) -> (identity: Self)
        ensures
            identity@ == self@.tidied(),
    {
        SendingIdentity {
            address: text::trim(self.address.as_str()).to_owned(),
            display_name: text::trim(self.display_name.as_str()).to_owned(),
            reply_to: trimmed_optional(self.reply_to),
            signature: self.signature,
        }
    }

    /// The mailbox that the identity puts in a message.
    pub fn mailbox(&self) -> (mailbox: String)
        ensures
            mailbox@ == self@.mailbox(),
    {
        let display_name = text::trim(self.display_name.as_str());
        if display_name.is_empty() {
            return text::trim(self.address.as_str()).to_owned();
        }
        let escaped = text::replace_char(display_name, '\\', "\\\\");
        let quoted_name = text::replace_char(escaped.as_str(), '"', "\\\"");
        let mut mailbox = String::new();
        mailbox.push('"');
        mailbox.append(quoted_name.as_str());
        mailbox.append("\" <");
        mailbox.append(text::trim(self.address.as_str()));
        mailbox.push('>');
        assert(mailbox@ =~= self@.mailbox());
        mailbox
    }

    /// What is shown for the identity: its name, or its address where it has no name.
    pub fn display_name_or_address(&self) -> (shown: String)
        ensures
            shown@ == (if text::trimmed(self@.display_name).len() == 0 {
                self@.address
            } else {
                self@.display_name
            }),
    {
        if text::trim(self.display_name.as_str()).is_empty() {
            self.address.clone()
        } else {
            self.display_name.clone()
        }
    }
}

/// The values of a list of identities.
pub open spec fn identities(list: Seq<SendingIdentity>) -> Seq<IdentityView> {
    list.map_values(|identity: SendingIdentity| identity@)
}

/// Whether one of `aliases` has the key `key`.
pub open spec fn has_key(aliases: Seq<IdentityView>, key: Seq<char>) -> bool {
    exists|i: int| 0 <= i < aliases.len() && (#[trigger] aliases[i]).key() == key
}

/// Where the identity with the key `key` stands.
pub open spec fn position_of(aliases: Seq<IdentityView>, key: Seq<char>) -> int {
    choose|i: int| 0 <= i < aliases.len() && (#[trigger] aliases[i]).key() == key
}

/// Whether each identity has an address, and one that no other has.
pub open spec fn distinct_keys(aliases: Seq<IdentityView>) -> bool {
    &&& forall|i: int| 0 <= i < aliases.len() ==> (#[trigger] aliases[i]).key().len() > 0
    &&& forall|i: int, j: int|
        #![trigger aliases[i], aliases[j]]
        0 <= i < j < aliases.len() ==> aliases[i].key() != aliases[j].key()
}

/// The identities with their texts trimmed.
pub open spec fn tidied_all(aliases: Seq<IdentityView>) -> Seq<IdentityView> {
    aliases.map_values(|identity: IdentityView| identity.tidied())
}

/// A mail account, as a value.
#[verifier::ext_equal]
pub struct AccountView {
    pub id: Seq<char>,
    pub display_name: Seq<char>,
    pub aliases: Seq<IdentityView>,
    pub primary_address: Seq<char>,
    pub default_address: Seq<char>,
}

/// Whether the texts of the identities are trimmed.
pub open spec fn tidy(aliases: Seq<IdentityView>) -> bool {
    forall|i: int| 0 <= i < aliases.len() ==> (#[trigger] aliases[i]).tidied() == aliases[i]
}

impl AccountView {
    /// The identities are tidy and differ in their addresses, the primary and the default
    /// identity are among them, and the default address is written as its identity
    /// has it.
    pub open spec fn valid(self) -> bool {
        &&& distinct_keys(self.aliases)
        &&& tidy(self.aliases)
        &&& has_key(self.aliases, address::normalized(self.primary_address))
        &&& has_key(self.aliases, address::normalized(self.default_address))
        &&& self.aliases[position_of(
            self.aliases,
            address::normalized(self.default_address),
        )].address == self.default_address
    }

    /// The identity with the address `address`.
    pub open spec fn identity(self, address: Seq<char>) -> Option<IdentityView> {
        let key = address::normalized(address);
        if has_key(self.aliases, key) {
            Some(self.aliases[position_of(self.aliases, key)])
        } else {
            None
        }
    }
}

/// A mail account. Its identities are told apart by their addresses alone.
#[derive(Debug, PartialEq, Eq)]
pub struct MailAccount {
    pub id: MailAccountId,
    pub display_name: String,
    aliases: Vec<SendingIdentity>,
    primary_address: String,
    default_address: String,
}

impl View for MailAccount {
    type V = AccountView;

    closed spec fn view(&self) -> AccountView {
        AccountView {
            id: self.id@,
            display_name: self.display_name@,
            aliases: identities(self.aliases@),
            primary_address: self.primary_address@,
            default_address: self.default_address@,
        }
    }
}

/// A copy of a list of identities.
pub fn clone_identities(list: &[SendingIdentity]) -> (r: Vec<SendingIdentity>)
    ensures
        identities(r@) == identities(list@),
{
    let mut r: Vec<SendingIdentity> = Vec::new();
    let mut i: usize = 0;
    while i < list.len()
        invariant
            i <= list.len(),
            identities(r@) == identities(list@).take(i as int),
        decreases list.len() - i,
    {
        let ghost prefix = identities(r@);
        r.push(list[i].clone());
        assert(identities(r@) =~= prefix.push(list@[i as int]@));
        assert(identities(list@).take(i + 1) =~= prefix.push(list@[i as int]@));
        i += 1;
    }
    assert(identities(list@).take(i as int) =~= identities(list@));
    r
}

impl Clone for MailAccount {
    fn clone(&self) -> (r: Self)
        ensures
            r@ == self@,
    {
        MailAccount {
            id: self.id.clone(),
            display_name: self.display_name.clone(),
            aliases: clone_identities(self.aliases.as_slice()),
            primary_address: self.primary_address.clone(),
            default_address: self.default_address.clone(),
        }
    }
}

/// Where the identity with the key `key` stands.
pub fn find_key(aliases: &Vec<SendingIdentity>, key: &String) -> (r: Option<usize>)
    requires
        distinct_keys(identities(aliases@)),
    ensures
        r is Some <==> has_key(identities(aliases@), key@),
        r matches Some(i) ==> i == position_of(identities(aliases@), key@) && i < aliases@.len()
            && aliases@[i as int]@.key() == key@,
{
    let mut i: usize = 0;
    while i < aliases.len()
        invariant
            i <= aliases.len(),
            distinct_keys(identities(aliases@)),
            forall|j: int| 0 <= j < i ==> (#[trigger] identities(aliases@)[j]).key() != key@,
        decreases aliases.len() - i,
    {
        let own = address::normalized_mailbox_address(aliases[i].address.as_str());
        if own == *key {
            proof {
                let views = identities(aliases@);
                assert(views[i as int].key() == key@);
                let at = position_of(views, key@);
                assert(views[at].key() == key@);
                if at < i {
                    assert(views[at].key() != views[i as int].key());
                } else if i < at {
                    assert(views[i as int].key() != views[at].key());
                }
            }
            return Some(i);
        }
        i += 1;
    }
    None
}

impl MailAccount {
    /// An account with one identity.
    pub fn new(id: MailAccountId, display_name: String, primary: SendingIdentity) -> (account: Self)
        requires
            primary@.tidied().key().len() > 0,
            text::trimmed(display_name@).len() > 0,
        ensures
            account@ == (AccountView {
                id: id@,
                display_name: text::trimmed(display_name@),
                aliases: seq![primary@.tidied()],
                primary_address: primary@.tidied().address,
                default_address: primary@.tidied().address,
            }),
            account@.valid(),
    {
        let ghost given = primary@;
        let primary = primary.normalized();
        let ghost one = primary@;
        let primary_address = primary.address.clone();
        let default_address = primary_address.clone();
        let mut aliases: Vec<SendingIdentity> = Vec::new();
        aliases.push(primary);
        let account = MailAccount {
            id,
            display_name: text::trim(display_name.as_str()).to_owned(),
            aliases,
            primary_address,
            default_address,
        };
        proof {
            assert(account@.aliases =~= seq![one]);
            lemma_position_of(account@.aliases, 0);
            lemma_tidied_twice(given);
        }
        account
    }

    /// The name of the account in the sources.
    pub fn id(&self) -> (id: &MailAccountId)
        ensures
            id@ == self@.id,
    {
        &self.id
    }

    /// The name under which the account is shown.
    pub fn display_name(&self) -> (name: &str)
        ensures
            name@ == self@.display_name,
    {
        self.display_name.as_str()
    }

    /// The identities of the account.
    pub fn aliases(&self) -> (aliases: &[SendingIdentity])
        ensures
            identities(aliases@) == self@.aliases,
    {
        self.aliases.as_slice()
    }

    /// The identity that new messages are sent with.
    pub fn default_identity(&self) -> (identity: &SendingIdentity)
        requires
            self@.valid(),
        ensures
            self@.identity(self@.default_address) == Some(identity@),
    {
        let key = address::normalized_mailbox_address(self.default_address.as_str());
        let index = find_key(&self.aliases, &key);
        &self.aliases[index.unwrap()]
    }

    /// The identity that the account itself comes with.
    pub fn primary_identity(&self) -> (identity: &SendingIdentity)
        requires
            self@.valid(),
        ensures
            self@.identity(self@.primary_address) == Some(identity@),
    {
        let key = address::normalized_mailbox_address(self.primary_address.as_str());
        let index = find_key(&self.aliases, &key);
        &self.aliases[index.unwrap()]
    }

    /// The identity with the address `address`.
    pub fn identity(&self, address: &str) -> (identity: Option<&SendingIdentity>)
        requires
            self@.valid(),
        ensures
            match identity {
                Some(found) => self@.identity(address@) == Some(found@),
                None => self@.identity(address@) is None,
            },
    {
        let key = address::normalized_mailbox_address(address);
        match find_key(&self.aliases, &key) {
            Some(index) => Some(&self.aliases[index]),
            None => None,
        }
    }

    /// Whether `address` is that of the default identity.
    pub fn is_default_identity(&self, address: &str) -> (r: bool)
        ensures
            r == (address::normalized(self@.default_address) == address::normalized(address@)),
    {
        address::normalized_mailbox_address(self.default_address.as_str())
            == address::normalized_mailbox_address(address)
    }

    /// Whether `address` is that of the primary identity.
    pub fn is_primary_identity(&self, address: &str) -> (r: bool)
        ensures
            r == (address::normalized(self@.primary_address) == address::normalized(address@)),
    {
        address::normalized_mailbox_address(self.primary_address.as_str())
            == address::normalized_mailbox_address(address)
    }

    /// Replaces all identities. The primary address stays, and `default_address` names
    /// the default among the new ones.
    pub fn replace_aliases(&mut self, aliases: Vec<SendingIdentity>, default_address: String)
        requires
            distinct_keys(tidied_all(identities(aliases@))),
            has_key(
                tidied_all(identities(aliases@)),
                address::normalized(old(self)@.primary_address),
            ),
            has_key(tidied_all(identities(aliases@)), address::normalized(default_address@)),
        ensures
            final(self)@ == (AccountView {
                aliases: tidied_all(identities(aliases@)),
                default_address: tidied_all(identities(aliases@))[position_of(
                    tidied_all(identities(aliases@)),
                    address::normalized(default_address@),
                )].address,
                ..old(self)@
            }),
            final(self)@.valid(),
    {
        let ghost given = identities(aliases@);
        let mut tidied: Vec<SendingIdentity> = Vec::new();
        for identity in it: aliases
            invariant
                identities(tidied@) == tidied_all(given).take(it.index()),
                given == identities(it.seq()),
        {
            let ghost prefix = identities(tidied@);
            let ghost value = identity@;
            tidied.push(identity.normalized());
            proof {
                assert(identities(tidied@) =~= prefix.push(value.tidied()));
                assert(given[it.index()] == value);
                assert(tidied_all(given).take(it.index() + 1) =~= prefix.push(value.tidied()));
            }
        }
        assert(tidied_all(given).take(given.len() as int) =~= tidied_all(given));
        let key = address::normalized_mailbox_address(default_address.as_str());
        let index: usize = find_key(&tidied, &key).unwrap();
        let chosen = tidied[index].address.clone();
        self.aliases = tidied;
        self.default_address = chosen;
        proof {
            assert(self@.aliases[index as int].address == self@.default_address);
            lemma_position_of(self@.aliases, index as int);
            assert forall|i: int| 0 <= i < given.len() implies (
            #[trigger] self@.aliases[i]).tidied() == self@.aliases[i] by {
                lemma_tidied_twice(given[i]);
            }
        }
    }

    /// Renames the account; a blank name is refused.
    pub fn rename(&mut self, display_name: String) -> (renamed: bool)
        ensures
            renamed == (text::trimmed(display_name@).len() > 0),
            final(self)@ == (if renamed {
                AccountView { display_name: text::trimmed(display_name@), ..old(self)@ }
            } else {
                old(self)@
            }),
    {
        let display_name = text::trim(display_name.as_str());
        if display_name.is_empty() {
            return false;
        }
        self.display_name = display_name.to_owned();
        true
    }

    /// Adds an identity; one without an address, or with one that is taken, is refused.
    pub fn add_identity(&mut self, identity: SendingIdentity) -> (added: bool)
        requires
            old(self)@.valid(),
        ensures
            added == (identity@.tidied().key().len() > 0 && !has_key(
                old(self)@.aliases,
                identity@.tidied().key(),
            )),
            final(self)@ == (if added {
                AccountView {
                    aliases: old(self)@.aliases.push(identity@.tidied()),
                    ..old(self)@
                }
            } else {
                old(self)@
            }),
            final(self)@.valid(),
    {
        let ghost given = identity@;
        let identity = identity.normalized();
        let key = address::normalized_mailbox_address(identity.address.as_str());
        if key.as_str().is_empty() || find_key(&self.aliases, &key).is_some() {
            return false;
        }
        let ghost before = self@;
        let ghost added = identity@;
        self.aliases.push(identity);
        proof {
            assert(self@.aliases =~= before.aliases.push(added));
            lemma_keys_kept_by_push(before.aliases, added);
            lemma_tidied_twice(given);
            let at = position_of(before.aliases, address::normalized(before.default_address));
            assert(before.aliases[at].address == self@.aliases[at].address);
            lemma_position_of(self@.aliases, at);
        }
        true
    }

    /// Replaces what is known of the identity with the address `original_address`. The
    /// primary identity keeps its address; an address that is blank or taken is refused.
    pub fn update_identity(
        &mut self,
        original_address: &str,
        display_name: String,
        address: String,
        reply_to: Option<String>,
        signature: Signature,
    ) -> (updated: bool)
        requires
            old(self)@.valid(),
        ensures
            ({
                let before = old(self)@;
                let key = address::normalized(original_address@);
                let at = position_of(before.aliases, key);
                let new_address = if key == address::normalized(before.primary_address) {
                    before.aliases[at].address
                } else {
                    text::trimmed(address@)
                };
                let replacement = (IdentityView {
                    address: new_address,
                    display_name: display_name@,
                    reply_to: text::view_opt(reply_to),
                    signature: signature@,
                }).tidied();
                &&& updated == (has_key(before.aliases, key) && address::normalized(
                    new_address,
                ).len() > 0 && !taken_by_other(
                    before.aliases,
                    at,
                    address::normalized(new_address),
                ))
                &&& final(self)@ == (if updated {
                    AccountView {
                        aliases: before.aliases.update(at, replacement),
                        default_address: if key == address::normalized(before.default_address) {
                            new_address
                        } else {
                            before.default_address
                        },
                        ..before
                    }
                } else {
                    before
                })
            }),
            final(self)@.valid(),
    {
        let key = address::normalized_mailbox_address(original_address);
        let found = find_key(&self.aliases, &key);
        if found.is_none() {
            return false;
        }
        let index: usize = found.unwrap();
        let is_primary = self.is_primary_identity(original_address);
        let ghost requested = address@;
        let address = if is_primary {
            self.aliases[index].address.clone()
        } else {
            text::trim(address.as_str()).to_owned()
        };
        let normalized = address::normalized_mailbox_address(address.as_str());
        if normalized.as_str().is_empty() || self.key_taken_by_other(index, &normalized) {
            return false;
        }
        let ghost before = self@;
        let old_address = self.aliases[index].address.clone();
        let ghost given = IdentityView {
            address: address@,
            display_name: display_name@,
            reply_to: text::view_opt(reply_to),
            signature: signature@,
        };
        let replacement = SendingIdentity::new(address.clone(), display_name, reply_to, signature);
        let ghost replaced_by = replacement@;
        self.aliases[index] = replacement;
        assert(identities(self.aliases@) =~= before.aliases.update(index as int, replaced_by));
        if self.is_default_identity(old_address.as_str()) {
            self.default_address = address;
        }
        proof {
            text::lemma_trimmed_idempotent(address@);
            assert(replaced_by.key() == address::normalized(address@));
            lemma_keys_kept_by_update(before.aliases, index as int, replaced_by);
            let after = self@.aliases;
            assert(after[index as int].key() == replaced_by.key());
            lemma_has_key_update(
                before.aliases,
                index as int,
                replaced_by,
                address::normalized(before.primary_address),
            );
            lemma_tidied_twice(given);
            text::lemma_trimmed_idempotent(requested);
            let at = position_of(before.aliases, address::normalized(before.default_address));
            assert(before.aliases[at].key() == address::normalized(before.default_address));
            assert(before.aliases[index as int].tidied() == before.aliases[index as int]);
            assert(after[index as int].address == address@);
            assert(tidy(after)) by {
                assert forall|i: int| 0 <= i < after.len() implies (#[trigger] after[i]).tidied()
                    == after[i] by {
                    assert(i == index || after[i] == before.aliases[i]);
                }
            }
            if key@ != address::normalized(before.default_address) {
                assert(after[at] == before.aliases[at]);
                lemma_position_of(after, at);
            } else {
                lemma_position_of(after, index as int);
            }
        }
        true
    }

    /// Whether an identity other than the one at `index` has the key `key`.
    fn key_taken_by_other(&self, index: usize, key: &String) -> (r: bool)
        ensures
            r == taken_by_other(self@.aliases, index as int, key@),
    {
        let mut i: usize = 0;
        while i < self.aliases.len()
            invariant
                i <= self.aliases.len(),
                forall|j: int|
                    0 <= j < i && j != index ==> (#[trigger] self@.aliases[j]).key() != key@,
            decreases self.aliases.len() - i,
        {
            if i != index && address::normalized_mailbox_address(self.aliases[i].address.as_str())
                == *key {
                assert(self@.aliases[i as int].key() == key@);
                return true;
            }
            i += 1;
        }
        false
    }

    /// Removes an identity, unless it is the primary or the default one.
    pub fn remove_identity(&mut self, address: &str) -> (removed: bool)
        requires
            old(self)@.valid(),
        ensures
            ({
                let before = old(self)@;
                let key = address::normalized(address@);
                &&& removed == (has_key(before.aliases, key) && key != address::normalized(
                    before.primary_address,
                ) && key != address::normalized(before.default_address))
                &&& final(self)@ == (if removed {
                    AccountView {
                        aliases: before.aliases.remove(position_of(before.aliases, key)),
                        ..before
                    }
                } else {
                    before
                })
            }),
            final(self)@.valid(),
    {
        let key = address::normalized_mailbox_address(address);
        let found = find_key(&self.aliases, &key);
        if found.is_none() || self.is_primary_identity(address) || self.is_default_identity(
            address,
        ) {
            return false;
        }
        let index: usize = found.unwrap();
        let ghost before = self@;
        let _ = self.aliases.remove(index);
        proof {
            assert(self@.aliases =~= before.aliases.remove(index as int));
            lemma_keys_kept_by_remove(before.aliases, index as int);
            lemma_has_key_remove(
                before.aliases,
                index as int,
                address::normalized(before.primary_address),
            );
            let at = position_of(before.aliases, address::normalized(before.default_address));
            assert(before.aliases[at].key() == address::normalized(before.default_address));
            let after = if at < index { at } else { at - 1 };
            assert(self@.aliases[after] == before.aliases[at]);
            lemma_position_of(self@.aliases, after);
            assert forall|i: int| 0 <= i < self@.aliases.len() implies (
            #[trigger] self@.aliases[i]).tidied() == self@.aliases[i] by {
                let a = if i < index { i } else { i + 1 };
                assert(before.aliases[a].tidied() == before.aliases[a]);
            }
        }
        true
    }

    /// Makes the identity with the address `address` the default.
    pub fn set_default_identity(&mut self, address: &str) -> (set: bool)
        requires
            old(self)@.valid(),
        ensures
            set == has_key(old(self)@.aliases, address::normalized(address@)),
            final(self)@ == (if set {
                AccountView {
                    default_address: old(self)@.aliases[position_of(
                        old(self)@.aliases,
                        address::normalized(address@),
                    )].address,
                    ..old(self)@
                }
            } else {
                old(self)@
            }),
            final(self)@.valid(),
    {
        let key = address::normalized_mailbox_address(address);
        match find_key(&self.aliases, &key) {
            Some(index) => {
                self.default_address = self.aliases[index].address.clone();
                proof {
                    lemma_position_of(self@.aliases, index as int);
                }
                true
            },
            None => false,
        }
    }
}

/// Whether an identity other than the one at `index` has the key `key`.
pub open spec fn taken_by_other(aliases: Seq<IdentityView>, index: int, key: Seq<char>) -> bool {
    exists|i: int|
        0 <= i < aliases.len() && i != index && (#[trigger] aliases[i]).key() == key
}

proof fn lemma_keys_kept_by_push(aliases: Seq<IdentityView>, added: IdentityView)
    requires
        distinct_keys(aliases),
        added.key().len() > 0,
        !has_key(aliases, added.key()),
    ensures
        distinct_keys(aliases.push(added)),
        forall|key: Seq<char>| has_key(aliases, key) ==> #[trigger] has_key(aliases.push(added), key),
{
    let after = aliases.push(added);
    assert forall|i: int, j: int|
        #![trigger after[i], after[j]]
        0 <= i < j < after.len() implies after[i].key() != after[j].key() by {
        assert(after[i] == aliases[i]);
    }
    assert forall|key: Seq<char>| has_key(aliases, key) implies #[trigger] has_key(after, key) by {
        let i = position_of(aliases, key);
        assert(after[i].key() == key);
    }
}

proof fn lemma_keys_kept_by_update(aliases: Seq<IdentityView>, index: int, value: IdentityView)
    requires
        distinct_keys(aliases),
        0 <= index < aliases.len(),
        value.key().len() > 0,
        !taken_by_other(aliases, index, value.key()),
    ensures
        distinct_keys(aliases.update(index, value)),
{
    let after = aliases.update(index, value);
    assert forall|i: int| 0 <= i < after.len() implies (#[trigger] after[i]).key().len() > 0 by {
        if i != index {
            assert(after[i] == aliases[i]);
        }
    }
    assert forall|i: int, j: int|
        #![trigger after[i], after[j]]
        0 <= i < j < after.len() implies after[i].key() != after[j].key() by {
        if i != index {
            assert(after[i] == aliases[i]);
        }
        if j != index {
            assert(after[j] == aliases[j]);
        }
    }
}

proof fn lemma_has_key_update(
    aliases: Seq<IdentityView>,
    index: int,
    value: IdentityView,
    key: Seq<char>,
)
    requires
        0 <= index < aliases.len(),
        has_key(aliases, key),
        aliases[index].key() == key ==> value.key() == key,
    ensures
        has_key(aliases.update(index, value), key),
{
    let i = position_of(aliases, key);
    assert(aliases.update(index, value)[i].key() == key);
}

proof fn lemma_keys_kept_by_remove(aliases: Seq<IdentityView>, index: int)
    requires
        distinct_keys(aliases),
        0 <= index < aliases.len(),
    ensures
        distinct_keys(aliases.remove(index)),
{
    let after = aliases.remove(index);
    assert forall|i: int| 0 <= i < after.len() implies (#[trigger] after[i]).key().len() > 0 by {
        let a = if i < index { i } else { i + 1 };
        assert(after[i] == aliases[a]);
    }
    assert forall|i: int, j: int|
        #![trigger after[i], after[j]]
        0 <= i < j < after.len() implies after[i].key() != after[j].key() by {
        let a = if i < index { i } else { i + 1 };
        let b = if j < index { j } else { j + 1 };
        assert(after[i] == aliases[a] && after[j] == aliases[b]);
    }
}

proof fn lemma_has_key_remove(aliases: Seq<IdentityView>, index: int, key: Seq<char>)
    requires
        0 <= index < aliases.len(),
        has_key(aliases, key),
        aliases[index].key() != key,
    ensures
        has_key(aliases.remove(index), key),
{
    let i = position_of(aliases, key);
    let a = if i < index { i } else { i - 1 };
    assert(aliases.remove(index)[a].key() == key);
}

/// An identity that was added is the one that its address finds.
pub proof fn lemma_added_identity_is_found(account: AccountView, identity: IdentityView)
    requires
        account.valid(),
        identity.tidied().key().len() > 0,
        !has_key(account.aliases, identity.tidied().key()),
    ensures
        (AccountView {
            aliases: account.aliases.push(identity.tidied()),
            ..account
        }).identity(identity.address) == Some(identity.tidied()),
{
    let after = account.aliases.push(identity.tidied());
    let last = account.aliases.len() as int;
    text::lemma_trimmed_idempotent(identity.address);
    lemma_keys_kept_by_push(account.aliases, identity.tidied());
    assert(after[last].key() == address::normalized(identity.address));
    let at = position_of(after, address::normalized(identity.address));
    if at < last {
        assert(after[at].key() != after[last].key());
    }
}

/// Once an identity has another address, its old address finds no identity.
pub proof fn lemma_replaced_address_finds_nothing(
    account: AccountView,
    index: int,
    replacement: IdentityView,
)
    requires
        account.valid(),
        0 <= index < account.aliases.len(),
        replacement.key() != account.aliases[index].key(),
    ensures
        (AccountView {
            aliases: account.aliases.update(index, replacement),
            ..account
        }).identity(account.aliases[index].address) is None,
{
    let after = account.aliases.update(index, replacement);
    let key = account.aliases[index].key();
    if has_key(after, key) {
        let at = position_of(after, key);
        assert(after[at].key() == key);
        if at < index {
            assert(account.aliases[at].key() != account.aliases[index].key());
        } else if index < at {
            assert(account.aliases[index].key() != account.aliases[at].key());
        }
    }
}

/// The address of an identity that was removed finds no identity.
pub proof fn lemma_removed_address_finds_nothing(account: AccountView, index: int)
    requires
        account.valid(),
        0 <= index < account.aliases.len(),
    ensures
        (AccountView { aliases: account.aliases.remove(index), ..account }).identity(
            account.aliases[index].address,
        ) is None,
{
    let after = account.aliases.remove(index);
    let key = account.aliases[index].key();
    if has_key(after, key) {
        let at = position_of(after, key);
        assert(after[at].key() == key);
        if at < index {
            assert(account.aliases[at].key() != account.aliases[index].key());
        } else {
            assert(after[at] == account.aliases[at + 1]);
            assert(account.aliases[index].key() != account.aliases[at + 1].key());
        }
    }
}

/// A name as it stands inside a quoted string does not end the string.
proof fn lemma_quoted_name_stays_quoted(name: Seq<char>)
    ensures
        address::stays_quoted(quoted_name(name)),
    decreases name.len(),
{
    reveal_strlit("\\\\");
    reveal_strlit("\\\"");
    let inside = address::ListState { depth: 0, quoted: true, escaped: false };
    if name.len() == 0 {
        reveal_with_fuel(text::replaced, 2);
        assert(quoted_name(name) =~= Seq::empty());
        assert forall|i: int| 0 <= i <= 0 implies (#[trigger] address::list_run(
            inside,
            quoted_name(name).take(i),
        )).quoted by {
            assert(quoted_name(name).take(i) =~= Seq::empty());
        }
    } else {
        let rest = name.drop_last();
        let c = name.last();
        lemma_quoted_name_stays_quoted(rest);
        let inner = text::replaced(rest, '\\', "\\\\"@);
        let tail = if c == '\\' {
            "\\\\"@
        } else if c == '"' {
            "\\\""@
        } else {
            seq![c]
        };
        assert(quoted_name(name) =~= quoted_name(rest) + tail) by {
            if c == '\\' {
                let one = inner.push('\\');
                let two = one.push('\\');
                assert(inner + "\\\\"@ =~= two);
                assert(one.drop_last() =~= inner);
                assert(two.drop_last() =~= one);
                assert(text::replaced(name, '\\', "\\\\"@) == two);
                assert(text::replaced(one, '"', "\\\""@) == quoted_name(rest).push('\\'));
                assert(text::replaced(two, '"', "\\\""@) == quoted_name(rest).push('\\').push('\\'));
            } else {
                let one = inner.push(c);
                assert(one.drop_last() =~= inner);
                assert(text::replaced(name, '\\', "\\\\"@) == one);
            }
        }
        assert(address::stays_quoted(tail)) by {
            assert(tail.take(0) =~= Seq::empty());
            assert(tail.take(1) =~= Seq::empty().push(tail[0]));
            assert(tail.take(1).drop_last() =~= Seq::empty());
            reveal_with_fuel(address::list_run, 3);
            if c == '\\' || c == '"' {
                assert(tail.take(2) =~= tail);
                assert(tail.drop_last() =~= tail.take(1));
            } else {
                assert(tail.take(1) =~= tail);
            }
        }
        address::lemma_stays_quoted_concat(quoted_name(rest), tail);
    }
}

/// The mailbox of an identity with a plain address is one item of a mailbox list,
/// whatever its name holds.
pub proof fn lemma_mailbox_is_one_item(identity: IdentityView)
    requires
        address::is_plain(text::trimmed(identity.address)),
        text::trimmed(identity.address).len() > 0,
    ensures
        address::is_whole(identity.mailbox()),
        identity.mailbox().len() > 0,
        text::trimmed(identity.mailbox()) == identity.mailbox(),
{
    let name = text::trimmed(identity.display_name);
    let own = text::trimmed(identity.address);
    if name.len() == 0 {
        address::lemma_plain_is_whole(own);
        text::lemma_trimmed_idempotent(identity.address);
    } else {
        lemma_quoted_name_stays_quoted(name);
        address::lemma_named_mailbox_is_whole(quoted_name(name), own);
        let whole = identity.mailbox();
        assert(whole[0] == '"');
        assert(whole.last() == '>');
        text::lemma_trimmed_identity(whole);
    }
}

/// The mailbox of an identity whose address holds no angle bracket is told apart as the
/// identity is.
pub proof fn lemma_mailbox_names_the_address(identity: IdentityView)
    requires
        !text::trimmed(identity.address).contains('<'),
        !text::trimmed(identity.address).contains('>'),
    ensures
        address::normalized(identity.mailbox()) == identity.key(),
{
    let name = text::trimmed(identity.display_name);
    let own = text::trimmed(identity.address);
    text::lemma_trimmed_idempotent(identity.address);
    text::lemma_last_at(own, '<');
    if name.len() > 0 {
        address::lemma_normalized_of_named_mailbox(quoted_name(name), own);
    }
}

} // verus!
