//! Mailbox lists and mail addresses.
use crate::text;
use vstd::prelude::*;

verus! {

/// What the characters read so far say of the next one in a mailbox list.
pub struct ListState {
    /// Angle brackets that are open.
    pub depth: nat,
    /// Inside a quoted string.
    pub quoted: bool,
    /// Behind a backslash in a quoted string.
    pub escaped: bool,
}

/// What the character `c` makes of the state.
pub open spec fn list_step(state: ListState, c: char) -> ListState {
    if state.escaped {
        ListState { escaped: false, ..state }
    } else if c == '\\' && state.quoted {
        ListState { escaped: true, ..state }
    } else if c == '"' {
        ListState { quoted: !state.quoted, ..state }
    } else if c == '<' && !state.quoted {
        ListState { depth: state.depth + 1, ..state }
    } else if c == '>' && !state.quoted && state.depth > 0 {
        ListState { depth: (state.depth - 1) as nat, ..state }
    } else {
        state
    }
}

/// What the characters of `s` make of the state.
pub open spec fn list_run(state: ListState, s: Seq<char>) -> ListState
    decreases s.len(),
{
    if s.len() == 0 {
        state
    } else {
        list_step(list_run(state, s.drop_last()), s.last())
    }
}

/// The state of a mailbox list behind `s`.
pub open spec fn list_state(s: Seq<char>) -> ListState {
    list_run(ListState { depth: 0, quoted: false, escaped: false }, s)
}

impl ListState {
    /// Whether a comma ends an item of the list.
    pub open spec fn at_top_level(self) -> bool {
        !self.escaped && !self.quoted && self.depth == 0
    }
}

/// Whether a comma behind `s` ends an item of the list.
pub open spec fn at_top_level(s: Seq<char>) -> bool {
    list_state(s).at_top_level()
}

/// The parts of `s` between its top-level commas.
pub open spec fn list_items(s: Seq<char>) -> Seq<Seq<char>>
    decreases s.len(),
{
    if s.len() == 0 {
        seq![Seq::<char>::empty()]
    } else {
        let items = list_items(s.drop_last());
        if s.last() == ',' && at_top_level(s.drop_last()) {
            items.push(Seq::empty())
        } else {
            items.drop_last().push(items.last().push(s.last()))
        }
    }
}

/// The items that hold more than white space, trimmed.
pub open spec fn filled_items(items: Seq<Seq<char>>) -> Seq<Seq<char>>
    decreases items.len(),
{
    if items.len() == 0 {
        Seq::empty()
    } else if text::trimmed(items.last()).len() == 0 {
        filled_items(items.drop_last())
    } else {
        filled_items(items.drop_last()).push(text::trimmed(items.last()))
    }
}

/// The mailboxes that the list `s` names.
pub open spec fn mailboxes_of(s: Seq<char>) -> Seq<Seq<char>> {
    filled_items(list_items(s))
}

/// The part between the last `<` and the first `>` behind it, or all of `s` where
/// there is no such part.
pub open spec fn bracketed(s: Seq<char>) -> Seq<char> {
    let rest = s.skip(text::last_at(s, '<') + 1);
    let end = text::first_at(rest, '>');
    if text::last_at(s, '<') >= 0 && end < rest.len() {
        rest.take(end)
    } else {
        s
    }
}

/// The address of a mailbox in the form in which addresses are compared.
pub open spec fn normalized(mailbox: Seq<char>) -> Seq<char> {
    text::lowered(text::trimmed(bracketed(text::trimmed(mailbox))))
}

/// Splits a mailbox list at its commas, except those in quotes or angle brackets.
pub fn split_mailbox_list(raw: &str) -> (mailboxes: Vec<String>)
    ensures
        text::views(mailboxes@) == mailboxes_of(raw@),
{
    let chars = text::chars_of(raw);
    let mut mailboxes: Vec<String> = Vec::new();
    let mut current = String::new();
    let mut angle_depth: usize = 0;
    let mut in_quotes = false;
    let mut escaped = false;
    let mut i: usize = 0;
    let ghost mut done: Seq<Seq<char>> = Seq::empty();
    while i < chars.len()
        invariant
            i <= chars.len(),
            chars@ == raw@,
            angle_depth <= i,
            list_state(raw@.take(i as int)) == (ListState {
                depth: angle_depth as nat,
                quoted: in_quotes,
                escaped,
            }),
            list_items(raw@.take(i as int)) == done.push(current@),
            text::views(mailboxes@) == filled_items(done),
        decreases chars.len() - i,
    {
        let ch = chars[i];
        let ghost before = raw@.take(i as int);
        let ghost after = raw@.take(i + 1);
        let ghost item = current@;
        proof {
            assert(after.drop_last() =~= before);
            assert(after.last() == ch);
            assert(done.push(item).drop_last() =~= done);
        }
        if escaped {
            current.push(ch);
            escaped = false;
        } else if ch == '\\' && in_quotes {
            current.push(ch);
            escaped = true;
        } else if ch == '"' {
            in_quotes = !in_quotes;
            current.push(ch);
        } else if ch == '<' && !in_quotes {
            angle_depth += 1;
            current.push(ch);
        } else if ch == '>' && !in_quotes {
            if angle_depth > 0 {
                angle_depth -= 1;
            }
            current.push(ch);
        } else if ch == ',' && !in_quotes && angle_depth == 0 {
            proof {
                assert(at_top_level(before));
                assert(done.push(item).drop_last() =~= done);
            }
            push_nonempty(&mut mailboxes, &mut current);
            proof {
                done = done.push(item);
                assert(current@ =~= Seq::<char>::empty());
            }
        } else {
            current.push(ch);
        }
        i += 1;
    }
    assert(raw@.take(i as int) =~= raw@);
    assert(done.push(current@).drop_last() =~= done);
    push_nonempty(&mut mailboxes, &mut current);
    mailboxes
}

/// Moves the trimmed item to the list unless it is empty, and clears it.
fn push_nonempty(mailboxes: &mut Vec<String>, current: &mut String)
    ensures
        final(current)@.len() == 0,
        text::views(final(mailboxes)@) == (if text::trimmed(old(current)@).len() == 0 {
            text::views(old(mailboxes)@)
        } else {
            text::views(old(mailboxes)@).push(text::trimmed(old(current)@))
        }),
{
    let mailbox = text::trim(current.as_str());
    if !mailbox.is_empty() {
        mailboxes.push(mailbox.to_owned());
    }
    *current = String::new();
}

/// The address of a mailbox, trimmed and in lower case.
pub fn normalized_mailbox_address(mailbox: &str) -> (address: String)
    ensures
        address@ == normalized(mailbox@),
{
    let mailbox = text::trim(mailbox);
    let mut address = mailbox;
    let length: usize = mailbox.unicode_len();
    if let Some(start) = text::rfind(mailbox, '<') {
        let rest = mailbox.substring_char(start + 1, length);
        assert(rest@ =~= mailbox@.skip(start + 1));
        if let Some(end) = text::find(rest, '>') {
            address = rest.substring_char(0, end);
            assert(address@ =~= rest@.take(end as int));
        }
    }
    text::ascii_lowercase(text::trim(address))
}

/// A normalized address is its own normalized form.
pub proof fn lemma_normalized_idempotent(mailbox: Seq<char>)
    ensures
        normalized(normalized(mailbox)) == normalized(mailbox),
{
    let m = text::trimmed(mailbox);
    let t = text::trimmed(bracketed(m));
    let n = text::lowered(t);
    text::lemma_trimmed_idempotent(mailbox);
    text::lemma_trimmed_idempotent(bracketed(m));
    assert(n.len() == t.len());
    assert forall|i: int| 0 <= i < n.len() implies #[trigger] n[i] == text::lower_char(t[i]) by {}
    text::lemma_trimmed_identity(n);
    text::lemma_last_at(m, '<');
    text::lemma_last_at(n, '<');
    let start = text::last_at(m, '<');
    let rest = m.skip(start + 1);
    text::lemma_first_at(rest, '>');
    let end = text::first_at(rest, '>');
    let n_rest = n.skip(text::last_at(n, '<') + 1);
    text::lemma_first_at(n_rest, '>');
    if start >= 0 && end < rest.len() {
        let bounds = text::lemma_trimmed_bounds(rest.take(end));
        assert forall|i: int| 0 <= i < n.len() implies #[trigger] n[i] != '<' by {
            assert(t[i] == rest[i + bounds.0]);
            assert(rest[i + bounds.0] == m[start + 1 + i + bounds.0]);
        }
        assert(bracketed(n) == n);
    } else {
        assert(t == m);
        if text::last_at(n, '<') >= 0 {
            assert(m[text::last_at(n, '<')] == '<');
            if text::last_at(n, '<') < start {
                assert(n[start] == '<');
            }
            assert(text::last_at(n, '<') == start);
            if text::first_at(n_rest, '>') < n_rest.len() {
                let k = text::first_at(n_rest, '>');
                assert(n_rest[k] == n[start + 1 + k]);
                assert(rest[k] == '>');
            }
        }
        assert(bracketed(n) == n);
    }
    assert(text::lowered(n) =~= n);
}

proof fn lemma_list_run_concat(state: ListState, a: Seq<char>, b: Seq<char>)
    ensures
        list_run(state, a + b) == list_run(list_run(state, a), b),
    decreases b.len(),
{
    if b.len() == 0 {
        assert(a + b =~= a);
    } else {
        assert((a + b).drop_last() =~= a + b.drop_last());
        lemma_list_run_concat(state, a, b.drop_last());
    }
}

/// Whether `s`, read where an item may end, leaves a list where an item may end, and
/// holds no comma that ends one.
pub open spec fn is_whole(s: Seq<char>) -> bool {
    let start = ListState { depth: 0, quoted: false, escaped: false };
    &&& list_run(start, s).at_top_level()
    &&& forall|i: int|
        0 <= i < s.len() && #[trigger] s[i] == ',' ==> !list_run(start, s.take(i)).at_top_level()
}

/// What is whole goes to the last item.
pub proof fn lemma_items_of_whole(a: Seq<char>, s: Seq<char>)
    requires
        at_top_level(a),
        is_whole(s),
    ensures
        at_top_level(a + s),
        list_items(a + s) == list_items(a).drop_last().push(list_items(a).last() + s),
{
    let start = ListState { depth: 0, quoted: false, escaped: false };
    lemma_list_run_concat(start, a, s);
    lemma_items_grow(a, s, s.len() as int);
    assert(s.take(s.len() as int) =~= s);
}

proof fn lemma_items_grow(a: Seq<char>, s: Seq<char>, n: int)
    requires
        at_top_level(a),
        is_whole(s),
        0 <= n <= s.len(),
    ensures
        list_items(a + s.take(n)) == list_items(a).drop_last().push(
            list_items(a).last() + s.take(n),
        ),
    decreases n,
{
    let start = ListState { depth: 0, quoted: false, escaped: false };
    lemma_items_are_some(a);
    let items = list_items(a);
    if n == 0 {
        assert(a + s.take(0) =~= a);
        assert(items.last() + s.take(0) =~= items.last());
        assert(items.drop_last().push(items.last()) =~= items);
    } else {
        lemma_items_grow(a, s, n - 1);
        let whole = a + s.take(n);
        assert(whole.drop_last() =~= a + s.take(n - 1));
        assert(whole.last() == s[n - 1]);
        lemma_list_run_concat(start, a, s.take(n - 1));
        let before = list_items(a + s.take(n - 1));
        assert(before.drop_last() =~= items.drop_last());
        assert(before.last() =~= items.last() + s.take(n - 1));
        assert(s.take(n) =~= s.take(n - 1).push(s[n - 1]));
        assert((items.last() + s.take(n - 1)).push(s[n - 1]) =~= items.last() + s.take(n));
    }
}

proof fn lemma_items_are_some(s: Seq<char>)
    ensures
        list_items(s).len() > 0,
    decreases s.len(),
{
    if s.len() > 0 {
        lemma_items_are_some(s.drop_last());
    }
}

/// Items that are whole and hold more than white space, in a row with `, ` between
/// each two, are the mailboxes that the list names.
pub proof fn lemma_joined_mailboxes_are_listed(parts: Seq<Seq<char>>)
    requires
        forall|i: int| 0 <= i < parts.len() ==> is_whole(#[trigger] parts[i]),
        forall|i: int|
            0 <= i < parts.len() ==> (#[trigger] parts[i]).len() > 0 && text::trimmed(parts[i])
                == parts[i],
    ensures
        at_top_level(text::joined(parts, ", "@)),
        parts.len() > 0 ==> filled_items(list_items(text::joined(parts, ", "@)).drop_last())
            == parts.drop_last() && text::trimmed(
            list_items(text::joined(parts, ", "@)).last(),
        ) == parts.last(),
        mailboxes_of(text::joined(parts, ", "@)) == parts,
    decreases parts.len(),
{
    reveal_strlit(", ");
    let all = text::joined(parts, ", "@);
    if parts.len() == 0 {
        assert(text::trimmed(Seq::<char>::empty()).len() == 0) by {
            text::lemma_trimmed_identity(Seq::empty());
        }
        reveal_with_fuel(filled_items, 2);
        assert(mailboxes_of(all) =~= parts);
    } else {
        let last = parts.last();
        assert(parts[parts.len() - 1] == last);
        let rest = parts.drop_last();
        assert forall|i: int| 0 <= i < rest.len() implies is_whole(#[trigger] rest[i]) by {
            assert(rest[i] == parts[i]);
        }
        assert forall|i: int| 0 <= i < rest.len() implies (#[trigger] rest[i]).len() > 0
            && text::trimmed(rest[i]) == rest[i] by {
            assert(rest[i] == parts[i]);
        }
        lemma_joined_mailboxes_are_listed(rest);
        if parts.len() == 1 {
            let none = Seq::<char>::empty();
            assert(none + last =~= last);
            lemma_items_of_whole(none, last);
            let items = list_items(last);
            assert(items.drop_last() =~= Seq::empty());
            assert(items.last() =~= last);
            assert(rest =~= Seq::empty());
        } else {
            let before = text::joined(rest, ", "@);
            let comma = before.push(',');
            let space = comma.push(' ');
            assert(comma.drop_last() =~= before);
            assert(space.drop_last() =~= comma);
            lemma_items_are_some(before);
            let listed = list_items(before);
            assert(list_items(comma) == listed.push(Seq::empty()));
            assert(at_top_level(comma));
            let gap = Seq::<char>::empty().push(' ');
            assert(list_items(space) =~= listed.push(gap)) by {
                assert(listed.push(Seq::<char>::empty()).drop_last() =~= listed);
            }
            assert(at_top_level(space));
            lemma_items_of_whole(space, last);
            assert(all =~= space + last);
            let items = list_items(all);
            assert(listed.push(gap).drop_last() =~= listed);
            assert(items =~= listed.push(gap + last));
            assert(items.drop_last() =~= listed);
            lemma_leading_space_is_trimmed(last);
            assert(filled_items(listed) == rest) by {
                assert(filled_items(listed) == filled_items(listed.drop_last()).push(rest.last()));
                assert(rest[rest.len() - 1] == rest.last());
                assert(rest.drop_last().push(rest.last()) =~= rest);
            }
        }
        assert(rest.push(last) =~= parts);
    }
}

proof fn lemma_leading_space_is_trimmed(s: Seq<char>)
    requires
        s.len() > 0,
        text::trimmed(s) == s,
    ensures
        text::trimmed(Seq::<char>::empty().push(' ') + s) == s,
{
    text::lemma_trimmed_idempotent(s);
    let spaced = Seq::<char>::empty().push(' ') + s;
    assert(spaced.skip(1) =~= s);
    reveal_with_fuel(text::trimmed_start, 2);
}

/// Whether `s` holds none of the characters that mean something in a mailbox list.
pub open spec fn is_plain(s: Seq<char>) -> bool {
    forall|i: int|
        0 <= i < s.len() ==> (#[trigger] s[i]) != ',' && s[i] != '"' && s[i] != '<' && s[i] != '>'
}

proof fn lemma_run_of_plain(state: ListState, s: Seq<char>)
    requires
        !state.quoted,
        !state.escaped,
        is_plain(s),
    ensures
        list_run(state, s) == state,
    decreases s.len(),
{
    if s.len() > 0 {
        assert(s[s.len() - 1] == s.last());
        assert forall|i: int| 0 <= i < s.drop_last().len() implies (#[trigger] s.drop_last()[i])
            != ',' && s.drop_last()[i] != '"' && s.drop_last()[i] != '<' && s.drop_last()[i]
            != '>' by {
            assert(s.drop_last()[i] == s[i]);
        }
        lemma_run_of_plain(state, s.drop_last());
    }
}

/// A plain text is whole.
pub proof fn lemma_plain_is_whole(s: Seq<char>)
    requires
        is_plain(s),
    ensures
        is_whole(s),
{
    lemma_run_of_plain(ListState { depth: 0, quoted: false, escaped: false }, s);
}

/// Whether `s`, read inside a quoted string, stays inside it up to its end.
pub open spec fn stays_quoted(s: Seq<char>) -> bool {
    let inside = ListState { depth: 0, quoted: true, escaped: false };
    &&& list_run(inside, s) == inside
    &&& forall|i: int| 0 <= i <= s.len() ==> (#[trigger] list_run(inside, s.take(i))).quoted
}

/// Two texts that stay inside a quoted string do so in a row.
pub proof fn lemma_stays_quoted_concat(a: Seq<char>, b: Seq<char>)
    requires
        stays_quoted(a),
        stays_quoted(b),
    ensures
        stays_quoted(a + b),
{
    let inside = ListState { depth: 0, quoted: true, escaped: false };
    lemma_list_run_concat(inside, a, b);
    assert forall|i: int| 0 <= i <= (a + b).len() implies (#[trigger] list_run(
        inside,
        (a + b).take(i),
    )).quoted by {
        if i <= a.len() {
            assert((a + b).take(i) =~= a.take(i));
        } else {
            assert((a + b).take(i) =~= a + b.take(i - a.len()));
            lemma_list_run_concat(inside, a, b.take(i - a.len()));
            assert(list_run(inside, b.take(i - a.len())).quoted);
        }
    }
}

/// A name in quotes and a plain address in angle brackets are whole.
pub proof fn lemma_named_mailbox_is_whole(name: Seq<char>, address: Seq<char>)
    requires
        stays_quoted(name),
        is_plain(address),
    ensures
        is_whole(seq!['"'] + name + "\" <"@ + address + seq!['>']),
{
    reveal_strlit("\" <");
    let start = ListState { depth: 0, quoted: false, escaped: false };
    let inside = ListState { depth: 0, quoted: true, escaped: false };
    let bracket = ListState { depth: 1, quoted: false, escaped: false };
    let open = seq!['"'];
    let close = "\" <"@;
    let whole = open + name + close + address + seq!['>'];
    let head = open + name;
    assert(list_run(start, open) == inside) by {
        reveal_with_fuel(list_run, 2);
        assert(open.drop_last() =~= Seq::empty());
    }
    lemma_list_run_concat(start, open, name);
    assert(list_run(inside, close) == bracket) by {
        assert(close =~= seq!['"', ' ', '<']);
        assert(close.drop_last() =~= seq!['"', ' ']);
        assert(close.drop_last().drop_last() =~= seq!['"']);
        assert(close.drop_last().drop_last().drop_last() =~= Seq::empty());
        reveal_with_fuel(list_run, 4);
    }
    lemma_list_run_concat(start, head, close);
    let front = head + close;
    lemma_list_run_concat(start, front, address);
    lemma_run_of_plain(bracket, address);
    let body = front + address;
    assert(whole.drop_last() =~= body);
    assert(whole.last() == '>');
    assert(list_run(start, whole).at_top_level());
    assert forall|i: int| 0 <= i < whole.len() && #[trigger] whole[i] == ',' implies !list_run(
        start,
        whole.take(i),
    ).at_top_level() by {
        if i < head.len() {
            assert(1 <= i);
            let k = i - 1;
            assert(whole.take(i) =~= open + name.take(k));
            lemma_list_run_concat(start, open, name.take(k));
            assert(list_run(inside, name.take(k)).quoted);
        } else if i < front.len() {
            assert(whole[i] == close[i - head.len()]);
        } else if i < body.len() {
            assert(whole[i] == address[i - front.len()]);
        }
    }
}

/// The address in angle brackets is the one that the mailbox is normalized to.
pub proof fn lemma_normalized_of_named_mailbox(name: Seq<char>, address: Seq<char>)
    requires
        !address.contains('<'),
        !address.contains('>'),
        text::trimmed(address) == address,
    ensures
        normalized(seq!['"'] + name + "\" <"@ + address + seq!['>']) == text::lowered(address),
{
    reveal_strlit("\" <");
    let open = seq!['"'];
    let close = "\" <"@;
    let front = open + name + close;
    let whole = front + address + seq!['>'];
    assert(whole[0] == '"');
    assert(whole.last() == '>');
    text::lemma_trimmed_identity(whole);
    let start = front.len() - 1;
    assert(whole[start] == '<') by {
        assert(whole[start] == close[2]);
    }
    text::lemma_last_at(whole, '<');
    assert(text::last_at(whole, '<') == start) by {
        let at = text::last_at(whole, '<');
        assert(at >= start);
        if at > start {
            if at < whole.len() - 1 {
                assert(whole[at] == address[at - front.len()]);
                assert(address.contains(address[at - front.len()]));
            }
        }
    }
    let rest = whole.skip(start + 1);
    assert(rest =~= address + seq!['>']);
    text::lemma_first_at(rest, '>');
    assert(text::first_at(rest, '>') == address.len()) by {
        let at = text::first_at(rest, '>');
        assert(rest[address.len() as int] == '>');
        if at < address.len() {
            assert(rest[at] == address[at]);
            assert(address.contains(address[at]));
        }
    }
    assert(rest.take(address.len() as int) =~= address);
}

} // verus!
