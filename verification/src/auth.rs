//! Codex authorisations: what identifies an account, and where authorisations
//! lie in a JSON value.

use crate::json::{
    canonical, canonical_text, law_member_is_found, lemma_tree_parts, longest_in, longest_of, member_trees, parse,
    member, names, parsed_bytes, parsed_text, trees, Json, READING_DEPTH, Tree,
};
use crate::text::{
    chars_of, glue, in_small_letters, law_trimmed_start, small_letters, trim_start, trimmed_start,
    white_space,
};
use vstd::hash_set::StringHashSet;
use vstd::prelude::*;
use vstd::utf8::encode_utf8;

verus! {

/// A result whose error is the message that the user sees.
pub type AppResult<T> = Result<T, String>;

/// The text in a place of a tree, where there is one that is not empty.
pub open spec fn filled(place: Option<Tree>) -> Option<Seq<char>> {
    match place {
        Some(Tree::Text(s)) => if s.len() > 0 {
            Some(s)
        } else {
            None
        },
        _ => None,
    }
}

/// What identifies the account of an authorisation: its account id, else its
/// mail address without regard to case.
pub open spec fn identity_of(tree: Tree) -> Option<Seq<char>> {
    match filled(tree.at("tokens"@, "account_id"@)) {
        Some(id) => Some("account:"@ + id),
        None => match filled(tree.at("_meta"@, "email"@)) {
            Some(address) => Some("email:"@ + small_letters(address)),
            None => None,
        },
    }
}

/// The string in a place of a value, where there is one that is not empty.
fn filled_text(place: Option<&Json>) -> (text: Option<&str>)
    ensures
        text is Some <==> filled(
            match place {
                Some(json) => Some(json@),
                None => None,
            },
        ) is Some,
        text matches Some(s) ==> filled(Some(place->0@)) == Some(s@),
{
    match place {
        Some(json) => match json.as_str() {
            Some(s) => if s.is_empty() {
                None
            } else {
                Some(s)
            },
            None => None,
        },
        None => None,
    }
}

/// What identifies the account of an authorisation.
pub fn identity(value: &Json) -> (id: Option<String>)
    ensures
        id is Some <==> identity_of(value@) is Some,
        id matches Some(s) ==> identity_of(value@) == Some(s@),
{
    match filled_text(value.at("tokens", "account_id")) {
        Some(account) => Some(glue("account:", account)),
        None => match filled_text(value.at("_meta", "email")) {
            Some(address) => Some(glue("email:", in_small_letters(address).as_str())),
            None => None,
        },
    }
}

/// The name to give an authorisation: the mail address, or the account id
/// where there is no mail address. An empty one is not used.
pub open spec fn name_for(tree: Tree, fallback: Seq<char>) -> Seq<char> {
    let address = match tree.at("_meta"@, "email"@) {
        Some(place) => place.text(),
        None => None,
    };
    let account = match tree.at("tokens"@, "account_id"@) {
        Some(place) => place.text(),
        None => None,
    };
    let name = if address is Some {
        address
    } else {
        account
    };
    match name {
        Some(s) => if s.len() > 0 {
            s
        } else {
            fallback
        },
        None => fallback,
    }
}

/// The name to give an authorisation, or `fallback` where it suggests none.
pub fn suggested_name(value: &Json, fallback: &str) -> (name: String)
    ensures
        name@ == name_for(value@, fallback@),
{
    let address = match value.at("_meta", "email") {
        Some(place) => place.as_str(),
        None => None,
    };
    let name = match address {
        Some(s) => Some(s),
        None => match value.at("tokens", "account_id") {
            Some(place) => place.as_str(),
            None => None,
        },
    };
    match name {
        Some(s) => if s.is_empty() {
            fallback.to_owned()
        } else {
            s.to_owned()
        },
        None => fallback.to_owned(),
    }
}

/// What checking an authorisation makes of what reading its text gave.
pub open spec fn checked(read: Result<Tree, Seq<char>>) -> Result<Tree, Seq<char>> {
    match read {
        Ok(tree) => if tree is Object {
            Ok(tree)
        } else {
            Err("auth.json должен содержать JSON-объект"@)
        },
        Err(message) => Err("Некорректный JSON: "@ + message),
    }
}

/// The model of a result that holds a value or a message.
pub open spec fn outcome(result: AppResult<Json>) -> Result<Tree, Seq<char>> {
    match result {
        Ok(json) => Ok(json@),
        Err(message) => Err(message@),
    }
}

/// Checks what reading the text of an authorisation gave: it is an object.
pub fn checked_auth(read: AppResult<Json>) -> (result: AppResult<Json>)
    ensures
        outcome(result) == checked(outcome(read)),
        read matches Ok(json) ==> result matches Ok(same) ==> same == json,
{
    match read {
        Ok(json) => if json.is_object() {
            Ok(json)
        } else {
            Err("auth.json должен содержать JSON-объект".to_owned())
        },
        Err(message) => Err(glue("Некорректный JSON: ", message.as_str())),
    }
}

/// Reads the text of an authorisation, which is a JSON object.
pub fn validate_auth_json(text: &str) -> (result: AppResult<Json>)
    ensures
        outcome(result) == checked(parsed_text(text@)),
        result matches Ok(json) ==> json@.ordered() && json@.shallow(READING_DEPTH as nat)
            && parsed_bytes(encode_utf8(text@)) == Ok::<Tree, Seq<char>>(json@),
{
    checked_auth(parse(text))
}

/// Whether a tree is a Codex authorisation.
pub open spec fn looks_like(tree: Tree) -> bool {
    match tree.get("tokens"@) {
        Some(tokens) => tokens is Object && (tokens.get("account_id"@) is Some || tokens.get(
            "access_token"@,
        ) is Some || tokens.get("refresh_token"@) is Some),
        None => false,
    }
}

/// Whether a value is a Codex authorisation.
pub fn looks_like_codex_auth(value: &Json) -> (yes: bool)
    ensures
        yes == looks_like(value@),
{
    match value.get("tokens") {
        Some(tokens) => tokens.get("account_id").is_some() || tokens.get("access_token").is_some()
            || tokens.get("refresh_token").is_some(),
        None => false,
    }
}

/// Whether a text opens with a brace once the white space before it is left
/// out.
pub open spec fn opens_object(text: Seq<char>) -> bool {
    trimmed_start(text).len() > 0 && trimmed_start(text)[0] == '{'
}

/// The tree that a string holds as JSON text, where it may be an object. The
/// strings in it are shorter than the text, as `parse` ensures.
pub open spec fn held_tree(text: Seq<char>) -> Option<Tree> {
    if opens_object(text) {
        match parsed_text(text) {
            Ok(tree) => if tree.longest() < text.len() {
                Some(tree)
            } else {
                None
            },
            Err(_) => None,
        }
    } else {
        None
    }
}

/// The authorisations in a tree, in the order in which it is walked. None is
/// looked for within another. A string that holds an object as JSON text is
/// walked like that object.
pub open spec fn auth_trees(tree: Tree) -> Seq<Tree>
    decreases tree.longest(), tree,
{
    if looks_like(tree) {
        seq![tree]
    } else {
        match tree {
            Tree::List(items) => auth_trees_of(items),
            Tree::Object(members) => auth_trees_in(members),
            Tree::Text(s) => match held_tree(s) {
                Some(inner) => auth_trees(inner),
                None => Seq::empty(),
            },
            _ => Seq::empty(),
        }
    }
}

/// The authorisations in the items of a list.
pub open spec fn auth_trees_of(items: Seq<Tree>) -> Seq<Tree>
    decreases longest_of(items), items,
{
    if items.len() == 0 {
        Seq::empty()
    } else {
        auth_trees_of(items.drop_last()) + auth_trees(items.last())
    }
}

/// The authorisations in the values of an object.
pub open spec fn auth_trees_in(members: Seq<(Seq<char>, Tree)>) -> Seq<Tree>
    decreases longest_in(members), members,
{
    if members.len() == 0 {
        Seq::empty()
    } else {
        auth_trees_in(members.drop_last()) + auth_trees(members.last().1)
    }
}

/// The key by which an authorisation is told from others: its identity, else
/// its compact text.
pub open spec fn auth_key(tree: Tree) -> Seq<char> {
    match identity_of(tree) {
        Some(id) => id,
        None => canonical_text(tree),
    }
}

/// The keys that are known once the trees of a list have been seen.
pub open spec fn seen_after(list: Seq<Tree>, seen: Set<Seq<char>>) -> Set<Seq<char>>
    decreases list.len(),
{
    if list.len() == 0 {
        seen
    } else {
        seen_after(list.drop_last(), seen).insert(auth_key(list.last()))
    }
}

/// The trees of a list whose keys are new: neither known before nor the key
/// of an earlier tree.
pub open spec fn fresh(list: Seq<Tree>, seen: Set<Seq<char>>) -> Seq<Tree>
    decreases list.len(),
{
    if list.len() == 0 {
        Seq::empty()
    } else if seen_after(list.drop_last(), seen).contains(auth_key(list.last())) {
        fresh(list.drop_last(), seen)
    } else {
        fresh(list.drop_last(), seen).push(list.last())
    }
}

/// A set of keys.
pub struct KeySet {
    keys: StringHashSet,
}

impl View for KeySet {
    type V = Set<Seq<char>>;

    closed spec fn view(&self) -> Set<Seq<char>> {
        self.keys@
    }
}

impl KeySet {
    /// The empty set.
    pub fn new() -> (set: KeySet)
        ensures
            set@ == Set::<Seq<char>>::empty(),
    {
        KeySet { keys: StringHashSet::new() }
    }

    /// Adds a key, and says whether it is new.
    pub fn insert(&mut self, key: String) -> (new: bool)
        ensures
            final(self)@ == old(self)@.insert(key@),
            new == !old(self)@.contains(key@),
    {
        self.keys.insert(key)
    }
}

/// Whether all values of a list have their members in order.
pub open spec fn all_ordered(items: Seq<Json>) -> bool {
    forall|i: int| 0 <= i < items.len() ==> (#[trigger] items[i])@.ordered()
}

/// Whether no value of a list is nested deeper than what can be read.
pub open spec fn all_shallow(items: Seq<Json>) -> bool {
    forall|i: int|
        0 <= i < items.len() ==> (#[trigger] items[i])@.shallow(READING_DEPTH as nat)
}

/// A tree that is not nested deeper than `depth` is not nested deeper than
/// `more` either.
proof fn lemma_shallow(tree: Tree, depth: nat, more: nat)
    requires
        tree.shallow(depth),
        depth <= more,
    ensures
        tree.shallow(more),
    decreases tree,
{
    match tree {
        Tree::List(items) => {
            assert forall|i: int| 0 <= i < items.len() implies (#[trigger] items[i]).shallow(
                (more - 1) as nat,
            ) by {
                lemma_shallow(items[i], (depth - 1) as nat, (more - 1) as nat);
            }
        },
        Tree::Object(members) => {
            assert forall|i: int| 0 <= i < members.len() implies (#[trigger] members[i]).1.shallow(
                (more - 1) as nat,
            ) by {
                lemma_shallow(members[i].1, (depth - 1) as nat, (more - 1) as nat);
            }
        },
        _ => {},
    }
}

/// An item's longest string is no longer than that of the list.
proof fn lemma_longest_of(items: Seq<Tree>, i: int)
    requires
        0 <= i < items.len(),
    ensures
        items[i].longest() <= longest_of(items),
    decreases items.len(),
{
    if i < items.len() - 1 {
        lemma_longest_of(items.drop_last(), i);
    }
}

/// The longest string of an object's value is no longer than that of the
/// object.
proof fn lemma_longest_in(members: Seq<(Seq<char>, Tree)>, i: int)
    requires
        0 <= i < members.len(),
    ensures
        members[i].1.longest() <= longest_in(members),
    decreases members.len(),
{
    if i < members.len() - 1 {
        lemma_longest_in(members.drop_last(), i);
    }
}

/// Going through two lists one after the other is going through both at once.
pub proof fn lemma_fresh_concat(first: Seq<Tree>, second: Seq<Tree>, seen: Set<Seq<char>>)
    ensures
        seen_after(first + second, seen) == seen_after(second, seen_after(first, seen)),
        fresh(first + second, seen) == fresh(first, seen) + fresh(
            second,
            seen_after(first, seen),
        ),
    decreases second.len(),
{
    if second.len() == 0 {
        assert(first + second == first);
        assert(fresh(first, seen) + Seq::<Tree>::empty() == fresh(first, seen));
    } else {
        lemma_fresh_concat(first, second.drop_last(), seen);
        assert((first + second).drop_last() == first + second.drop_last());
        assert((first + second).last() == second.last());
        let kept = fresh(second.drop_last(), seen_after(first, seen));
        assert(fresh(first, seen) + kept.push(second.last()) == (fresh(first, seen) + kept).push(
            second.last(),
        ));
    }
}

/// Gathers the authorisations in a value, each account once.
pub fn collect_auth_values(value: &Json, found: &mut Vec<Json>, seen: &mut KeySet)
    requires
        value@.ordered(),
    ensures
        trees(final(found)@) == trees(old(found)@) + fresh(auth_trees(value@), old(seen)@),
        final(seen)@ == seen_after(auth_trees(value@), old(seen)@),
        all_ordered(old(found)@) ==> all_ordered(final(found)@),
        value@.shallow(READING_DEPTH as nat) && all_shallow(old(found)@) ==> all_shallow(
            final(found)@,
        ),
    decreases value@.longest(), value@,
{
    let ghost tree = value@;
    if looks_like_codex_auth(value) {
        let key = match identity(value) {
            Some(id) => id,
            None => canonical(value),
        };
        let ghost list = seq![tree];
        proof {
            assert(list.drop_last() == Seq::<Tree>::empty());
            assert(seen_after(list.drop_last(), seen@) == seen@);
            assert(fresh(list.drop_last(), seen@) == Seq::<Tree>::empty());
        }
        let ghost before = found@;
        if seen.insert(key) {
            found.push(value.clone());
            assert(trees(found@) == trees(before) + seq![tree]);
        } else {
            assert(trees(found@) == trees(before) + Seq::<Tree>::empty());
        }
        return ;
    }
    proof {
        lemma_tree_parts(*value);
    }
    match value {
        Json::List(items) => {
            let ghost all = trees(items@);
            let mut i: usize = 0;
            assert(all.take(0) == Seq::<Tree>::empty());
            assert(trees(found@) == trees(old(found)@) + Seq::<Tree>::empty());
            while i < items.len()
                invariant
                    i <= items@.len(),
                    tree == value@,
                    tree == Tree::List(all),
                    all == trees(items@),
                    tree.ordered(),
                    trees(found@) == trees(old(found)@) + fresh(
                        auth_trees_of(all.take(i as int)),
                        old(seen)@,
                    ),
                    seen@ == seen_after(auth_trees_of(all.take(i as int)), old(seen)@),
                    all_ordered(old(found)@) ==> all_ordered(found@),
                    tree.shallow(READING_DEPTH as nat) && all_shallow(old(found)@) ==> all_shallow(
                        found@,
                    ),
                decreases items@.len() - i,
            {
                let ghost item = all[i as int];
                proof {
                    lemma_longest_of(all, i as int);
                    assert(decreases_to!(tree => tree->List_0));
                    assert(decreases_to!(all => all[i as int]));
                    assert(items@[i as int]@ == item);
                    if tree.shallow(READING_DEPTH as nat) {
                        assert(all[i as int].shallow((READING_DEPTH - 1) as nat));
                        lemma_shallow(item, (READING_DEPTH - 1) as nat, READING_DEPTH as nat);
                    }
                    lemma_fresh_concat(
                        auth_trees_of(all.take(i as int)),
                        auth_trees(item),
                        old(seen)@,
                    );
                    assert(all.take(i + 1).drop_last() == all.take(i as int));
                    assert(all.take(i + 1).last() == item);
                }
                collect_auth_values(&items[i], found, seen);
                assert(trees(found@) == trees(old(found)@) + fresh(
                    auth_trees_of(all.take(i + 1)),
                    old(seen)@,
                ));
                i = i + 1;
            }
            assert(all.take(i as int) == all);
        },
        Json::Object(members) => {
            let ghost all = member_trees(members@);
            let mut i: usize = 0;
            assert(all.take(0) == Seq::<(Seq<char>, Tree)>::empty());
            assert(trees(found@) == trees(old(found)@) + Seq::<Tree>::empty());
            while i < members.len()
                invariant
                    i <= members@.len(),
                    tree == value@,
                    tree == Tree::Object(all),
                    all == member_trees(members@),
                    tree.ordered(),
                    trees(found@) == trees(old(found)@) + fresh(
                        auth_trees_in(all.take(i as int)),
                        old(seen)@,
                    ),
                    seen@ == seen_after(auth_trees_in(all.take(i as int)), old(seen)@),
                    all_ordered(old(found)@) ==> all_ordered(found@),
                    tree.shallow(READING_DEPTH as nat) && all_shallow(old(found)@) ==> all_shallow(
                        found@,
                    ),
                decreases members@.len() - i,
            {
                let ghost item = all[i as int].1;
                proof {
                    lemma_longest_in(all, i as int);
                    assert(decreases_to!(tree => tree->Object_0));
                    assert(decreases_to!(all => all[i as int]));
                    assert(decreases_to!(all[i as int] => all[i as int].1));
                    assert(members@[i as int].1@ == item);
                    if tree.shallow(READING_DEPTH as nat) {
                        assert(all[i as int].1.shallow((READING_DEPTH - 1) as nat));
                        lemma_shallow(item, (READING_DEPTH - 1) as nat, READING_DEPTH as nat);
                    }
                    lemma_fresh_concat(
                        auth_trees_in(all.take(i as int)),
                        auth_trees(item),
                        old(seen)@,
                    );
                    assert(all.take(i + 1).drop_last() == all.take(i as int));
                    assert(all.take(i + 1).last().1 == item);
                }
                collect_auth_values(&members[i].1, found, seen);
                assert(trees(found@) == trees(old(found)@) + fresh(
                    auth_trees_in(all.take(i + 1)),
                    old(seen)@,
                ));
                i = i + 1;
            }
            assert(all.take(i as int) == all);
        },
        Json::Text(text) => {
            assert(trees(found@) == trees(old(found)@) + Seq::<Tree>::empty());
            let start = trim_start(&chars_of(text.as_str()));
            if start.len() > 0 && start[0] == '{' {
                if let Ok(inner) = parse(text.as_str()) {
                    collect_auth_values(&inner, found, seen);
                }
            }
        },
        _ => {
            assert(trees(found@) == trees(old(found)@) + Seq::<Tree>::empty());
        },
    }
}

/// Keys that are known stay known, and the keys of a list are known once it
/// has been seen.
pub proof fn lemma_seen(list: Seq<Tree>, seen: Set<Seq<char>>)
    ensures
        seen.subset_of(seen_after(list, seen)),
        forall|i: int|
            0 <= i < list.len() ==> seen_after(list, seen).contains(auth_key(#[trigger] list[i])),
    decreases list.len(),
{
    if list.len() > 0 {
        lemma_seen(list.drop_last(), seen);
        assert forall|i: int| 0 <= i < list.len() implies seen_after(list, seen).contains(
            auth_key(#[trigger] list[i]),
        ) by {
            if i < list.len() - 1 {
                assert(list.drop_last()[i] == list[i]);
            }
        }
    }
}

/// The keys of what is gathered from a list are known once it has been seen.
pub proof fn lemma_fresh_is_seen(list: Seq<Tree>, seen: Set<Seq<char>>)
    ensures
        forall|i: int|
            0 <= i < fresh(list, seen).len() ==> seen_after(list, seen).contains(
                auth_key(#[trigger] fresh(list, seen)[i]),
            ),
    decreases list.len(),
{
    if list.len() > 0 {
        lemma_fresh_is_seen(list.drop_last(), seen);
        let kept = fresh(list.drop_last(), seen);
        assert forall|i: int| 0 <= i < fresh(list, seen).len() implies seen_after(
            list,
            seen,
        ).contains(auth_key(#[trigger] fresh(list, seen)[i])) by {
            if i < kept.len() {
                assert(fresh(list, seen)[i] == kept[i]);
            }
        }
    }
}

/// Each account is gathered once: no key of what is gathered was known
/// before, and no two of them are equal.
pub proof fn law_each_account_once(list: Seq<Tree>, seen: Set<Seq<char>>)
    ensures
        forall|i: int|
            0 <= i < fresh(list, seen).len() ==> !seen.contains(
                auth_key(#[trigger] fresh(list, seen)[i]),
            ),
        forall|i: int, j: int|
            0 <= i < j < fresh(list, seen).len() ==> auth_key(#[trigger] fresh(list, seen)[i])
                != auth_key(#[trigger] fresh(list, seen)[j]),
    decreases list.len(),
{
    if list.len() > 0 {
        let before = list.drop_last();
        law_each_account_once(before, seen);
        lemma_seen(before, seen);
        lemma_fresh_is_seen(before, seen);
        let kept = fresh(before, seen);
        let all = fresh(list, seen);
        assert forall|i: int| 0 <= i < all.len() implies !seen.contains(
            auth_key(#[trigger] all[i]),
        ) by {
            if i < kept.len() {
                assert(all[i] == kept[i]);
            }
        }
        assert forall|i: int, j: int| 0 <= i < j < all.len() implies auth_key(#[trigger] all[i])
            != auth_key(#[trigger] all[j]) by {
            assert(all[i] == kept[i]);
            if j < kept.len() {
                assert(all[j] == kept[j]);
            }
        }
    }
}

/// No account is lost: the key of every tree of the list was known before or
/// is the key of a tree that is gathered.
pub proof fn law_no_account_lost(list: Seq<Tree>, seen: Set<Seq<char>>, i: int)
    requires
        0 <= i < list.len(),
    ensures
        seen.contains(auth_key(list[i])) || exists|j: int|
            0 <= j < fresh(list, seen).len() && auth_key(#[trigger] fresh(list, seen)[j])
                == auth_key(list[i]),
{
    lemma_known(list, seen, auth_key(list[i]));
    lemma_seen(list, seen);
}

/// A key is known after a list if and only if it was known before or is the
/// key of a tree that is gathered.
pub proof fn lemma_known(list: Seq<Tree>, seen: Set<Seq<char>>, key: Seq<char>)
    ensures
        seen_after(list, seen).contains(key) ==> seen.contains(key) || exists|j: int|
            0 <= j < fresh(list, seen).len() && auth_key(#[trigger] fresh(list, seen)[j]) == key,
    decreases list.len(),
{
    if list.len() > 0 && seen_after(list, seen).contains(key) && !seen.contains(key) {
        let before = list.drop_last();
        lemma_known(before, seen, key);
        let kept = fresh(before, seen);
        let all = fresh(list, seen);
        if seen_after(before, seen).contains(key) {
            let j = choose|j: int| 0 <= j < kept.len() && auth_key(#[trigger] kept[j]) == key;
            assert(all[j] == kept[j]);
        } else {
            assert(all[all.len() - 1] == list.last());
        }
    }
}

/// Gathering from the same trees a second time finds nothing new.
pub proof fn law_gathering_again_finds_nothing(list: Seq<Tree>, seen: Set<Seq<char>>)
    ensures
        fresh(list, seen_after(list, seen)) == Seq::<Tree>::empty(),
{
    lemma_seen(list, seen);
    lemma_nothing_fresh(list, seen_after(list, seen));
}

proof fn lemma_nothing_fresh(list: Seq<Tree>, known: Set<Seq<char>>)
    requires
        forall|i: int| 0 <= i < list.len() ==> known.contains(auth_key(#[trigger] list[i])),
    ensures
        fresh(list, known) == Seq::<Tree>::empty(),
    decreases list.len(),
{
    if list.len() > 0 {
        let before = list.drop_last();
        assert forall|i: int| 0 <= i < before.len() implies known.contains(
            auth_key(#[trigger] before[i]),
        ) by {
            assert(before[i] == list[i]);
        }
        lemma_nothing_fresh(before, known);
        lemma_seen(before, known);
        assert(list[list.len() - 1] == list.last());
    }
}

/// Everything that is gathered from a tree is a Codex authorisation.
pub proof fn law_only_authorisations(tree: Tree)
    ensures
        forall|i: int|
            0 <= i < auth_trees(tree).len() ==> looks_like(#[trigger] auth_trees(tree)[i]),
    decreases tree.longest(), tree,
{
    if !looks_like(tree) {
        match tree {
            Tree::List(items) => {
                lemma_only_authorisations_of(items);
                assert(auth_trees(tree) == auth_trees_of(items));
            },
            Tree::Object(members) => {
                lemma_only_authorisations_in(members);
                assert(auth_trees(tree) == auth_trees_in(members));
            },
            Tree::Text(s) => {
                if let Some(inner) = held_tree(s) {
                    law_only_authorisations(inner);
                    assert(auth_trees(tree) == auth_trees(inner));
                }
            },
            _ => {},
        }
    }
}

proof fn lemma_only_authorisations_of(items: Seq<Tree>)
    ensures
        forall|i: int|
            0 <= i < auth_trees_of(items).len() ==> looks_like(#[trigger] auth_trees_of(items)[i]),
    decreases longest_of(items), items,
{
    if items.len() > 0 {
        lemma_only_authorisations_of(items.drop_last());
        law_only_authorisations(items.last());
        let first = auth_trees_of(items.drop_last());
        let second = auth_trees(items.last());
        assert forall|i: int| 0 <= i < auth_trees_of(items).len() implies looks_like(
            #[trigger] auth_trees_of(items)[i],
        ) by {
            if i < first.len() {
                assert(auth_trees_of(items)[i] == first[i]);
            } else {
                assert(auth_trees_of(items)[i] == second[i - first.len()]);
            }
        }
    }
}

proof fn lemma_only_authorisations_in(members: Seq<(Seq<char>, Tree)>)
    ensures
        forall|i: int|
            0 <= i < auth_trees_in(members).len() ==> looks_like(
                #[trigger] auth_trees_in(members)[i],
            ),
    decreases longest_in(members), members,
{
    if members.len() > 0 {
        lemma_only_authorisations_in(members.drop_last());
        law_only_authorisations(members.last().1);
        let first = auth_trees_in(members.drop_last());
        let second = auth_trees(members.last().1);
        assert forall|i: int| 0 <= i < auth_trees_in(members).len() implies looks_like(
            #[trigger] auth_trees_in(members)[i],
        ) by {
            if i < first.len() {
                assert(auth_trees_in(members)[i] == first[i]);
            } else {
                assert(auth_trees_in(members)[i] == second[i - first.len()]);
            }
        }
    }
}

/// An authorisation that is delivered as JSON text in a string is found as if
/// it stood there itself.
pub proof fn law_stringified_is_found(text: Seq<char>, inner: Tree)
    requires
        held_tree(text) == Some(inner),
    ensures
        auth_trees(Tree::Text(text)) == auth_trees(inner),
{
}

/// The members of objects with the same names that are alike one by one are
/// found alike.
proof fn lemma_member_alike(
    a: Seq<(Seq<char>, Tree)>,
    b: Seq<(Seq<char>, Tree)>,
    name: Seq<char>,
)
    requires
        names(a) == names(b),
        forall|i: int| 0 <= i < a.len() ==> (#[trigger] a[i]).1.alike(b[i].1),
    ensures
        member(a, name) is Some <==> member(b, name) is Some,
        member(a, name) is Some ==> member(a, name)->0.alike(member(b, name)->0),
    decreases a.len(),
{
    assert(names(a).len() == a.len());
    assert(names(b).len() == b.len());
    if a.len() > 0 {
        let k = a.len() - 1;
        assert(a.last().0 == names(a)[k]);
        assert(b.last().0 == names(b)[k]);
        assert(a[k].1.alike(b[k].1));
        assert(names(a.drop_last()) == names(a).drop_last());
        assert(names(b.drop_last()) == names(b).drop_last());
        assert forall|i: int| 0 <= i < a.drop_last().len() implies (
        #[trigger] a.drop_last()[i]).1.alike(b.drop_last()[i].1) by {
            assert(a[i].1.alike(b[i].1));
        }
        lemma_member_alike(a.drop_last(), b.drop_last(), name);
    }
}

/// Trees that are alike hold the same text in the same place.
proof fn lemma_filled_alike(a: Tree, b: Tree, first: Seq<char>, second: Seq<char>)
    requires
        a.alike(b),
    ensures
        filled(a.at(first, second)) == filled(b.at(first, second)),
{
    if let (Tree::Object(m), Tree::Object(n)) = (a, b) {
        lemma_member_alike(m, n, first);
        if let Some(inner) = a.get(first) {
            if let (Tree::Object(k), Tree::Object(l)) = (inner, b.get(first)->0) {
                lemma_member_alike(k, l, second);
            }
        }
    }
}

/// Doubles do not matter to the identity of an account.
pub proof fn law_doubles_do_not_change_identity(a: Tree, b: Tree)
    requires
        a.alike(b),
    ensures
        identity_of(a) == identity_of(b),
{
    lemma_filled_alike(a, b, "tokens"@, "account_id"@);
    lemma_filled_alike(a, b, "_meta"@, "email"@);
}

/// Two authorisations with account ids have the same identity if and only if
/// the ids are the same, whatever else they hold: tokens that were rotated do
/// not change the identity.
pub proof fn law_account_decides_identity(a: Tree, b: Tree)
    requires
        filled(a.at("tokens"@, "account_id"@)) is Some,
        filled(b.at("tokens"@, "account_id"@)) is Some,
    ensures
        identity_of(a) == identity_of(b) <==> filled(a.at("tokens"@, "account_id"@)) == filled(
            b.at("tokens"@, "account_id"@),
        ),
{
    let p = "account:"@;
    let x = filled(a.at("tokens"@, "account_id"@))->0;
    let y = filled(b.at("tokens"@, "account_id"@))->0;
    if p + x == p + y {
        assert((p + x).skip(p.len() as int) == x);
        assert((p + y).skip(p.len() as int) == y);
    }
}

/// An identity by account id is never one by mail address.
pub proof fn law_account_is_no_address(a: Tree, b: Tree)
    requires
        filled(a.at("tokens"@, "account_id"@)) is Some,
        filled(b.at("tokens"@, "account_id"@)) is None,
    ensures
        identity_of(a) != identity_of(b),
{
    reveal_strlit("account:");
    reveal_strlit("email:");
    if identity_of(b) is Some {
        assert(identity_of(a)->0[0] == 'a');
        assert(identity_of(b)->0[0] == 'e');
    }
}

/// Without an account id, mail addresses that differ only in case give the
/// same identity.
pub proof fn law_address_case_is_ignored(a: Tree, b: Tree)
    requires
        filled(a.at("tokens"@, "account_id"@)) is None,
        filled(b.at("tokens"@, "account_id"@)) is None,
        filled(a.at("_meta"@, "email"@)) is Some,
        filled(b.at("_meta"@, "email"@)) is Some,
        small_letters(filled(a.at("_meta"@, "email"@))->0) == small_letters(
            filled(b.at("_meta"@, "email"@))->0,
        ),
    ensures
        identity_of(a) == identity_of(b),
{
}

/// What identifies an account: its account id, where there is one that is not
/// empty, and else the mail address in small letters, where there is one that
/// is not empty. Nothing else in the authorisation matters.
pub proof fn law_identity(tree: Tree, account: Seq<char>, address: Seq<char>)
    ensures
        tree.at("tokens"@, "account_id"@) == Some(Tree::Text(account)) && account.len() > 0
            ==> identity_of(tree) == Some("account:"@ + account),
        !(tree.at("tokens"@, "account_id"@) matches Some(Tree::Text(s)) && s.len() > 0)
            && tree.at("_meta"@, "email"@) == Some(Tree::Text(address)) && address.len() > 0
            ==> identity_of(tree) == Some("email:"@ + small_letters(address)),
        !(tree.at("tokens"@, "account_id"@) matches Some(Tree::Text(s)) && s.len() > 0) && !(
        tree.at("_meta"@, "email"@) matches Some(Tree::Text(s)) && s.len() > 0)
            ==> identity_of(tree) is None,
{
}

/// The name that an authorisation suggests: its mail address, and its account
/// id only where there is no mail address at all. Neither is used where it is
/// empty.
pub proof fn law_suggested_name(tree: Tree, fallback: Seq<char>, text: Seq<char>)
    ensures
        tree.at("_meta"@, "email"@) == Some(Tree::Text(text)) ==> name_for(tree, fallback) == if text
            =~= Seq::<char>::empty() {
            fallback
        } else {
            text
        },
        !(tree.at("_meta"@, "email"@) matches Some(Tree::Text(_))) && tree.at(
            "tokens"@,
            "account_id"@,
        ) == Some(Tree::Text(text)) ==> name_for(tree, fallback) == if text =~= Seq::<
            char,
        >::empty() {
            fallback
        } else {
            text
        },
        !(tree.at("_meta"@, "email"@) matches Some(Tree::Text(_))) && !(tree.at(
            "tokens"@,
            "account_id"@,
        ) matches Some(Tree::Text(_))) ==> name_for(tree, fallback) == fallback,
{
}

/// Every JSON object passes as an authorisation, whatever its members, and
/// nothing else does. The message says whether it is not JSON or no object.
pub proof fn law_every_object_passes(
    members: Seq<(Seq<char>, Tree)>,
    tree: Tree,
    message: Seq<char>,
)
    ensures
        checked(Ok(Tree::Object(members))) == Ok::<Tree, Seq<char>>(Tree::Object(members)),
        !(tree is Object) ==> checked(Ok(tree)) == Err::<Tree, Seq<char>>(
            "auth.json должен содержать JSON-объект"@,
        ),
        checked(Err(message)) == Err::<Tree, Seq<char>>("Некорректный JSON: "@ + message),
{
}

/// An authorisation is what has an object of tokens in which one of the three
/// known names occurs, wherever it stands and whatever it holds.
pub proof fn law_looks_like(tree: Tree)
    ensures
        looks_like(tree) <==> (tree.get("tokens"@) matches Some(Tree::Object(tokens)) && exists|
            i: int,
        |
            0 <= i < tokens.len() && ((#[trigger] tokens[i]).0 == "account_id"@ || tokens[i].0
                == "access_token"@ || tokens[i].0 == "refresh_token"@)),
{
    if let Some(Tree::Object(tokens)) = tree.get("tokens"@) {
        law_member_is_found(tokens, "account_id"@, Tree::Null);
        law_member_is_found(tokens, "access_token"@, Tree::Null);
        law_member_is_found(tokens, "refresh_token"@, Tree::Null);
        if exists|i: int|
            0 <= i < tokens.len() && ((#[trigger] tokens[i]).0 == "account_id"@ || tokens[i].0
                == "access_token"@ || tokens[i].0 == "refresh_token"@) {
            let i = choose|i: int|
                0 <= i < tokens.len() && ((#[trigger] tokens[i]).0 == "account_id"@ || tokens[i].0
                    == "access_token"@ || tokens[i].0 == "refresh_token"@);
            assert(tokens[i].0 == "account_id"@ || tokens[i].0 == "access_token"@ || tokens[i].0
                == "refresh_token"@);
        }
    }
}

/// A string is looked into if and only if its first character that is no white
/// space is a brace, and it can be read.
pub proof fn law_strings_are_looked_into(text: Seq<char>, inner: Tree)
    ensures
        held_tree(text) == Some(inner) <==> {
            &&& exists|k: int|
                0 <= k < text.len() && #[trigger] text[k] == '{' && forall|i: int|
                    0 <= i < k ==> white_space(#[trigger] text[i])
            &&& parsed_text(text) == Ok::<Tree, Seq<char>>(inner)
            &&& inner.longest() < text.len()
        },
{
    law_trimmed_start(text);
    let from = choose|from: int|
        0 <= from <= text.len() && #[trigger] text.skip(from) == trimmed_start(text) && (forall|
            i: int,
        |
            0 <= i < from ==> white_space(#[trigger] text[i])) && (from < text.len()
            ==> !white_space(text[from]));
    if opens_object(text) {
        assert(text.skip(from)[0] == text[from]);
        assert(text[from] == '{');
    }
    if exists|k: int|
        0 <= k < text.len() && #[trigger] text[k] == '{' && forall|i: int|
            0 <= i < k ==> white_space(#[trigger] text[i]) {
        let k = choose|k: int|
            0 <= k < text.len() && #[trigger] text[k] == '{' && forall|i: int|
                0 <= i < k ==> white_space(#[trigger] text[i]);
        if from < k {
            assert(white_space(text[from]));
        } else if k < from {
            assert(white_space(text[k]));
        }
        assert(text.skip(from)[0] == text[from]);
    }
}

/// The key of an account is its identity, and its compact text only where it
/// has none.
pub proof fn law_key(tree: Tree, id: Seq<char>)
    ensures
        identity_of(tree) == Some(id) ==> auth_key(tree) == id,
        identity_of(tree) is None ==> auth_key(tree) == canonical_text(tree),
{
}

/// An authorisation is found whole, and nothing is looked for within it.
pub proof fn law_authorisation_is_found_whole(tree: Tree)
    ensures
        looks_like(tree) ==> auth_trees(tree) == seq![tree],
{
}

proof fn lemma_walked(a: Seq<Tree>, b: Seq<Tree>)
    ensures
        auth_trees_of(a + b) == auth_trees_of(a) + auth_trees_of(b),
    decreases b.len(),
{
    if b.len() == 0 {
        assert(a + b == a);
        assert(auth_trees_of(a) + Seq::<Tree>::empty() == auth_trees_of(a));
    } else {
        lemma_walked(a, b.drop_last());
        assert((a + b).drop_last() == a + b.drop_last());
        assert((a + b).last() == b.last());
        assert(auth_trees_of(a) + (auth_trees_of(b.drop_last()) + auth_trees(b.last()))
            == auth_trees_of(a) + auth_trees_of(b.drop_last()) + auth_trees(b.last()));
    }
}

/// A list is walked from its start to its end, and no item is passed over:
/// what is found in two lists one after the other is what is found in each.
/// In a list of one item there is what is in the item.
pub proof fn law_lists_are_walked(a: Seq<Tree>, b: Seq<Tree>, item: Tree)
    ensures
        auth_trees(Tree::List(a + b)) == auth_trees(Tree::List(a)) + auth_trees(Tree::List(b)),
        auth_trees(Tree::List(seq![item])) == auth_trees(item),
        auth_trees(Tree::List(Seq::empty())) == Seq::<Tree>::empty(),
{
    lemma_walked(a, b);
    let one = seq![item];
    assert(one.drop_last() == Seq::<Tree>::empty());
    assert(auth_trees_of(one.drop_last()) == Seq::<Tree>::empty());
    assert(one.last() == item);
    assert(auth_trees_of(one) == auth_trees_of(one.drop_last()) + auth_trees(item));
    assert(Seq::<Tree>::empty() + auth_trees(item) == auth_trees(item));
    assert(auth_trees(Tree::List(one)) == auth_trees_of(one));
}

/// Every authorisation that is found in an item of a list is found in the
/// list, however long it is and wherever the item stands.
pub proof fn law_nothing_in_a_list_is_lost(items: Seq<Tree>, i: int, k: int)
    requires
        0 <= i < items.len(),
        0 <= k < auth_trees(items[i]).len(),
    ensures
        auth_trees(Tree::List(items)).contains(auth_trees(items[i])[k]),
{
    let a = items.take(i);
    let one = seq![items[i]];
    let b = items.skip(i + 1);
    assert(a + one + b == items);
    law_lists_are_walked(a + one, b, items[i]);
    law_lists_are_walked(a, one, items[i]);
    let n = auth_trees(Tree::List(a)).len();
    assert(auth_trees(Tree::List(items))[n + k] == auth_trees(items[i])[k]);
}

/// An object that is no authorisation itself is walked like the list of its
/// values.
pub proof fn law_objects_are_walked(members: Seq<(Seq<char>, Tree)>)
    requires
        !looks_like(Tree::Object(members)),
    ensures
        auth_trees(Tree::Object(members)) == auth_trees(
            Tree::List(members.map_values(|m: (Seq<char>, Tree)| m.1)),
        ),
{
    lemma_values_walked(members);
}

proof fn lemma_values_walked(members: Seq<(Seq<char>, Tree)>)
    ensures
        auth_trees_in(members) == auth_trees_of(
            members.map_values(|m: (Seq<char>, Tree)| m.1),
        ),
    decreases members.len(),
{
    let values = members.map_values(|m: (Seq<char>, Tree)| m.1);
    if members.len() > 0 {
        lemma_values_walked(members.drop_last());
        assert(values.drop_last() == members.drop_last().map_values(
            |m: (Seq<char>, Tree)| m.1,
        ));
        assert(values.last() == members.last().1);
    }
}

/// A string that is looked into is walked like what it holds. In any other
/// string, and in what is neither list nor object, there is nothing.
pub proof fn law_the_rest_holds_nothing(tree: Tree, text: Seq<char>, inner: Tree)
    ensures
        held_tree(text) == Some(inner) ==> auth_trees(Tree::Text(text)) == auth_trees(inner),
        held_tree(text) is None ==> auth_trees(Tree::Text(text)) == Seq::<Tree>::empty(),
        tree is Null || tree is Bool || tree is Number ==> auth_trees(tree) == Seq::<Tree>::empty(),
{
}

/// Of one authorisation is gathered just that one, where its key is new, and
/// its key is known from then on.
pub proof fn law_one_is_gathered(tree: Tree, seen: Set<Seq<char>>)
    ensures
        !seen.contains(auth_key(tree)) ==> fresh(seq![tree], seen) == seq![tree],
        seen.contains(auth_key(tree)) ==> fresh(seq![tree], seen) == Seq::<Tree>::empty(),
        seen_after(seq![tree], seen) == seen.insert(auth_key(tree)),
        fresh(Seq::empty(), seen) == Seq::<Tree>::empty(),
        seen_after(Seq::empty(), seen) == seen,
{
    let one = seq![tree];
    assert(one.drop_last() == Seq::<Tree>::empty());
    assert(seen_after(one.drop_last(), seen) == seen);
    assert(fresh(one.drop_last(), seen) == Seq::<Tree>::empty());
    assert(Seq::<Tree>::empty().push(tree) == one);
}

/// The model of a result is the tree of its value, or the text of its message.
pub proof fn law_outcome(json: Json, message: String)
    ensures
        outcome(Ok(json)) == Ok::<Tree, Seq<char>>(json@),
        outcome(Err(message)) == Err::<Tree, Seq<char>>(message@),
{
}

} // verus!
