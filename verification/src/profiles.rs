//! The saved profiles: adding, finding, activating and deleting them.
//!
//! Files are read and written elsewhere. What reading the files of the
//! profiles gave comes in as a vector with one entry for each profile.

use crate::auth::{
    checked, identity, identity_of, law_doubles_do_not_change_identity, name_for, outcome, suggested_name, validate_auth_json,
    AppResult,
};
use crate::clock::{
    is_random_uuid, is_stamp, is_utc_time, random_uuid, rfc3339_time, stamp_time, unix_time,
    uuid_notation, uuid_text,
};
use crate::json::{
    alike_if_read, canonical, canonical_text, parse_bytes, parsed_bytes, parsed_text, pretty,
    pretty_bytes, text_reads_back, Json, READING_DEPTH, Tree,
};
use crate::text::{
    chars_of, error_string, glue, law_trimmed, signed_decimal, signed_decimal_text, string_of, trim,
    trimmed, white_space,
};
use vstd::prelude::*;
use vstd::utf8::{decode_utf8, decode_utf8_encode_utf8, valid_utf8};

verus! {

/// A saved account.
#[derive(Debug, PartialEq, Eq)]
pub struct Profile {
    /// The UUID of the profile, as a number.
    pub id: u128,
    pub name: String,
    pub file_name: String,
    pub created_at: String,
    pub color_name: Option<String>,
}

impl Clone for Profile {
    fn clone(&self) -> (copy: Self)
        ensures
            copy == *self,
    {
        Profile {
            id: self.id,
            name: self.name.clone(),
            file_name: self.file_name.clone(),
            created_at: self.created_at.clone(),
            color_name: match &self.color_name {
                Some(color) => Some(color.clone()),
                None => None,
            },
        }
    }
}

/// What is shown when the application starts.
#[derive(Debug, PartialEq, Eq)]
pub struct AppSnapshot {
    pub profiles: Vec<Profile>,
    pub active_id: Option<u128>,
    pub codex_auth_path: String,
}

/// A profile that is to be added, once its file is written.
#[derive(Debug, PartialEq, Eq)]
pub struct Addition {
    pub profile: Profile,
    /// What its file is to hold.
    pub contents: Vec<u8>,
}

/// The model of what reading a file gave.
pub open spec fn file_view(file: AppResult<Vec<u8>>) -> Result<Seq<u8>, Seq<char>> {
    match file {
        Ok(bytes) => Ok(bytes@),
        Err(message) => Err(message@),
    }
}

/// The value in a file, or the message that says why there is none.
pub open spec fn read_tree(file: Result<Seq<u8>, Seq<char>>) -> Result<Tree, Seq<char>> {
    match file {
        Ok(bytes) => parsed_bytes(bytes),
        Err(message) => Err(message),
    }
}

/// The values in the files of the profiles.
pub open spec fn read_trees(saved: Seq<AppResult<Vec<u8>>>) -> Seq<Result<Tree, Seq<char>>> {
    saved.map_values(|file: AppResult<Vec<u8>>| read_tree(file_view(file)))
}

/// The value in the file of a profile.
pub fn profile_value(file: &AppResult<Vec<u8>>) -> (result: AppResult<Json>)
    ensures
        outcome(result) == read_tree(file_view(*file)),
        result matches Ok(json) ==> json@.ordered() && json@.shallow(READING_DEPTH as nat),
{
    match file {
        Ok(bytes) => parse_bytes(bytes.as_slice()),
        Err(message) => Err(message.clone()),
    }
}

/// Whether a saved authorisation belongs to the same account as another: it
/// has the same identity, or the same compact text.
pub open spec fn same_account(saved: Tree, other: Tree) -> bool {
    ||| identity_of(other) is Some && identity_of(saved) == identity_of(other)
    ||| canonical_text(saved) == canonical_text(other)
}

/// Whether two identities are there and equal.
fn same_identity(a: &Option<String>, b: &Option<String>) -> (yes: bool)
    ensures
        yes == (a is Some && b is Some && a->0@ == b->0@),
{
    match (a, b) {
        (Some(x), Some(y)) => x.eq(y),
        _ => false,
    }
}

/// Whether two authorisations belong to the same account, by their identities
/// and their compact texts.
pub fn same_account_by(
    saved_id: &Option<String>,
    saved_text: &String,
    other_id: &Option<String>,
    other_text: &String,
) -> (yes: bool)
    ensures
        yes == ((saved_id is Some && other_id is Some && saved_id->0@ == other_id->0@)
            || saved_text@ == other_text@),
{
    same_identity(saved_id, other_id) || saved_text.eq(other_text)
}

/// Whether a saved authorisation belongs to the same account as another.
pub fn is_same_account(saved: &Json, other: &Json) -> (yes: bool)
    requires
        saved@.ordered(),
        other@.ordered(),
    ensures
        yes == same_account(saved@, other@),
{
    same_account_by(&identity(saved), &canonical(saved), &identity(other), &canonical(other))
}

/// Whether an account is among the values of the files, which are looked at
/// in their order. A file that cannot be read ends the search.
pub open spec fn duplicate(reads: Seq<Result<Tree, Seq<char>>>, candidate: Tree) -> Result<
    bool,
    Seq<char>,
>
    decreases reads.len(),
{
    if reads.len() == 0 {
        Ok(false)
    } else {
        match reads[0] {
            Ok(tree) => if same_account(tree, candidate) {
                Ok(true)
            } else {
                duplicate(reads.drop_first(), candidate)
            },
            Err(message) => Err(message),
        }
    }
}

/// The model of a result that holds a truth value or a message.
pub open spec fn bool_outcome(result: AppResult<bool>) -> Result<bool, Seq<char>> {
    match result {
        Ok(yes) => Ok(yes),
        Err(message) => Err(message@),
    }
}

/// What is decided by the first verdict that does not say no.
pub open spec fn decided(verdicts: Seq<Result<bool, Seq<char>>>) -> Result<bool, Seq<char>>
    decreases verdicts.len(),
{
    if verdicts.len() == 0 {
        Ok(false)
    } else {
        match verdicts[0] {
            Ok(false) => decided(verdicts.drop_first()),
            _ => verdicts[0],
        }
    }
}

/// What is decided by the first verdict that does not say no. Each says of
/// one file whether it belongs to an account, or why it cannot be read.
pub fn decide(verdicts: Vec<AppResult<bool>>) -> (result: AppResult<bool>)
    ensures
        bool_outcome(result) == decided(verdicts@.map_values(|v: AppResult<bool>| bool_outcome(v))),
{
    let ghost all = verdicts@.map_values(|v: AppResult<bool>| bool_outcome(v));
    assert(all.skip(0) == all);
    for verdict in it: verdicts
        invariant
            all == it.seq().map_values(|v: AppResult<bool>| bool_outcome(v)),
            decided(all) == decided(all.skip(it.index() as int)),
    {
        assert(all.skip(it.index() as int)[0] == bool_outcome(verdict));
        assert(all.skip(it.index() as int).drop_first() == all.skip(it.index() + 1));
        match verdict {
            Ok(false) => {},
            _ => return verdict,
        }
    }
    Ok(false)
}

/// Whether the file that was read belongs to the account of `candidate`.
pub open spec fn verdict_on(read: Result<Tree, Seq<char>>, candidate: Tree) -> Result<
    bool,
    Seq<char>,
> {
    match read {
        Ok(tree) => Ok(same_account(tree, candidate)),
        Err(message) => Err(message),
    }
}

/// Verdicts on the files decide whether the account is among them.
proof fn lemma_decided(reads: Seq<Result<Tree, Seq<char>>>, candidate: Tree)
    ensures
        duplicate(reads, candidate) == decided(
            reads.map_values(|r: Result<Tree, Seq<char>>| verdict_on(r, candidate)),
        ),
    decreases reads.len(),
{
    if reads.len() > 0 {
        let verdicts = reads.map_values(|r: Result<Tree, Seq<char>>| verdict_on(r, candidate));
        lemma_decided(reads.drop_first(), candidate);
        assert(verdicts[0] == verdict_on(reads[0], candidate));
        assert(verdicts.drop_first() == reads.drop_first().map_values(
            |r: Result<Tree, Seq<char>>| verdict_on(r, candidate),
        ));
    }
}

/// What is known of the compact texts by which a candidate was compared with
/// the values of the files: they read back.
pub open spec fn compared(reads: Seq<Result<Tree, Seq<char>>>, candidate: Tree) -> bool {
    &&& text_reads_back(candidate)
    &&& forall|i: int|
        0 <= i < reads.len() && (#[trigger] reads[i]) is Ok ==> text_reads_back(reads[i]->Ok_0)
}

/// Whether the account of a value is saved already.
pub fn is_duplicate(saved: &Vec<AppResult<Vec<u8>>>, candidate: &Json) -> (result: AppResult<bool>)
    requires
        candidate@.ordered(),
    ensures
        bool_outcome(result) == duplicate(read_trees(saved@), candidate@),
        compared(read_trees(saved@), candidate@),
{
    let ghost reads = read_trees(saved@);
    let ghost wanted = reads.map_values(|r: Result<Tree, Seq<char>>| verdict_on(r, candidate@));
    let id = identity(candidate);
    let text = canonical(candidate);
    let mut verdicts: Vec<AppResult<bool>> = Vec::new();
    let mut i: usize = 0;
    while i < saved.len()
        invariant
            i <= saved@.len(),
            reads == read_trees(saved@),
            wanted == reads.map_values(|r: Result<Tree, Seq<char>>| verdict_on(r, candidate@)),
            id is Some <==> identity_of(candidate@) is Some,
            id matches Some(s) ==> identity_of(candidate@) == Some(s@),
            text@ == canonical_text(candidate@),
            forall|j: int|
                0 <= j < i && (#[trigger] reads[j]) is Ok ==> text_reads_back(reads[j]->Ok_0),
            verdicts@.len() == i,
            forall|j: int| 0 <= j < i ==> bool_outcome(#[trigger] verdicts@[j]) == wanted[j],
        decreases saved@.len() - i,
    {
        let verdict = match profile_value(&saved[i]) {
            Ok(value) => Ok(same_account_by(&identity(&value), &canonical(&value), &id, &text)),
            Err(message) => Err(message),
        };
        assert(reads[i as int] == read_tree(file_view(saved@[i as int])));
        assert(bool_outcome(verdict) == wanted[i as int]);
        verdicts.push(verdict);
        i = i + 1;
    }
    proof {
        lemma_decided(reads, candidate@);
        assert(verdicts@.map_values(|v: AppResult<bool>| bool_outcome(v)) == wanted);
    }
    decide(verdicts)
}

/// What is new about a profile that is added: the UUID that its file is named
/// after, its own UUID, and the time.
pub struct Draw {
    pub file_id: u128,
    pub id: u128,
    pub created_at: String,
}

impl Draw {
    /// What holds of whatever is drawn.
    pub open spec fn is_fresh(self) -> bool {
        &&& is_random_uuid(self.file_id)
        &&& is_random_uuid(self.id)
        &&& is_utc_time(self.created_at@)
    }
}

/// Draws two UUIDs and reads the clock.
pub fn draw() -> (drawn: Draw)
    ensures
        drawn.is_fresh(),
{
    let file_id = random_uuid();
    let id = random_uuid();
    Draw { file_id, id, created_at: rfc3339_time() }
}

/// The name of a new profile: the given one without the white space around
/// it, else the one that the authorisation suggests.
pub open spec fn profile_name(name: Seq<char>, tree: Tree) -> Seq<char> {
    if trimmed(name).len() == 0 {
        name_for(tree, "Codex аккаунт"@)
    } else {
        trimmed(name)
    }
}

/// Whether `profile` is the one that is made for a value.
pub open spec fn is_new_profile(
    profile: Profile,
    name: Seq<char>,
    tree: Tree,
    drawn: Draw,
) -> bool {
    &&& profile.id == drawn.id
    &&& profile.name@ == profile_name(name, tree)
    &&& profile.file_name@ == uuid_notation(drawn.file_id) + ".json"@
    &&& profile.created_at == drawn.created_at
    &&& profile.color_name is None
}

/// What is answered where a value is to be added. An account that is saved
/// already is not added. For a new one there is a profile, and what its file
/// is to hold.
pub open spec fn offer(
    reads: Seq<Result<Tree, Seq<char>>>,
    name: Seq<char>,
    tree: Tree,
    drawn: Draw,
    result: AppResult<Option<Addition>>,
) -> bool {
    match duplicate(reads, tree) {
        Err(message) => result is Err && result->Err_0@ == message,
        Ok(true) => result == Ok::<Option<Addition>, String>(None),
        Ok(false) => result matches Ok(Some(new)) && is_new_profile(
            new.profile,
            name,
            tree,
            drawn,
        ) && new.contents@ == pretty_bytes(tree),
    }
}

/// The list of profiles once what was answered has been carried out: a new
/// profile is the last one.
pub open spec fn with_addition(
    before: Seq<Profile>,
    result: AppResult<Option<Addition>>,
) -> Seq<Profile> {
    match result {
        Ok(Some(new)) => before.push(new.profile),
        _ => before,
    }
}

/// How adding a value turns `before` into `after`, where all that is to be
/// written can be written, and what it answers.
pub open spec fn addition(
    before: Seq<Profile>,
    reads: Seq<Result<Tree, Seq<char>>>,
    name: Seq<char>,
    tree: Tree,
    drawn: Draw,
    after: Seq<Profile>,
    result: AppResult<Option<Addition>>,
) -> bool {
    offer(reads, name, tree, drawn, result) && after == with_addition(before, result)
}

/// Whether a file that is to be written reads back as the value it was made
/// from. It can be read unless the value is nested too deep, and only doubles
/// may differ.
pub open spec fn reads_back(result: AppResult<Option<Addition>>, tree: Tree) -> bool {
    result matches Ok(Some(new)) ==> {
        &&& tree.shallow(READING_DEPTH as nat) ==> parsed_bytes(new.contents@) is Ok
        &&& tree.plain() ==> parsed_bytes(new.contents@) == Ok::<Tree, Seq<char>>(tree)
        &&& alike_if_read(tree, parsed_bytes(new.contents@))
    }
}

/// The profile for a value, with the given UUIDs and time, unless
/// `saved_already` says that its account is saved or cannot be looked for.
/// `contents` is what its file is to hold.
pub fn add_unless_saved(
    saved_already: AppResult<bool>,
    name: &str,
    value: &Json,
    contents: Vec<u8>,
    drawn: Draw,
) -> (result: AppResult<Option<Addition>>)
    ensures
        match saved_already {
            Err(message) => result is Err && result->Err_0@ == message@,
            Ok(true) => result == Ok::<Option<Addition>, String>(None),
            Ok(false) => result matches Ok(Some(new)) && is_new_profile(
                new.profile,
                name@,
                value@,
                drawn,
            ) && new.contents == contents,
        },
{
    match saved_already {
        Err(message) => return Err(message),
        Ok(true) => return Ok(None),
        Ok(false) => {},
    }
    let given = trim(&chars_of(name));
    let name = if given.len() == 0 {
        suggested_name(value, "Codex аккаунт")
    } else {
        string_of(given)
    };
    let profile = Profile {
        id: drawn.id,
        name,
        file_name: glue(uuid_text(drawn.file_id).as_str(), ".json"),
        created_at: drawn.created_at,
        color_name: None,
    };
    Ok(Some(Addition { profile, contents }))
}

/// The profile for a value, with the given UUIDs and time.
pub fn add_value_with(
    saved: &Vec<AppResult<Vec<u8>>>,
    name: &str,
    value: &Json,
    drawn: Draw,
) -> (result: AppResult<Option<Addition>>)
    requires
        value@.ordered(),
    ensures
        offer(read_trees(saved@), name@, value@, drawn, result),
        reads_back(result, value@),
        compared(read_trees(saved@), value@),
{
    let saved_already = is_duplicate(saved, value);
    match pretty(value) {
        Ok(contents) => add_unless_saved(saved_already, name, value, contents, drawn),
        Err(message) => Err(message),
    }
}

/// The profile for a value, unless its account is saved already. Its file is
/// to be written, then the list of profiles with it, and `confirm_addition`
/// says what holds after that.
pub fn add_value(saved: &Vec<AppResult<Vec<u8>>>, name: &str, value: &Json) -> (result: AppResult<
    Option<Addition>,
>)
    requires
        value@.ordered(),
    ensures
        exists|drawn: Draw| #[trigger]
            offer(read_trees(saved@), name@, value@, drawn, result) && drawn.is_fresh(),
        reads_back(result, value@),
        compared(read_trees(saved@), value@),
{
    let drawn = draw();
    add_value_with(saved, name, value, drawn)
}

/// The list of profiles with a new one at its end, as it is to be written once
/// the file of the new one is.
pub fn listed_with(profiles: &Vec<Profile>, profile: &Profile) -> (list: Vec<Profile>)
    ensures
        list@ == profiles@.push(*profile),
{
    let mut list: Vec<Profile> = Vec::new();
    let mut i: usize = 0;
    while i < profiles.len()
        invariant
            i <= profiles@.len(),
            list@ == profiles@.take(i as int),
        decreases profiles@.len() - i,
    {
        list.push(profiles[i].clone());
        assert(profiles@.take(i + 1) == profiles@.take(i as int).push(profiles@[i as int]));
        i = i + 1;
    }
    assert(profiles@.take(i as int) == profiles@);
    list.push(profile.clone());
    list
}

/// What holds after writing the file of a new profile and then the list with
/// it. Where the file could not be written, the list has no new profile. Where
/// only the list could not be written, it has. Either way the answer says why.
/// `index_written` does not count where the file could not be written.
pub fn confirm_addition(
    profiles: &mut Vec<Profile>,
    profile: Profile,
    file_written: AppResult<()>,
    index_written: AppResult<()>,
) -> (result: AppResult<()>)
    ensures
        match (file_written, index_written) {
            (Err(message), _) => final(profiles)@ == old(profiles)@ && result is Err
                && result->Err_0@ == message@,
            (Ok(_), Err(message)) => final(profiles)@ == old(profiles)@.push(profile)
                && result is Err && result->Err_0@ == message@,
            (Ok(_), Ok(_)) => final(profiles)@ == old(profiles)@.push(profile) && result is Ok,
        },
{
    match file_written {
        Err(message) => Err(message),
        Ok(_) => {
            profiles.push(profile);
            index_written
        },
    }
}

/// What is answered where an authorisation is checked and then to be added.
pub open spec fn checked_offer(
    reads: Seq<Result<Tree, Seq<char>>>,
    name: Seq<char>,
    read: Result<Tree, Seq<char>>,
    drawn: Draw,
    result: AppResult<Option<Addition>>,
) -> bool {
    match checked(read) {
        Err(message) => result is Err && result->Err_0@ == message,
        Ok(tree) => offer(reads, name, tree, drawn, result),
    }
}

/// The first profile, for the authorisation that Codex uses now, with the
/// given UUIDs and time. `auth` is the text of its file, where there is one.
pub fn ensure_initial_profile_with(
    profiles: &Vec<Profile>,
    auth: Option<AppResult<String>>,
    drawn: Draw,
) -> (result: AppResult<Option<Addition>>)
    ensures
        profiles@.len() > 0 || auth is None ==> result == Ok::<Option<Addition>, String>(None),
        profiles@.len() == 0 ==> match auth {
            Some(Ok(text)) => checked_offer(
                Seq::empty(),
                "Текущий аккаунт"@,
                parsed_text(text@),
                drawn,
                result,
            ),
            Some(Err(message)) => result is Err && result->Err_0@ == message@,
            None => true,
        },
        auth matches Some(Ok(text)) ==> parsed_text(text@) matches Ok(tree) ==> reads_back(
            result,
            tree,
        ) && (result matches Ok(Some(_)) ==> tree.shallow(READING_DEPTH as nat)),
{
    if profiles.len() > 0 {
        return Ok(None);
    }
    let text = match auth {
        Some(Ok(text)) => text,
        Some(Err(message)) => return Err(message),
        None => return Ok(None),
    };
    let value = match validate_auth_json(text.as_str()) {
        Ok(value) => value,
        Err(message) => return Err(message),
    };
    let saved: Vec<AppResult<Vec<u8>>> = Vec::new();
    assert(read_trees(saved@) == Seq::<Result<Tree, Seq<char>>>::empty());
    add_value_with(&saved, "Текущий аккаунт", &value, drawn)
}

/// The first profile, for the authorisation that Codex uses now, where there
/// is no profile yet. `auth` is the text of its file, where there is one.
pub fn ensure_initial_profile(
    profiles: &Vec<Profile>,
    auth: Option<AppResult<String>>,
) -> (result: AppResult<Option<Addition>>)
    ensures
        profiles@.len() > 0 || auth is None ==> result == Ok::<Option<Addition>, String>(None),
        profiles@.len() == 0 ==> match auth {
            Some(Ok(text)) => exists|drawn: Draw| #[trigger]
                checked_offer(
                    Seq::empty(),
                    "Текущий аккаунт"@,
                    parsed_text(text@),
                    drawn,
                    result,
                ) && drawn.is_fresh(),
            Some(Err(message)) => result is Err && result->Err_0@ == message@,
            None => true,
        },
        auth matches Some(Ok(text)) ==> parsed_text(text@) matches Ok(tree) ==> reads_back(
            result,
            tree,
        ) && (result matches Ok(Some(_)) ==> tree.shallow(READING_DEPTH as nat)),
{
    let drawn = draw();
    ensure_initial_profile_with(profiles, auth, drawn)
}

/// What was found in the place of the list of profiles.
pub enum IndexFile {
    /// There is no such file.
    Missing,
    /// It cannot be read, for the given reason.
    Unreadable(String),
    /// It holds no list of profiles, for the given reason.
    Damaged(String),
    /// It holds these profiles.
    Holds(Vec<Profile>),
}

/// The list of profiles. There are none where there is no list yet. In which
/// form the file holds the list is left to the application, which writes it
/// and reads it.
pub fn read_profiles(index: IndexFile) -> (result: AppResult<Vec<Profile>>)
    ensures
        match index {
            IndexFile::Missing => result is Ok && result->Ok_0@ == Seq::<Profile>::empty(),
            IndexFile::Unreadable(reason) => result is Err && result->Err_0@ == reason@,
            IndexFile::Damaged(reason) => result is Err && result->Err_0@
                == "profiles.json повреждён: "@ + reason@,
            IndexFile::Holds(profiles) => result == Ok::<Vec<Profile>, String>(profiles),
        },
{
    match index {
        IndexFile::Missing => Ok(Vec::new()),
        IndexFile::Unreadable(reason) => Err(reason),
        IndexFile::Damaged(reason) => Err(glue("profiles.json повреждён: ", reason.as_str())),
        IndexFile::Holds(profiles) => Ok(profiles),
    }
}

/// What adding an authorisation that the user pasted answers: the list as it
/// is and the profile that is to be added to it, or a message.
pub open spec fn pasted(
    index: AppResult<Vec<Profile>>,
    reads: Seq<Result<Tree, Seq<char>>>,
    name: Seq<char>,
    read: Result<Tree, Seq<char>>,
    drawn: Draw,
    result: AppResult<(Vec<Profile>, Addition)>,
) -> bool {
    match checked(read) {
        Err(message) => result is Err && result->Err_0@ == message,
        Ok(tree) => match index {
            Err(message) => result is Err && result->Err_0@ == message@,
            Ok(profiles) => match duplicate(reads, tree) {
                Err(message) => result is Err && result->Err_0@ == message,
                Ok(true) => result is Err && result->Err_0@ == "Этот Codex-аккаунт уже добавлен"@,
                Ok(false) => result matches Ok(added) && added.0 == profiles && offer(
                    reads,
                    name,
                    tree,
                    drawn,
                    Ok(Some(added.1)),
                ),
            },
        },
    }
}

/// Adds an authorisation that the user pasted, with the given UUIDs and time.
pub fn add_profile_json_with(
    index: AppResult<Vec<Profile>>,
    saved: &Vec<AppResult<Vec<u8>>>,
    name: &str,
    json: &str,
    drawn: Draw,
) -> (result: AppResult<(Vec<Profile>, Addition)>)
    ensures
        pasted(index, read_trees(saved@), name@, parsed_text(json@), drawn, result),
        result matches Ok(added) ==> parsed_text(json@) matches Ok(tree) ==> reads_back(
            Ok(Some(added.1)),
            tree,
        ) && tree.shallow(READING_DEPTH as nat),
{
    let value = match validate_auth_json(json) {
        Ok(value) => value,
        Err(message) => return Err(message),
    };
    let profiles = match index {
        Ok(profiles) => profiles,
        Err(message) => return Err(message),
    };
    match add_value_with(saved, name, &value, drawn) {
        Ok(Some(new)) => Ok((profiles, new)),
        Ok(None) => Err("Этот Codex-аккаунт уже добавлен".to_owned()),
        Err(message) => Err(message),
    }
}

/// Adds an authorisation that the user pasted. `index` is the list of
/// profiles, and `saved` what reading their files gave.
pub fn add_profile_json(
    index: AppResult<Vec<Profile>>,
    saved: &Vec<AppResult<Vec<u8>>>,
    name: &str,
    json: &str,
) -> (result: AppResult<(Vec<Profile>, Addition)>)
    ensures
        exists|drawn: Draw| #[trigger]
            pasted(index, read_trees(saved@), name@, parsed_text(json@), drawn, result)
                && drawn.is_fresh(),
        result matches Ok(added) ==> parsed_text(json@) matches Ok(tree) ==> reads_back(
            Ok(Some(added.1)),
            tree,
        ) && tree.shallow(READING_DEPTH as nat),
{
    let drawn = draw();
    add_profile_json_with(index, saved, name, json, drawn)
}

/// The place of the first profile with the given UUID.
pub open spec fn place_of(profiles: Seq<Profile>, id: u128) -> Option<int>
    decreases profiles.len(),
{
    if profiles.len() == 0 {
        None
    } else {
        match place_of(profiles.drop_last(), id) {
            Some(i) => Some(i),
            None => if profiles.last().id == id {
                Some(profiles.len() - 1)
            } else {
                None
            },
        }
    }
}

/// The place of a profile is that of the first one with its UUID.
proof fn lemma_place(profiles: Seq<Profile>, id: u128)
    ensures
        match place_of(profiles, id) {
            Some(i) => 0 <= i < profiles.len() && profiles[i].id == id && forall|j: int|
                0 <= j < i ==> (#[trigger] profiles[j]).id != id,
            None => forall|j: int| 0 <= j < profiles.len() ==> (#[trigger] profiles[j]).id != id,
        },
    decreases profiles.len(),
{
    if profiles.len() > 0 {
        lemma_place(profiles.drop_last(), id);
        assert forall|j: int| 0 <= j < profiles.len() - 1 implies #[trigger] profiles[j]
            == profiles.drop_last()[j] by {}
    }
}

/// One more profile is found at the end, where no earlier one has its UUID.
proof fn lemma_place_pushed(profiles: Seq<Profile>, profile: Profile, id: u128)
    ensures
        place_of(profiles.push(profile), id) == match place_of(profiles, id) {
            Some(i) => Some(i),
            None => if profile.id == id {
                Some(profiles.len() as int)
            } else {
                None
            },
        },
{
    assert(profiles.push(profile).drop_last() == profiles);
}

/// A place with the UUID before which no profile has it is the place.
proof fn lemma_place_is(profiles: Seq<Profile>, id: u128, i: int)
    requires
        0 <= i < profiles.len(),
        profiles[i].id == id,
        forall|j: int| 0 <= j < i ==> (#[trigger] profiles[j]).id != id,
    ensures
        place_of(profiles, id) == Some(i),
{
    lemma_place(profiles, id);
    if let Some(k) = place_of(profiles, id) {
        if k < i {
            assert(profiles[k].id != id);
        } else if i < k {
            assert(profiles[i].id != id);
        }
    } else {
        assert(profiles[i].id != id);
    }
}

/// The place of the first profile with the given UUID.
fn find_place(profiles: &Vec<Profile>, id: u128) -> (place: Option<usize>)
    ensures
        place is Some <==> place_of(profiles@, id) is Some,
        place matches Some(i) ==> place_of(profiles@, id) == Some(i as int) && i < profiles@.len()
            && profiles@[i as int].id == id,
{
    let mut i: usize = 0;
    while i < profiles.len()
        invariant
            i <= profiles@.len(),
            forall|j: int| 0 <= j < i ==> (#[trigger] profiles@[j]).id != id,
        decreases profiles@.len() - i,
    {
        if profiles[i].id == id {
            proof {
                lemma_place_is(profiles@, id, i as int);
            }
            return Some(i);
        }
        i = i + 1;
    }
    proof {
        lemma_place(profiles@, id);
    }
    None
}

/// The place of the profile that a request names.
pub fn find_profile(profiles: &Vec<Profile>, id: u128) -> (result: AppResult<usize>)
    ensures
        match place_of(profiles@, id) {
            Some(i) => result matches Ok(place) && place == i && place < profiles@.len(),
            None => result is Err && result->Err_0@ == "Профиль не найден"@,
        },
{
    match find_place(profiles, id) {
        Some(i) => Ok(i),
        None => Err("Профиль не найден".to_owned()),
    }
}

/// How often the profile in use is looked for, in seconds.
pub const REFRESH_SECONDS: u64 = 2;

/// The profile in use, and the profile whose file is to be overwritten with
/// what Codex uses now.
#[derive(Clone, Copy, Debug, PartialEq, Eq)]
pub struct Active {
    pub id: u128,
    pub refresh: Option<usize>,
}

/// The first file that belongs to the same account as `current`. Files that
/// cannot be read are passed over.
pub open spec fn first_match(reads: Seq<Result<Tree, Seq<char>>>, current: Tree) -> Option<int>
    decreases reads.len(),
{
    if reads.len() == 0 {
        None
    } else {
        match first_match(reads.drop_last(), current) {
            Some(i) => Some(i),
            None => if reads.last() is Ok && same_account(reads.last()->Ok_0, current) {
                Some(reads.len() - 1)
            } else {
                None
            },
        }
    }
}

/// Whether file `i` can be read and belongs to the same account as `current`.
pub open spec fn matches_at(
    reads: Seq<Result<Tree, Seq<char>>>,
    current: Tree,
    i: int,
) -> bool {
    reads[i] is Ok && same_account(reads[i]->Ok_0, current)
}

proof fn lemma_first_match(reads: Seq<Result<Tree, Seq<char>>>, current: Tree)
    ensures
        match first_match(reads, current) {
            Some(i) => 0 <= i < reads.len() && matches_at(reads, current, i) && forall|j: int|
                0 <= j < i ==> !#[trigger] matches_at(reads, current, j),
            None => forall|j: int|
                0 <= j < reads.len() ==> !#[trigger] matches_at(reads, current, j),
        },
    decreases reads.len(),
{
    if reads.len() > 0 {
        let before = reads.drop_last();
        lemma_first_match(before, current);
        assert forall|j: int| 0 <= j < before.len() implies #[trigger] matches_at(
            reads,
            current,
            j,
        ) == matches_at(before, current, j) by {
            assert(before[j] == reads[j]);
        }
        match first_match(before, current) {
            Some(i) => {
                assert(matches_at(reads, current, i) == matches_at(before, current, i));
            },
            None => {},
        }
    }
}

proof fn lemma_first_match_is(reads: Seq<Result<Tree, Seq<char>>>, current: Tree, i: int)
    requires
        0 <= i < reads.len(),
        matches_at(reads, current, i),
        forall|j: int| 0 <= j < i ==> !#[trigger] matches_at(reads, current, j),
    ensures
        first_match(reads, current) == Some(i),
{
    lemma_first_match(reads, current);
    if let Some(k) = first_match(reads, current) {
        if k < i {
            assert(!matches_at(reads, current, k));
        } else if i < k {
            assert(!matches_at(reads, current, i));
        }
    }
}

/// The profile in use: the first whose file belongs to the account that Codex
/// uses now. The file of the first profile with its UUID is to be overwritten
/// where it holds anything else than what Codex uses.
pub open spec fn active(
    current: Option<Seq<u8>>,
    profiles: Seq<Profile>,
    files: Seq<Result<Seq<u8>, Seq<char>>>,
) -> Option<(u128, Option<int>)> {
    match current {
        Some(bytes) => match parsed_bytes(bytes) {
            Ok(tree) => match first_match(
                files.map_values(|f: Result<Seq<u8>, Seq<char>>| read_tree(f)),
                tree,
            ) {
                Some(i) => {
                    let id = profiles[i].id;
                    let place = place_of(profiles, id)->0;
                    Some(
                        (
                            id,
                            if files[place] == Ok::<Seq<u8>, Seq<char>>(bytes) {
                                None
                            } else {
                                Some(place)
                            },
                        ),
                    )
                },
                None => None,
            },
            Err(_) => None,
        },
        None => None,
    }
}

/// The models of what reading the files gave.
pub open spec fn file_views(saved: Seq<AppResult<Vec<u8>>>) -> Seq<Result<Seq<u8>, Seq<char>>> {
    saved.map_values(|file: AppResult<Vec<u8>>| file_view(file))
}

/// The model of what `detect_active` answers.
pub open spec fn active_view(found: Option<Active>) -> Option<(u128, Option<int>)> {
    match found {
        Some(a) => Some(
            (
                a.id,
                match a.refresh {
                    Some(i) => Some(i as int),
                    None => None,
                },
            ),
        ),
        None => None,
    }
}

/// Whether two byte vectors hold the same bytes.
pub(crate) fn same_bytes(a: &Vec<u8>, b: &Vec<u8>) -> (yes: bool)
    ensures
        yes == (a@ == b@),
{
    if a.len() != b.len() {
        return false;
    }
    let mut i: usize = 0;
    while i < a.len()
        invariant
            i <= a@.len(),
            a@.len() == b@.len(),
            forall|j: int| 0 <= j < i ==> a@[j] == b@[j],
        decreases a@.len() - i,
    {
        if a[i] != b[i] {
            return false;
        }
        i = i + 1;
    }
    assert(a@ == b@);
    true
}

/// The place of the first flag that is set.
pub open spec fn first_set(flags: Seq<bool>) -> Option<int>
    decreases flags.len(),
{
    if flags.len() == 0 {
        None
    } else {
        match first_set(flags.drop_last()) {
            Some(i) => Some(i),
            None => if flags.last() {
                Some(flags.len() - 1)
            } else {
                None
            },
        }
    }
}

proof fn lemma_first_set(flags: Seq<bool>)
    ensures
        match first_set(flags) {
            Some(i) => 0 <= i < flags.len() && flags[i] && forall|j: int|
                0 <= j < i ==> !#[trigger] flags[j],
            None => forall|j: int| 0 <= j < flags.len() ==> !#[trigger] flags[j],
        },
    decreases flags.len(),
{
    if flags.len() > 0 {
        lemma_first_set(flags.drop_last());
        assert forall|j: int| 0 <= j < flags.len() - 1 implies #[trigger] flags[j]
            == flags.drop_last()[j] by {}
    }
}

/// Finds the profile in use. `same_account` says for each profile whether its
/// file belongs to the account that Codex uses now, and `same_bytes` whether
/// it holds just what Codex uses.
pub fn active_by(
    profiles: &Vec<Profile>,
    same_account: &Vec<bool>,
    same_bytes: &Vec<bool>,
) -> (found: Option<Active>)
    requires
        same_account@.len() == profiles@.len(),
        same_bytes@.len() == profiles@.len(),
    ensures
        match first_set(same_account@) {
            Some(i) => {
                let place = place_of(profiles@, profiles@[i].id)->0;
                &&& active_view(found) == Some(
                    (
                        profiles@[i].id,
                        if same_bytes@[place] {
                            None
                        } else {
                            Some(place)
                        },
                    ),
                )
                &&& 0 <= place <= i < profiles@.len()
            },
            None => found is None,
        },
{
    proof {
        lemma_first_set(same_account@);
    }
    let mut i: usize = 0;
    while i < same_account.len()
        invariant
            i <= same_account@.len(),
            same_account@.len() == profiles@.len(),
            same_bytes@.len() == profiles@.len(),
            forall|j: int| 0 <= j < i ==> !#[trigger] same_account@[j],
            match first_set(same_account@) {
                Some(k) => 0 <= k < same_account@.len() && same_account@[k] && forall|j: int|
                    0 <= j < k ==> !#[trigger] same_account@[j],
                None => forall|j: int| 0 <= j < same_account@.len() ==> !#[trigger] same_account@[j],
            },
        decreases same_account@.len() - i,
    {
        if same_account[i] {
            assert(first_set(same_account@) == Some(i as int));
            proof {
                lemma_place(profiles@, profiles@[i as int].id);
            }
            let id = profiles[i].id;
            if let Some(place) = find_place(profiles, id) {
                let refresh = if same_bytes[place] {
                    None
                } else {
                    Some(place)
                };
                return Some(Active { id, refresh });
            }
        }
        i = i + 1;
    }
    None
}

/// Finds the profile in use. `current` is what Codex uses now, where it can
/// be read.
pub fn detect_active(
    current: &Option<Vec<u8>>,
    profiles: &Vec<Profile>,
    saved: &Vec<AppResult<Vec<u8>>>,
) -> (found: Option<Active>)
    requires
        saved@.len() == profiles@.len(),
    ensures
        active_view(found) == active(
            match *current {
                Some(bytes) => Some(bytes@),
                None => None,
            },
            profiles@,
            file_views(saved@),
        ),
{
    let bytes = match current {
        Some(bytes) => bytes,
        None => return None,
    };
    let value = match parse_bytes(bytes.as_slice()) {
        Ok(value) => value,
        Err(_) => return None,
    };
    let ghost files = file_views(saved@);
    let ghost reads = files.map_values(|f: Result<Seq<u8>, Seq<char>>| read_tree(f));
    let mut of_account: Vec<bool> = Vec::new();
    let mut of_bytes: Vec<bool> = Vec::new();
    let mut i: usize = 0;
    while i < saved.len()
        invariant
            i <= saved@.len(),
            value@.ordered(),
            files == file_views(saved@),
            reads == files.map_values(|f: Result<Seq<u8>, Seq<char>>| read_tree(f)),
            of_account@.len() == i,
            of_bytes@.len() == i,
            forall|j: int| 0 <= j < i ==> of_account@[j] == #[trigger] matches_at(reads, value@, j),
            forall|j: int|
                0 <= j < i ==> #[trigger] of_bytes@[j] == (files[j] == Ok::<Seq<u8>, Seq<char>>(
                    bytes@,
                )),
        decreases saved@.len() - i,
    {
        of_account.push(
            match profile_value(&saved[i]) {
                Ok(stored) => is_same_account(&stored, &value),
                Err(_) => false,
            },
        );
        of_bytes.push(
            match &saved[i] {
                Ok(contents) => same_bytes(contents, bytes),
                Err(_) => false,
            },
        );
        assert(files[i as int] == file_view(saved@[i as int]));
        i = i + 1;
    }
    proof {
        lemma_first_match(reads, value@);
        lemma_first_set(of_account@);
        if let Some(k) = first_set(of_account@) {
            assert(matches_at(reads, value@, k));
            assert forall|j: int| 0 <= j < k implies !#[trigger] matches_at(reads, value@, j) by {
                assert(!of_account@[j]);
            }
            lemma_first_match_is(reads, value@, k);
        } else if let Some(k) = first_match(reads, value@) {
            assert(!of_account@[k]);
        }
    }
    active_by(profiles, &of_account, &of_bytes)
}

/// What is shown when the application starts: the profiles, which of them is
/// in use, and where Codex keeps its authorisation.
pub fn load_snapshot(
    profiles: Vec<Profile>,
    active: Option<Active>,
    codex_auth_path: String,
) -> (snapshot: AppSnapshot)
    ensures
        snapshot.profiles == profiles,
        snapshot.active_id == match active {
            Some(found) => Some(found.id),
            None => None,
        },
        snapshot.codex_auth_path == codex_auth_path,
{
    let active_id = match active {
        Some(found) => Some(found.id),
        None => None,
    };
    AppSnapshot { profiles, active_id, codex_auth_path }
}

/// An error of `std::str::from_utf8`, carried as it is.
#[verifier::external_type_specification]
#[verifier::external_body]
pub struct ExUtf8Error(std::str::Utf8Error);

/// The name of the text of the error that `std::str::from_utf8` returns for
/// bytes that are not UTF-8.
pub uninterp spec fn utf8_error(bytes: Seq<u8>) -> Seq<char>;

/// `std::str::from_utf8`: the text that the bytes encode, or an error where
/// they are not UTF-8. The text of the error is named.
#[verifier::external_body]
fn utf8_text(bytes: &Vec<u8>) -> (result: Result<&str, std::str::Utf8Error>)
    ensures
        match result {
            Ok(text) => valid_utf8(bytes@) && text@ == decode_utf8(bytes@),
            Err(error) => !valid_utf8(bytes@) && forall|s: String|
                vstd::string::to_string_from_display_ensures(&error, s) ==> #[trigger] s@
                    == utf8_error(bytes@),
        },
{
    std::str::from_utf8(bytes)
}

/// What is to be written for a profile that is activated.
#[derive(Debug, PartialEq, Eq)]
pub struct Activation {
    /// The name under which what Codex uses now is kept first.
    pub backup: Option<String>,
    /// What Codex uses from now on.
    pub contents: Vec<u8>,
}

/// What Codex uses from now on, or the message that says why the file of a
/// profile is not fit for it.
pub open spec fn activated(file: Result<Seq<u8>, Seq<char>>) -> Result<Seq<u8>, Seq<char>> {
    match file {
        Err(message) => Err(message),
        Ok(bytes) => if !valid_utf8(bytes) {
            Err(utf8_error(bytes))
        } else {
            match checked(parsed_text(decode_utf8(bytes))) {
                Err(message) => Err(message),
                Ok(_) => Ok(bytes),
            }
        },
    }
}

/// Prepares the activation of a profile whose file holds `contents`. `check`
/// is what checking them as an authorisation gave, and `stamp` the time, where
/// there is an authorisation to keep.
pub fn activation_of(
    contents: Vec<u8>,
    check: AppResult<Json>,
    stamp: Option<String>,
) -> (result: AppResult<Activation>)
    ensures
        match check {
            Err(message) => result is Err && result->Err_0@ == message@,
            Ok(_) => result matches Ok(activation) && activation.contents == contents && match (
                stamp,
                activation.backup,
            ) {
                (Some(time), Some(name)) => name@ == "auth_"@ + time@ + ".json"@,
                (None, None) => true,
                _ => false,
            },
        },
{
    match check {
        Ok(_) => {},
        Err(message) => return Err(message),
    }
    let backup = match stamp {
        Some(time) => Some(glue(glue("auth_", time.as_str()).as_str(), ".json")),
        None => None,
    };
    Ok(Activation { backup, contents })
}

/// What Codex is to use from now on, where what it uses now could be kept, or
/// there was nothing to keep.
pub fn confirm_activation(activation: Activation, kept: AppResult<()>) -> (result: AppResult<
    Vec<u8>,
>)
    ensures
        match kept {
            Ok(_) => result == Ok::<Vec<u8>, String>(activation.contents),
            Err(message) => result is Err && result->Err_0@ == message@,
        },
{
    match kept {
        Ok(_) => Ok(activation.contents),
        Err(message) => Err(message),
    }
}

/// What Codex uses after an activation: what confirming it hands out, else
/// what it used before.
pub open spec fn used_after_activation(
    before: Option<Seq<u8>>,
    prepared: AppResult<Activation>,
    confirmed: AppResult<Vec<u8>>,
) -> Option<Seq<u8>> {
    match (prepared, confirmed) {
        (Ok(_), Ok(contents)) => Some(contents@),
        _ => before,
    }
}

/// Prepares the activation of the profile with the given file. `stamp` is the
/// time, where there is an authorisation to keep.
pub fn activate_profile_with(
    file: AppResult<Vec<u8>>,
    stamp: Option<String>,
) -> (result: AppResult<Activation>)
    ensures
        match activated(file_view(file)) {
            Err(message) => result is Err && result->Err_0@ == message,
            Ok(bytes) => result matches Ok(activation) && activation.contents@ == bytes && match (
                stamp,
                activation.backup,
            ) {
                (Some(time), Some(name)) => name@ == "auth_"@ + time@ + ".json"@,
                (None, None) => true,
                _ => false,
            },
        },
        result matches Ok(activation) ==> parsed_bytes(activation.contents@) == parsed_text(
            decode_utf8(activation.contents@),
        ),
{
    let contents = match file {
        Ok(bytes) => bytes,
        Err(message) => return Err(message),
    };
    let check = match utf8_text(&contents) {
        Ok(text) => validate_auth_json(text),
        Err(error) => Err(error_string(error)),
    };
    proof {
        if valid_utf8(contents@) {
            decode_utf8_encode_utf8(contents@);
        }
    }
    activation_of(contents, check, stamp)
}

/// Prepares the activation of the profile with the given file. What Codex
/// uses now is kept first, where there is anything.
pub fn activate_profile(file: AppResult<Vec<u8>>, auth_exists: bool) -> (result: AppResult<
    Activation,
>)
    ensures
        match activated(file_view(file)) {
            Err(message) => result is Err && result->Err_0@ == message,
            Ok(bytes) => result matches Ok(activation) && activation.contents@ == bytes
                && match activation.backup {
                Some(name) => auth_exists && exists|time: Seq<char>|
                    name@ == #[trigger] ("auth_"@ + time) + ".json"@ && is_stamp(time),
                None => !auth_exists,
            },
        },
        result matches Ok(activation) ==> parsed_bytes(activation.contents@) == parsed_text(
            decode_utf8(activation.contents@),
        ),
{
    let stamp = if auth_exists {
        Some(stamp_time())
    } else {
        None
    };
    activate_profile_with(file, stamp)
}

/// What is to be done with the file of a profile that is deleted: it is kept
/// under another name.
#[derive(Debug, PartialEq, Eq)]
pub struct Removal {
    pub file_name: String,
    pub backup_name: String,
}

/// The name under which the file of a deleted profile is kept.
pub open spec fn removal_name(id: u128, timestamp: int) -> Seq<char> {
    "deleted_"@ + uuid_notation(id) + "_"@ + signed_decimal(timestamp) + ".json"@
}

/// How deleting a profile turns `before` into `after`, and what it answers.
pub open spec fn deletion(
    before: Seq<Profile>,
    id: u128,
    timestamp: int,
    after: Seq<Profile>,
    result: AppResult<Removal>,
) -> bool {
    match place_of(before, id) {
        Some(i) => {
            &&& after == before.remove(i)
            &&& result matches Ok(removal) && removal.file_name == before[i].file_name
                && removal.backup_name@ == removal_name(id, timestamp)
        },
        None => after == before && result is Err && result->Err_0@ == "Профиль не найден"@,
    }
}

/// Deletes a profile at the given time.
pub fn delete_profile_at(
    profiles: &mut Vec<Profile>,
    profile_id: u128,
    timestamp: i64,
) -> (result: AppResult<Removal>)
    ensures
        deletion(old(profiles)@, profile_id, timestamp as int, final(profiles)@, result),
{
    let place = match find_profile(profiles, profile_id) {
        Ok(place) => place,
        Err(message) => return Err(message),
    };
    proof {
        lemma_place(profiles@, profile_id);
    }
    let profile = profiles.remove(place);
    let name = glue("deleted_", uuid_text(profile.id).as_str());
    let name = glue(name.as_str(), "_");
    let name = glue(name.as_str(), signed_decimal_text(timestamp).as_str());
    let backup_name = glue(name.as_str(), ".json");
    Ok(Removal { file_name: profile.file_name, backup_name })
}

/// What deleting a profile answers once its file was moved away, or could not
/// be moved. `profiles` is the list without it. It is handed out to be written
/// only where the file was moved.
pub fn confirm_deletion(profiles: Vec<Profile>, moved: AppResult<()>) -> (result: AppResult<
    Vec<Profile>,
>)
    ensures
        match moved {
            Ok(_) => result == Ok::<Vec<Profile>, String>(profiles),
            Err(message) => result is Err && result->Err_0@ == message@,
        },
{
    match moved {
        Ok(_) => Ok(profiles),
        Err(message) => Err(message),
    }
}

/// The list of profiles that is stored after a deletion: what confirming it
/// hands out, else the list that was stored before.
pub open spec fn stored_after_deletion(
    before: Seq<Profile>,
    deleted: AppResult<Removal>,
    confirmed: AppResult<Vec<Profile>>,
) -> Seq<Profile> {
    match (deleted, confirmed) {
        (Ok(_), Ok(profiles)) => profiles@,
        _ => before,
    }
}

/// Deletes a profile. Its file is to be kept under the name that is handed
/// out, and then the list of profiles is to be written.
pub fn delete_profile(profiles: &mut Vec<Profile>, profile_id: u128) -> (result: AppResult<Removal>)
    ensures
        exists|timestamp: i64| #[trigger]
            deletion(old(profiles)@, profile_id, timestamp as int, final(profiles)@, result)
                && timestamp >= 0,
{
    let timestamp = unix_time();
    delete_profile_at(profiles, profile_id, timestamp)
}

/// An account counts as not saved if and only if every file can be read and
/// none belongs to it.
pub proof fn law_not_saved(reads: Seq<Result<Tree, Seq<char>>>, candidate: Tree)
    ensures
        duplicate(reads, candidate) == Ok::<bool, Seq<char>>(false) <==> forall|i: int|
            0 <= i < reads.len() ==> (#[trigger] reads[i]) is Ok && !same_account(
                reads[i]->Ok_0,
                candidate,
            ),
    decreases reads.len(),
{
    if reads.len() > 0 {
        let rest = reads.drop_first();
        law_not_saved(rest, candidate);
        if duplicate(reads, candidate) == Ok::<bool, Seq<char>>(false) {
            assert forall|i: int| 0 <= i < reads.len() implies (#[trigger] reads[i]) is Ok
                && !same_account(reads[i]->Ok_0, candidate) by {
                if i > 0 {
                    assert(rest[i - 1] == reads[i]);
                }
            }
        }
        if forall|i: int|
            0 <= i < reads.len() ==> (#[trigger] reads[i]) is Ok && !same_account(
                reads[i]->Ok_0,
                candidate,
            ) {
            assert(reads[0] is Ok);
            assert forall|i: int| 0 <= i < rest.len() implies (#[trigger] rest[i]) is Ok
                && !same_account(rest[i]->Ok_0, candidate) by {
                assert(rest[i] == reads[i + 1]);
            }
        }
    }
}

/// Whether no two files that can be read belong to the same account.
pub open spec fn apart(reads: Seq<Result<Tree, Seq<char>>>) -> bool {
    forall|i: int, j: int|
        0 <= i < j < reads.len() && reads[i] is Ok && reads[j] is Ok ==> !same_account(
            (#[trigger] reads[i])->Ok_0,
            (#[trigger] reads[j])->Ok_0,
        )
}

/// An activation that fails leaves Codex with what it uses: where the file of
/// the profile is not fit for it, and where what Codex uses now cannot be
/// kept. The answer says which. Else Codex uses just what the file holds.
pub proof fn law_failed_activation_changes_nothing(
    before: Option<Seq<u8>>,
    file: Result<Seq<u8>, Seq<char>>,
    prepared: AppResult<Activation>,
    kept: AppResult<()>,
    confirmed: AppResult<Vec<u8>>,
)
    requires
        match activated(file) {
            Err(message) => prepared is Err && prepared->Err_0@ == message,
            Ok(bytes) => prepared matches Ok(activation) && activation.contents@ == bytes,
        },
        prepared matches Ok(activation) ==> match kept {
            Ok(_) => confirmed == Ok::<Vec<u8>, String>(activation.contents),
            Err(message) => confirmed is Err && confirmed->Err_0@ == message@,
        },
    ensures
        activated(file) is Err ==> prepared is Err && prepared->Err_0@ == activated(file)->Err_0
            && used_after_activation(before, prepared, confirmed) == before,
        activated(file) is Ok && kept is Err ==> confirmed is Err && confirmed->Err_0@
            == kept->Err_0@ && used_after_activation(before, prepared, confirmed) == before,
        activated(file) is Ok && kept is Ok ==> used_after_activation(before, prepared, confirmed)
            == Some(file->Ok_0),
{
}

/// A deletion that fails stores nothing: the list stays as it was where no
/// profile has the UUID, and where the file of the profile cannot be moved.
/// The answer says which.
pub proof fn law_failed_deletion_stores_nothing(
    before: Seq<Profile>,
    id: u128,
    timestamp: int,
    after: Vec<Profile>,
    deleted: AppResult<Removal>,
    moved: AppResult<()>,
    confirmed: AppResult<Vec<Profile>>,
)
    requires
        deletion(before, id, timestamp, after@, deleted),
        match moved {
            Ok(_) => confirmed == Ok::<Vec<Profile>, String>(after),
            Err(message) => confirmed is Err && confirmed->Err_0@ == message@,
        },
    ensures
        place_of(before, id) is None ==> deleted is Err && deleted->Err_0@
            == "Профиль не найден"@,
        place_of(before, id) is None || moved is Err ==> stored_after_deletion(
            before,
            deleted,
            confirmed,
        ) == before,
        place_of(before, id) is Some && moved is Ok ==> stored_after_deletion(
            before,
            deleted,
            confirmed,
        ) == before.remove(place_of(before, id)->0),
        moved is Err ==> confirmed is Err && confirmed->Err_0@ == moved->Err_0@,
{
}

/// The list of profiles that is stored after an addition: the list with the
/// new profile where it could be written, else the one that was stored before.
pub open spec fn stored_after_addition(
    before: Seq<Profile>,
    profile: Profile,
    file_written: AppResult<()>,
    index_written: AppResult<()>,
) -> Seq<Profile> {
    if file_written is Ok && index_written is Ok {
        before.push(profile)
    } else {
        before
    }
}

/// An addition that fails stores nothing in the list, and says why. Where the
/// file could not be written, the list in use is the old one as well. An
/// addition that succeeds leaves the list in use and the stored one the same.
pub proof fn law_failed_addition_stores_nothing(
    before: Seq<Profile>,
    profile: Profile,
    file_written: AppResult<()>,
    index_written: AppResult<()>,
    after: Seq<Profile>,
    result: AppResult<()>,
)
    requires
        match (file_written, index_written) {
            (Err(message), _) => after == before && result is Err && result->Err_0@ == message@,
            (Ok(_), Err(message)) => after == before.push(profile) && result is Err
                && result->Err_0@ == message@,
            (Ok(_), Ok(_)) => after == before.push(profile) && result is Ok,
        },
    ensures
        ({
            let stored = stored_after_addition(before, profile, file_written, index_written);
            &&& result is Err ==> stored == before
            &&& file_written is Err ==> after == before && result->Err_0@ == file_written->Err_0@
            &&& result is Ok ==> stored == before.push(profile) && after == stored
        }),
{
}

/// An account is found to be saved where a file belongs to it and all files
/// before that one can be read.
pub proof fn law_saved_is_found(
    reads: Seq<Result<Tree, Seq<char>>>,
    candidate: Tree,
    i: int,
)
    requires
        0 <= i < reads.len(),
        forall|j: int| 0 <= j <= i ==> (#[trigger] reads[j]) is Ok,
        same_account(reads[i]->Ok_0, candidate),
    ensures
        duplicate(reads, candidate) == Ok::<bool, Seq<char>>(true),
    decreases i,
{
    assert(reads[0] is Ok);
    if i > 0 && !same_account(reads[0]->Ok_0, candidate) {
        let rest = reads.drop_first();
        assert forall|j: int| 0 <= j <= i - 1 implies (#[trigger] rest[j]) is Ok by {
            assert(rest[j] == reads[j + 1]);
        }
        law_saved_is_found(rest, candidate, i - 1);
    }
}

/// Where an account is found to be saved, a file belongs to it.
pub proof fn lemma_found_is_saved(reads: Seq<Result<Tree, Seq<char>>>, candidate: Tree)
    requires
        duplicate(reads, candidate) == Ok::<bool, Seq<char>>(true),
    ensures
        exists|i: int|
            0 <= i < reads.len() && (#[trigger] reads[i]) is Ok && same_account(
                reads[i]->Ok_0,
                candidate,
            ),
    decreases reads.len(),
{
    if reads.len() > 0 {
        if reads[0] is Ok && same_account(reads[0]->Ok_0, candidate) {
        } else {
            let rest = reads.drop_first();
            lemma_found_is_saved(rest, candidate);
            let k = choose|k: int|
                0 <= k < rest.len() && (#[trigger] rest[k]) is Ok && same_account(
                    rest[k]->Ok_0,
                    candidate,
                );
            assert(reads[k + 1] == rest[k]);
        }
    }
}

/// An account that is saved already is refused when it is pasted: where a file
/// belongs to it and all files before that one can be read, the answer says
/// that it was added already.
pub proof fn law_saved_account_is_refused(
    profiles: Vec<Profile>,
    reads: Seq<Result<Tree, Seq<char>>>,
    i: int,
    name: Seq<char>,
    tree: Tree,
    drawn: Draw,
    result: AppResult<(Vec<Profile>, Addition)>,
)
    requires
        pasted(Ok(profiles), reads, name, Ok(tree), drawn, result),
        tree is Object,
        0 <= i < reads.len(),
        forall|j: int| 0 <= j <= i ==> (#[trigger] reads[j]) is Ok,
        same_account(reads[i]->Ok_0, tree),
    ensures
        result is Err && result->Err_0@ == "Этот Codex-аккаунт уже добавлен"@,
{
    law_saved_is_found(reads, tree, i);
}

/// An account that was pasted once is refused the second time, under any name
/// and with any tokens: once its file is written, an authorisation with the
/// same identity is answered as added already. What is pasted is never nested
/// deeper than what can be read.
pub proof fn law_pasted_once(
    before: Vec<Profile>,
    reads: Seq<Result<Tree, Seq<char>>>,
    name: Seq<char>,
    tree: Tree,
    drawn: Draw,
    after: Vec<Profile>,
    new: Addition,
    again: Seq<char>,
    tree_again: Tree,
    drawn_again: Draw,
    result_again: AppResult<(Vec<Profile>, Addition)>,
)
    requires
        pasted(Ok(before), reads, name, Ok(tree), drawn, Ok((before, new))),
        reads_back(Ok(Some(new)), tree),
        tree.shallow(READING_DEPTH as nat),
        after@ == before@.push(new.profile),
        tree_again is Object,
        identity_of(tree) is Some,
        identity_of(tree_again) == identity_of(tree),
        pasted(
            Ok(after),
            reads.push(read_tree(Ok(new.contents@))),
            again,
            Ok(tree_again),
            drawn_again,
            result_again,
        ),
    ensures
        result_again is Err && result_again->Err_0@ == "Этот Codex-аккаунт уже добавлен"@,
{
    let read = read_tree(Ok(new.contents@))->Ok_0;
    let all = reads.push(read_tree(Ok(new.contents@)));
    law_doubles_do_not_change_identity(tree, read);
    law_not_saved(reads, tree);
    assert forall|j: int| 0 <= j <= reads.len() implies (#[trigger] all[j]) is Ok by {
        if j < reads.len() {
            assert(all[j] == reads[j]);
        }
    }
    law_saved_account_is_refused(
        after,
        all,
        reads.len() as int,
        again,
        tree_again,
        drawn_again,
        result_again,
    );
}

/// One more file decides where the others did not.
proof fn lemma_duplicate_push(
    reads: Seq<Result<Tree, Seq<char>>>,
    last: Tree,
    candidate: Tree,
)
    requires
        duplicate(reads, candidate) == Ok::<bool, Seq<char>>(false),
    ensures
        duplicate(reads.push(Ok(last)), candidate) == Ok::<bool, Seq<char>>(
            same_account(last, candidate),
        ),
    decreases reads.len(),
{
    let all = reads.push(Ok(last));
    if reads.len() == 0 {
        assert(all.drop_first() == Seq::<Result<Tree, Seq<char>>>::empty());
        assert(duplicate(all.drop_first(), candidate) == Ok::<bool, Seq<char>>(false));
    } else {
        assert(all[0] == reads[0]);
        assert(all.drop_first() == reads.drop_first().push(Ok(last)));
        lemma_duplicate_push(reads.drop_first(), last, candidate);
    }
}

/// An account that was added is not added again: once its file is written,
/// the same authorisation is answered as saved already, and the profiles stay
/// as they are. An authorisation without identity is left out where a double
/// in it comes back as another one. None is nested deeper than what can be
/// read.
pub proof fn law_added_once(
    before: Seq<Profile>,
    reads: Seq<Result<Tree, Seq<char>>>,
    name: Seq<char>,
    tree: Tree,
    drawn: Draw,
    after: Seq<Profile>,
    new: Addition,
    again: Seq<char>,
    drawn_again: Draw,
    after_again: Seq<Profile>,
    result_again: AppResult<Option<Addition>>,
)
    requires
        addition(before, reads, name, tree, drawn, after, Ok(Some(new))),
        reads_back(Ok(Some(new)), tree),
        tree.shallow(READING_DEPTH as nat),
        tree.integral() || identity_of(tree) is Some || canonical_text(
            read_tree(Ok(new.contents@))->Ok_0,
        ) == canonical_text(tree),
        addition(
            after,
            reads.push(read_tree(Ok(new.contents@))),
            again,
            tree,
            drawn_again,
            after_again,
            result_again,
        ),
    ensures
        after_again == after,
        result_again == Ok::<Option<Addition>, String>(None),
{
    let read = read_tree(Ok(new.contents@))->Ok_0;
    law_doubles_do_not_change_identity(tree, read);
    lemma_duplicate_push(reads, read, tree);
}

/// The saved accounts stay told apart: where no two files belong to the same
/// account, the file of an account that is added belongs to none of the
/// others.
pub proof fn law_saved_accounts_stay_apart(
    before: Seq<Profile>,
    reads: Seq<Result<Tree, Seq<char>>>,
    name: Seq<char>,
    tree: Tree,
    drawn: Draw,
    after: Seq<Profile>,
    new: Addition,
)
    requires
        addition(before, reads, name, tree, drawn, after, Ok(Some(new))),
        read_tree(Ok(new.contents@)) == Ok::<Tree, Seq<char>>(tree),
        apart(reads),
    ensures
        apart(reads.push(read_tree(Ok(new.contents@)))),
{
    law_not_saved(reads, tree);
    let all = reads.push(Ok(tree));
    assert forall|i: int, j: int| 0 <= i < j < all.len() && all[i] is Ok && all[j] is Ok implies !same_account(
        (#[trigger] all[i])->Ok_0,
        (#[trigger] all[j])->Ok_0,
    ) by {
        assert(all[i] == reads[i]);
        if j < reads.len() {
            assert(all[j] == reads[j]);
        }
    }
}

/// A saved account is not added again, whatever tokens were rotated since:
/// with a file of the same account among those that are looked at, the
/// profiles stay as they are.
pub proof fn law_saved_account_is_not_added(
    before: Seq<Profile>,
    reads: Seq<Result<Tree, Seq<char>>>,
    i: int,
    name: Seq<char>,
    tree: Tree,
    drawn: Draw,
    after: Seq<Profile>,
    result: AppResult<Option<Addition>>,
)
    requires
        addition(before, reads, name, tree, drawn, after, result),
        0 <= i < reads.len(),
        reads[i] is Ok,
        same_account(reads[i]->Ok_0, tree),
    ensures
        after == before,
        !(result matches Ok(Some(_))),
{
    law_not_saved(reads, tree);
}

/// A profile that was added is found by its UUID, where no other has it, and
/// every other profile stays where it was.
pub proof fn law_added_is_found(
    before: Seq<Profile>,
    reads: Seq<Result<Tree, Seq<char>>>,
    name: Seq<char>,
    tree: Tree,
    drawn: Draw,
    after: Seq<Profile>,
    new: Addition,
    other: u128,
)
    requires
        addition(before, reads, name, tree, drawn, after, Ok(Some(new))),
        place_of(before, drawn.id) is None,
    ensures
        place_of(after, drawn.id) == Some(before.len() as int),
        other != drawn.id ==> place_of(after, other) == place_of(before, other),
{
    lemma_place_pushed(before, new.profile, drawn.id);
    lemma_place_pushed(before, new.profile, other);
}

/// Deleting a profile that was just added undoes the addition, where no other
/// profile has its UUID.
pub proof fn law_deleting_undoes_adding(
    before: Seq<Profile>,
    reads: Seq<Result<Tree, Seq<char>>>,
    name: Seq<char>,
    tree: Tree,
    drawn: Draw,
    after: Seq<Profile>,
    new: Addition,
    timestamp: int,
    end: Seq<Profile>,
    result: AppResult<Removal>,
)
    requires
        addition(before, reads, name, tree, drawn, after, Ok(Some(new))),
        place_of(before, drawn.id) is None,
        deletion(after, drawn.id, timestamp, end, result),
    ensures
        end == before,
        result matches Ok(removal) && removal.file_name@ == new.profile.file_name@,
{
    lemma_place_pushed(before, new.profile, drawn.id);
    assert(after.remove(after.len() - 1) == before);
}

/// The profile in use is found where its file holds the same identity as what
/// Codex uses now, whatever tokens were rotated since: it is that profile, or
/// one before it whose file belongs to the same account.
pub proof fn law_rotated_tokens_are_recognised(
    current: Seq<u8>,
    profiles: Seq<Profile>,
    files: Seq<Result<Seq<u8>, Seq<char>>>,
    i: int,
)
    requires
        files.len() == profiles.len(),
        0 <= i < files.len(),
        parsed_bytes(current) is Ok,
        read_tree(files[i]) is Ok,
        identity_of(parsed_bytes(current)->Ok_0) is Some,
        identity_of(read_tree(files[i])->Ok_0) == identity_of(parsed_bytes(current)->Ok_0),
    ensures
        active(Some(current), profiles, files) is Some,
        exists|k: int|
            0 <= k <= i && (active(Some(current), profiles, files)->0).0 == (
            #[trigger] profiles[k]).id && read_tree(files[k]) is Ok && same_account(
                read_tree(files[k])->Ok_0,
                parsed_bytes(current)->Ok_0,
            ),
{
    let tree = parsed_bytes(current)->Ok_0;
    let reads = files.map_values(|f: Result<Seq<u8>, Seq<char>>| read_tree(f));
    lemma_first_match(reads, tree);
    assert(matches_at(reads, tree, i));
    let k = first_match(reads, tree)->0;
    assert(reads[k] == read_tree(files[k]));
    assert((active(Some(current), profiles, files)->0).0 == profiles[k].id);
}

/// A profile that was activated is the one in use: once Codex uses what its
/// file holds, it is found, and nothing is to be overwritten. No profile
/// before it belongs to the same account or has its UUID.
pub proof fn law_activated_is_in_use(
    profiles: Seq<Profile>,
    files: Seq<Result<Seq<u8>, Seq<char>>>,
    i: int,
    contents: Seq<u8>,
)
    requires
        files.len() == profiles.len(),
        0 <= i < files.len(),
        files[i] == Ok::<Seq<u8>, Seq<char>>(contents),
        parsed_bytes(contents) is Ok,
        forall|j: int|
            0 <= j < i ==> (#[trigger] profiles[j]).id != profiles[i].id && !(read_tree(
                files[j],
            ) is Ok && same_account(read_tree(files[j])->Ok_0, parsed_bytes(contents)->Ok_0)),
    ensures
        active(Some(contents), profiles, files) == Some((profiles[i].id, None::<int>)),
{
    let tree = parsed_bytes(contents)->Ok_0;
    let reads = files.map_values(|f: Result<Seq<u8>, Seq<char>>| read_tree(f));
    assert(matches_at(reads, tree, i));
    assert forall|j: int| 0 <= j < i implies !#[trigger] matches_at(reads, tree, j) by {
        assert(profiles[j].id != profiles[i].id);
    }
    lemma_first_match_is(reads, tree, i);
    lemma_place_is(profiles, profiles[i].id, i);
}

/// Overwriting the file that is to be refreshed settles the matter: the same
/// profile is in use, and its file holds what Codex uses.
pub proof fn law_refresh_settles(
    current: Seq<u8>,
    profiles: Seq<Profile>,
    files: Seq<Result<Seq<u8>, Seq<char>>>,
    id: u128,
    place: int,
)
    requires
        files.len() == profiles.len(),
        active(Some(current), profiles, files) == Some((id, Some(place))),
    ensures
        0 <= place < files.len(),
        active(Some(current), profiles, files.update(place, Ok(current))) == Some(
            (id, None::<int>),
        ),
{
    let tree = parsed_bytes(current)->Ok_0;
    let reads = files.map_values(|f: Result<Seq<u8>, Seq<char>>| read_tree(f));
    lemma_first_match(reads, tree);
    let i = first_match(reads, tree)->0;
    lemma_place(profiles, id);
    assert(profiles[i].id == id);
    assert(place <= i);
    let new_files = files.update(place, Ok(current));
    let new_reads = new_files.map_values(|f: Result<Seq<u8>, Seq<char>>| read_tree(f));
    assert(new_reads[place] == Ok::<Tree, Seq<char>>(tree));
    assert(matches_at(new_reads, tree, place));
    assert forall|j: int| 0 <= j < place implies !#[trigger] matches_at(new_reads, tree, j) by {
        assert(new_reads[j] == reads[j]);
        assert(!matches_at(reads, tree, j));
    }
    lemma_first_match_is(new_reads, tree, place);
}

/// Where the UUIDs of the profiles differ, only the file of the account that
/// Codex uses is ever overwritten.
pub proof fn law_refresh_keeps_to_the_account(
    current: Seq<u8>,
    profiles: Seq<Profile>,
    files: Seq<Result<Seq<u8>, Seq<char>>>,
    id: u128,
    place: int,
)
    requires
        files.len() == profiles.len(),
        forall|i: int, j: int|
            0 <= i < j < profiles.len() ==> (#[trigger] profiles[i]).id != (
            #[trigger] profiles[j]).id,
        active(Some(current), profiles, files) == Some((id, Some(place))),
    ensures
        0 <= place < files.len(),
        read_tree(files[place]) is Ok,
        same_account(read_tree(files[place])->Ok_0, parsed_bytes(current)->Ok_0),
{
    let tree = parsed_bytes(current)->Ok_0;
    let reads = files.map_values(|f: Result<Seq<u8>, Seq<char>>| read_tree(f));
    lemma_first_match(reads, tree);
    let i = first_match(reads, tree)->0;
    lemma_place(profiles, id);
    assert(profiles[i].id == id);
    assert(place == i);
    assert(reads[i] == read_tree(files[i]));
}

/// A profile that was deleted is gone, where the UUIDs of the profiles
/// differ, and every other profile is still found.
pub proof fn law_deleted_is_gone(
    before: Seq<Profile>,
    id: u128,
    timestamp: int,
    after: Seq<Profile>,
    result: AppResult<Removal>,
    other: u128,
)
    requires
        forall|i: int, j: int|
            0 <= i < j < before.len() ==> (#[trigger] before[i]).id != (#[trigger] before[j]).id,
        deletion(before, id, timestamp, after, result),
    ensures
        place_of(after, id) is None,
        other != id ==> (place_of(after, other) is Some <==> place_of(before, other) is Some),
{
    lemma_place(before, id);
    lemma_place(after, id);
    lemma_place(before, other);
    lemma_place(after, other);
    if let Some(i) = place_of(before, id) {
        assert forall|k: int| 0 <= k < after.len() implies (#[trigger] after[k]).id != id by {
            if k < i {
                assert(after[k] == before[k]);
            } else {
                assert(after[k] == before[k + 1]);
                assert(before[i].id != before[k + 1].id);
            }
        }
        if other != id {
            if let Some(k) = place_of(before, other) {
                if k < i {
                    assert(after[k] == before[k]);
                } else {
                    assert(after[k - 1] == before[k]);
                }
            }
            if let Some(k) = place_of(after, other) {
                if k < i {
                    assert(after[k] == before[k]);
                } else {
                    assert(after[k] == before[k + 1]);
                }
            }
        }
    }
}

/// What is read of a file is what its bytes hold. Where it could not be read,
/// the reason stays. The files are read one by one.
pub proof fn law_files_are_read(saved: Seq<AppResult<Vec<u8>>>, bytes: Vec<u8>, message: String)
    ensures
        read_tree(file_view(Ok(bytes))) == parsed_bytes(bytes@),
        read_tree(file_view(Err(message))) == Err::<Tree, Seq<char>>(message@),
        file_view(Ok(bytes)) == Ok::<Seq<u8>, Seq<char>>(bytes@),
        read_trees(saved).len() == saved.len(),
        file_views(saved).len() == saved.len(),
        forall|i: int|
            0 <= i < saved.len() ==> #[trigger] read_trees(saved)[i] == read_tree(
                file_view(saved[i]),
            ),
        forall|i: int|
            0 <= i < saved.len() ==> #[trigger] file_views(saved)[i] == file_view(saved[i]),
        bool_outcome(Ok(true)) == Ok::<bool, Seq<char>>(true),
        bool_outcome(Ok(false)) == Ok::<bool, Seq<char>>(false),
        bool_outcome(Err(message)) == Err::<bool, Seq<char>>(message@),
{
}

/// Two authorisations belong to the same account just where they have the same
/// identity or the same compact text. It does not matter which is asked about
/// the other.
pub proof fn law_same_account(a: Tree, b: Tree)
    ensures
        identity_of(a) is Some && identity_of(a) == identity_of(b) ==> same_account(a, b),
        canonical_text(a) == canonical_text(b) ==> same_account(a, b),
        identity_of(a) != identity_of(b) && canonical_text(a) != canonical_text(b)
            ==> !same_account(a, b),
        identity_of(a) is None && canonical_text(a) != canonical_text(b) ==> !same_account(a, b),
        same_account(a, b) <==> same_account(b, a),
        same_account(a, a),
{
}

/// A search ends at the first file that belongs to the account or cannot be
/// read, and answers what that file says.
pub proof fn law_search(reads: Seq<Result<Tree, Seq<char>>>, candidate: Tree, i: int)
    requires
        0 <= i < reads.len(),
        forall|j: int|
            0 <= j < i ==> (#[trigger] reads[j]) is Ok && !same_account(
                reads[j]->Ok_0,
                candidate,
            ),
    ensures
        reads[i] is Err ==> duplicate(reads, candidate) == Err::<bool, Seq<char>>(
            reads[i]->Err_0,
        ),
        reads[i] is Ok && same_account(reads[i]->Ok_0, candidate) ==> duplicate(reads, candidate)
            == Ok::<bool, Seq<char>>(true),
    decreases i,
{
    if i > 0 {
        assert(reads[0] is Ok && !same_account(reads[0]->Ok_0, candidate));
        let rest = reads.drop_first();
        assert forall|j: int| 0 <= j < i - 1 implies (#[trigger] rest[j]) is Ok && !same_account(
            rest[j]->Ok_0,
            candidate,
        ) by {
            assert(rest[j] == reads[j + 1]);
        }
        assert(rest[i - 1] == reads[i]);
        law_search(rest, candidate, i - 1);
    }
}

/// The first verdict that does not say no decides, and without one it is no.
pub proof fn law_first_verdict_decides(verdicts: Seq<Result<bool, Seq<char>>>, i: int)
    requires
        0 <= i <= verdicts.len(),
        forall|j: int| 0 <= j < i ==> #[trigger] verdicts[j] == Ok::<bool, Seq<char>>(false),
    ensures
        i < verdicts.len() && verdicts[i] != Ok::<bool, Seq<char>>(false) ==> decided(verdicts)
            == verdicts[i],
        i == verdicts.len() ==> decided(verdicts) == Ok::<bool, Seq<char>>(false),
    decreases i,
{
    if i > 0 {
        assert(verdicts[0] == Ok::<bool, Seq<char>>(false));
        let rest = verdicts.drop_first();
        assert forall|j: int| 0 <= j < i - 1 implies #[trigger] rest[j] == Ok::<bool, Seq<char>>(
            false,
        ) by {
            assert(rest[j] == verdicts[j + 1]);
        }
        if i < verdicts.len() {
            assert(rest[i - 1] == verdicts[i]);
        }
        law_first_verdict_decides(rest, i - 1);
    }
}

/// A new profile has the name that it was given, without the white space
/// around it. Only where that is white space alone it has the name that the
/// authorisation suggests.
pub proof fn law_profile_name(name: Seq<char>, tree: Tree)
    ensures
        (exists|i: int| 0 <= i < name.len() && !white_space(#[trigger] name[i])) ==> profile_name(
            name,
            tree,
        ) == trimmed(name),
        (forall|i: int| 0 <= i < name.len() ==> white_space(#[trigger] name[i])) ==> profile_name(
            name,
            tree,
        ) == name_for(tree, "Codex аккаунт"@),
{
    law_trimmed(name);
    let (from, to) = choose|from: int, to: int|
        0 <= from <= to <= name.len() && #[trigger] name.subrange(from, to) == trimmed(name) && (
        forall|i: int| 0 <= i < from ==> white_space(#[trigger] name[i])) && (forall|i: int|
            to <= i < name.len() ==> white_space(#[trigger] name[i])) && (from < to
            ==> !white_space(name[from]) && !white_space(name[to - 1]));
    assert(name.subrange(from, to).len() == to - from);
    if exists|i: int| 0 <= i < name.len() && !white_space(#[trigger] name[i]) {
        let i = choose|i: int| 0 <= i < name.len() && !white_space(#[trigger] name[i]);
        assert(from <= i < to);
    } else {
        if from < to {
            assert(white_space(name[from]));
        }
    }
}

/// A new account is offered as a profile of its own: where every file can be
/// read and none belongs to it, there is a profile with the UUIDs and the time
/// that were drawn, and its file is to hold the authorisation. Where a file
/// belongs to it, or one cannot be read before that, there is none.
pub proof fn law_offer(
    reads: Seq<Result<Tree, Seq<char>>>,
    name: Seq<char>,
    tree: Tree,
    drawn: Draw,
    result: AppResult<Option<Addition>>,
)
    requires
        offer(reads, name, tree, drawn, result),
    ensures
        (result matches Ok(Some(_))) <==> forall|i: int|
            0 <= i < reads.len() ==> (#[trigger] reads[i]) is Ok && !same_account(
                reads[i]->Ok_0,
                tree,
            ),
        result matches Ok(Some(new)) ==> {
            &&& new.profile.id == drawn.id
            &&& new.profile.name@ == profile_name(name, tree)
            &&& new.profile.file_name@ == uuid_notation(drawn.file_id) + ".json"@
            &&& new.profile.created_at@ == drawn.created_at@
            &&& new.profile.color_name is None
            &&& new.contents@ == pretty_bytes(tree)
        },
        result matches Ok(None) ==> exists|i: int|
            0 <= i < reads.len() && (#[trigger] reads[i]) is Ok && same_account(
                reads[i]->Ok_0,
                tree,
            ),
        result is Err ==> exists|i: int|
            0 <= i < reads.len() && #[trigger] reads[i] == Err::<Tree, Seq<char>>(result->Err_0@),
{
    law_not_saved(reads, tree);
    if result matches Ok(None) {
        lemma_found_is_saved(reads, tree);
    }
    if result is Err {
        lemma_unreadable(reads, tree);
    }
}

/// A search that ends in an error has come to a file that cannot be read.
proof fn lemma_unreadable(reads: Seq<Result<Tree, Seq<char>>>, candidate: Tree)
    requires
        duplicate(reads, candidate) is Err,
    ensures
        exists|i: int|
            0 <= i < reads.len() && #[trigger] reads[i] == Err::<Tree, Seq<char>>(
                duplicate(reads, candidate)->Err_0,
            ),
    decreases reads.len(),
{
    if reads.len() > 0 {
        if reads[0] is Ok {
            let rest = reads.drop_first();
            lemma_unreadable(rest, candidate);
            let k = choose|k: int|
                0 <= k < rest.len() && #[trigger] rest[k] == Err::<Tree, Seq<char>>(
                    duplicate(rest, candidate)->Err_0,
                );
            assert(reads[k + 1] == rest[k]);
        } else {
            assert(reads[0] == Err::<Tree, Seq<char>>(duplicate(reads, candidate)->Err_0));
        }
    }
}

/// Carrying out an answer puts a new profile at the end of the list, and leaves
/// the list as it is where there is none.
pub proof fn law_list_with_addition(
    before: Seq<Profile>,
    new: Addition,
    result: AppResult<Option<Addition>>,
)
    ensures
        with_addition(before, Ok(Some(new))) == before.push(new.profile),
        !(result matches Ok(Some(_))) ==> with_addition(before, result) == before,
{
}

/// What is pasted is added where it is an object, the list can be read, every
/// file can be read, and none belongs to the account: the list is handed out
/// as it is, with the new profile. What is not an object is refused before
/// the list is looked at, and a list that cannot be read before the files. A
/// file that cannot be read is answered with its reason.
pub proof fn law_pasting(
    index: AppResult<Vec<Profile>>,
    reads: Seq<Result<Tree, Seq<char>>>,
    name: Seq<char>,
    read: Result<Tree, Seq<char>>,
    drawn: Draw,
    result: AppResult<(Vec<Profile>, Addition)>,
    k: int,
)
    requires
        pasted(index, reads, name, read, drawn, result),
    ensures
        read is Ok && read->Ok_0 is Object && index is Ok && 0 <= k < reads.len() && (forall|
            j: int,
        |
            0 <= j < k ==> (#[trigger] reads[j]) is Ok && !same_account(
                reads[j]->Ok_0,
                read->Ok_0,
            )) && reads[k] is Err ==> result is Err && result->Err_0@ == reads[k]->Err_0,
        read is Err ==> result is Err && result->Err_0@ == "Некорректный JSON: "@ + read->Err_0,
        read is Ok && !(read->Ok_0 is Object) ==> result is Err && result->Err_0@
            == "auth.json должен содержать JSON-объект"@,
        read is Ok && read->Ok_0 is Object && index is Err ==> result is Err && result->Err_0@
            == index->Err_0@,
        read is Ok && read->Ok_0 is Object && index is Ok && (forall|i: int|
            0 <= i < reads.len() ==> (#[trigger] reads[i]) is Ok && !same_account(
                reads[i]->Ok_0,
                read->Ok_0,
            )) ==> {
            &&& result is Ok
            &&& result->Ok_0.0@ == index->Ok_0@
            &&& result->Ok_0.1.profile.id == drawn.id
            &&& result->Ok_0.1.profile.name@ == profile_name(name, read->Ok_0)
            &&& result->Ok_0.1.profile.file_name@ == uuid_notation(drawn.file_id) + ".json"@
            &&& result->Ok_0.1.profile.created_at@ == drawn.created_at@
            &&& result->Ok_0.1.contents@ == pretty_bytes(read->Ok_0)
        },
        result is Ok ==> forall|i: int|
            0 <= i < reads.len() ==> (#[trigger] reads[i]) is Ok && !same_account(
                reads[i]->Ok_0,
                read->Ok_0,
            ),
{
    if read is Ok {
        law_not_saved(reads, read->Ok_0);
        if 0 <= k < reads.len() && forall|j: int|
            0 <= j < k ==> (#[trigger] reads[j]) is Ok && !same_account(
                reads[j]->Ok_0,
                read->Ok_0,
            ) {
            law_search(reads, read->Ok_0, k);
        }
    }
}

/// The authorisation that Codex uses becomes the first profile where it is an
/// object. What is not one is refused with the reason.
pub proof fn law_first_profile(
    name: Seq<char>,
    read: Result<Tree, Seq<char>>,
    drawn: Draw,
    result: AppResult<Option<Addition>>,
)
    requires
        checked_offer(Seq::empty(), name, read, drawn, result),
    ensures
        read is Err ==> result is Err && result->Err_0@ == "Некорректный JSON: "@ + read->Err_0,
        read is Ok && !(read->Ok_0 is Object) ==> result is Err && result->Err_0@
            == "auth.json должен содержать JSON-объект"@,
        read is Ok && read->Ok_0 is Object ==> (result matches Ok(Some(new)) && new.profile.id
            == drawn.id && new.profile.name@ == profile_name(name, read->Ok_0) && new.contents@
            == pretty_bytes(read->Ok_0)),
{
}

/// The place of a UUID is that of the first profile that has it, and there is
/// none where no profile has it.
pub proof fn law_place(profiles: Seq<Profile>, id: u128, i: int)
    ensures
        place_of(profiles, id) == Some(i) <==> 0 <= i < profiles.len() && profiles[i].id == id
            && forall|j: int| 0 <= j < i ==> (#[trigger] profiles[j]).id != id,
        place_of(profiles, id) is None <==> forall|j: int|
            0 <= j < profiles.len() ==> (#[trigger] profiles[j]).id != id,
{
    lemma_place(profiles, id);
    if 0 <= i < profiles.len() && profiles[i].id == id && forall|j: int|
        0 <= j < i ==> (#[trigger] profiles[j]).id != id {
        lemma_place_is(profiles, id, i);
    }
    if forall|j: int| 0 <= j < profiles.len() ==> (#[trigger] profiles[j]).id != id {
        if let Some(k) = place_of(profiles, id) {
            assert(profiles[k].id != id);
        }
    }
}

/// The first flag that is set is found, and nothing where none is.
pub proof fn law_first_flag(flags: Seq<bool>, i: int)
    ensures
        first_set(flags) == Some(i) <==> 0 <= i < flags.len() && flags[i] && forall|j: int|
            0 <= j < i ==> !#[trigger] flags[j],
        first_set(flags) is None <==> forall|j: int| 0 <= j < flags.len() ==> !#[trigger] flags[j],
{
    lemma_first_set(flags);
    if 0 <= i < flags.len() && flags[i] && forall|j: int| 0 <= j < i ==> !#[trigger] flags[j] {
        if let Some(k) = first_set(flags) {
            if k < i {
                assert(!flags[k]);
            } else if i < k {
                assert(!flags[i]);
            }
        } else {
            assert(!flags[i]);
        }
    }
    if forall|j: int| 0 <= j < flags.len() ==> !#[trigger] flags[j] {
        if let Some(k) = first_set(flags) {
            assert(!flags[k]);
        }
    }
}

/// The profile that is reported belongs to the account that Codex uses: it is
/// the first whose file can be read and belongs to that account. Where there
/// is no such file, or what Codex uses cannot be read, none is reported. Its
/// file, that of the first profile with its UUID, is to be overwritten just
/// where it does not hold the very bytes that Codex uses.
pub proof fn law_profile_in_use(
    current: Seq<u8>,
    profiles: Seq<Profile>,
    files: Seq<Result<Seq<u8>, Seq<char>>>,
    place: int,
)
    requires
        files.len() == profiles.len(),
    ensures
        active(None, profiles, files) is None,
        parsed_bytes(current) is Err ==> active(Some(current), profiles, files) is None,
        parsed_bytes(current) is Ok ==> (active(Some(current), profiles, files) is None <==> forall|
            i: int,
        |
            0 <= i < files.len() ==> !(read_tree(#[trigger] files[i]) is Ok && same_account(
                read_tree(files[i])->Ok_0,
                parsed_bytes(current)->Ok_0,
            ))),
        active(Some(current), profiles, files) is Some ==> exists|i: int|
            0 <= i < files.len() && (#[trigger] profiles[i]).id == (active(
                Some(current),
                profiles,
                files,
            )->0).0 && read_tree(files[i]) is Ok && same_account(
                read_tree(files[i])->Ok_0,
                parsed_bytes(current)->Ok_0,
            ) && forall|j: int|
                0 <= j < i ==> !(read_tree(#[trigger] files[j]) is Ok && same_account(
                    read_tree(files[j])->Ok_0,
                    parsed_bytes(current)->Ok_0,
                )),
        active(Some(current), profiles, files) is Some && 0 <= place < files.len()
            && profiles[place].id == (active(Some(current), profiles, files)->0).0 && (forall|
            j: int,
        |
            0 <= j < place ==> (#[trigger] profiles[j]).id != profiles[place].id) ==> (active(
            Some(current),
            profiles,
            files,
        )->0).1 == if files[place] == Ok::<Seq<u8>, Seq<char>>(current) {
            None
        } else {
            Some(place)
        },
{
    if let Ok(tree) = parsed_bytes(current) {
        let reads = files.map_values(|f: Result<Seq<u8>, Seq<char>>| read_tree(f));
        lemma_first_match(reads, tree);
        assert forall|i: int| 0 <= i < files.len() implies #[trigger] matches_at(reads, tree, i) == (
        read_tree(files[i]) is Ok && same_account(read_tree(files[i])->Ok_0, tree)) by {
            assert(reads[i] == read_tree(files[i]));
        }
        if let Some(i) = first_match(reads, tree) {
            assert(matches_at(reads, tree, i));
            assert(read_tree(files[i]) is Ok);
            assert((active(Some(current), profiles, files)->0).0 == profiles[i].id);
            assert forall|j: int| 0 <= j < i implies !(read_tree(#[trigger] files[j]) is Ok
                && same_account(read_tree(files[j])->Ok_0, tree)) by {
                assert(!matches_at(reads, tree, j));
            }
            if 0 <= place < files.len() && profiles[place].id == profiles[i].id && forall|j: int|
                0 <= j < place ==> (#[trigger] profiles[j]).id != profiles[place].id {
                lemma_place_is(profiles, profiles[place].id, place);
            }
        } else {
            assert forall|i: int| 0 <= i < files.len() implies !(read_tree(
                #[trigger] files[i],
            ) is Ok && same_account(read_tree(files[i])->Ok_0, tree)) by {
                assert(!matches_at(reads, tree, i));
            }
        }
    }
}

/// The model of a profile in use is its UUID and the place to be overwritten.
pub proof fn law_active_view(active: Active)
    ensures
        active_view(None) is None,
        active_view(Some(active)) is Some,
        (active_view(Some(active))->0).0 == active.id,
        active.refresh is None ==> (active_view(Some(active))->0).1 is None,
        active.refresh is Some ==> (active_view(Some(active))->0).1 == Some(
            active.refresh->0 as int,
        ),
{
}

/// A file that is fit is activated: where its bytes are UTF-8 and hold a JSON
/// object, whatever its members, Codex uses just those bytes. Anything else is
/// refused, and the message says why.
pub proof fn law_fit_file_is_activated(bytes: Seq<u8>, message: Seq<char>)
    ensures
        valid_utf8(bytes) && (parsed_text(decode_utf8(bytes)) matches Ok(Tree::Object(_)))
            ==> activated(Ok(bytes)) == Ok::<Seq<u8>, Seq<char>>(bytes),
        !valid_utf8(bytes) ==> activated(Ok(bytes)) == Err::<Seq<u8>, Seq<char>>(
            utf8_error(bytes),
        ),
        valid_utf8(bytes) && parsed_text(decode_utf8(bytes)) is Err ==> activated(Ok(bytes))
            == Err::<Seq<u8>, Seq<char>>(
            "Некорректный JSON: "@ + parsed_text(decode_utf8(bytes))->Err_0,
        ),
        valid_utf8(bytes) && parsed_text(decode_utf8(bytes)) is Ok && !(parsed_text(
            decode_utf8(bytes),
        )->Ok_0 is Object) ==> activated(Ok(bytes)) == Err::<Seq<u8>, Seq<char>>(
            "auth.json должен содержать JSON-объект"@,
        ),
        activated(Err(message)) == Err::<Seq<u8>, Seq<char>>(message),
{
}

/// Deleting takes just one profile out of the list, the first with the UUID.
/// Those before it stay where they are, and those after it move up by one. Its
/// file is kept under a name with its UUID and the time. Where no profile has
/// the UUID, nothing changes.
pub proof fn law_deletion(
    before: Seq<Profile>,
    id: u128,
    timestamp: int,
    after: Seq<Profile>,
    result: AppResult<Removal>,
    i: int,
)
    requires
        deletion(before, id, timestamp, after, result),
    ensures
        0 <= i < before.len() && before[i].id == id && (forall|j: int|
            0 <= j < i ==> (#[trigger] before[j]).id != id) ==> {
            &&& after.len() == before.len() - 1
            &&& forall|j: int| 0 <= j < i ==> #[trigger] after[j] == before[j]
            &&& forall|j: int| i <= j < after.len() ==> #[trigger] after[j] == before[j + 1]
            &&& result is Ok
            &&& result->Ok_0.file_name@ == before[i].file_name@
            &&& result->Ok_0.backup_name@ == "deleted_"@ + uuid_notation(id) + "_"@
                + signed_decimal(timestamp) + ".json"@
        },
        (forall|j: int| 0 <= j < before.len() ==> (#[trigger] before[j]).id != id) ==> after
            == before && result is Err && result->Err_0@ == "Профиль не найден"@,
{
    law_place(before, id, i);
}

} // verus!
