//! Asking Codex for the rate limits of a profile.

use crate::auth::{identity, identity_of, outcome, AppResult};
use crate::clock::{law_notation_tells_uuids_apart, uuid_notation};
use crate::json::{
    canonical, canonical_text, parse, parse_bytes, parsed_bytes, parsed_text, Json, Num, Tree,
};
use crate::paths::{Paths, Place};
use crate::profiles::{find_profile, place_of, same_account, same_bytes, Profile};
use crate::text::{glue, texts};
use vstd::prelude::*;

verus! {

/// How long Codex has to settle after the first message, in milliseconds.
pub const PAUSE_MILLISECONDS: u64 = 300;

/// How long the answer of Codex is waited for, in seconds.
pub const ANSWER_SECONDS: u64 = 8;

/// A command to run: a program, where it is not the binary itself, and its
/// arguments.
#[derive(Debug, PartialEq, Eq)]
pub struct CommandLine {
    pub program: Option<String>,
    pub args: Vec<String>,
}

/// The command that starts Codex as a server on its standard streams. On
/// Windows the binary is a script that `cmd` runs.
pub fn probe_command(windows: bool, binary: &str) -> (command: CommandLine)
    ensures
        if windows {
            &&& command.program is Some && command.program->0@ == "cmd"@
            &&& texts(command.args@) == seq![
                "/C"@,
                binary@,
                "app-server"@,
                "--stdio"@,
            ]
        } else {
            &&& command.program is None
            &&& texts(command.args@) == seq!["app-server"@, "--stdio"@]
        },
{
    let mut args: Vec<String> = Vec::new();
    if windows {
        args.push("/C".to_owned());
        args.push(binary.to_owned());
    }
    args.push("app-server".to_owned());
    args.push("--stdio".to_owned());
    let program = if windows {
        Some("cmd".to_owned())
    } else {
        None
    };
    CommandLine { program, args }
}

/// The first message to Codex, which introduces the client.
pub fn hello_message() -> (text: String)
    ensures
        text@
            == "{\"id\":1,\"method\":\"initialize\",\"params\":{\"clientInfo\":{\"name\":\"codex-account-switcher\",\"version\":\"2.0\"}}}\n"@,
{
    "{\"id\":1,\"method\":\"initialize\",\"params\":{\"clientInfo\":{\"name\":\"codex-account-switcher\",\"version\":\"2.0\"}}}\n".to_owned()
}

/// The messages that follow, which ask for the rate limits.
pub fn limits_message() -> (text: String)
    ensures
        text@
            == "{\"method\":\"initialized\"}\n{\"id\":2,\"method\":\"account/rateLimits/read\",\"params\":null}\n"@,
{
    "{\"method\":\"initialized\"}\n{\"id\":2,\"method\":\"account/rateLimits/read\",\"params\":null}\n".to_owned()
}

/// Whether a value is the answer to the question for the rate limits.
pub open spec fn is_answer(tree: Tree) -> bool {
    match tree.get("id"@) {
        Some(id) => id.signed() == Some(2i64),
        None => false,
    }
}

/// The answer to the question for the rate limits, where what reading a line
/// gave is that answer.
pub fn answer_in(read: AppResult<Json>) -> (answer: Option<Json>)
    ensures
        match read {
            Ok(value) => if is_answer(value@) {
                answer == Some(value)
            } else {
                answer is None
            },
            Err(_) => answer is None,
        },
{
    match read {
        Ok(value) => {
            let id = match value.get("id") {
                Some(id) => id.as_i64(),
                None => None,
            };
            match id {
                Some(n) => if n == 2 {
                    Some(value)
                } else {
                    None
                },
                None => None,
            }
        },
        Err(_) => None,
    }
}

/// The answer to the question for the rate limits, where a line that Codex
/// wrote is that answer. Lines that are not JSON are passed over.
pub fn probe_answer(line: &str) -> (answer: Option<Json>)
    ensures
        match parsed_text(line@) {
            Ok(tree) => if is_answer(tree) {
                answer is Some && answer->0@ == tree && tree.ordered()
            } else {
                answer is None
            },
            Err(_) => answer is None,
        },
{
    answer_in(parse(line))
}

/// The rate limits in an answer, or the message that says why there are none.
pub open spec fn limits_in(answer: Option<Tree>) -> Result<Tree, Seq<char>> {
    match answer {
        None => Err("Codex не вернул лимиты за 8 секунд"@),
        Some(tree) => match tree.get("error"@) {
            Some(error) => Err("Codex отклонил профиль: "@ + canonical_text(error)),
            None => match tree.at("result"@, "rateLimits"@) {
                Some(limits) => Ok(limits),
                None => Err("В ответе Codex нет rateLimits"@),
            },
        },
    }
}

/// The rate limits in an answer, where one came in time.
pub fn rate_limits(answer: &Option<Json>) -> (result: AppResult<Json>)
    requires
        answer matches Some(value) ==> value@.ordered(),
    ensures
        outcome(result) == limits_in(
            match *answer {
                Some(value) => Some(value@),
                None => None,
            },
        ),
        result matches Ok(limits) ==> limits@.ordered(),
{
    let value = match answer {
        Some(value) => value,
        None => return Err("Codex не вернул лимиты за 8 секунд".to_owned()),
    };
    if let Some(error) = value.get("error") {
        return Err(glue("Codex отклонил профиль: ", canonical(error).as_str()));
    }
    match value.at("result", "rateLimits") {
        Some(limits) => Ok(limits.clone()),
        None => Err("В ответе Codex нет rateLimits".to_owned()),
    }
}

/// The identity in the bytes of an authorisation, where they hold one.
pub open spec fn identity_in(read: Result<Tree, Seq<char>>) -> Option<Seq<char>> {
    match read {
        Ok(tree) => identity_of(tree),
        Err(_) => None,
    }
}

/// Whether what Codex left behind replaces the file of a profile: it differs,
/// and it belongs to the same account.
pub open spec fn replaces(stored: Seq<u8>, left: Option<Seq<u8>>) -> bool {
    match left {
        Some(bytes) => {
            &&& bytes != stored
            &&& identity_in(parsed_bytes(stored)) is Some
            &&& identity_in(parsed_bytes(bytes)) == identity_in(parsed_bytes(stored))
        },
        None => false,
    }
}

/// The identity in what reading an authorisation gave.
pub fn identity_read(read: AppResult<Json>) -> (id: Option<String>)
    ensures
        id is Some <==> identity_in(outcome(read)) is Some,
        id matches Some(s) ==> identity_in(outcome(read)) == Some(s@),
{
    match read {
        Ok(value) => identity(&value),
        Err(_) => None,
    }
}

/// Whether what Codex left behind replaces the file of a profile, by the
/// identities in the two.
pub fn takes_over(
    stored: &Vec<u8>,
    stored_id: &Option<String>,
    left: &Vec<u8>,
    left_id: &Option<String>,
) -> (yes: bool)
    ensures
        yes == (left@ != stored@ && stored_id is Some && left_id is Some && stored_id->0@
            == left_id->0@),
{
    match (stored_id, left_id) {
        (Some(a), Some(b)) => a.eq(b) && !same_bytes(left, stored),
        _ => false,
    }
}

/// Whether what Codex left behind replaces the file of a profile. Codex may
/// have rotated the tokens while it answered. What it left is taken over only
/// where it still belongs to the same account.
pub fn refreshed_auth(stored: &Vec<u8>, left: &Option<Vec<u8>>) -> (yes: bool)
    ensures
        yes == replaces(
            stored@,
            match *left {
                Some(bytes) => Some(bytes@),
                None => None,
            },
        ),
{
    let bytes = match left {
        Some(bytes) => bytes,
        None => return false,
    };
    takes_over(
        stored,
        &identity_read(parse_bytes(stored.as_slice())),
        bytes,
        &identity_read(parse_bytes(bytes.as_slice())),
    )
}

/// A probe never turns the file of a profile into that of another account:
/// what replaces it has the same identity.
pub proof fn law_probe_keeps_the_account(stored: Seq<u8>, left: Seq<u8>)
    requires
        replaces(stored, Some(left)),
    ensures
        parsed_bytes(stored) is Ok,
        parsed_bytes(left) is Ok,
        identity_of(parsed_bytes(left)->Ok_0) == identity_of(parsed_bytes(stored)->Ok_0),
        same_account(parsed_bytes(stored)->Ok_0, parsed_bytes(left)->Ok_0),
{
}

/// What a probe brings: the rate limits, and whether what Codex left behind
/// replaces the file of the profile.
#[derive(Debug, PartialEq)]
pub struct ProbeOutcome {
    pub limits: Json,
    pub replace: bool,
}

/// What a probe brings. `answer` is the answer of Codex, where one came in
/// time, `stored` the authorisation that it was asked with, and `left` what
/// it left behind. That is taken over only after a good answer.
pub fn finish_probe(
    answer: &Option<Json>,
    stored: &Vec<u8>,
    left: &Option<Vec<u8>>,
) -> (result: AppResult<ProbeOutcome>)
    requires
        answer matches Some(value) ==> value@.ordered(),
    ensures
        match limits_in(
            match *answer {
                Some(value) => Some(value@),
                None => None,
            },
        ) {
            Ok(limits) => result matches Ok(probe) && probe.limits@ == limits
                && probe.limits@.ordered() && probe.replace == replaces(
                stored@,
                match *left {
                    Some(bytes) => Some(bytes@),
                    None => None,
                },
            ),
            Err(message) => result is Err && result->Err_0@ == message,
        },
{
    match rate_limits(answer) {
        Ok(limits) => Ok(ProbeOutcome { limits, replace: refreshed_auth(stored, left) }),
        Err(message) => Err(message),
    }
}

/// The places that a probe uses.
#[derive(Debug, PartialEq, Eq)]
pub struct ProbePlaces {
    /// The file of the profile.
    pub profile: Place,
    /// The home of Codex while it is asked.
    pub home: Place,
    /// The authorisation in that home.
    pub auth: Place,
    /// The configuration of Codex, which is copied where there is one.
    pub config: Place,
    /// The configuration in that home.
    pub config_copy: Place,
}

/// Whether these are the places for the profile with the given UUID and file.
pub open spec fn are_probe_places(
    places: ProbePlaces,
    paths: Paths,
    id: u128,
    file_name: Seq<char>,
) -> bool {
    &&& places.profile@ == paths.profiles@.push(file_name)
    &&& places.home@ == paths.probes@.push(uuid_notation(id))
    &&& places.auth@ == places.home@.push("auth.json"@)
    &&& places.config@ == paths.codex_dir@.push("config.toml"@)
    &&& places.config_copy@ == places.home@.push("config.toml"@)
}

/// The places that a probe of the profile with the given UUID uses.
pub fn probe_places(paths: &Paths, profiles: &Vec<Profile>, profile_id: u128) -> (result: AppResult<
    ProbePlaces,
>)
    ensures
        match place_of(profiles@, profile_id) {
            Some(i) => result matches Ok(places) && are_probe_places(
                places,
                *paths,
                profile_id,
                profiles@[i].file_name@,
            ),
            None => result is Err && result->Err_0@ == "Профиль не найден"@,
        },
{
    let place = match find_profile(profiles, profile_id) {
        Ok(place) => place,
        Err(message) => return Err(message),
    };
    let home = paths.probe_home(profile_id);
    Ok(
        ProbePlaces {
            profile: paths.profiles.join(profiles[place].file_name.as_str()),
            auth: home.join("auth.json"),
            config: paths.codex_dir.join("config.toml"),
            config_copy: home.join("config.toml"),
            home,
        },
    )
}

/// A probe never writes where Codex keeps the authorisation that it uses: its
/// home lies in a directory of its own.
pub proof fn law_probe_leaves_codex_alone(
    paths: Paths,
    places: ProbePlaces,
    id: u128,
    file_name: Seq<char>,
)
    requires
        paths.laid_out(),
        are_probe_places(places, paths, id, file_name),
    ensures
        places.auth@ != paths.auth@,
        places.config_copy@ != places.config@,
{
    assert(places.auth@.len() == 5);
    assert(places.config_copy@.len() == 5);
    assert(places.config@.len() == 2);
}

/// Probes of different profiles have different homes.
pub proof fn law_probes_have_homes_of_their_own(
    paths: Paths,
    one: ProbePlaces,
    one_id: u128,
    one_file: Seq<char>,
    other: ProbePlaces,
    other_id: u128,
    other_file: Seq<char>,
)
    requires
        are_probe_places(one, paths, one_id, one_file),
        are_probe_places(other, paths, other_id, other_file),
        one_id != other_id,
    ensures
        one.home@ != other.home@,
{
    law_notation_tells_uuids_apart(one_id, other_id);
    assert(one.home@.last() == uuid_notation(one_id));
    assert(other.home@.last() == uuid_notation(other_id));
}

/// The answer is the one with the number of the question, whatever else it
/// holds.
pub proof fn law_answer(tree: Tree)
    ensures
        tree.get("id"@) == Some(Tree::Number(Num::Unsigned(2))) ==> is_answer(tree),
        is_answer(tree) ==> (tree.get("id"@) matches Some(Tree::Number(id)) && (id
            == Num::Unsigned(2) || id == Num::Negative(2))),
{
}

/// The limits that are handed out are the whole member of the result, whatever
/// it holds. An answer with an error is refused with that error whole, also
/// where it has limits. Without either, and without an answer, the message
/// says so.
pub proof fn law_limits_are_whole(tree: Tree, limits: Tree, error: Tree)
    ensures
        tree.get("error"@) is None && tree.at("result"@, "rateLimits"@) == Some(limits)
            ==> limits_in(Some(tree)) == Ok::<Tree, Seq<char>>(limits),
        tree.get("error"@) is None && tree.at("result"@, "rateLimits"@) is None ==> limits_in(
            Some(tree),
        ) == Err::<Tree, Seq<char>>("В ответе Codex нет rateLimits"@),
        tree.get("error"@) == Some(error) ==> limits_in(Some(tree)) == Err::<Tree, Seq<char>>(
            "Codex отклонил профиль: "@ + canonical_text(error),
        ),
        limits_in(None) == Err::<Tree, Seq<char>>("Codex не вернул лимиты за 8 секунд"@),
{
}

/// What Codex left behind is taken over just where it differs from the file of
/// the profile, both can be read, and both have the same identity.
pub proof fn law_taken_over(stored: Seq<u8>, left: Seq<u8>)
    ensures
        replaces(stored, Some(left)) <==> {
            &&& left != stored
            &&& parsed_bytes(stored) is Ok
            &&& parsed_bytes(left) is Ok
            &&& identity_of(parsed_bytes(stored)->Ok_0) is Some
            &&& identity_of(parsed_bytes(left)->Ok_0) == identity_of(parsed_bytes(stored)->Ok_0)
        },
        !replaces(stored, None),
        identity_in(parsed_bytes(stored)) == if parsed_bytes(stored) is Ok {
            identity_of(parsed_bytes(stored)->Ok_0)
        } else {
            None
        },
{
}

/// A probe reads the file of its profile, and has its own home with an
/// authorisation and a copy of the configuration in it.
pub proof fn law_probe_places(
    places: ProbePlaces,
    paths: Paths,
    id: u128,
    file_name: Seq<char>,
)
    requires
        are_probe_places(places, paths, id, file_name),
    ensures
        places.profile@ == paths.profiles@.push(file_name),
        places.home@ == paths.probes@.push(uuid_notation(id)),
        places.auth@ == paths.probes@.push(uuid_notation(id)).push("auth.json"@),
        places.config@ == paths.codex_dir@.push("config.toml"@),
        places.config_copy@ == paths.probes@.push(uuid_notation(id)).push("config.toml"@),
{
}

} // verus!
