//! The KeyCrop service: requests and their answers, the session, and the
//! import of purchased accounts.

use crate::auth::{
    all_ordered, all_shallow, auth_key, auth_trees, collect_auth_values, fresh, identity_of,
    law_doubles_do_not_change_identity, lemma_known, law_each_account_once,
    lemma_fresh_is_seen, lemma_seen, name_for, seen_after, suggested_name, AppResult,
    KeySet,
};
use crate::json::{
    canonical_text, lemma_tree_parts, parsed_bytes, parsed_text, pretty_bytes, text_reads_back, trees,
    Json, Num, READING_DEPTH, Tree,
};
use crate::profiles::{
    add_value_with, compared, draw, duplicate, law_not_saved,
    law_saved_account_is_not_added, lemma_found_is_saved, offer, profile_name, read_tree, read_trees, reads_back,
    same_account, with_addition, Addition, Draw, Profile,
};
use crate::text::{chars_of, decimal, decimal_text, error_string, glue, stands_at};
use vstd::prelude::*;
use vstd::utf8::encode_utf8;

verus! {

/// Whether KeyCrop knows the user, and who it is.
#[derive(Debug, PartialEq)]
pub struct KeyCropStatus {
    pub connected: bool,
    pub user: Option<Json>,
}

/// What an import of purchased accounts did.
#[derive(Clone, Copy, Debug, PartialEq, Eq)]
pub struct KeyCropSyncResult {
    pub purchases_seen: usize,
    pub accounts_found: usize,
    pub imported: usize,
    pub duplicates: usize,
}

/// The session cookie that was saved, where there is one.
pub fn saved_cookie(stored: Option<String>) -> (result: AppResult<String>)
    ensures
        match stored {
            Some(cookie) => result == Ok::<String, String>(cookie),
            None => result is Err && result->Err_0@ == "Сессия KeyCrop ещё не сохранена"@,
        },
{
    match stored {
        Some(cookie) => Ok(cookie),
        None => Err("Сессия KeyCrop ещё не сохранена".to_owned()),
    }
}

/// An error of `reqwest::header::HeaderValue::from_str`, carried as it is.
#[verifier::external_type_specification]
#[verifier::external_body]
pub struct ExInvalidHeaderValue(reqwest::header::InvalidHeaderValue);

/// Whether a character may stand in the value of a header: none that
/// controls, except the tab.
pub open spec fn header_char(c: char) -> bool {
    (c as u32) >= 32 && (c as u32) != 127 || c == '\t'
}

/// Whether a text may be the value of a header.
pub open spec fn fits_header(text: Seq<char>) -> bool {
    forall|i: int| 0 <= i < text.len() ==> header_char(#[trigger] text[i])
}

/// `HeaderValue::from_str` and `HeaderValue::as_bytes`: the bytes of the
/// text, or an error where a character may not stand in a header.
#[verifier::external_body]
fn header_bytes(text: &str) -> (result: Result<Vec<u8>, reqwest::header::InvalidHeaderValue>)
    ensures
        match result {
            Ok(bytes) => fits_header(text@) && bytes@ == encode_utf8(text@),
            Err(error) => !fits_header(text@) && forall|s: String|
                vstd::string::to_string_from_display_ensures(&error, s) ==> #[trigger] s@
                    == "failed to parse header value"@,
        },
{
    reqwest::header::HeaderValue::from_str(text).map(|value| value.as_bytes().to_vec())
}

/// A header that is sent with every request.
#[derive(Debug, PartialEq, Eq)]
pub struct Header {
    pub name: String,
    pub value: Vec<u8>,
    /// Whether the value is kept out of what is logged.
    pub sensitive: bool,
}

/// Whether a header has the given name and value and is not sensitive.
pub open spec fn is_header(header: Header, name: Seq<char>, value: Seq<char>) -> bool {
    header.name@ == name && header.value@ == encode_utf8(value) && !header.sensitive
}

/// Whether these are the headers for a session cookie.
pub open spec fn are_headers(headers: Seq<Header>, cookie: Seq<char>) -> bool {
    &&& headers.len() == 3
    &&& headers[0].name@ == "cookie"@
    &&& headers[0].value@ == encode_utf8(cookie)
    &&& headers[0].sensitive
    &&& is_header(headers[1], "accept"@, "application/json"@)
    &&& is_header(headers[2], "user-agent"@, "CodexAccountSwitcher/2.0"@)
}

/// The bytes of a text.
fn bytes_of(text: &str) -> (bytes: Vec<u8>)
    ensures
        bytes@ == encode_utf8(text@),
{
    let slice = text.as_bytes();
    let mut bytes: Vec<u8> = Vec::new();
    let mut i: usize = 0;
    while i < slice.len()
        invariant
            i <= slice@.len(),
            bytes@ == slice@.take(i as int),
        decreases slice@.len() - i,
    {
        bytes.push(slice[i]);
        assert(slice@.take(i + 1) == slice@.take(i as int).push(slice@[i as int]));
        i = i + 1;
    }
    assert(slice@.take(i as int) == slice@);
    bytes
}

/// How requests to KeyCrop are made.
#[derive(Debug, PartialEq, Eq)]
pub struct ClientSettings {
    /// The headers that are sent with every request.
    pub headers: Vec<Header>,
    /// Whether an answer that points elsewhere is followed there.
    pub follow_redirects: bool,
}

/// How requests are made with a session cookie. The headers are the cookie,
/// which is sensitive, the kind of answer that is asked for, and the name of
/// the application. Redirects are not followed, so that the cookie goes to
/// KeyCrop alone.
pub fn keycrop_client(cookie: &str) -> (result: AppResult<ClientSettings>)
    ensures
        match result {
            Ok(client) => fits_header(cookie@) && are_headers(client.headers@, cookie@)
                && !client.follow_redirects,
            Err(message) => !fits_header(cookie@) && message@ == "failed to parse header value"@,
        },
{
    let value = match header_bytes(cookie) {
        Ok(value) => value,
        Err(error) => return Err(error_string(error)),
    };
    let mut headers: Vec<Header> = Vec::new();
    headers.push(Header { name: "cookie".to_owned(), value, sensitive: true });
    headers.push(
        Header {
            name: "accept".to_owned(),
            value: bytes_of("application/json"),
            sensitive: false,
        },
    );
    headers.push(
        Header {
            name: "user-agent".to_owned(),
            value: bytes_of("CodexAccountSwitcher/2.0"),
            sensitive: false,
        },
    );
    Ok(ClientSettings { headers, follow_redirects: false })
}

/// The address of a request to KeyCrop.
pub fn request_url(path: &str) -> (result: AppResult<String>)
    ensures
        if path@.len() > 0 && path@[0] == '/' {
            result matches Ok(url) && url@ == "https://keycrop.net"@ + path@
        } else {
            result is Err && result->Err_0@ == "Некорректный путь KeyCrop API"@
        },
{
    let chars = chars_of(path);
    if chars.len() > 0 && chars[0] == '/' {
        Ok(glue("https://keycrop.net", path))
    } else {
        Err("Некорректный путь KeyCrop API".to_owned())
    }
}

/// A request to KeyCrop.
#[derive(Debug, PartialEq, Eq)]
pub struct Request {
    pub url: String,
    pub client: ClientSettings,
}

/// The request for a path with a session cookie. The path is looked at first.
pub fn request_keycrop(cookie: &str, path: &str) -> (result: AppResult<Request>)
    ensures
        if path@.len() == 0 || path@[0] != '/' {
            result is Err && result->Err_0@ == "Некорректный путь KeyCrop API"@
        } else if !fits_header(cookie@) {
            result is Err && result->Err_0@ == "failed to parse header value"@
        } else {
            result matches Ok(request) && request.url@ == "https://keycrop.net"@ + path@
                && are_headers(request.client.headers@, cookie@)
                && !request.client.follow_redirects
        },
{
    match request_url(path) {
        Ok(url) => match keycrop_client(cookie) {
            Ok(client) => Ok(Request { url, client }),
            Err(message) => Err(message),
        },
        Err(message) => Err(message),
    }
}

/// The name of the text that the `Display` of `reqwest::StatusCode` writes for
/// a status.
pub uninterp spec fn status_text(code: u16) -> Seq<char>;

/// `reqwest::StatusCode::from_u16`, which takes every number of three digits,
/// and the `Display` of `reqwest::StatusCode`. Its result is named. It starts
/// with the number and a space.
#[verifier::external_body]
fn status_line(code: u16) -> (text: String)
    requires
        100 <= code < 1000,
    ensures
        text@ == status_text(code),
        stands_at(text@, 0, decimal(code as nat).push(' ')),
{
    match reqwest::StatusCode::from_u16(code) {
        Ok(status) => status.to_string(),
        Err(error) => error.to_string(),
    }
}

/// What the status of an answer means: nothing where it is a success, else a
/// message.
pub open spec fn refusal(code: u16) -> Option<Seq<char>> {
    if code == 401 || code == 403 {
        Some("Cookie KeyCrop истекла или недействительна"@)
    } else if 200 <= code < 300 {
        None
    } else {
        Some("KeyCrop ответил HTTP "@ + status_text(code))
    }
}

/// Judges an answer by its status. `line` is the status as it is shown.
pub fn judge_status(code: u16, line: &str) -> (result: AppResult<()>)
    ensures
        if code == 401 || code == 403 {
            result is Err && result->Err_0@ == "Cookie KeyCrop истекла или недействительна"@
        } else if 200 <= code < 300 {
            result is Ok
        } else {
            result is Err && result->Err_0@ == "KeyCrop ответил HTTP "@ + line@
        },
{
    if code == 401 || code == 403 {
        Err("Cookie KeyCrop истекла или недействительна".to_owned())
    } else if 200 <= code && code < 300 {
        Ok(())
    } else {
        Err(glue("KeyCrop ответил HTTP ", line))
    }
}

/// Judges an answer by its status.
pub fn accept_status(code: u16) -> (result: AppResult<()>)
    requires
        100 <= code < 1000,
    ensures
        match refusal(code) {
            None => result is Ok,
            Some(message) => result is Err && result->Err_0@ == message,
        },
{
    judge_status(code, status_line(code).as_str())
}

/// The value in the body of an answer. `body` is the value, or the reason why
/// there is none.
pub fn reply_value(body: AppResult<Json>) -> (result: AppResult<Json>)
    ensures
        match body {
            Ok(value) => result == Ok::<Json, String>(value),
            Err(reason) => result is Err && result->Err_0@ == "KeyCrop вернул не JSON: "@ + reason@,
        },
{
    match body {
        Ok(value) => Ok(value),
        Err(reason) => Err(glue("KeyCrop вернул не JSON: ", reason.as_str())),
    }
}

/// The user that an answer to the question for the user names: its member
/// `user`, or the whole answer where it is an object without that member.
pub open spec fn user_in(tree: Tree) -> Option<Tree> {
    let user = match tree.get("user"@) {
        Some(user) => Some(user),
        None => if tree is Object {
            Some(tree)
        } else {
            None
        },
    };
    match user {
        Some(Tree::Null) => None,
        _ => user,
    }
}

/// The status that an answer to the question for the user means.
pub fn status_from_me(value: Json) -> (result: AppResult<KeyCropStatus>)
    ensures
        match user_in(value@) {
            Some(user) => result matches Ok(status) && status.connected && status.user is Some
                && status.user->0@ == user && (value@.ordered() ==> user.ordered()),
            None => result is Err && result->Err_0@ == "KeyCrop не подтвердил авторизацию"@,
        },
{
    let user = match value.get("user") {
        Some(user) => Some(user.clone()),
        None => if value.is_object() {
            Some(value.clone())
        } else {
            None
        },
    };
    match user {
        Some(user) => if user.is_null() {
            Err("KeyCrop не подтвердил авторизацию".to_owned())
        } else {
            Ok(KeyCropStatus { connected: true, user: Some(user) })
        },
        None => Err("KeyCrop не подтвердил авторизацию".to_owned()),
    }
}

/// What connecting to KeyCrop answers. `cookie` is the session cookie that the
/// user gave, and `answer` what KeyCrop answered to the question for the user
/// with it. The cookie is handed out to be saved only where KeyCrop knows the
/// user.
pub fn keycrop_connect(cookie: String, answer: AppResult<Json>) -> (result: AppResult<
    (String, KeyCropStatus),
>)
    ensures
        match answer {
            Ok(value) => match user_in(value@) {
                Some(user) => result matches Ok(session) && session.0 == cookie
                    && session.1.connected && session.1.user is Some && session.1.user->0@ == user
                    && (value@.ordered() ==> user.ordered()),
                None => result is Err && result->Err_0@ == "KeyCrop не подтвердил авторизацию"@,
            },
            Err(message) => result is Err && result->Err_0@ == message@,
        },
{
    match answer {
        Ok(value) => match status_from_me(value) {
            Ok(status) => Ok((cookie, status)),
            Err(message) => Err(message),
        },
        Err(message) => Err(message),
    }
}

/// The status of the saved session. `answer` is what KeyCrop answered to the
/// question for the user, where a session is saved. Whatever fails means that
/// there is no connection.
pub fn keycrop_status(answer: Option<AppResult<Json>>) -> (status: KeyCropStatus)
    ensures
        match answer {
            Some(Ok(value)) => match user_in(value@) {
                Some(user) => status.connected && status.user is Some && status.user->0@ == user
                    && (value@.ordered() ==> user.ordered()),
                None => !status.connected && status.user is None,
            },
            _ => !status.connected && status.user is None,
        },
{
    match answer {
        Some(Ok(value)) => match status_from_me(value) {
            Ok(status) => status,
            Err(_) => KeyCropStatus { connected: false, user: None },
        },
        _ => KeyCropStatus { connected: false, user: None },
    }
}

/// The number of purchases on a page.
pub open spec fn purchases_on(page: Tree) -> nat {
    match page.get("purchases"@) {
        Some(Tree::List(items)) => items.len(),
        _ => 0,
    }
}

/// The number of purchases on a page.
pub fn count_purchases(page: &Json) -> (n: usize)
    ensures
        n == purchases_on(page@),
{
    match page.get("purchases") {
        Some(list) => {
            proof {
                lemma_tree_parts(*list);
            }
            match list {
                Json::List(items) => items.len(),
                _ => 0,
            }
        },
        None => 0,
    }
}

/// The most pages that an import asks for.
pub const MOST_PAGES: u32 = 10_000;

/// The number of pages that a page announces, from 1 up to `MOST_PAGES`.
pub open spec fn pages_in(page: Tree) -> int {
    let announced = match page.at("pagination"@, "pages"@) {
        Some(place) => place.unsigned(),
        None => None,
    };
    match announced {
        Some(n) => if n < 1 {
            1
        } else if n > MOST_PAGES {
            MOST_PAGES as int
        } else {
            n as int
        },
        None => 1,
    }
}

/// The number of pages that a page announces, from 1 up to `MOST_PAGES`.
pub fn announced_pages(page: &Json) -> (n: u32)
    ensures
        n == pages_in(page@),
        1 <= n <= MOST_PAGES,
{
    let announced = match page.at("pagination", "pages") {
        Some(place) => place.as_u64(),
        None => None,
    };
    match announced {
        Some(n) => if n < 1 {
            1
        } else if n > MOST_PAGES as u64 {
            MOST_PAGES
        } else {
            n as u32
        },
        None => 1,
    }
}

/// An import of purchased accounts under way. First all pages are read, then
/// the accounts on them are added one by one.
pub struct SyncRun {
    /// The page that is read next.
    pub page: u32,
    /// The number of pages that was announced last.
    pub total_pages: u32,
    pub purchases_seen: usize,
    /// The accounts found so far.
    pub candidates: Vec<Json>,
    /// The keys of the accounts found so far.
    pub seen: KeySet,
    /// The account that is added next.
    pub next: usize,
    /// How many accounts were added.
    pub imported: usize,
}

/// Whether the keys of the accounts are known and no two of them are equal.
pub open spec fn told_apart(found: Seq<Tree>, seen: Set<Seq<char>>) -> bool {
    &&& forall|i: int| 0 <= i < found.len() ==> seen.contains(auth_key(#[trigger] found[i]))
    &&& forall|i: int, j: int|
        0 <= i < j < found.len() ==> auth_key(#[trigger] found[i]) != auth_key(
            #[trigger] found[j],
        )
}

/// Accounts stay told apart when those of one more page are gathered.
proof fn lemma_told_apart(found: Seq<Tree>, seen: Set<Seq<char>>, list: Seq<Tree>)
    requires
        told_apart(found, seen),
    ensures
        told_apart(found + fresh(list, seen), seen_after(list, seen)),
{
    lemma_seen(list, seen);
    lemma_fresh_is_seen(list, seen);
    law_each_account_once(list, seen);
    let new = fresh(list, seen);
    let all = found + new;
    assert forall|i: int| 0 <= i < all.len() implies seen_after(list, seen).contains(
        auth_key(#[trigger] all[i]),
    ) by {
        if i < found.len() {
            assert(all[i] == found[i]);
        } else {
            assert(all[i] == new[i - found.len()]);
        }
    }
    assert forall|i: int, j: int| 0 <= i < j < all.len() implies auth_key(#[trigger] all[i])
        != auth_key(#[trigger] all[j]) by {
        if i < found.len() {
            assert(all[i] == found[i]);
        } else {
            assert(all[i] == new[i - found.len()]);
        }
        if j < found.len() {
            assert(all[j] == found[j]);
        } else {
            assert(all[j] == new[j - found.len()]);
        }
    }
}

/// The path of the request for a page.
pub open spec fn page_path(page: int) -> Seq<char> {
    "/api/account/purchases?page="@ + decimal(page as nat) + "&limit=8"@
}

impl SyncRun {
    /// What holds of an import at any time.
    pub open spec fn wf(self) -> bool {
        &&& 1 <= self.page <= MOST_PAGES + 1
        &&& 1 <= self.total_pages <= MOST_PAGES
        &&& all_ordered(self.candidates@)
        &&& told_apart(trees(self.candidates@), self.seen@)
        &&& self.imported <= self.next <= self.candidates@.len()
        &&& self.page <= self.total_pages ==> self.next == 0
    }

    /// Whether the import is before its first page.
    pub open spec fn is_start(self) -> bool {
        &&& self.wf()
        &&& self.page == 1
        &&& self.total_pages == 1
        &&& self.purchases_seen == 0
        &&& self.candidates@ == Seq::<Json>::empty()
        &&& self.seen@ == Set::<Seq<char>>::empty()
        &&& self.next == 0
        &&& self.imported == 0
    }

    /// Whether all pages have been read.
    pub open spec fn all_read(self) -> bool {
        self.page > self.total_pages
    }

    /// How taking in a page turns an import into `after`: the accounts on it
    /// that are new are added to those found so far.
    pub open spec fn page_step(self, page: Tree, after: SyncRun) -> bool {
        &&& after.wf()
        &&& after.page == self.page + 1
        &&& after.total_pages == pages_in(page)
        &&& after.purchases_seen == self.purchases_seen + purchases_on(page)
        &&& trees(after.candidates@) == trees(self.candidates@) + fresh(auth_trees(page), self.seen@)
        &&& after.seen@ == seen_after(auth_trees(page), self.seen@)
        &&& after.next == self.next
        &&& after.imported == self.imported
        &&& page.shallow(READING_DEPTH as nat) && all_shallow(self.candidates@) ==> all_shallow(
            after.candidates@,
        )
    }

    /// An import before the first page.
    pub fn start() -> (run: SyncRun)
        ensures
            run.is_start(),
    {
        SyncRun {
            page: 1,
            total_pages: 1,
            purchases_seen: 0,
            candidates: Vec::new(),
            seen: KeySet::new(),
            next: 0,
            imported: 0,
        }
    }

    /// The path of the request for the next page, while there are more.
    pub fn next_request(&self) -> (path: Option<String>)
        ensures
            path is Some <==> !self.all_read(),
            path matches Some(text) ==> text@ == page_path(self.page as int),
    {
        if self.page <= self.total_pages {
            let path = glue(
                "/api/account/purchases?page=",
                decimal_text(self.page as u64).as_str(),
            );
            Some(glue(path.as_str(), "&limit=8"))
        } else {
            None
        }
    }

    /// Takes in the answer to the request for the next page.
    pub fn take_page(&mut self, payload: &Json)
        requires
            old(self).wf(),
            !old(self).all_read(),
            payload@.ordered(),
            old(self).purchases_seen + purchases_on(payload@) <= usize::MAX,
        ensures
            old(self).page_step(payload@, *final(self)),
    {
        self.purchases_seen = self.purchases_seen + count_purchases(payload);
        self.total_pages = announced_pages(payload);
        let ghost before = trees(self.candidates@);
        proof {
            lemma_told_apart(before, self.seen@, auth_trees(payload@));
        }
        collect_auth_values(payload, &mut self.candidates, &mut self.seen);
        assert(trees(self.candidates@).len() == self.candidates@.len());
        assert(before.len() <= trees(self.candidates@).len());
        self.page = self.page + 1;
    }

    /// Takes in what came of the request for the next page. Where it failed,
    /// the import ends with its message, and nothing has been added.
    pub fn take_reply(&mut self, reply: AppResult<Json>) -> (result: AppResult<()>)
        requires
            old(self).wf(),
            !old(self).all_read(),
            reply matches Ok(payload) ==> payload@.ordered() && old(self).purchases_seen
                + purchases_on(payload@) <= usize::MAX,
        ensures
            match reply {
                Ok(payload) => result is Ok && old(self).page_step(payload@, *final(self)),
                Err(message) => result is Err && result->Err_0@ == message@ && *final(self)
                    == *old(self),
            },
    {
        match reply {
            Ok(payload) => {
                self.take_page(&payload);
                Ok(())
            },
            Err(message) => Err(message),
        }
    }

    /// Whether there is an account that has not been offered yet.
    pub fn has_next(&self) -> (yes: bool)
        ensures
            yes == (self.next < self.candidates@.len()),
    {
        self.next < self.candidates.len()
    }

    /// The account that is offered next.
    pub open spec fn offered(self) -> Tree {
        self.candidates@[self.next as int]@
    }

    /// What is answered where the next account is to be added. It is offered
    /// under the name that it suggests, or else under its number.
    pub open spec fn offers(
        self,
        reads: Seq<Result<Tree, Seq<char>>>,
        drawn: Draw,
        result: AppResult<Option<Addition>>,
    ) -> bool {
        let name = name_for(self.offered(), "KeyCrop #"@ + decimal((self.next + 1) as nat));
        offer(reads, name, self.offered(), drawn, result)
    }

    /// The profile for the next account that was found, with the given UUIDs
    /// and time. All pages have been read before.
    pub fn import_next_with(
        &self,
        saved: &Vec<AppResult<Vec<u8>>>,
        drawn: Draw,
    ) -> (result: AppResult<Option<Addition>>)
        requires
            self.wf(),
            self.all_read(),
            self.next < self.candidates@.len(),
        ensures
            self.offers(read_trees(saved@), drawn, result),
            reads_back(result, self.offered()),
            compared(read_trees(saved@), self.offered()),
    {
        let index = self.next;
        assert(index < self.candidates.len());
        let number: usize = index + 1;
        let fallback = glue("KeyCrop #", decimal_text(number as u64).as_str());
        let name = suggested_name(&self.candidates[index], fallback.as_str());
        add_value_with(saved, name.as_str(), &self.candidates[index], drawn)
    }

    /// The profile for the next account that was found, unless the account is
    /// saved already. All pages have been read before. Where there is one, it
    /// is to be stored. `settle` then goes on to the next account.
    pub fn import_next(&self, saved: &Vec<AppResult<Vec<u8>>>) -> (result: AppResult<
        Option<Addition>,
    >)
        requires
            self.wf(),
            self.all_read(),
            self.next < self.candidates@.len(),
        ensures
            exists|drawn: Draw| #[trigger]
                self.offers(read_trees(saved@), drawn, result) && drawn.is_fresh(),
            reads_back(result, self.offered()),
            compared(read_trees(saved@), self.offered()),
    {
        let drawn = draw();
        self.import_next_with(saved, drawn)
    }

    /// How going on to the next account turns an import into `after`. `added`
    /// says whether the account was added.
    pub open spec fn settled(self, added: bool, after: SyncRun) -> bool {
        &&& after.wf()
        &&& after.next == self.next + 1
        &&& after.imported == self.imported + if added {
            1int
        } else {
            0
        }
        &&& after.page == self.page
        &&& after.total_pages == self.total_pages
        &&& after.purchases_seen == self.purchases_seen
        &&& after.candidates == self.candidates
        &&& after.seen == self.seen
    }

    /// Goes on to the next account. `added` says whether this one was added.
    pub fn settle(&mut self, added: bool)
        requires
            old(self).wf(),
            old(self).all_read(),
            old(self).next < old(self).candidates@.len(),
        ensures
            old(self).settled(added, *final(self)),
    {
        assert(self.next < self.candidates.len());
        self.next = self.next + 1;
        if added {
            self.imported = self.imported + 1;
        }
    }

    /// How offering the next account and then carrying out what is answered
    /// turns an import into `after` and the stored profiles into `profiles`,
    /// where all that is to be written can be written. An error ends the
    /// import where it is.
    pub open spec fn import_step(
        self,
        before: Seq<Profile>,
        reads: Seq<Result<Tree, Seq<char>>>,
        drawn: Draw,
        after: SyncRun,
        profiles: Seq<Profile>,
        result: AppResult<Option<Addition>>,
    ) -> bool {
        &&& self.offers(reads, drawn, result)
        &&& profiles == with_addition(before, result)
        &&& match result {
            Ok(new) => self.settled(new is Some, after),
            Err(_) => after == self,
        }
    }

    /// What the import did, once every account that was found has been offered.
    pub fn result(&self) -> (result: KeyCropSyncResult)
        requires
            self.wf(),
            self.all_read(),
            self.next == self.candidates@.len(),
        ensures
            result.purchases_seen == self.purchases_seen,
            result.accounts_found == self.candidates@.len(),
            result.imported == self.imported,
            result.imported + result.duplicates == result.accounts_found,
    {
        KeyCropSyncResult {
            purchases_seen: self.purchases_seen,
            accounts_found: self.candidates.len(),
            imported: self.imported,
            duplicates: self.candidates.len() - self.imported,
        }
    }
}

/// Begins an import with the session cookie that was saved. Where there is
/// none, there is no import, and so no request is made.
pub fn keycrop_sync_accounts(stored: Option<String>) -> (result: AppResult<(String, SyncRun)>)
    ensures
        match stored {
            Some(cookie) => result matches Ok(begun) && begun.0 == cookie && begun.1.is_start(),
            None => result is Err && result->Err_0@ == "Сессия KeyCrop ещё не сохранена"@,
        },
{
    match saved_cookie(stored) {
        Ok(cookie) => Ok((cookie, SyncRun::start())),
        Err(message) => Err(message),
    }
}

/// An import asks for at most `MOST_PAGES` pages: a page that is asked for is
/// no later than that, whatever the service announces.
pub proof fn law_pages_are_bounded(run: SyncRun)
    requires
        run.wf(),
        !run.all_read(),
    ensures
        run.page <= MOST_PAGES,
{
}

/// An import never offers one account twice.
pub proof fn law_no_account_is_offered_twice(run: SyncRun, i: int, j: int)
    requires
        run.wf(),
        0 <= i < j < run.candidates@.len(),
    ensures
        auth_key(run.candidates@[i]@) != auth_key(run.candidates@[j]@),
{
    let found = trees(run.candidates@);
    assert(found[i] == run.candidates@[i]@);
    assert(found[j] == run.candidates@[j]@);
}

/// An account that is saved already is not imported: with a file of the same
/// account among those that are looked at, the profiles and the count of
/// imported accounts stay as they are.
pub proof fn law_saved_account_is_not_imported(
    run: SyncRun,
    before: Seq<Profile>,
    reads: Seq<Result<Tree, Seq<char>>>,
    i: int,
    drawn: Draw,
    after: SyncRun,
    profiles: Seq<Profile>,
    result: AppResult<Option<Addition>>,
)
    requires
        run.import_step(before, reads, drawn, after, profiles, result),
        0 <= i < reads.len(),
        reads[i] is Ok,
        same_account(reads[i]->Ok_0, run.candidates@[run.next as int]@),
    ensures
        profiles == before,
        after.imported == run.imported,
{
    let tree = run.candidates@[run.next as int]@;
    let name = name_for(tree, "KeyCrop #"@ + decimal((run.next + 1) as nat));
    law_saved_account_is_not_added(before, reads, i, name, tree, drawn, profiles, result);
}

/// Nothing is added before all pages have been read: while a page is still to
/// come, no account has been offered, so that an import that a failed request
/// ends leaves the profiles as they were.
pub proof fn law_nothing_is_added_before_the_last_page(run: SyncRun)
    requires
        run.wf(),
        !run.all_read(),
    ensures
        run.next == 0,
        run.imported == 0,
{
}

/// Whether `runs` is how an import goes through `pages`: from the start, page
/// by page, until all are read.
pub open spec fn is_reading(runs: Seq<SyncRun>, pages: Seq<Tree>) -> bool {
    &&& runs.len() == pages.len() + 1
    &&& runs[0].is_start()
    &&& forall|i: int| 0 <= i < pages.len() ==> #[trigger] reads_page(runs, pages, i)
    &&& runs.last().all_read()
}

/// Whether page `i` is taken in as it should be.
pub open spec fn reads_page(runs: Seq<SyncRun>, pages: Seq<Tree>, i: int) -> bool {
    !runs[i].all_read() && runs[i].page_step(pages[i], runs[i + 1])
}

/// Whether two imports have read the same.
pub open spec fn read_the_same(a: SyncRun, b: SyncRun) -> bool {
    &&& a.page == b.page
    &&& a.total_pages == b.total_pages
    &&& a.purchases_seen == b.purchases_seen
    &&& trees(a.candidates@) == trees(b.candidates@)
    &&& a.seen@ == b.seen@
    &&& a.next == b.next
    &&& a.imported == b.imported
}

proof fn lemma_read_the_same(
    one: Seq<SyncRun>,
    pages: Seq<Tree>,
    two: Seq<SyncRun>,
    pages_again: Seq<Tree>,
    k: int,
)
    requires
        is_reading(one, pages),
        is_reading(two, pages_again),
        forall|i: int|
            0 <= i < pages.len() && i < pages_again.len() ==> #[trigger] pages[i]
                == pages_again[i],
        0 <= k <= pages.len(),
        k <= pages_again.len(),
    ensures
        read_the_same(one[k], two[k]),
    decreases k,
{
    if k == 0 {
        assert(trees(one[0].candidates@) == Seq::<Tree>::empty());
        assert(trees(two[0].candidates@) == Seq::<Tree>::empty());
    } else {
        lemma_read_the_same(one, pages, two, pages_again, k - 1);
        assert(reads_page(one, pages, k - 1));
        assert(reads_page(two, pages_again, k - 1));
        assert(pages[k - 1] == pages_again[k - 1]);
    }
}

/// Where KeyCrop answers the same pages again, a second import asks for as
/// many of them, sees as many purchases, and finds the same accounts.
pub proof fn law_same_pages_same_accounts(
    one: Seq<SyncRun>,
    pages: Seq<Tree>,
    two: Seq<SyncRun>,
    pages_again: Seq<Tree>,
)
    requires
        is_reading(one, pages),
        is_reading(two, pages_again),
        forall|i: int|
            0 <= i < pages.len() && i < pages_again.len() ==> #[trigger] pages[i]
                == pages_again[i],
    ensures
        pages.len() == pages_again.len(),
        read_the_same(one.last(), two.last()),
{
    let k = if pages.len() <= pages_again.len() {
        pages.len() as int
    } else {
        pages_again.len() as int
    };
    lemma_read_the_same(one, pages, two, pages_again, k);
    if pages.len() < pages_again.len() {
        assert(reads_page(two, pages_again, k));
    } else if pages_again.len() < pages.len() {
        assert(reads_page(one, pages, k));
    }
}

/// An import while accounts are added: the import itself, the stored list of
/// profiles, and the values in their files.
pub struct Stage {
    pub run: SyncRun,
    pub profiles: Seq<Profile>,
    pub reads: Seq<Result<Tree, Seq<char>>>,
}

impl Stage {
    /// The account that is offered next.
    pub open spec fn offered(self) -> Tree {
        self.run.offered()
    }

    /// How `import_next` and `settle` bring an import to the stage `after`,
    /// where the answer is `result`, which is no error. The file of a new
    /// profile is written.
    pub open spec fn leads_to(
        self,
        drawn: Draw,
        result: AppResult<Option<Addition>>,
        after: Stage,
    ) -> bool {
        &&& self.run.wf()
        &&& self.run.all_read()
        &&& self.run.next < self.run.candidates@.len()
        &&& self.run.import_step(
            self.profiles,
            self.reads,
            drawn,
            after.run,
            after.profiles,
            result,
        )
        &&& reads_back(result, self.offered())
        &&& compared(self.reads, self.offered())
        &&& match result {
            Ok(Some(new)) => after.reads == self.reads.push(read_tree(Ok(new.contents@))),
            Ok(None) => after.reads == self.reads,
            Err(_) => false,
        }
    }
}

/// Whether step `i` of an import leads from one stage to the next.
pub open spec fn steps(
    stages: Seq<Stage>,
    drawn: Seq<Draw>,
    results: Seq<AppResult<Option<Addition>>>,
    i: int,
) -> bool {
    stages[i].leads_to(drawn[i], results[i], stages[i + 1])
}

/// Whether `stages` is how an import adds all accounts that it found, with
/// what was drawn for each and what was answered.
pub open spec fn is_import(
    stages: Seq<Stage>,
    drawn: Seq<Draw>,
    results: Seq<AppResult<Option<Addition>>>,
) -> bool {
    &&& stages.len() == results.len() + 1
    &&& drawn.len() == results.len()
    &&& stages[0].run.wf()
    &&& stages[0].run.all_read()
    &&& stages[0].run.next == 0
    &&& stages[0].profiles.len() == stages[0].reads.len()
    &&& forall|i: int| 0 <= i < results.len() ==> #[trigger] steps(stages, drawn, results, i)
    &&& stages.last().run.next == stages.last().run.candidates@.len()
}

/// What holds at every stage.
proof fn lemma_stage(
    stages: Seq<Stage>,
    drawn: Seq<Draw>,
    results: Seq<AppResult<Option<Addition>>>,
    k: int,
)
    requires
        is_import(stages, drawn, results),
        0 <= k < stages.len(),
    ensures
        stages[k].run.wf(),
        stages[k].run.candidates == stages[0].run.candidates,
        stages[k].run.purchases_seen == stages[0].run.purchases_seen,
        stages[k].run.next == k,
        stages[k].profiles.len() == stages[0].profiles.len() + stages[k].run.imported,
        stages[k].profiles.len() == stages[k].reads.len(),
        stages[0].profiles.is_prefix_of(stages[k].profiles),
    decreases k,
{
    if k == 0 {
        assert(stages[0].profiles.subrange(0, stages[0].profiles.len() as int)
            == stages[0].profiles);
    } else {
        lemma_stage(stages, drawn, results, k - 1);
        assert(steps(stages, drawn, results, k - 1));
        let start = stages[0].profiles;
        let before = stages[k - 1].profiles;
        let after = stages[k].profiles;
        if results[k - 1] matches Ok(Some(_)) {
            assert(after == before.push(results[k - 1]->Ok_0->0.profile));
            assert(after.subrange(0, start.len() as int) == before.subrange(
                0,
                start.len() as int,
            ));
        }
    }
}

/// A whole import keeps the stored profiles at the start of the list and adds
/// one for each account that counts as imported. As many accounts are offered
/// as were found.
pub proof fn law_import_grows_the_list(
    stages: Seq<Stage>,
    drawn: Seq<Draw>,
    results: Seq<AppResult<Option<Addition>>>,
)
    requires
        is_import(stages, drawn, results),
    ensures
        stages[0].profiles.is_prefix_of(stages.last().profiles),
        stages.last().profiles.len() == stages[0].profiles.len() + stages.last().run.imported,
        stages.last().run.candidates == stages[0].run.candidates,
        stages.last().run.purchases_seen == stages[0].run.purchases_seen,
        results.len() == stages[0].run.candidates@.len(),
{
    lemma_stage(stages, drawn, results, stages.len() - 1);
}

/// What was read from the files stays where it was while accounts are added.
proof fn lemma_reads_stay(
    stages: Seq<Stage>,
    drawn: Seq<Draw>,
    results: Seq<AppResult<Option<Addition>>>,
    k: int,
    m: int,
    i: int,
)
    requires
        is_import(stages, drawn, results),
        0 <= k <= m < stages.len(),
        0 <= i < stages[k].reads.len(),
    ensures
        i < stages[m].reads.len(),
        stages[m].reads[i] == stages[k].reads[i],
    decreases m,
{
    if k < m {
        lemma_reads_stay(stages, drawn, results, k, m - 1, i);
        assert(steps(stages, drawn, results, m - 1));
    }
}

/// Whether an account is still recognised once its file was written: all its
/// numbers are integers, it has an identity, or its file has the same compact
/// text as before. None is nested deeper than what can be read.
pub open spec fn lasting(tree: Tree) -> bool {
    &&& tree.shallow(READING_DEPTH as nat)
    &&& tree.integral() || identity_of(tree) is Some || canonical_text(
        parsed_bytes(pretty_bytes(tree))->Ok_0,
    ) == canonical_text(tree)
}

/// The file of an account that was added can be read, and only doubles differ.
proof fn lemma_added_is_read(
    stages: Seq<Stage>,
    drawn: Seq<Draw>,
    results: Seq<AppResult<Option<Addition>>>,
    k: int,
)
    requires
        is_import(stages, drawn, results),
        0 <= k < results.len(),
        stages[k].offered().shallow(READING_DEPTH as nat),
        results[k] matches Ok(Some(_)),
    ensures
        ({
            let tree = stages[k].offered();
            let read = stages[k + 1].reads.last();
            &&& stages[k + 1].reads == stages[k].reads.push(read)
            &&& read is Ok
            &&& read == parsed_bytes(pretty_bytes(tree))
            &&& identity_of(read->Ok_0) == identity_of(tree)
            &&& tree.integral() ==> read->Ok_0 == tree
        }),
{
    assert(steps(stages, drawn, results, k));
    let tree = stages[k].offered();
    let new = results[k]->Ok_0->0;
    assert(new.contents@ == pretty_bytes(tree));
    let read = read_tree(Ok(new.contents@));
    assert(stages[k + 1].reads.last() == read);
    law_doubles_do_not_change_identity(tree, read->Ok_0);
}

/// The file of a lasting account that was added belongs to that account.
proof fn lemma_added_lasts(
    stages: Seq<Stage>,
    drawn: Seq<Draw>,
    results: Seq<AppResult<Option<Addition>>>,
    k: int,
)
    requires
        is_import(stages, drawn, results),
        0 <= k < results.len(),
        lasting(stages[k].offered()),
        results[k] matches Ok(Some(_)),
    ensures
        ({
            let read = stages[k + 1].reads.last();
            &&& stages[k + 1].reads == stages[k].reads.push(read)
            &&& read is Ok
            &&& same_account(read->Ok_0, stages[k].offered())
        }),
{
    lemma_added_is_read(stages, drawn, results, k);
}

/// Every lasting account that an import found is saved when it ends.
proof fn lemma_all_saved(
    stages: Seq<Stage>,
    drawn: Seq<Draw>,
    results: Seq<AppResult<Option<Addition>>>,
    k: int,
)
    requires
        is_import(stages, drawn, results),
        0 <= k < results.len(),
        lasting(stages[k].offered()),
    ensures
        exists|i: int|
            0 <= i < stages.last().reads.len() && (#[trigger] stages.last().reads[i]) is Ok
                && same_account(stages.last().reads[i]->Ok_0, stages[k].offered()),
{
    let tree = stages[k].offered();
    let m = stages.len() - 1;
    assert(steps(stages, drawn, results, k));
    if results[k] matches Ok(Some(_)) {
        lemma_added_lasts(stages, drawn, results, k);
        let i = stages[k].reads.len() as int;
        lemma_reads_stay(stages, drawn, results, k + 1, m, i);
        assert(stages.last().reads[i] == stages[k + 1].reads[i]);
    } else {
        let reads = stages[k].reads;
        assert(duplicate(reads, tree) == Ok::<bool, Seq<char>>(true));
        lemma_found_is_saved(reads, tree);
        let i = choose|i: int|
            0 <= i < reads.len() && (#[trigger] reads[i]) is Ok && same_account(
                reads[i]->Ok_0,
                tree,
            );
        lemma_reads_stay(stages, drawn, results, k, m, i);
        assert(stages.last().reads[i] == reads[i]);
    }
}

/// Offering the same accounts again leaves everything as it is.
proof fn lemma_again(
    stages: Seq<Stage>,
    drawn: Seq<Draw>,
    results: Seq<AppResult<Option<Addition>>>,
    again: Seq<Stage>,
    drawn_again: Seq<Draw>,
    results_again: Seq<AppResult<Option<Addition>>>,
    k: int,
)
    requires
        is_import(stages, drawn, results),
        is_import(again, drawn_again, results_again),
        again[0].profiles == stages.last().profiles,
        again[0].reads == stages.last().reads,
        trees(again[0].run.candidates@) == trees(stages[0].run.candidates@),
        forall|i: int|
            0 <= i < stages[0].run.candidates@.len() ==> lasting(
                (#[trigger] stages[0].run.candidates@[i])@,
            ),
        0 <= k < again.len(),
    ensures
        again[k].profiles == again[0].profiles,
        again[k].reads == again[0].reads,
        again[k].run.imported == again[0].run.imported,
    decreases k,
{
    if k > 0 {
        let j = k - 1;
        lemma_again(stages, drawn, results, again, drawn_again, results_again, j);
        lemma_stage(again, drawn_again, results_again, j);
        lemma_stage(again, drawn_again, results_again, again.len() - 1);
        lemma_stage(stages, drawn, results, stages.len() - 1);
        let found = stages[0].run.candidates@;
        let found_again = again[0].run.candidates@;
        assert(trees(found).len() == found.len());
        assert(trees(found_again).len() == found_again.len());
        assert(steps(again, drawn_again, results_again, j));
        assert(j < found.len());
        lemma_stage(stages, drawn, results, j);
        assert(trees(found)[j] == found[j]@);
        assert(trees(found_again)[j] == found_again[j]@);
        assert(stages[j].offered() == again[j].offered());
        lemma_all_saved(stages, drawn, results, j);
        let reads = stages.last().reads;
        let i = choose|i: int|
            0 <= i < reads.len() && (#[trigger] reads[i]) is Ok && same_account(
                reads[i]->Ok_0,
                stages[j].offered(),
            );
        law_saved_account_is_not_imported(
            again[j].run,
            again[j].profiles,
            again[j].reads,
            i,
            drawn_again[j],
            again[k].run,
            again[k].profiles,
            results_again[j],
        );
    }
}

/// A second import of the same accounts imports nothing: they all count as
/// duplicates, and the stored profiles stay as they are. Accounts that are not
/// recognised in their own files are left out.
pub proof fn law_second_import_adds_nothing(
    stages: Seq<Stage>,
    drawn: Seq<Draw>,
    results: Seq<AppResult<Option<Addition>>>,
    again: Seq<Stage>,
    drawn_again: Seq<Draw>,
    results_again: Seq<AppResult<Option<Addition>>>,
)
    requires
        is_import(stages, drawn, results),
        is_import(again, drawn_again, results_again),
        again[0].profiles == stages.last().profiles,
        again[0].reads == stages.last().reads,
        trees(again[0].run.candidates@) == trees(stages[0].run.candidates@),
        forall|i: int|
            0 <= i < stages[0].run.candidates@.len() ==> lasting(
                (#[trigger] stages[0].run.candidates@[i])@,
            ),
    ensures
        again.last().profiles == again[0].profiles,
        again.last().reads == again[0].reads,
        again.last().run.imported == 0,
        again.last().run.candidates@.len() == stages.last().run.candidates@.len(),
{
    let m = again.len() - 1;
    lemma_again(stages, drawn, results, again, drawn_again, results_again, m);
    lemma_stage(again, drawn_again, results_again, m);
    lemma_stage(stages, drawn, results, stages.len() - 1);
    assert(trees(stages[0].run.candidates@).len() == stages[0].run.candidates@.len());
    assert(trees(again[0].run.candidates@).len() == again[0].run.candidates@.len());
}

/// Whether an account without identity is mistaken for another one because its
/// file has come to have the compact text of the other. Only doubles can do
/// that, where one comes back as its neighbour.
pub open spec fn mistaken_for(tree: Tree, other: Tree) -> bool {
    &&& identity_of(tree) is None
    &&& !tree.integral()
    &&& parsed_bytes(pretty_bytes(tree)) matches Ok(read) && canonical_text(read)
        == canonical_text(other)
}

/// The file of an account does not belong to another one that is told apart
/// from it and that it is not mistaken for.
proof fn lemma_files_apart(tree: Tree, read: Tree, other: Tree)
    requires
        parsed_bytes(pretty_bytes(tree)) == Ok::<Tree, Seq<char>>(read),
        identity_of(read) == identity_of(tree),
        tree.integral() ==> read == tree,
        text_reads_back(read),
        text_reads_back(other),
        other.shallow(READING_DEPTH as nat),
        auth_key(tree) != auth_key(other),
        !mistaken_for(tree, other),
    ensures
        !same_account(read, other),
{
    if canonical_text(read) == canonical_text(other) {
        let again = parsed_text(canonical_text(other))->Ok_0;
        law_doubles_do_not_change_identity(other, again);
        law_doubles_do_not_change_identity(read, again);
    }
}

/// With no profile stored before, every stage has added all accounts so far.
proof fn lemma_all_added(
    stages: Seq<Stage>,
    drawn: Seq<Draw>,
    results: Seq<AppResult<Option<Addition>>>,
    k: int,
)
    requires
        is_import(stages, drawn, results),
        stages[0].profiles.len() == 0,
        all_shallow(stages[0].run.candidates@),
        forall|i: int, j: int|
            0 <= i < j < stages[0].run.candidates@.len() ==> !mistaken_for(
                (#[trigger] stages[0].run.candidates@[i])@,
                (#[trigger] stages[0].run.candidates@[j])@,
            ),
        0 <= k < stages.len(),
    ensures
        stages[k].run.imported == k,
        stages[k].reads.len() == k,
        forall|i: int|
            0 <= i < k ==> ({
                let tree = stages[0].run.candidates@[i]@;
                let read = #[trigger] stages[k].reads[i];
                &&& read is Ok
                &&& read == parsed_bytes(pretty_bytes(tree))
                &&& identity_of(read->Ok_0) == identity_of(tree)
                &&& tree.integral() ==> read->Ok_0 == tree
            }),
    decreases k,
{
    lemma_stage(stages, drawn, results, 0);
    if k > 0 {
        let j = k - 1;
        lemma_all_added(stages, drawn, results, j);
        lemma_stage(stages, drawn, results, j);
        assert(steps(stages, drawn, results, j));
        let found = stages[0].run.candidates@;
        let reads = stages[j].reads;
        let tree = stages[j].offered();
        assert(tree == found[j]@);
        assert forall|i: int| 0 <= i < reads.len() implies (#[trigger] reads[i]) is Ok
            && !same_account(reads[i]->Ok_0, tree) by {
            law_no_account_is_offered_twice(stages[0].run, i, j);
            assert(!mistaken_for(found[i]@, found[j]@));
            lemma_files_apart(found[i]@, reads[i]->Ok_0, tree);
        }
        law_not_saved(reads, tree);
        lemma_added_is_read(stages, drawn, results, j);
    }
}

/// An import where no profile is stored has no duplicates: every account that
/// was found is imported. Left out is an account without identity whose file
/// has come to be that of a later one, as only doubles can do. None is nested
/// deeper than what can be read.
pub proof fn law_first_import_has_no_duplicates(
    stages: Seq<Stage>,
    drawn: Seq<Draw>,
    results: Seq<AppResult<Option<Addition>>>,
)
    requires
        is_import(stages, drawn, results),
        stages[0].profiles.len() == 0,
        all_shallow(stages[0].run.candidates@),
        forall|i: int, j: int|
            0 <= i < j < stages[0].run.candidates@.len() ==> !mistaken_for(
                (#[trigger] stages[0].run.candidates@[i])@,
                (#[trigger] stages[0].run.candidates@[j])@,
            ),
    ensures
        stages.last().run.imported == stages.last().run.candidates@.len(),
{
    lemma_all_added(stages, drawn, results, stages.len() - 1);
    lemma_stage(stages, drawn, results, stages.len() - 1);
}

/// With every request go just three headers: the session cookie as it is,
/// which alone is sensitive, the kind of answer, and the name of the
/// application.
pub proof fn law_headers(headers: Seq<Header>, cookie: Seq<char>)
    requires
        are_headers(headers, cookie),
    ensures
        headers.len() == 3,
        headers[0].name@ == "cookie"@ && headers[0].value@ == encode_utf8(cookie),
        headers[1].name@ == "accept"@ && headers[1].value@ == encode_utf8("application/json"@),
        headers[2].name@ == "user-agent"@ && headers[2].value@ == encode_utf8(
            "CodexAccountSwitcher/2.0"@,
        ),
        forall|i: int| 0 <= i < 3 ==> ((#[trigger] headers[i]).sensitive <==> i == 0),
{
}

/// Every status from 200 up to 299 is a success, and no other. A refused
/// session has a message of its own, and any other status is shown.
pub proof fn law_status(code: u16)
    ensures
        refusal(code) is None <==> 200 <= code <= 299,
        code == 401 || code == 403 ==> refusal(code) == Some(
            "Cookie KeyCrop истекла или недействительна"@,
        ),
        code != 401 && code != 403 && !(200 <= code <= 299) ==> refusal(code) == Some(
            "KeyCrop ответил HTTP "@ + status_text(code),
        ),
{
}

/// The user is the member of that name, whatever it holds, and the whole
/// answer only where it is an object without that member. Null is no user.
pub proof fn law_user(tree: Tree, user: Tree)
    ensures
        user_in(tree) == Some(user) <==> user != Tree::Null && (tree.get("user"@) == Some(user) || (
        tree is Object && tree.get("user"@) is None && user == tree)),
{
}

/// Every item of the list of purchases is counted, and nothing where there is
/// no such list.
pub proof fn law_purchases(page: Tree, items: Seq<Tree>)
    ensures
        page.get("purchases"@) == Some(Tree::List(items)) ==> purchases_on(page) == items.len(),
        !(page.get("purchases"@) matches Some(Tree::List(_))) ==> purchases_on(page) == 0,
{
}

/// The number of pages is what a page announces, but at least one and at most
/// ten thousand. It is one where none is announced as an integer that is not
/// negative.
pub proof fn law_announced_pages(page: Tree, n: u64)
    ensures
        page.at("pagination"@, "pages"@) == Some(Tree::Number(Num::Unsigned(n))) && 1 <= n
            <= 10_000 ==> pages_in(page) == n,
        page.at("pagination"@, "pages"@) == Some(Tree::Number(Num::Unsigned(n))) && n == 0
            ==> pages_in(page) == 1,
        page.at("pagination"@, "pages"@) == Some(Tree::Number(Num::Unsigned(n))) && n > 10_000
            ==> pages_in(page) == 10_000,
        !(page.at("pagination"@, "pages"@) matches Some(Tree::Number(Num::Unsigned(_))))
            ==> pages_in(page) == 1,
{
}

/// The request for a page names the page, and pages are eight purchases long.
pub proof fn law_page_path(page: int)
    ensures
        page_path(page) == "/api/account/purchases?page="@ + decimal(page as nat) + "&limit=8"@,
{
}

/// An import asks for pages until it has read as many as were announced last.
pub proof fn law_all_read(run: SyncRun)
    ensures
        run.all_read() <==> run.page > run.total_pages,
        run.is_start() ==> run.page == 1 && run.total_pages == 1 && run.purchases_seen == 0
            && run.candidates@.len() == 0 && run.next == 0 && run.imported == 0 && forall|
            key: Seq<char>,
        |
            !run.seen@.contains(key),
{
}

/// Taking in a page counts its purchases, goes on to the next page, and keeps
/// the accounts that were found before in their places.
pub proof fn law_page_is_taken_in(run: SyncRun, page: Tree, after: SyncRun)
    requires
        run.page_step(page, after),
    ensures
        after.page == run.page + 1,
        after.total_pages == pages_in(page),
        after.purchases_seen == run.purchases_seen + purchases_on(page),
        after.next == run.next,
        after.imported == run.imported,
        run.candidates@.len() <= after.candidates@.len(),
        forall|i: int|
            0 <= i < run.candidates@.len() ==> (#[trigger] after.candidates@[i])@
                == run.candidates@[i]@,
{
    let old_trees = trees(run.candidates@);
    let new_trees = trees(after.candidates@);
    assert(old_trees.len() == run.candidates@.len());
    assert(new_trees.len() == after.candidates@.len());
    assert forall|i: int| 0 <= i < run.candidates@.len() implies (
    #[trigger] after.candidates@[i])@ == run.candidates@[i]@ by {
        assert(new_trees[i] == old_trees[i]);
    }
}

/// The keys that are known while pages are read are those of the accounts that
/// were found.
proof fn lemma_seen_is_found(runs: Seq<SyncRun>, pages: Seq<Tree>, k: int, key: Seq<char>)
    requires
        is_reading(runs, pages),
        0 <= k <= pages.len(),
        runs[k].seen@.contains(key),
    ensures
        exists|i: int|
            0 <= i < runs[k].candidates@.len() && auth_key((#[trigger] runs[k].candidates@[i])@)
                == key,
    decreases k,
{
    if k > 0 {
        assert(reads_page(runs, pages, k - 1));
        let before = runs[k - 1];
        let after = runs[k];
        let list = auth_trees(pages[k - 1]);
        let new = fresh(list, before.seen@);
        let old_trees = trees(before.candidates@);
        let all = trees(after.candidates@);
        assert(old_trees.len() == before.candidates@.len());
        assert(all.len() == after.candidates@.len());
        assert(all == old_trees + new);
        if before.seen@.contains(key) {
            lemma_seen_is_found(runs, pages, k - 1, key);
            let i = choose|i: int|
                0 <= i < before.candidates@.len() && auth_key(
                    (#[trigger] before.candidates@[i])@,
                ) == key;
            assert(all[i] == old_trees[i]);
            assert(after.candidates@[i]@ == all[i]);
        } else {
            lemma_known(list, before.seen@, key);
            let j = choose|j: int|
                0 <= j < new.len() && auth_key(#[trigger] new[j]) == key;
            let i = old_trees.len() + j;
            assert(all[i] == new[j]);
            assert(after.candidates@[i]@ == all[i]);
        }
    }
}

/// What was found stays known while further pages are read.
proof fn lemma_stays_known(
    runs: Seq<SyncRun>,
    pages: Seq<Tree>,
    k: int,
    m: int,
    key: Seq<char>,
)
    requires
        is_reading(runs, pages),
        0 <= k <= m <= pages.len(),
        runs[k].seen@.contains(key),
    ensures
        runs[m].seen@.contains(key),
    decreases m,
{
    if k < m {
        lemma_stays_known(runs, pages, k, m - 1, key);
        assert(reads_page(runs, pages, m - 1));
        lemma_seen(auth_trees(pages[m - 1]), runs[m - 1].seen@);
    }
}

/// No purchased account is lost: for every authorisation on every page an
/// account with its key is found, on whatever page and in whatever place it
/// stands.
pub proof fn law_every_account_is_found(
    runs: Seq<SyncRun>,
    pages: Seq<Tree>,
    p: int,
    k: int,
)
    requires
        is_reading(runs, pages),
        0 <= p < pages.len(),
        0 <= k < auth_trees(pages[p]).len(),
    ensures
        exists|i: int|
            0 <= i < runs.last().candidates@.len() && auth_key(
                (#[trigger] runs.last().candidates@[i])@,
            ) == auth_key(auth_trees(pages[p])[k]),
{
    let key = auth_key(auth_trees(pages[p])[k]);
    assert(reads_page(runs, pages, p));
    lemma_seen(auth_trees(pages[p]), runs[p].seen@);
    assert(runs[p + 1].seen@.contains(key));
    let m = pages.len() as int;
    lemma_stays_known(runs, pages, p + 1, m, key);
    lemma_seen_is_found(runs, pages, m, key);
}

/// What is gathered from a list stands in the list.
proof fn lemma_fresh_is_in(list: Seq<Tree>, seen: Set<Seq<char>>, j: int)
    requires
        0 <= j < fresh(list, seen).len(),
    ensures
        exists|k: int| 0 <= k < list.len() && #[trigger] list[k] == fresh(list, seen)[j],
    decreases list.len(),
{
    if list.len() > 0 {
        let before = list.drop_last();
        let kept = fresh(before, seen);
        if j < kept.len() {
            lemma_fresh_is_in(before, seen, j);
            let k = choose|k: int| 0 <= k < before.len() && #[trigger] before[k] == kept[j];
            assert(list[k] == before[k]);
        } else {
            assert(list[list.len() - 1] == list.last());
        }
    }
}

/// Only what was delivered is offered: every account that was found stands on
/// a page.
pub proof fn law_only_delivered_accounts(runs: Seq<SyncRun>, pages: Seq<Tree>, m: int, i: int)
    requires
        is_reading(runs, pages),
        0 <= m <= pages.len(),
        0 <= i < runs[m].candidates@.len(),
    ensures
        exists|p: int, k: int|
            0 <= p < m && 0 <= k < auth_trees(pages[p]).len() && #[trigger] auth_trees(
                pages[p],
            )[k] == runs[m].candidates@[i]@,
    decreases m,
{
    if m > 0 {
        assert(reads_page(runs, pages, m - 1));
        let before = runs[m - 1];
        let list = auth_trees(pages[m - 1]);
        let new = fresh(list, before.seen@);
        let old_trees = trees(before.candidates@);
        let all = trees(runs[m].candidates@);
        assert(all == old_trees + new);
        assert(old_trees.len() == before.candidates@.len());
        assert(all.len() == runs[m].candidates@.len());
        assert(all[i] == runs[m].candidates@[i]@);
        if i < old_trees.len() {
            law_only_delivered_accounts(runs, pages, m - 1, i);
            assert(all[i] == old_trees[i]);
            let (p, k) = choose|p: int, k: int|
                0 <= p < m - 1 && 0 <= k < auth_trees(pages[p]).len() && #[trigger] auth_trees(
                    pages[p],
                )[k] == before.candidates@[i]@;
            assert(auth_trees(pages[p])[k] == runs[m].candidates@[i]@);
        } else {
            let j = i - old_trees.len();
            lemma_fresh_is_in(list, before.seen@, j);
            let k = choose|k: int| 0 <= k < list.len() && #[trigger] list[k] == new[j];
            assert(auth_trees(pages[m - 1])[k] == runs[m].candidates@[i]@);
        }
    }
}

/// The account that is offered next is the next one that was found. It is
/// offered under the name that it suggests, or else under its number counted
/// from one, and the file of its profile is to hold it.
pub proof fn law_offered_account(
    run: SyncRun,
    reads: Seq<Result<Tree, Seq<char>>>,
    drawn: Draw,
    new: Addition,
)
    requires
        run.offers(reads, drawn, Ok(Some(new))),
    ensures
        new.profile.id == drawn.id,
        new.contents@ == pretty_bytes(run.candidates@[run.next as int]@),
        new.profile.name@ == profile_name(
            name_for(
                run.candidates@[run.next as int]@,
                "KeyCrop #"@ + decimal((run.next + 1) as nat),
            ),
            run.candidates@[run.next as int]@,
        ),
        forall|i: int|
            0 <= i < reads.len() ==> (#[trigger] reads[i]) is Ok && !same_account(
                reads[i]->Ok_0,
                run.candidates@[run.next as int]@,
            ),
{
    law_not_saved(reads, run.candidates@[run.next as int]@);
}

/// An account that is new is offered: where every file can be read and none
/// belongs to it, there is a profile for it.
pub proof fn law_new_account_is_offered(
    run: SyncRun,
    reads: Seq<Result<Tree, Seq<char>>>,
    drawn: Draw,
    result: AppResult<Option<Addition>>,
)
    requires
        run.offers(reads, drawn, result),
        forall|i: int|
            0 <= i < reads.len() ==> (#[trigger] reads[i]) is Ok && !same_account(
                reads[i]->Ok_0,
                run.candidates@[run.next as int]@,
            ),
    ensures
        result matches Ok(Some(_)),
{
    law_not_saved(reads, run.candidates@[run.next as int]@);
}

/// Going on to the next account counts this one just where it was added, and
/// leaves what was found as it is.
pub proof fn law_settled(run: SyncRun, added: bool, after: SyncRun)
    requires
        run.settled(added, after),
    ensures
        after.next == run.next + 1,
        added ==> after.imported == run.imported + 1,
        !added ==> after.imported == run.imported,
        after.candidates@ == run.candidates@,
        after.purchases_seen == run.purchases_seen,
        after.page == run.page && after.total_pages == run.total_pages,
{
}

/// A text fits into a header just where it holds no control character, except
/// the tab. A text of two parts fits where both parts do.
pub proof fn law_fits_header(a: Seq<char>, b: Seq<char>)
    ensures
        fits_header(a) <==> forall|i: int|
            0 <= i < a.len() ==> (#[trigger] a[i] as u32) >= 32 && a[i] as u32 != 127 || a[i]
                == '\t',
        fits_header(a + b) <==> fits_header(a) && fits_header(b),
{
    let all = a + b;
    if fits_header(all) {
        assert forall|i: int| 0 <= i < a.len() implies header_char(#[trigger] a[i]) by {
            assert(all[i] == a[i]);
        }
        assert forall|i: int| 0 <= i < b.len() implies header_char(#[trigger] b[i]) by {
            assert(all[a.len() + i] == b[i]);
        }
    }
    if forall|i: int|
        0 <= i < a.len() ==> (#[trigger] a[i] as u32) >= 32 && a[i] as u32 != 127 || a[i]
            == '\t' {
        assert forall|i: int| 0 <= i < a.len() implies header_char(#[trigger] a[i]) by {}
    }
}

} // verus!
