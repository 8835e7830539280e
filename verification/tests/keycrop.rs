use codex_account_switcher::json::{parse, Json};
use codex_account_switcher::keycrop::{
    accept_status, announced_pages, count_purchases, judge_status, keycrop_client,
    keycrop_connect, keycrop_status, keycrop_sync_accounts, reply_value, request_keycrop, request_url, saved_cookie, status_from_me, KeyCropSyncResult, SyncRun,
};
use codex_account_switcher::profiles::{confirm_addition, Draw};

fn json(text: &str) -> Json {
    parse(text).unwrap()
}

fn drawn(n: u128) -> Draw {
    Draw { file_id: n, id: n, created_at: String::new() }
}

#[test]
fn a_session_is_saved_or_not() {
    assert_eq!(saved_cookie(Some("a=1".to_string())), Ok("a=1".to_string()));
    assert_eq!(saved_cookie(None), Err("Сессия KeyCrop ещё не сохранена".to_string()));
    let (cookie, run) = keycrop_sync_accounts(Some("a=1".to_string())).unwrap();
    assert_eq!(cookie, "a=1");
    assert_eq!(
        run.next_request().as_deref(),
        Some("/api/account/purchases?page=1&limit=8")
    );
    assert_eq!(
        keycrop_sync_accounts(None).err().as_deref(),
        Some("Сессия KeyCrop ещё не сохранена")
    );
}

#[test]
fn headers_carry_the_cookie() {
    let client = keycrop_client("a=ü\t1").unwrap();
    assert!(!client.follow_redirects);
    let headers = client.headers;
    assert_eq!(headers.len(), 3);
    assert_eq!(headers[0].name, "cookie");
    assert_eq!(headers[0].value, "a=ü\t1".as_bytes());
    assert!(headers[0].sensitive);
    assert_eq!(headers[1].name, "accept");
    assert_eq!(headers[1].value, b"application/json");
    assert!(!headers[1].sensitive);
    assert_eq!(headers[2].name, "user-agent");
    assert_eq!(headers[2].value, b"CodexAccountSwitcher/2.0");
    assert!(!headers[2].sensitive);
    for bad in ["a\n", "a\r", "\u{0}", "\u{7f}"] {
        assert_eq!(keycrop_client(bad), Err("failed to parse header value".to_string()));
    }
}

#[test]
fn requests_go_to_keycrop() {
    assert_eq!(request_url("/api/auth/me"), Ok("https://keycrop.net/api/auth/me".to_string()));
    for bad in ["", "api", "@evil.example/"] {
        assert_eq!(request_url(bad), Err("Некорректный путь KeyCrop API".to_string()));
    }
}

#[test]
fn answers_are_judged_by_status() {
    for code in [200, 204, 299] {
        assert_eq!(accept_status(code), Ok(()));
    }
    for code in [401, 403] {
        assert_eq!(
            accept_status(code),
            Err("Cookie KeyCrop истекла или недействительна".to_string())
        );
    }
    assert_eq!(accept_status(404), Err("KeyCrop ответил HTTP 404 Not Found".to_string()));
    assert_eq!(accept_status(302), Err("KeyCrop ответил HTTP 302 Found".to_string()));
    assert_eq!(
        accept_status(999),
        Err("KeyCrop ответил HTTP 999 <unknown status code>".to_string())
    );
    assert_eq!(judge_status(204, "any"), Ok(()));
    assert_eq!(judge_status(500, "500 x"), Err("KeyCrop ответил HTTP 500 x".to_string()));
    assert_eq!(judge_status(403, "any"), accept_status(403));
    assert_eq!(reply_value(Ok(json("{}"))), Ok(json("{}")));
    assert_eq!(
        reply_value(Err("why".to_string())),
        Err("KeyCrop вернул не JSON: why".to_string())
    );
}

#[test]
fn the_user_is_found_in_the_answer() {
    let status = status_from_me(json(r#"{"user":{"id":1}}"#)).unwrap();
    assert!(status.connected);
    assert_eq!(status.user, Some(json(r#"{"id":1}"#)));
    let status = status_from_me(json(r#"{"id":1}"#)).unwrap();
    assert_eq!(status.user, Some(json(r#"{"id":1}"#)));
    for bad in [r#"{"user":null}"#, "null", "[]", "7"] {
        assert_eq!(
            status_from_me(json(bad)),
            Err("KeyCrop не подтвердил авторизацию".to_string())
        );
    }
}

#[test]
fn requests_are_checked_before_they_are_made() {
    let request = request_keycrop("a=1", "/api/auth/me").unwrap();
    assert_eq!(request.url, "https://keycrop.net/api/auth/me");
    assert_eq!(request.client, keycrop_client("a=1").unwrap());
    assert_eq!(
        request_keycrop("\n", "api"),
        Err("Некорректный путь KeyCrop API".to_string())
    );
    assert_eq!(
        request_keycrop("\n", "/api"),
        Err("failed to parse header value".to_string())
    );
}

#[test]
fn only_a_confirmed_session_is_saved() {
    let (cookie, status) =
        keycrop_connect("a=1".to_string(), Ok(json(r#"{"user":{"id":1}}"#))).unwrap();
    assert_eq!(cookie, "a=1");
    assert!(status.connected);
    assert_eq!(status.user, Some(json(r#"{"id":1}"#)));
    assert_eq!(
        keycrop_connect("a=1".to_string(), Ok(json(r#"{"user":null}"#))),
        Err("KeyCrop не подтвердил авторизацию".to_string())
    );
    assert_eq!(
        keycrop_connect("a=1".to_string(), Err("down".to_string())),
        Err("down".to_string())
    );
}

#[test]
fn whatever_fails_is_no_connection() {
    assert!(keycrop_status(Some(Ok(json(r#"{"user":1}"#)))).connected);
    for answer in [None, Some(Err("down".to_string())), Some(Ok(json("[]")))] {
        let status = keycrop_status(answer);
        assert!(!status.connected);
        assert_eq!(status.user, None);
    }
}

#[test]
fn pages_announce_pages() {
    assert_eq!(announced_pages(&json(r#"{"pagination":{"pages":3}}"#)), 3);
    assert_eq!(announced_pages(&json(r#"{"pagination":{"pages":0}}"#)), 1);
    assert_eq!(announced_pages(&json(r#"{"pagination":{"pages":10001}}"#)), 10_000);
    assert_eq!(announced_pages(&json(r#"{"pagination":{"pages":-1}}"#)), 1);
    assert_eq!(announced_pages(&json(r#"{"pagination":{"pages":"3"}}"#)), 1);
    assert_eq!(announced_pages(&json("{}")), 1);
    assert_eq!(count_purchases(&json(r#"{"purchases":[1,2]}"#)), 2);
    assert_eq!(count_purchases(&json(r#"{"purchases":{}}"#)), 0);
    assert_eq!(count_purchases(&json("{}")), 0);
}

#[test]
fn purchased_accounts_are_imported() {
    let mut run = SyncRun::start();
    assert_eq!(
        run.next_request().as_deref(),
        Some("/api/account/purchases?page=1&limit=8")
    );
    run.take_page(&json(
        r#"{"purchases":[{"a":{"tokens":{"account_id":"1"}}},{}],"pagination":{"pages":2}}"#,
    ));
    assert_eq!(
        run.next_request().as_deref(),
        Some("/api/account/purchases?page=2&limit=8")
    );
    run.take_page(&json(
        r#"{"purchases":[{"a":{"tokens":{"account_id":"1"}}},
            {"b":{"tokens":{"refresh_token":"r"}}},
            {"b":{"tokens":{"account_id":"3"},"_meta":{"email":"c@d"}}}],
            "pagination":{"pages":2}}"#,
    ));
    assert_eq!(run.next_request(), None);
    assert_eq!(run.candidates.len(), 3);

    let mut saved = Vec::new();
    let first = run.import_next(&saved).unwrap().unwrap();
    saved.push(Ok(first.contents));
    run.settle(true);
    let second = run.import_next_with(&saved, drawn(2)).unwrap().unwrap();
    saved.push(Ok(second.contents));
    run.settle(true);
    saved.push(Ok(br#"{"tokens":{"account_id":"3"}}"#.to_vec()));
    assert!(run.has_next());
    assert_eq!(run.import_next(&saved), Ok(None));
    run.settle(false);
    assert!(!run.has_next());
    assert_eq!(first.profile.name, "1");
    assert_eq!(second.profile.name, "KeyCrop #2");
    assert_eq!(
        run.result(),
        KeyCropSyncResult { purchases_seen: 5, accounts_found: 3, imported: 2, duplicates: 1 }
    );
}

#[test]
fn a_failed_import_stays_where_it_is() {
    let mut run = SyncRun::start();
    run.take_page(&json(r#"[{"tokens":{"account_id":"1"}}]"#));
    let broken = vec![Err("gone".to_string())];
    assert_eq!(run.import_next(&broken), Err("gone".to_string()));
    assert_eq!(run.next, 0);
    assert_eq!(run.imported, 0);
}

#[test]
fn a_failed_page_ends_an_import_before_anything_is_added() {
    let mut run = SyncRun::start();
    let page = json(r#"{"a":{"tokens":{"account_id":"1"}},"pagination":{"pages":2}}"#);
    assert_eq!(run.take_reply(Ok(page)), Ok(()));
    assert_eq!(run.candidates.len(), 1);
    assert_eq!(run.take_reply(Err("down".to_string())), Err("down".to_string()));
    assert_eq!((run.page, run.next, run.imported), (2, 0, 0));
    assert_eq!(
        run.next_request().as_deref(),
        Some("/api/account/purchases?page=2&limit=8")
    );
}

#[test]
fn a_second_import_of_the_same_pages_adds_nothing() {
    let page = r#"{"purchases":[{"tokens":{"account_id":"1"}},{"tokens":{"access_token":"x"}},
        {"tokens":{"account_id":"1","access_token":"y"}}]}"#;
    let mut profiles = Vec::new();
    let mut saved = Vec::new();
    let mut results = Vec::new();
    for _ in 0..2 {
        let mut run = SyncRun::start();
        while run.next_request().is_some() {
            run.take_reply(Ok(json(page))).unwrap();
        }
        while run.has_next() {
            let new = run.import_next(&saved).unwrap();
            run.settle(new.is_some());
            if let Some(new) = new {
                saved.push(Ok(new.contents));
                confirm_addition(&mut profiles, new.profile, Ok(()), Ok(())).unwrap();
            }
        }
        results.push(run.result());
    }
    assert_eq!(
        results[0],
        KeyCropSyncResult { purchases_seen: 3, accounts_found: 2, imported: 2, duplicates: 0 }
    );
    assert_eq!(
        results[1],
        KeyCropSyncResult { purchases_seen: 3, accounts_found: 2, imported: 0, duplicates: 2 }
    );
    assert_eq!(profiles.len(), 2);
}

#[test]
fn an_import_ends() {
    let mut run = SyncRun::start();
    let page = json(r#"{"pagination":{"pages":18446744073709551615}}"#);
    let mut asked = 0;
    while run.next_request().is_some() {
        run.take_page(&page);
        asked += 1;
    }
    assert_eq!(asked, 10_000);
}
