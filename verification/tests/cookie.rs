use codex_account_switcher::cookie::{
    cookie_pair, exported_cookies, header_cookie, normalized_cookie, normalized_cookie_at,
};
use codex_account_switcher::json::parse;
use codex_account_switcher::text::chars_of;

#[test]
fn cookie_header_is_normalized() {
    assert_eq!(
        normalized_cookie("Cookie: session=abc; theme=dark").unwrap(),
        "session=abc; theme=dark"
    );
    assert!(normalized_cookie("no-cookie-here").is_err());
}

#[test]
fn edit_this_cookie_export_is_normalized_and_filtered() {
    let export = r#"[
          {"domain":".keycrop.net","name":"__stripe_mid","value":"stripe-test","expirationDate":4102444800},
          {"domain":"keycrop.net","name":"session","value":"session-test","expirationDate":4102444800},
          {"domain":"example.com","name":"ignored","value":"nope","expirationDate":4102444800}
        ]"#;
    assert_eq!(
        normalized_cookie(export).unwrap(),
        "__stripe_mid=stripe-test; session=session-test"
    );
}

#[test]
fn messenger_html_entities_are_supported() {
    let export = r#"[{
          &#x20; "domain":"keycrop.net",
          &#x20; "name":"session",
          &#x20; "value":"redacted_test",
          &#x20; "expirationDate":4102444800
        }]"#;
    assert_eq!(normalized_cookie(export).unwrap(), "session=redacted_test");
}

#[test]
fn what_messengers_do_is_undone() {
    let export = r#"[{"domain": "keycrop.net", "name": "a_b", "value": "1 2"}]"#;
    let plain = normalized_cookie_at(export, 0).unwrap();
    assert_eq!(plain, "a_b=1 2");
    for (c, entity) in [(" ", "&#x20;"), (" ", "&#32;"), ("\"", "&quot;"), ("_", "\\_")] {
        assert_eq!(normalized_cookie_at(&export.replace(c, entity), 0).unwrap(), plain);
    }
    assert_eq!(normalized_cookie_at("a=1&amp;2", 0).unwrap(), "a=1&2");
    assert_eq!(normalized_cookie_at("a=&amp;quot;", 0).unwrap(), "a=&quot;");
}

#[test]
fn headers_are_taken_as_they_are() {
    assert_eq!(normalized_cookie("a=1; b=2").unwrap(), "a=1; b=2");
    assert_eq!(normalized_cookie("  cookie:a=1  ").unwrap(), "a=1");
    assert_eq!(normalized_cookie("COOKIE: a=1").unwrap(), "COOKIE: a=1");
    let refusal = "Вставь значение заголовка Cookie целиком, без переносов строк";
    for bad in ["", "   ", "Cookie:", "name", "a=1\nb=2", "a=1\rb=2"] {
        assert_eq!(normalized_cookie(bad).unwrap_err(), refusal);
    }
    assert_eq!(header_cookie(&chars_of("cookie: x=y")).unwrap(), "x=y");
    assert_eq!(header_cookie(&chars_of("Cookie: cookie: x=y")).unwrap(), "cookie: x=y");
}

#[test]
fn cookies_expire() {
    let cookie = |date: &str| {
        parse(&format!(
            r#"{{"domain":"keycrop.net","name":"n","value":"v","expirationDate":{date}}}"#
        ))
        .unwrap()
    };
    assert_eq!(cookie_pair(&cookie("100"), 100), None);
    assert_eq!(cookie_pair(&cookie("100"), 99).as_deref(), Some("n=v"));
    assert_eq!(cookie_pair(&cookie("99.5"), 99).as_deref(), Some("n=v"));
    assert_eq!(cookie_pair(&cookie("99.5"), 100), None);
    assert_eq!(cookie_pair(&cookie("-1"), 0), None);
    assert_eq!(cookie_pair(&cookie("1e300"), i64::MAX).as_deref(), Some("n=v"));
    assert_eq!(cookie_pair(&cookie("\"100\""), 200).as_deref(), Some("n=v"));
    assert_eq!(cookie_pair(&cookie("18446744073709551615"), 0).as_deref(), Some("n=v"));
}

#[test]
fn only_fit_cookies_of_keycrop_are_used() {
    let pair = |text: &str| cookie_pair(&parse(text).unwrap(), 0);
    assert_eq!(
        pair(r#"{"domain":"..KeyCrop.NET","name":"n","value":""}"#).as_deref(),
        Some("n=")
    );
    assert_eq!(pair(r#"{"domain":"www.keycrop.net","name":"n","value":"v"}"#), None);
    assert_eq!(pair(r#"{"name":"n","value":"v"}"#), None);
    assert_eq!(pair(r#"{"domain":"keycrop.net","name":"","value":"v"}"#), None);
    assert_eq!(pair(r#"{"domain":"keycrop.net","value":"v"}"#), None);
    assert_eq!(pair(r#"{"domain":"keycrop.net","name":"n"}"#), None);
    assert_eq!(pair(r#"{"domain":"keycrop.net","name":"n","value":7}"#), None);
    for bad in [";", "\\n", "\\r", "="] {
        let text = format!(r#"{{"domain":"keycrop.net","name":"n{bad}","value":"v"}}"#);
        assert_eq!(pair(&text), None);
    }
    for bad in [";", "\\n", "\\r"] {
        let text = format!(r#"{{"domain":"keycrop.net","name":"n","value":"v{bad}"}}"#);
        assert_eq!(pair(&text), None);
    }
    assert_eq!(
        pair(r#"{"domain":"keycrop.net","name":"n","value":"a=b"}"#).as_deref(),
        Some("n=a=b")
    );
    assert_eq!(pair("[]"), None);
}

#[test]
fn exports_without_use_are_refused() {
    assert_eq!(
        normalized_cookie(" [] ").unwrap_err(),
        "В экспорте нет действующих cookies для keycrop.net"
    );
    let reason = serde_json::from_str::<Vec<serde_json::Value>>("[1,").unwrap_err();
    assert_eq!(
        normalized_cookie("[1,").unwrap_err(),
        format!("Не удалось прочитать экспорт EditThisCookie: {reason}")
    );
    assert_eq!(
        exported_cookies(Err("why".to_string()), 0).unwrap_err(),
        "Не удалось прочитать экспорт EditThisCookie: why"
    );
}

#[test]
fn a_cookie_without_a_future_is_left_out_now() {
    let export = r#"[{"domain":"keycrop.net","name":"old","value":"1","expirationDate":1},
        {"domain":"keycrop.net","name":"new","value":"2"}]"#;
    assert_eq!(normalized_cookie(export).unwrap(), "new=2");
}
