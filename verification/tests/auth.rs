use codex_account_switcher::auth::{
    checked_auth, collect_auth_values, identity, looks_like_codex_auth, suggested_name,
    validate_auth_json, KeySet,
};
use codex_account_switcher::json::{parse, Json};

fn json(text: &str) -> Json {
    parse(text).unwrap()
}

#[test]
fn finds_nested_stringified_auth() {
    let delivery = Json::Object(vec![(
        "delivery".to_string(),
        Json::Text("{\"tokens\":{\"account_id\":\"acc_1\"}}".to_string()),
    )]);
    let payload = Json::Object(vec![("purchases".to_string(), Json::List(vec![delivery]))]);
    let mut found = Vec::new();
    collect_auth_values(&payload, &mut found, &mut KeySet::new());
    assert_eq!(found.len(), 1);
    assert_eq!(identity(&found[0]).as_deref(), Some("account:acc_1"));
}

#[test]
fn identity_is_the_account_else_the_address() {
    assert_eq!(
        identity(&json(r#"{"tokens":{"account_id":"A"},"_meta":{"email":"X@Y"}}"#)).as_deref(),
        Some("account:A")
    );
    assert_eq!(
        identity(&json(r#"{"tokens":{"account_id":""},"_meta":{"email":"User@Example.COM"}}"#))
            .as_deref(),
        Some("email:user@example.com")
    );
    assert_eq!(
        identity(&json(r#"{"_meta":{"email":"ИМЯ@Пример"}}"#)).as_deref(),
        Some("email:имя@пример")
    );
    assert_eq!(identity(&json(r#"{"tokens":{"account_id":7},"_meta":{"email":""}}"#)), None);
    assert_eq!(identity(&json("[]")), None);
}

#[test]
fn rotated_tokens_keep_the_identity() {
    let before = json(r#"{"tokens":{"account_id":"acc_1","access_token":"old"}}"#);
    let after = json(r#"{"tokens":{"account_id":"acc_1","access_token":"fresh"}}"#);
    let other = json(r#"{"tokens":{"account_id":"acc_2","access_token":"old"}}"#);
    let mailed = json(r#"{"_meta":{"email":"acc_1"}}"#);
    assert_eq!(identity(&before), identity(&after));
    assert_ne!(identity(&before), identity(&other));
    assert_ne!(identity(&before), identity(&mailed));
}

#[test]
fn names_are_suggested() {
    let both = json(r#"{"tokens":{"account_id":"A"},"_meta":{"email":"X@Y"}}"#);
    assert_eq!(suggested_name(&both, "f"), "X@Y");
    assert_eq!(suggested_name(&json(r#"{"tokens":{"account_id":"A"}}"#), "f"), "A");
    let empty = json(r#"{"tokens":{"account_id":"A"},"_meta":{"email":""}}"#);
    assert_eq!(suggested_name(&empty, "f"), "f");
    assert_eq!(suggested_name(&json("{}"), "f"), "f");
}

#[test]
fn an_authorisation_is_an_object() {
    assert!(validate_auth_json("{}").is_ok());
    assert_eq!(
        validate_auth_json("[1]").unwrap_err(),
        "auth.json должен содержать JSON-объект"
    );
    let reason = serde_json::from_str::<serde_json::Value>("nope").unwrap_err();
    assert_eq!(validate_auth_json("nope").unwrap_err(), format!("Некорректный JSON: {reason}"));
    assert_eq!(
        checked_auth(Err("why".to_string())).unwrap_err(),
        "Некорректный JSON: why"
    );
    assert_eq!(checked_auth(Ok(json("{}"))).unwrap(), json("{}"));
}

#[test]
fn authorisations_are_recognised_by_their_tokens() {
    for name in ["account_id", "access_token", "refresh_token"] {
        assert!(looks_like_codex_auth(&json(&format!(r#"{{"tokens":{{"{name}":null}}}}"#))));
    }
    assert!(!looks_like_codex_auth(&json(r#"{"tokens":{"id_token":"x"}}"#)));
    assert!(!looks_like_codex_auth(&json(r#"{"tokens":["account_id"]}"#)));
    assert!(!looks_like_codex_auth(&json(r#"{"account_id":"x"}"#)));
}

#[test]
fn each_account_is_gathered_once() {
    let payload = json(
        r#"{
          "a": [{"tokens":{"account_id":"1","access_token":"x"}},
                "  {\"tokens\":{\"account_id\":\"1\",\"access_token\":\"y\"}}",
                {"tokens":{"access_token":"z"}},
                "{\"tokens\":{\"access_token\":\"z\"}}"],
          "b": "{not json",
          "c": "[{\"tokens\":{\"account_id\":\"9\"}}]",
          "d": {"tokens":{"account_id":"2"},"inner":{"tokens":{"account_id":"3"}}}
        }"#,
    );
    let mut found = Vec::new();
    let mut seen = KeySet::new();
    collect_auth_values(&payload, &mut found, &mut seen);
    assert_eq!(
        found,
        vec![
            json(r#"{"tokens":{"account_id":"1","access_token":"x"}}"#),
            json(r#"{"tokens":{"access_token":"z"}}"#),
            json(r#"{"tokens":{"account_id":"2"},"inner":{"tokens":{"account_id":"3"}}}"#),
        ]
    );
    collect_auth_values(&payload, &mut found, &mut seen);
    assert_eq!(found.len(), 3);
    assert!(!seen.insert("account:1".to_string()));
    assert!(seen.insert("account:9".to_string()));
}

#[test]
fn strings_within_strings_are_followed() {
    let inner = r#"{"tokens":{"account_id":"deep"}}"#;
    let middle = serde_json::to_string(&serde_json::Value::from(inner)).unwrap();
    let outer = format!(r#"{{"text":{middle}}}"#);
    let payload = Json::Text(outer);
    let mut found = Vec::new();
    collect_auth_values(&payload, &mut found, &mut KeySet::new());
    assert_eq!(found, vec![json(inner)]);
}
