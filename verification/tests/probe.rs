use codex_account_switcher::json::{parse, Json};
use codex_account_switcher::paths::Paths;
use codex_account_switcher::probe::{
    answer_in, finish_probe, hello_message, identity_read, limits_message, probe_answer,
    probe_command, probe_places, rate_limits, refreshed_auth, takes_over,
};
use codex_account_switcher::profiles::Profile;

fn json(text: &str) -> Json {
    parse(text).unwrap()
}

#[test]
fn codex_is_started_as_a_server() {
    let command = probe_command(false, "/usr/bin/codex");
    assert_eq!(command.program, None);
    assert_eq!(command.args, vec!["app-server", "--stdio"]);
    let command = probe_command(true, "C:\\codex.cmd");
    assert_eq!(command.program.as_deref(), Some("cmd"));
    assert_eq!(command.args, vec!["/C", "C:\\codex.cmd", "app-server", "--stdio"]);
}

#[test]
fn messages_are_lines_of_json() {
    assert!(hello_message().ends_with("}}}\n"));
    let hello = json(hello_message().trim());
    assert_eq!(hello.get("id").unwrap().as_i64(), Some(1));
    assert_eq!(hello.get("method").unwrap().as_str(), Some("initialize"));
    let text = limits_message();
    let lines: Vec<&str> = text.lines().collect();
    assert_eq!(lines.len(), 2);
    assert_eq!(json(lines[0]).get("method").unwrap().as_str(), Some("initialized"));
    assert_eq!(
        json(lines[1]).get("method").unwrap().as_str(),
        Some("account/rateLimits/read")
    );
    assert!(probe_answer(lines[1]).is_some());
}

#[test]
fn the_answer_is_the_line_with_its_number() {
    assert!(probe_answer(r#"{"id":2,"result":{}}"#).is_some());
    for other in [r#"{"id":1}"#, r#"{"id":"2"}"#, r#"{"id":2.0}"#, "{}", "log line", ""] {
        assert_eq!(probe_answer(other), None);
    }
    assert_eq!(answer_in(Err("x".to_string())), None);
    assert_eq!(answer_in(Ok(json(r#"{"id":2}"#))), Some(json(r#"{"id":2}"#)));
}

#[test]
fn limits_are_in_the_answer() {
    let good = Some(json(r#"{"id":2,"result":{"rateLimits":{"primary":1}}}"#));
    assert_eq!(rate_limits(&good), Ok(json(r#"{"primary":1}"#)));
    assert_eq!(rate_limits(&None), Err("Codex не вернул лимиты за 8 секунд".to_string()));
    assert_eq!(
        rate_limits(&Some(json(r#"{"error":{"b":1,"a":[ ]},"result":{"rateLimits":1}}"#))),
        Err("Codex отклонил профиль: {\"a\":[],\"b\":1}".to_string())
    );
    assert_eq!(
        rate_limits(&Some(json(r#"{"result":{}}"#))),
        Err("В ответе Codex нет rateLimits".to_string())
    );
}

#[test]
fn rotated_tokens_are_taken_over_only_for_the_same_account() {
    let stored = br#"{"tokens":{"account_id":"1","access_token":"old"}}"#.to_vec();
    let fresh = br#"{"tokens":{"account_id":"1","access_token":"new"}}"#.to_vec();
    let other = br#"{"tokens":{"account_id":"2","access_token":"new"}}"#.to_vec();
    let nobody = br#"{"tokens":{"access_token":"new"}}"#.to_vec();
    assert!(refreshed_auth(&stored, &Some(fresh.clone())));
    assert!(!refreshed_auth(&stored, &Some(stored.clone())));
    assert!(!refreshed_auth(&stored, &Some(other)));
    assert!(!refreshed_auth(&stored, &Some(b"damaged".to_vec())));
    assert!(!refreshed_auth(&stored, &None));
    assert!(!refreshed_auth(&nobody, &Some(fresh.clone())));
    assert!(!refreshed_auth(&nobody, &Some(br#"{"tokens":{}}"#.to_vec())));
    assert_eq!(
        identity_read(Ok(json(r#"{"tokens":{"account_id":"1"}}"#))).as_deref(),
        Some("account:1")
    );
    assert_eq!(identity_read(Err("x".to_string())), None);

    let one = Some("account:1".to_string());
    let two = Some("account:2".to_string());
    assert!(takes_over(&stored, &one, &fresh, &one));
    assert!(!takes_over(&stored, &one, &fresh, &two));
    assert!(!takes_over(&stored, &one, &stored, &one));
    assert!(!takes_over(&stored, &None, &fresh, &None));

    let good = Some(json(r#"{"result":{"rateLimits":7}}"#));
    let outcome = finish_probe(&good, &stored, &Some(fresh.clone())).unwrap();
    assert_eq!(outcome.limits, json("7"));
    assert!(outcome.replace);
    assert!(!finish_probe(&good, &stored, &None).unwrap().replace);
    assert!(finish_probe(&None, &stored, &Some(fresh)).is_err());
}

#[test]
fn a_probe_has_places_of_its_own() {
    let paths = Paths::discover(true).unwrap();
    let id = 0x0123_4567_89ab_4cde_8f01_2345_6789_abcd;
    let profiles = vec![Profile {
        id,
        name: String::new(),
        file_name: "p.json".to_string(),
        created_at: String::new(),
        color_name: None,
    }];
    let places = probe_places(&paths, &profiles, id).unwrap();
    let home = [
        ".codex",
        "account-switcher",
        "query-homes",
        "01234567-89ab-4cde-8f01-23456789abcd",
    ];
    assert_eq!(places.home.parts, home);
    assert_eq!(places.auth, places.home.join("auth.json"));
    assert_eq!(places.config_copy, places.home.join("config.toml"));
    assert_eq!(places.config.parts, [".codex", "config.toml"]);
    assert_eq!(places.profile, paths.profiles.join("p.json"));
    assert_ne!(places.auth, paths.auth);
    assert_ne!(places.home, paths.probe_home(id + 1));
    assert_eq!(
        probe_places(&paths, &profiles, 1),
        Err("Профиль не найден".to_string())
    );
}
