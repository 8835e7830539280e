use codex_account_switcher::json::{parse, Json};
use codex_account_switcher::profiles::{
    activate_profile, activate_profile_with, activation_of, active_by, add_profile_json,
    add_profile_json_with, add_unless_saved, add_value, add_value_with, confirm_activation,
    confirm_addition, confirm_deletion, decide,
    delete_profile, delete_profile_at, detect_active, draw,
    ensure_initial_profile, ensure_initial_profile_with, find_profile, is_duplicate,
    is_same_account, listed_with, load_snapshot, profile_value, read_profiles, same_account_by, Active, Draw, IndexFile,
    Profile,
};

const ID: u128 = 0x0123_4567_89ab_4cde_8f01_2345_6789_abcd;

fn json(text: &str) -> Json {
    parse(text).unwrap()
}

fn profile(id: u128, file_name: &str) -> Profile {
    Profile {
        id,
        name: "test".to_string(),
        file_name: file_name.to_string(),
        created_at: "2024-01-01T00:00:00+00:00".to_string(),
        color_name: None,
    }
}

fn drawn() -> Draw {
    Draw { file_id: ID, id: 7, created_at: "now".to_string() }
}

fn file(text: &str) -> Result<Vec<u8>, String> {
    Ok(text.as_bytes().to_vec())
}

#[test]
fn active_profile_captures_rotated_tokens() {
    let old = br#"{"tokens":{"account_id":"acc_1","access_token":"old"}}"#;
    let refreshed = br#"{"tokens":{"account_id":"acc_1","access_token":"fresh"}}"#;
    let profile = profile(ID, "test.json");
    let profiles = vec![profile.clone()];
    let mut saved = vec![Ok(old.to_vec())];
    let current = Some(refreshed.to_vec());
    let found = detect_active(&current, &profiles, &saved).unwrap();
    assert_eq!(found.id, profile.id);
    assert_eq!(found.refresh, Some(0));
    saved[found.refresh.unwrap()] = Ok(refreshed.to_vec());
    assert_eq!(
        detect_active(&current, &profiles, &saved),
        Some(Active { id: profile.id, refresh: None })
    );
}

#[test]
fn the_first_profile_of_the_account_is_in_use() {
    let one = r#"{"tokens":{"account_id":"1"}}"#;
    let two = r#"{"tokens":{"account_id":"2"}}"#;
    let profiles = vec![profile(1, "a"), profile(2, "b"), profile(3, "c")];
    let saved = vec![Err("gone".to_string()), file(one), file(two)];
    let found = |text: &str| detect_active(&Some(text.as_bytes().to_vec()), &profiles, &saved);
    assert_eq!(found(two), Some(Active { id: 3, refresh: None }));
    assert_eq!(found("{\"tokens\":{\"account_id\":\"1\"} }"), Some(Active { id: 2, refresh: Some(1) }));
    assert_eq!(found(r#"{"tokens":{"account_id":"3"}}"#), None);
    assert_eq!(found("damaged"), None);
    assert_eq!(detect_active(&None, &profiles, &saved), None);
}

#[test]
fn a_shared_uuid_leads_to_the_first_profile() {
    let profiles = vec![profile(5, "a"), profile(5, "b")];
    let saved = vec![file("{}"), file(r#"{"tokens":{"account_id":"1"}}"#)];
    let current = Some(br#"{"tokens":{"account_id":"1"}}"#.to_vec());
    assert_eq!(
        detect_active(&current, &profiles, &saved),
        Some(Active { id: 5, refresh: Some(0) })
    );
}

#[test]
fn accounts_are_compared_by_identity_and_text() {
    let a = json(r#"{"_meta":{"email":"A@b"},"x":1}"#);
    let b = json(r#"{"_meta":{"email":"a@B"},"x":2}"#);
    assert!(is_same_account(&a, &b));
    assert!(is_same_account(&json(r#"{"x":1,"y":2}"#), &json(r#"{"y":2,"x":1}"#)));
    assert!(!is_same_account(&json(r#"{"x":1}"#), &json(r#"{"x":2}"#)));
}

#[test]
fn duplicates_are_looked_for_in_order() {
    let value = json(r#"{"tokens":{"account_id":"1"}}"#);
    let same = file(r#"{"tokens":{"account_id":"1","access_token":"z"}}"#);
    let other = file("{}");
    let gone = Err("gone".to_string());
    assert_eq!(is_duplicate(&vec![], &value), Ok(false));
    assert_eq!(is_duplicate(&vec![other.clone(), same.clone()], &value), Ok(true));
    assert_eq!(is_duplicate(&vec![same, gone.clone()], &value), Ok(true));
    assert_eq!(is_duplicate(&vec![other.clone(), gone], &value), Err("gone".to_string()));
    assert_eq!(is_duplicate(&vec![other], &value), Ok(false));
    let reason = serde_json::from_slice::<serde_json::Value>(b"x").unwrap_err().to_string();
    assert_eq!(profile_value(&file("x")), Err(reason.clone()));
    assert_eq!(is_duplicate(&vec![file("x")], &value), Err(reason));
}

#[test]
fn the_first_verdict_that_is_not_no_decides() {
    let no = Ok(false);
    let yes = Ok(true);
    let bad = Err("gone".to_string());
    assert_eq!(decide(vec![]), Ok(false));
    assert_eq!(decide(vec![no.clone(), yes.clone(), bad.clone()]), Ok(true));
    assert_eq!(decide(vec![no.clone(), bad.clone(), yes]), bad);
    assert_eq!(decide(vec![no.clone(), no]), Ok(false));
}

#[test]
fn accounts_are_the_same_by_identity_or_text() {
    let a = Some("account:1".to_string());
    let b = Some("account:2".to_string());
    let (x, y) = ("{}".to_string(), "[]".to_string());
    assert!(same_account_by(&a, &x, &a, &y));
    assert!(same_account_by(&a, &x, &b, &x));
    assert!(!same_account_by(&a, &x, &b, &y));
    assert!(!same_account_by(&None, &x, &None, &y));
}

#[test]
fn a_saved_account_is_not_added() {
    let value = json("{}");
    let contents = b"{}".to_vec();
    let same = add_unless_saved(Ok(true), "x", &value, contents.clone(), drawn());
    assert_eq!(same, Ok(None));
    let bad = Err("gone".to_string());
    let unknown = add_unless_saved(bad, "x", &value, contents.clone(), drawn());
    assert_eq!(unknown, Err("gone".to_string()));
    let added = add_unless_saved(Ok(false), "x", &value, contents, drawn()).unwrap().unwrap();
    assert_eq!(added.contents, b"{}");
    assert_eq!(added.profile.name, "x");
}

#[test]
fn the_profile_in_use_is_refreshed_where_it_differs() {
    let profiles = vec![profile(1, "a"), profile(2, "b")];
    let flags = |a: bool, b: bool| vec![a, b];
    assert_eq!(active_by(&profiles, &flags(false, false), &flags(true, true)), None);
    assert_eq!(
        active_by(&profiles, &flags(false, true), &flags(false, false)),
        Some(Active { id: 2, refresh: Some(1) })
    );
    assert_eq!(
        active_by(&profiles, &flags(true, true), &flags(true, false)),
        Some(Active { id: 1, refresh: None })
    );
}

#[test]
fn only_what_was_checked_is_activated() {
    let contents = b"{}".to_vec();
    let stamp = Some("now".to_string());
    let ready = activation_of(contents.clone(), Ok(json("{}")), stamp.clone()).unwrap();
    assert_eq!(ready.contents, contents);
    assert_eq!(ready.backup.as_deref(), Some("auth_now.json"));
    let refused = activation_of(contents, Err("bad".to_string()), stamp);
    assert_eq!(refused, Err("bad".to_string()));
}

#[test]
fn saved_accounts_stay_apart() {
    let mut saved = Vec::new();
    for text in [r#"{"a":1}"#, r#"{"a":1}"#, r#"{"a":2}"#, r#"{"tokens":{"account_id":"1"}}"#] {
        if let Some(new) = add_value(&saved, "", &json(text)).unwrap() {
            saved.push(Ok(new.contents));
        }
    }
    assert_eq!(saved.len(), 3);
    for i in 0..3 {
        for j in 0..i {
            let a = profile_value(&saved[i]).unwrap();
            let b = profile_value(&saved[j]).unwrap();
            assert!(!is_same_account(&a, &b));
        }
    }
}

#[test]
fn a_new_account_becomes_the_last_profile() {
    let value = json(r#"{"_meta":{"email":"user@example.com"},"tokens":{"account_id":"1"}}"#);
    let mut profiles = vec![profile(1, "a")];
    let added =
        add_value_with(&vec![file("{}")], "  ", &value, drawn()).unwrap().unwrap();
    assert_eq!(added.contents, serde_json::to_vec_pretty(&value.to_value()).unwrap());
    let list = listed_with(&profiles, &added.profile);
    confirm_addition(&mut profiles, added.profile, Ok(()), Ok(())).unwrap();
    assert_eq!(profiles, list);
    assert_eq!(profiles.len(), 2);
    assert_eq!(profiles[0], profile(1, "a"));
    assert_eq!(profiles[1].id, 7);
    assert_eq!(profiles[1].name, "user@example.com");
    assert_eq!(profiles[1].file_name, "01234567-89ab-4cde-8f01-23456789abcd.json");
    assert_eq!(profiles[1].created_at, "now");
    assert_eq!(profiles[1].color_name, None);
}

#[test]
fn names_are_trimmed_and_have_a_fallback() {
    let value = json("{}");
    let named = add_value_with(&vec![], " Работа ", &value, drawn()).unwrap().unwrap();
    assert_eq!(named.profile.name, "Работа");
    let unnamed = add_value_with(&vec![], "", &value, drawn()).unwrap().unwrap();
    assert_eq!(unnamed.profile.name, "Codex аккаунт");
}

#[test]
fn an_account_is_added_once() {
    let value = json(r#"{"tokens":{"access_token":"only"}}"#);
    let added = add_value(&vec![], "one", &value).unwrap().unwrap();
    assert_eq!(added.profile.name, "one");
    let saved = vec![Ok(added.contents)];
    assert_eq!(add_value(&saved, "two", &value), Ok(None));
    let broken = vec![Err("gone".to_string())];
    assert_eq!(add_value(&broken, "two", &value), Err("gone".to_string()));
}

#[test]
fn an_account_with_doubles_is_added_once() {
    let value = json(r#"{"tokens":{"account_id":"1"},"x":[0.1,1e300,-2.5e-7]}"#);
    let added = add_value(&vec![], "", &value).unwrap().unwrap();
    let read = profile_value(&Ok(added.contents.clone())).unwrap();
    assert_eq!(read.at("tokens", "account_id").unwrap().as_str(), Some("1"));
    assert_eq!(add_value(&vec![Ok(added.contents)], "", &value), Ok(None));
}

#[test]
fn what_is_drawn_is_new() {
    let a = draw();
    let b = draw();
    for id in [a.file_id, a.id, b.file_id, b.id] {
        assert_eq!(uuid::Uuid::from_u128(id).get_version_num(), 4);
    }
    assert_ne!(a.id, b.id);
    assert_ne!(a.file_id, a.id);
    assert!(a.created_at.len() >= 25 && a.created_at.ends_with("+00:00"));
    assert_eq!(&a.created_at[4..5], "-");
    assert_eq!(&a.created_at[10..11], "T");
    let time = chrono::DateTime::parse_from_rfc3339(&a.created_at).unwrap();
    assert!((chrono::Utc::now().timestamp() - time.timestamp()).abs() < 60);
}

#[test]
fn the_current_account_is_the_first_profile() {
    let auth = Some(Ok(r#"{"tokens":{"account_id":"1"}}"#.to_string()));
    let added = ensure_initial_profile_with(&vec![], auth.clone(), drawn()).unwrap().unwrap();
    assert_eq!(added.profile.name, "Текущий аккаунт");
    assert_eq!(ensure_initial_profile(&vec![added.profile], auth), Ok(None));
    let none = vec![];
    assert_eq!(ensure_initial_profile(&none, None), Ok(None));
    assert_eq!(
        ensure_initial_profile(&none, Some(Err("unreadable".to_string()))),
        Err("unreadable".to_string())
    );
    assert_eq!(
        ensure_initial_profile(&none, Some(Ok("7".to_string()))),
        Err("auth.json должен содержать JSON-объект".to_string())
    );
    let some = ensure_initial_profile(&none, Some(Ok("{}".to_string()))).unwrap();
    assert_eq!(some.unwrap().contents, b"{}");
}

#[test]
fn a_profile_is_listed_only_once_its_file_is_written() {
    let start = vec![profile(1, "a")];
    let failed = || Err("full".to_string());
    let mut profiles = start.clone();
    let added = confirm_addition(&mut profiles, profile(2, "b"), failed(), Ok(()));
    assert_eq!(added, failed());
    assert_eq!(profiles, start);
    let added = confirm_addition(&mut profiles, profile(2, "b"), Ok(()), failed());
    assert_eq!(added, failed());
    assert_eq!(profiles, vec![profile(1, "a"), profile(2, "b")]);
    let added = confirm_addition(&mut profiles, profile(3, "c"), Ok(()), Ok(()));
    assert_eq!(added, Ok(()));
    assert_eq!(profiles.len(), 3);
    let lost = confirm_addition(
        &mut profiles,
        profile(4, "d"),
        Err("file".to_string()),
        Err("index".to_string()),
    );
    assert_eq!(lost, Err("file".to_string()));
    assert_eq!(profiles.len(), 3);
}

#[test]
fn codex_is_left_alone_where_nothing_could_be_kept() {
    let ready = || activate_profile(file("{}"), true).unwrap();
    assert_eq!(confirm_activation(ready(), Ok(())), Ok(b"{}".to_vec()));
    assert_eq!(
        confirm_activation(ready(), Err("full".to_string())),
        Err("full".to_string())
    );
}

#[test]
fn pasted_accounts_are_added_or_refused() {
    let text = r#"{"tokens":{"account_id":"1"}}"#;
    let (profiles, added) =
        add_profile_json_with(Ok(vec![]), &vec![], "Дом", text, drawn()).unwrap();
    assert!(profiles.is_empty());
    assert_eq!(added.profile.name, "Дом");
    let saved = vec![Ok(added.contents)];
    assert_eq!(
        add_profile_json(Ok(profiles), &saved, "Дом", text),
        Err("Этот Codex-аккаунт уже добавлен".to_string())
    );
    let damaged = Err("index".to_string());
    assert_eq!(
        add_profile_json(damaged.clone(), &vec![], "", "[]"),
        Err("auth.json должен содержать JSON-объект".to_string())
    );
    assert_eq!(add_profile_json(damaged, &vec![], "", "{}"), Err("index".to_string()));
    assert!(add_profile_json(Ok(vec![]), &vec![], "", "{}").is_ok());
}

#[test]
fn another_token_of_a_pasted_account_is_refused() {
    let first = r#"{"tokens":{"account_id":"1","access_token":"old"},"n":0.1}"#;
    let second = r#"{"tokens":{"account_id":"1","access_token":"fresh"}}"#;
    let saved = vec![file("{}")];
    let start = vec![profile(1, "a")];
    let (profiles, added) = add_profile_json(Ok(start), &saved, "one", first).unwrap();
    let saved = vec![file("{}"), Ok(added.contents)];
    assert_eq!(
        add_profile_json(Ok(profiles), &saved, "two", second),
        Err("Этот Codex-аккаунт уже добавлен".to_string())
    );
}

#[test]
fn a_deletion_is_stored_only_once_the_file_was_moved() {
    let mut profiles = vec![profile(1, "a"), profile(2, "b")];
    delete_profile(&mut profiles, 1).unwrap();
    assert_eq!(
        confirm_deletion(profiles.clone(), Err("denied".to_string())),
        Err("denied".to_string())
    );
    assert_eq!(confirm_deletion(profiles, Ok(())), Ok(vec![profile(2, "b")]));
}

#[test]
fn the_list_of_profiles_is_read() {
    assert_eq!(read_profiles(IndexFile::Missing), Ok(vec![]));
    assert_eq!(
        read_profiles(IndexFile::Unreadable("denied".to_string())),
        Err("denied".to_string())
    );
    assert_eq!(
        read_profiles(IndexFile::Damaged("EOF".to_string())),
        Err("profiles.json повреждён: EOF".to_string())
    );
    assert_eq!(
        read_profiles(IndexFile::Holds(vec![profile(1, "a")])),
        Ok(vec![profile(1, "a")])
    );
}

#[test]
fn profiles_are_found_by_uuid() {
    let profiles = vec![profile(1, "a"), profile(2, "b"), profile(2, "c")];
    assert_eq!(find_profile(&profiles, 2), Ok(1));
    assert_eq!(find_profile(&profiles, 3), Err("Профиль не найден".to_string()));
}

#[test]
fn activation_checks_and_keeps() {
    let text = "{ \"tokens\": {} }";
    let ready = activate_profile_with(file(text), Some("stamp".to_string())).unwrap();
    assert_eq!(ready.contents, text.as_bytes());
    assert_eq!(ready.backup.as_deref(), Some("auth_stamp.json"));
    assert_eq!(activate_profile_with(file(text), None).unwrap().backup, None);
    assert_eq!(activate_profile(file(text), false).unwrap().backup, None);
    let kept = activate_profile(file(text), true).unwrap().backup.unwrap();
    assert_eq!(kept.len(), "auth_2024-01-31_23-59-59-999.json".len());
    assert!(kept.starts_with("auth_2") && kept.ends_with(".json"));
    for (i, c) in kept["auth_".len()..kept.len() - ".json".len()].char_indices() {
        match i {
            4 | 7 | 13 | 16 | 19 => assert_eq!(c, '-'),
            10 => assert_eq!(c, '_'),
            _ => assert!(c.is_ascii_digit()),
        }
    }
    assert_eq!(
        activate_profile(file("[]"), true),
        Err("auth.json должен содержать JSON-объект".to_string())
    );
    assert_eq!(activate_profile(Err("gone".to_string()), true), Err("gone".to_string()));
    let bytes = vec![b'{', 0xff];
    let reason = std::str::from_utf8(&bytes).unwrap_err().to_string();
    assert_eq!(activate_profile(Ok(bytes), true), Err(reason));
}

#[test]
fn an_activated_profile_is_in_use() {
    let profiles = vec![profile(1, "a"), profile(2, "b")];
    let saved = vec![file("{}"), file(r#"{"tokens":{"account_id":"1"}}"#)];
    let ready = activate_profile(saved[1].clone(), false).unwrap();
    assert_eq!(
        detect_active(&Some(ready.contents), &profiles, &saved),
        Some(Active { id: 2, refresh: None })
    );
}

#[test]
fn deleted_profiles_are_gone() {
    let mut profiles = vec![profile(1, "a"), profile(ID, "b"), profile(3, "c")];
    let removal = delete_profile_at(&mut profiles, ID, 1_700_000_000).unwrap();
    assert_eq!(removal.file_name, "b");
    assert_eq!(
        removal.backup_name,
        "deleted_01234567-89ab-4cde-8f01-23456789abcd_1700000000.json"
    );
    assert_eq!(profiles, vec![profile(1, "a"), profile(3, "c")]);
    assert_eq!(
        delete_profile(&mut profiles, ID),
        Err("Профиль не найден".to_string())
    );
    assert_eq!(find_profile(&profiles, 3), Ok(1));
    let removal = delete_profile(&mut profiles, 3).unwrap();
    assert_eq!(removal.file_name, "c");
    assert_eq!(profiles, vec![profile(1, "a")]);
}

#[test]
fn deleting_undoes_adding() {
    let before = vec![profile(1, "a")];
    let mut profiles = before.clone();
    let added = add_value_with(&vec![], "x", &json("{}"), drawn()).unwrap().unwrap();
    let file_name = added.profile.file_name.clone();
    confirm_addition(&mut profiles, added.profile, Ok(()), Ok(())).unwrap();
    assert_eq!(find_profile(&profiles, 7), Ok(1));
    assert_eq!(find_profile(&profiles, 1), Ok(0));
    let removal = delete_profile_at(&mut profiles, 7, 0).unwrap();
    assert_eq!(removal.file_name, file_name);
    assert_eq!(profiles, before);
}

#[test]
fn the_snapshot_shows_the_profile_in_use() {
    let active = Some(Active { id: 1, refresh: Some(0) });
    let snapshot = load_snapshot(vec![profile(1, "a")], active, "/home/me/auth".to_string());
    assert_eq!(snapshot.profiles, vec![profile(1, "a")]);
    assert_eq!(snapshot.active_id, Some(1));
    assert_eq!(snapshot.codex_auth_path, "/home/me/auth");
    assert_eq!(load_snapshot(vec![], None, String::new()).active_id, None);
}
