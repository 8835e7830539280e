use codex_account_switcher::paths::{
    binary_places, find_codex_binary, secure_directory, secure_write, temporary_extension,
    temporary_extension_for, BinaryPlace, Paths, Place, WriteStep,
};

#[test]
fn everything_lies_below_the_codex_directory() {
    let paths = Paths::discover(true).unwrap();
    assert_eq!(paths.codex_dir.parts, [".codex"]);
    assert_eq!(paths.auth.parts, [".codex", "auth.json"]);
    assert_eq!(paths.app_dir.parts, [".codex", "account-switcher"]);
    assert_eq!(paths.profiles.parts, [".codex", "account-switcher", "profiles"]);
    assert_eq!(paths.backups.parts, [".codex", "account-switcher", "backups"]);
    assert_eq!(paths.probes.parts, [".codex", "account-switcher", "query-homes"]);
    assert_eq!(paths.index.parts, [".codex", "account-switcher", "profiles.json"]);
    assert_eq!(
        Paths::discover(false),
        Err("Не удалось определить домашний каталог".to_string())
    );
}

#[test]
fn directories_are_made_in_order() {
    let paths = Paths::discover(true).unwrap();
    let made = paths.ensure();
    assert_eq!(
        made,
        vec![
            paths.codex_dir.clone(),
            paths.app_dir.clone(),
            paths.profiles.clone(),
            paths.backups.clone(),
            paths.probes.clone(),
        ]
    );
    assert_eq!(Place::home().join("a").join("b").parts, ["a", "b"]);
    assert_eq!(secure_directory(true), Some(0o700));
    assert_eq!(secure_directory(false), None);
}

#[test]
fn files_are_written_next_to_their_place() {
    assert_eq!(
        secure_write(true, true, false, true),
        vec![
            WriteStep::MakeParent,
            WriteStep::WriteTemporary,
            WriteStep::Restrict(0o600),
            WriteStep::MoveIntoPlace,
        ]
    );
    assert_eq!(
        secure_write(false, false, true, true),
        vec![WriteStep::WriteTemporary, WriteStep::RemoveOld, WriteStep::MoveIntoPlace]
    );
    assert_eq!(
        secure_write(false, false, true, false),
        vec![WriteStep::WriteTemporary, WriteStep::MoveIntoPlace]
    );
    assert_eq!(
        temporary_extension_for(0x0123_4567_89ab_4cde_8f01_2345_6789_abcd),
        "tmp-01234567-89ab-4cde-8f01-23456789abcd"
    );
    assert_ne!(temporary_extension(), temporary_extension());
    assert_eq!(temporary_extension().len(), 40);
}

#[test]
fn the_binary_is_looked_for_in_order() {
    let places = binary_places(false, 2, true);
    assert_eq!(
        places,
        vec![
            BinaryPlace::OnPath { entry: 0, name: "codex".to_string() },
            BinaryPlace::OnPath { entry: 1, name: "codex".to_string() },
            BinaryPlace::Fixed("/opt/homebrew/bin/codex".to_string()),
            BinaryPlace::Fixed("/usr/local/bin/codex".to_string()),
            BinaryPlace::UnderHome(".local/bin/codex".to_string()),
            BinaryPlace::UnderHome("AppData/Roaming/npm/codex.cmd".to_string()),
        ]
    );
    assert_eq!(
        binary_places(true, 1, false)[0],
        BinaryPlace::OnPath { entry: 0, name: "codex.cmd".to_string() }
    );
    assert_eq!(binary_places(true, 0, false).len(), 2);
    assert_eq!(find_codex_binary(&vec![false, true, true]), Ok(1));
    assert_eq!(
        find_codex_binary(&vec![false]),
        Err("Codex CLI не найден. Установи его и перезапусти приложение.".to_string())
    );
}
