use steam_switcher::error::AppError;
use steam_switcher::library::{
    copy_game_settings, copy_steps, extract_manifest_value, get_copyable_games,
    is_app_manifest_name, list_account_games, load_app_names, load_library_paths,
    unescape_vdf_path, AppName, CopyStep, FolderEntry,
};

#[test]
fn library_roots_include_install_without_manifest() {
    assert_eq!(load_library_paths("C:\\Steam", None), vec!["C:\\Steam".to_string()]);
    assert_eq!(
        load_library_paths("C:\\Steam", Some("not a manifest {{{")),
        vec!["C:\\Steam".to_string()]
    );
}

#[test]
fn library_roots_sorted_and_deduplicated() {
    let manifest = "\"libraryfolders\"\n{\n\t\"0\"\n\t{\n\t\t\"path\"\t\t\"C:\\\\Steam\"\n\t}\n\t\"1\"\n\t{\n\t\t\"PATH\"\t\t\"  D:\\\\Games  \"\n\t\t\"path\"\t\t\"\"\n\t}\n\t\"2\"\n\t{\n\t\t\"path\"\t\t\"B:\\\\Lib\"\n\t}\n}\n";
    let roots = load_library_paths("C:\\Steam", Some(manifest));
    assert_eq!(
        roots,
        vec!["B:\\Lib".to_string(), "C:\\Steam".to_string(), "D:\\Games".to_string()]
    );
}

#[test]
fn unescape_halves_doubled_backslashes() {
    assert_eq!(unescape_vdf_path("C:\\\\a\\\\b"), "C:\\a\\b");
    assert_eq!(unescape_vdf_path("\\\\\\"), "\\\\");
    assert_eq!(unescape_vdf_path("plain"), "plain");
}

#[test]
fn manifest_value_first_match_ignoring_case() {
    let text = "\"AppState\"\n{\n\t\"appid\"\t\t\"240\"\n\t\"Name\"\t\t\"Counter-Strike: Source\"\n\t\"name\"\t\t\"later\"\n}\n";
    assert_eq!(extract_manifest_value(text, "appid"), Some("240".to_string()));
    assert_eq!(
        extract_manifest_value(text, "NAME"),
        Some("Counter-Strike: Source".to_string())
    );
    assert_eq!(extract_manifest_value(text, "missing"), None);
}

#[test]
fn manifest_file_names() {
    assert!(is_app_manifest_name("appmanifest_240.acf"));
    assert!(!is_app_manifest_name("appmanifest_240.acf.bak"));
    assert!(!is_app_manifest_name("libraryfolders.vdf"));
    assert!(!is_app_manifest_name("appmanifest_"));
}

fn manifest(id: &str, name: &str) -> String {
    format!("\"AppState\"\n{{\n\t\"appid\"\t\t\"{}\"\n\t\"name\"\t\t\"{}\"\n}}\n", id, name)
}

#[test]
fn app_names_first_seen_wins() {
    let names = load_app_names(&vec![
        manifest("10", "First"),
        "\"AppState\"\n{\n\t\"appid\"\t\"11\"\n}\n".to_string(),
        manifest("10", "Second"),
        manifest("20", "Other"),
    ]);
    assert_eq!(names.len(), 2);
    assert_eq!(names[0].app_id, "10");
    assert_eq!(names[0].name, "First");
    assert_eq!(names[1].app_id, "20");
}

fn entry(name: &str, is_dir: bool) -> FolderEntry {
    FolderEntry { name: name.to_string(), is_dir }
}

#[test]
fn owned_ids_keep_numeric_folders() {
    let ids = list_account_games(&vec![
        entry("240", true),
        entry("7", true),
        entry("notanumber", true),
        entry("12", false),
    ]);
    assert_eq!(ids, vec!["240".to_string(), "7".to_string()]);
}

fn app(id: &str, name: &str) -> AppName {
    AppName { app_id: id.to_string(), name: name.to_string() }
}

#[test]
fn copyable_games_filter_and_sort() {
    let owned = vec![
        "240".to_string(),
        "7".to_string(),
        "760".to_string(),
        "999".to_string(),
        "10".to_string(),
        "20".to_string(),
    ];
    let names = vec![
        app("240", "counter"),
        app("7", "Client"),
        app("760", "Screens"),
        app("10", "Bravo"),
        app("20", "alpha"),
    ];
    let games = get_copyable_games(&owned, &names);
    let got: Vec<(&str, &str)> = games.iter().map(|g| (g.app_id.as_str(), g.name.as_str())).collect();
    assert_eq!(got, vec![("20", "alpha"), ("10", "Bravo"), ("240", "counter")]);
}

#[test]
fn copy_request_validation() {
    assert!(matches!(
        copy_game_settings("76561198000000001", "76561198000000002", "24a"),
        Err(AppError::InvalidAppId)
    ));
    assert!(matches!(
        copy_game_settings("76561198000000001", "76561198000000002", ""),
        Err(AppError::InvalidAppId)
    ));
    assert!(matches!(
        copy_game_settings("bad", "76561198000000002", "240"),
        Err(AppError::InvalidSteamId)
    ));
    assert!(matches!(
        copy_game_settings("76561198000000001", "bad", "240"),
        Err(AppError::InvalidSteamId)
    ));
    match copy_game_settings("76561197960287930", "4294967297", "240") {
        Ok(t) => {
            assert_eq!(t.from_dir, "22202");
            assert_eq!(t.to_dir, "1");
            assert_eq!(t.app_id, "240");
        }
        Err(_) => panic!("expected a copy target"),
    }
}

#[test]
fn copy_missing_source_writes_nothing() {
    match copy_steps("userdata/1/240", false, true) {
        Err(AppError::UserdataNotFound(p)) => assert_eq!(p, "userdata/1/240"),
        _ => panic!("expected not found"),
    }
    assert!(matches!(copy_steps("s", false, false), Err(AppError::UserdataNotFound(_))));
}

#[test]
fn copy_overwrites_existing_target() {
    match copy_steps("s", true, true) {
        Ok(steps) => {
            assert_eq!(steps.len(), 2);
            assert!(matches!(steps[0], CopyStep::RemoveTarget));
            assert!(matches!(steps[1], CopyStep::CopyTree));
        }
        Err(_) => panic!("expected steps"),
    }
    match copy_steps("s", true, false) {
        Ok(steps) => {
            assert_eq!(steps.len(), 1);
            assert!(matches!(steps[0], CopyStep::CopyTree));
        }
        Err(_) => panic!("expected steps"),
    }
}

#[test]
fn steamapps_folder_name_ignores_case() {
    assert!(steam_switcher::library::is_steamapps_name("SteamApps"));
    assert!(steam_switcher::library::is_steamapps_name("steamapps"));
    assert!(!steam_switcher::library::is_steamapps_name("steamapps2"));
    assert!(!steam_switcher::library::is_steamapps_name("Steam"));
}

#[test]
fn library_roots_merge_spellings_of_one_folder() {
    let manifest = "\"libraryfolders\"\n{\n\t\"0\"\n\t{\n\t\t\"path\"\t\t\"C:/Steam/\"\n\t}\n\t\"1\"\n\t{\n\t\t\"path\"\t\t\"E:\\\\\"\n\t}\n\t\"2\"\n\t{\n\t\t\"path\"\t\t\"E:\\\\\\\\\"\n\t}\n\t\"3\"\n\t{\n\t\t\"path\"\t\t\"E:\"\n\t}\n}\n";
    let roots = load_library_paths("C:\\Steam", Some(manifest));
    assert_eq!(
        roots,
        vec!["C:\\Steam".to_string(), "E:".to_string(), "E:\\".to_string()]
    );
}
