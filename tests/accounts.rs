use steam_switcher::accounts::{
    account_dir_name, current_account_name, get_accounts, get_accounts_snapshot,
    get_current_account_name, parse_login_users, steam_id_to_account_id, validate_steam_id,
    validate_username, LoginUser,
};
use steam_switcher::error::AppError;

fn user(name: &str, most_recent: bool, ts: Option<u64>) -> LoginUser {
    LoginUser {
        steam_id: format!("id_{}", name),
        account_name: name.to_string(),
        persona_name: String::new(),
        last_login_at: ts,
        is_most_recent: most_recent,
    }
}

#[test]
fn most_recent_flag_wins_over_timestamp() {
    let users = vec![
        user("A", false, Some(100)),
        user("B", true, Some(50)),
        user("C", false, Some(200)),
    ];
    assert_eq!(current_account_name(&users), "B");
}

#[test]
fn latest_timestamp_wins_without_flag() {
    let users = vec![user("A", false, Some(100)), user("C", false, Some(200))];
    assert_eq!(current_account_name(&users), "C");
}

#[test]
fn equal_timestamps_keep_first_seen() {
    let users = vec![user("A", false, Some(100)), user("B", false, Some(100))];
    assert_eq!(current_account_name(&users), "A");
}

#[test]
fn unnamed_records_are_ignored() {
    let users = vec![user("", true, Some(900)), user("A", false, None)];
    assert_eq!(current_account_name(&users), "A");
    assert_eq!(current_account_name(&vec![user("", false, Some(5))]), "");
    assert_eq!(current_account_name(&Vec::new()), "");
}

const LOGIN: &str = "\"users\"\n{\n\t\"76561198000000003\"\n\t{\n\t\t\"AccountName\"\t\t\"zed\"\n\t\t\"PersonaName\"\t\t\"Zed\"\n\t\t\"Timestamp\"\t\t\"300\"\n\t}\n\t\"76561198000000001\"\n\t{\n\t\t\"AccountName\"\t\t\"Amy\"\n\t\t\"Timestamp\"\t\t\"+100\"\n\t\t\"MostRecent\"\t\t\"1\"\n\t}\n\t\"76561198000000002\"\n\t{\n\t\t\"AccountName\"\t\t\"bob\"\n\t\t\"Timestamp\"\t\t\"junk\"\n\t}\n}\n";

#[test]
fn login_users_read_fields() {
    let users = parse_login_users(LOGIN);
    assert_eq!(users.len(), 3);
    assert_eq!(users[0].account_name, "zed");
    assert_eq!(users[0].persona_name, "Zed");
    assert_eq!(users[0].last_login_at, Some(300));
    assert!(!users[0].is_most_recent);
    assert_eq!(users[1].last_login_at, Some(100));
    assert!(users[1].is_most_recent);
    assert_eq!(users[2].last_login_at, None);
    assert_eq!(users[2].persona_name, "");
}

#[test]
fn snapshot_sorts_case_sensitively_and_resolves_current() {
    let (accounts, current) = get_accounts_snapshot(LOGIN);
    let names: Vec<&str> = accounts.iter().map(|a| a.account_name.as_str()).collect();
    assert_eq!(names, vec!["Amy", "bob", "zed"]);
    assert_eq!(accounts[0].steam_id, "76561198000000001");
    assert_eq!(current, "Amy");
    assert_eq!(get_current_account_name(LOGIN), "Amy");
    assert_eq!(get_accounts(LOGIN).len(), 3);
}

#[test]
fn empty_history_has_no_accounts() {
    let (accounts, current) = get_accounts_snapshot("");
    assert!(accounts.is_empty());
    assert_eq!(current, "");
}

#[test]
fn account_id_is_low_32_bits() {
    assert_eq!(steam_id_to_account_id("76561197960287930"), Some(22202));
    assert_eq!(steam_id_to_account_id("4294967296"), Some(0));
    assert_eq!(steam_id_to_account_id("18446744073709551615"), Some(4294967295));
    assert_eq!(steam_id_to_account_id("18446744073709551616"), None);
    assert_eq!(steam_id_to_account_id("12a"), None);
    assert_eq!(steam_id_to_account_id(""), None);
    assert_eq!(steam_id_to_account_id("+"), None);
    assert_eq!(steam_id_to_account_id("+5"), Some(5));
}

#[test]
fn account_dir_name_is_decimal_local_id() {
    match account_dir_name("76561197960287930") {
        Ok(d) => assert_eq!(d, "22202"),
        Err(_) => panic!("expected a folder name"),
    }
    match account_dir_name("4294967296") {
        Ok(d) => assert_eq!(d, "0"),
        Err(_) => panic!("expected a folder name"),
    }
    assert!(matches!(account_dir_name("x"), Err(AppError::InvalidSteamId)));
}

#[test]
fn steam_id_validation() {
    assert!(validate_steam_id("76561198000000001").is_ok());
    assert_eq!(validate_steam_id("7656119800000000"), Err("Invalid SteamID64".to_string()));
    assert!(validate_steam_id("7656119800000000a").is_err());
    assert!(validate_steam_id("").is_err());
}

#[test]
fn username_validation() {
    assert!(validate_username("alice_01").is_ok());
    assert!(validate_username(&"a".repeat(64)).is_ok());
    assert_eq!(validate_username(&"a".repeat(65)), Err("Invalid username".to_string()));
    assert!(validate_username("").is_err());
    assert!(validate_username("bad name").is_err());
    assert!(validate_username("é").is_err());
}
