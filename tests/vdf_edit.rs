use steam_switcher::edit::{patch_persona_state, remove_loginuser_entry};
use steam_switcher::vdf::parse_vdf;

const LOGIN: &str = "\"users\"\n{\n\t\"111\"\n\t{\n\t\t\"AccountName\"\t\t\"alice\"\n\t}\n\t\"222\"\n\t{\n\t\t\"AccountName\"\t\t\"bob\"\n\t}\n}\n";

#[test]
fn remove_takes_out_one_entry() {
    let (text, removed) = remove_loginuser_entry(LOGIN, "111");
    assert!(removed);
    assert_eq!(
        text,
        "\"users\"\n{\n\t\"222\"\n\t{\n\t\t\"AccountName\"\t\t\"bob\"\n\t}\n}\n"
    );
    let blocks = parse_vdf(&text);
    assert_eq!(blocks.len(), 1);
    assert!(blocks.iter().all(|b| b.id != "111"));
}

#[test]
fn remove_absent_id_keeps_text() {
    let (text, removed) = remove_loginuser_entry(LOGIN, "333");
    assert!(!removed);
    assert_eq!(text, LOGIN);
}

#[test]
fn remove_keeps_missing_final_newline() {
    let src = "\"users\"\n{\n\t\"1\"\n\t{\n\t}\n}";
    let (text, removed) = remove_loginuser_entry(src, "1");
    assert!(removed);
    assert_eq!(text, "\"users\"\n{\n}");
}

const LOCAL: &str = "\"UserLocalConfigStore\"\n{\n\t\"friends\"\n\t{\n\t\t\"PersonaState\"\t\t\"1\"\n\t\t\"other\"\t\t\"x\"\n\t}\n}\n";

#[test]
fn patch_sets_first_persona_state() {
    let out = patch_persona_state(LOCAL, "7").unwrap();
    assert_eq!(
        out,
        "\"UserLocalConfigStore\"\n{\n\t\"friends\"\n\t{\n\t\t\"PersonaState\"\t\t\"7\"\n\t\t\"other\"\t\t\"x\"\n\t}\n}\n"
    );
}

#[test]
fn patch_twice_is_patch_once() {
    let once = patch_persona_state(LOCAL, "7").unwrap();
    let twice = patch_persona_state(&once, "7").unwrap();
    assert_eq!(once, twice);
}

#[test]
fn patch_only_first_occurrence() {
    let src = "\"PersonaState\" \"1\"\n\"PersonaState\" \"2\"";
    let out = patch_persona_state(src, "0").unwrap();
    assert_eq!(out, "\"PersonaState\" \"0\"\n\"PersonaState\" \"2\"");
}

#[test]
fn patch_rejects_invalid_state() {
    assert_eq!(patch_persona_state(LOCAL, "8"), None);
    assert_eq!(patch_persona_state(LOCAL, "11"), None);
    assert_eq!(patch_persona_state(LOCAL, ""), None);
}

#[test]
fn patch_without_key_writes_nothing() {
    assert_eq!(patch_persona_state("\"a\" \"b\"\n", "1"), None);
}

#[test]
fn patch_keeps_line_endings_and_missing_final_newline() {
    assert_eq!(
        patch_persona_state("\"PersonaState\" \"1\"", "7"),
        Some("\"PersonaState\" \"7\"".to_string())
    );
    let crlf = "\"a\"\r\n{\r\n\t\"PersonaState\"\t\"1\"\r\n}\r\n";
    assert_eq!(
        patch_persona_state(crlf, "7"),
        Some("\"a\"\r\n{\r\n\t\"PersonaState\"\t\"7\"\r\n}\r\n".to_string())
    );
    let once = patch_persona_state(crlf, "7").unwrap();
    assert_eq!(patch_persona_state(&once, "7"), Some(once.clone()));
}

#[test]
fn remove_keeps_crlf_text() {
    assert_eq!(remove_loginuser_entry("\r\n", "1"), ("\r\n".to_string(), false));
    let src = "\"users\"\r\n{\r\n\t\"1\"\r\n\t{\r\n\t}\r\n\t\"2\"\r\n\t{\r\n\t}\r\n}\r\n";
    let (text, removed) = remove_loginuser_entry(src, "1");
    assert!(removed);
    assert_eq!(text, "\"users\"\r\n{\r\n\t\"2\"\r\n\t{\r\n\t}\r\n}\r\n");
    assert_eq!(remove_loginuser_entry(src, "3"), (src.to_string(), false));
}
