use steam_switcher::vdf::{parse_vdf, VdfBlock};

fn field<'a>(b: &'a VdfBlock, key: &str) -> Option<&'a str> {
    b.fields.iter().find(|f| f.key == key).map(|f| f.value.as_str())
}

const LOGIN: &str = "\"users\"\n{\n\t\"76561198000000001\"\n\t{\n\t\t\"AccountName\"\t\t\"alice\"\n\t\t\"PersonaName\"\t\t\"Alice\"\n\t\t\"MostRecent\"\t\t\"1\"\n\t\t\"Timestamp\"\t\t\"100\"\n\t}\n\t\"76561198000000002\"\n\t{\n\t\t\"AccountName\"\t\t\"bob\"\n\t\t\"Timestamp\"\t\t\"200\"\n\t}\n}\n";

#[test]
fn parse_counts_numeric_blocks_without_leakage() {
    let blocks = parse_vdf(LOGIN);
    assert_eq!(blocks.len(), 2);
    assert_eq!(blocks[0].id, "76561198000000001");
    assert_eq!(blocks[1].id, "76561198000000002");
    assert_eq!(blocks[0].fields.len(), 4);
    assert_eq!(blocks[1].fields.len(), 2);
    assert_eq!(field(&blocks[0], "accountname"), Some("alice"));
    assert_eq!(field(&blocks[1], "accountname"), Some("bob"));
    assert_eq!(field(&blocks[1], "personaname"), None);
    assert_eq!(field(&blocks[1], "mostrecent"), None);
}

#[test]
fn parse_lowercases_keys_and_keeps_values() {
    let blocks = parse_vdf(LOGIN);
    assert_eq!(field(&blocks[0], "personaname"), Some("Alice"));
    assert_eq!(field(&blocks[0], "PersonaName"), None);
}

#[test]
fn parse_skips_non_numeric_blocks() {
    let text = "\"users\"\n{\n\t\"config\"\n\t{\n\t\t\"a\"\t\"b\"\n\t}\n\t\"42\"\n\t{\n\t\t\"x\"\t\"y\"\n\t}\n}\n";
    let blocks = parse_vdf(text);
    assert_eq!(blocks.len(), 1);
    assert_eq!(blocks[0].id, "42");
    assert_eq!(field(&blocks[0], "x"), Some("y"));
}

#[test]
fn parse_empty_and_unbalanced_text() {
    assert_eq!(parse_vdf("").len(), 0);
    let blocks = parse_vdf("\"users\"\n{\n\t\"7\"\n\t{\n\t\t\"k\"\t\"v\"\n");
    assert_eq!(blocks.len(), 0);
}

#[test]
fn parse_later_duplicate_key_wins() {
    let text = "\"users\"\n{\n\t\"5\"\n\t{\n\t\t\"Key\"\t\"one\"\n\t\t\"KEY\"\t\"two\"\n\t}\n}\n";
    let blocks = parse_vdf(text);
    assert_eq!(blocks.len(), 1);
    assert_eq!(blocks[0].fields.len(), 1);
    assert_eq!(field(&blocks[0], "key"), Some("two"));
}

#[test]
fn parse_handles_crlf_lines() {
    let text = "\"users\"\r\n{\r\n\t\"9\"\r\n\t{\r\n\t\t\"A\"\t\"b\"\r\n\t}\r\n}\r\n";
    let blocks = parse_vdf(text);
    assert_eq!(blocks.len(), 1);
    assert_eq!(field(&blocks[0], "a"), Some("b"));
}
