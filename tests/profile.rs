use steam_switcher::profile::{
    ban_batches, extract_cdata, extract_text, profile_from_document, unique_steam_ids,
};

const DOC: &str = "<profile><steamID><![CDATA[Gabe]]></steamID><avatarFull><![CDATA[https://a/b.jpg]]></avatarFull><vacBanned> 1 </vacBanned><tradeBanState>None</tradeBanState></profile>";

#[test]
fn cdata_and_text_extraction() {
    assert_eq!(extract_cdata(DOC, "steamID"), Some("Gabe".to_string()));
    assert_eq!(extract_cdata(DOC, "missing"), None);
    assert_eq!(extract_text(DOC, "vacBanned"), Some("1".to_string()));
    assert_eq!(extract_text("<a>open only", "a"), None);
}

#[test]
fn profile_document_fields() {
    let p = profile_from_document(DOC);
    assert_eq!(p.avatar_url, Some("https://a/b.jpg".to_string()));
    assert_eq!(p.display_name, Some("Gabe".to_string()));
    assert!(p.vac_banned);
    assert_eq!(p.trade_ban_state, "None");
    let empty = profile_from_document("");
    assert_eq!(empty.avatar_url, None);
    assert!(!empty.vac_banned);
    assert_eq!(empty.trade_ban_state, "");
}

#[test]
fn ban_ids_go_in_batches_of_a_hundred() {
    let ids: Vec<String> = (0..250).map(|i| format!("{}", 76561198000000000u64 + i)).collect();
    let b = ban_batches(&ids);
    assert_eq!(b.len(), 3);
    assert_eq!(b[0].split(',').count(), 100);
    assert_eq!(b[2].split(',').count(), 50);
    assert!(b[0].starts_with("76561198000000000,76561198000000001,"));
    assert!(ban_batches(&Vec::new()).is_empty());
    assert_eq!(ban_batches(&vec!["1".to_string(), "2".to_string()]), vec!["1,2".to_string()]);
}

#[test]
fn ban_ids_are_checked_and_deduplicated() {
    let a = "76561198000000001".to_string();
    let b = "76561198000000002".to_string();
    assert_eq!(
        unique_steam_ids(&vec![a.clone(), b.clone(), a.clone()]),
        Ok(vec![a.clone(), b.clone()])
    );
    assert_eq!(
        unique_steam_ids(&vec![a.clone(), "bad".to_string()]),
        Err("Invalid SteamID64".to_string())
    );
}
