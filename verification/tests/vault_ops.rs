use passvault::records::Credential;
use passvault::records::Note;
use passvault::vault::Vault;
use passvault::vault::VaultError;

fn sample_vault() -> Vault {
    let mut vault = Vault::new("1.0.0");
    vault.add_credential(Credential::new(
        "Steam",
        "Eldoritto",
        "123321852@",
        "https://store.steampowered.com/",
    ));
    vault.add_credential(Credential::new(
        "Epic",
        "BB-8",
        "123211312@",
        "https://store.epicgames.com/en-US/",
    ));
    vault.add_note(Note::new("Test", "This is a test note"));
    vault
}

#[test]
fn new_vault_is_empty_with_zeroed_metadata() {
    let vault = Vault::new("2.4.1");
    assert_eq!(vault.salt, 0);
    assert_eq!(vault.nonce, 0);
    assert!(!vault.encrypted);
    assert!(vault.credentials.is_empty());
    assert!(vault.notes.is_empty());
    assert_eq!(vault.version, "2.4.1");
}

#[test]
fn new_records_have_given_fields_and_no_favorite() {
    let c = Credential::new("Steam", "Eldoritto", "123321852@", "https://example.com/");
    assert_eq!(c.name, "Steam");
    assert_eq!(c.username, "Eldoritto");
    assert_eq!(c.password, "123321852@");
    assert_eq!(c.url, "https://example.com/");
    assert!(!c.favorite);
    let n = Note::new("Test", "This is a test note");
    assert_eq!(n.name, "Test");
    assert_eq!(n.content, "This is a test note");
    assert!(!n.favorite);
}

#[test]
fn generated_ids_are_36_chars_and_pairwise_distinct() {
    let mut ids: Vec<String> = Vec::new();
    for k in 0..8 {
        let c = Credential::new(&format!("cred{}", k), "user", "pw", "https://example.com/");
        ids.push(c.id.clone());
        let n = Note::new(&format!("note{}", k), "text");
        ids.push(n.id.clone());
    }
    for id in &ids {
        assert_eq!(id.chars().count(), 36);
    }
    for a in 0..ids.len() {
        for b in (a + 1)..ids.len() {
            assert_ne!(ids[a], ids[b]);
        }
    }
}

#[test]
fn add_appends_in_insertion_order() {
    let vault = sample_vault();
    assert_eq!(vault.credentials.len(), 2);
    assert_eq!(vault.credentials[0].name, "Steam");
    assert_eq!(vault.credentials[1].name, "Epic");
    assert_eq!(vault.notes.len(), 1);
    assert_eq!(vault.notes[0].name, "Test");
}

#[test]
fn find_credential_returns_first_match_position() {
    let vault = sample_vault();
    let id0 = vault.credentials[0].id.clone();
    let id1 = vault.credentials[1].id.clone();
    assert_eq!(vault.find_credential(&id0), Some(0));
    assert_eq!(vault.find_credential(&id1), Some(1));
    assert_eq!(vault.find_credential("no-such-id"), None);
}

#[test]
fn find_note_returns_position_or_none() {
    let vault = sample_vault();
    let id = vault.notes[0].id.clone();
    assert_eq!(vault.find_note(&id), Some(0));
    assert_eq!(vault.find_note(""), None);
}

#[test]
fn remove_credential_removes_exactly_one_and_keeps_order() {
    let mut vault = sample_vault();
    vault.add_credential(Credential::new("GOG", "user3", "pw3", "https://www.gog.com/"));
    let id_middle = vault.credentials[1].id.clone();
    let r = vault.remove_credential_by_id(&id_middle);
    assert_eq!(r, Ok(()));
    assert_eq!(vault.credentials.len(), 2);
    assert_eq!(vault.credentials[0].name, "Steam");
    assert_eq!(vault.credentials[1].name, "GOG");
    assert_eq!(vault.find_credential(&id_middle), None);
}

#[test]
fn remove_credential_with_unknown_id_reports_not_found_and_changes_nothing() {
    let mut vault = sample_vault();
    let before = vault.clone();
    let r = vault.remove_credential_by_id("missing-id");
    assert_eq!(r, Err(VaultError::NotFound));
    assert_eq!(vault, before);
}

#[test]
fn remove_note_by_id_works_and_fails_like_credentials() {
    let mut vault = sample_vault();
    let id = vault.notes[0].id.clone();
    assert_eq!(vault.remove_note_by_id("nope"), Err(VaultError::NotFound));
    assert_eq!(vault.notes.len(), 1);
    assert_eq!(vault.remove_note_by_id(&id), Ok(()));
    assert!(vault.notes.is_empty());
    assert_eq!(vault.remove_note_by_id(&id), Err(VaultError::NotFound));
}

#[test]
fn sort_credentials_puts_favorites_first_then_names_ascending() {
    let mut vault = Vault::new("1.0.0");
    let mut c1 = Credential::new("delta", "u", "p", "https://example.com/");
    let c2 = Credential::new("alpha", "u", "p", "https://example.com/");
    let mut c3 = Credential::new("zulu", "u", "p", "https://example.com/");
    let c4 = Credential::new("bravo", "u", "p", "https://example.com/");
    c1.favorite = true;
    c3.favorite = true;
    vault.add_credential(c1);
    vault.add_credential(c2);
    vault.add_credential(c3);
    vault.add_credential(c4);
    vault.sort_credentials();
    let names: Vec<&str> = vault.credentials.iter().map(|c| c.name.as_str()).collect();
    assert_eq!(names, vec!["delta", "zulu", "alpha", "bravo"]);
    for w in vault.credentials.windows(2) {
        assert!(w[0].favorite >= w[1].favorite);
        if w[0].favorite == w[1].favorite {
            assert!(w[0].name <= w[1].name);
        }
    }
}

#[test]
fn sort_notes_orders_by_favorite_then_name() {
    let mut vault = Vault::new("1.0.0");
    let n1 = Note::new("b", "x");
    let mut n2 = Note::new("c", "y");
    let n3 = Note::new("a", "z");
    n2.favorite = true;
    vault.add_note(n1);
    vault.add_note(n2);
    vault.add_note(n3);
    vault.sort_notes();
    let names: Vec<&str> = vault.notes.iter().map(|n| n.name.as_str()).collect();
    assert_eq!(names, vec!["c", "a", "b"]);
}

#[test]
fn sorting_twice_equals_sorting_once() {
    let mut vault = Vault::new("1.0.0");
    let mut c1 = Credential::new("m", "u", "p", "https://example.com/");
    let c2 = Credential::new("a", "u", "p", "https://example.com/");
    let c3 = Credential::new("m", "other", "p2", "https://example.org/");
    c1.favorite = true;
    vault.add_credential(c1);
    vault.add_credential(c2);
    vault.add_credential(c3);
    vault.add_note(Note::new("k", "v"));
    vault.add_note(Note::new("b", "w"));
    vault.sort_credentials();
    vault.sort_notes();
    let once = vault.clone();
    vault.sort_credentials();
    vault.sort_notes();
    assert_eq!(vault, once);
}

#[test]
fn sort_is_case_sensitive_by_codepoint() {
    let mut vault = Vault::new("1.0.0");
    vault.add_credential(Credential::new("apple", "u", "p", "https://example.com/"));
    vault.add_credential(Credential::new("Banana", "u", "p", "https://example.com/"));
    vault.sort_credentials();
    let names: Vec<&str> = vault.credentials.iter().map(|c| c.name.as_str()).collect();
    assert_eq!(names, vec!["Banana", "apple"]);
}

#[test]
fn scenario_build_rename_persist_reload() {
    let mut vault = Vault::new("0.1.0");
    vault.add_credential(Credential::new(
        "Steam",
        "Eldoritto",
        "123321852@",
        "https://store.steampowered.com/",
    ));
    vault.add_credential(Credential::new(
        "Epic",
        "BB-8",
        "123211312@",
        "https://store.epicgames.com/en-US/",
    ));
    vault.add_note(Note::new("Test", "This is a test note"));
    vault.credentials[1].name = "Epic Games".to_string();
    let doc = vault.to_document();
    let reloaded = Vault::struct_from_document(&doc).unwrap();
    assert_eq!(reloaded.credentials.len(), 2);
    assert_eq!(reloaded.credentials[0].name, "Steam");
    assert_eq!(reloaded.credentials[1].name, "Epic Games");
    assert_eq!(reloaded.notes.len(), 1);
    assert_eq!(reloaded.notes[0].name, "Test");
    assert_eq!(reloaded.salt, 0);
    assert_eq!(reloaded.nonce, 0);
    assert!(!reloaded.encrypted);
    assert_eq!(reloaded, vault);
}

#[test]
fn scenario_favorite_then_sort_reorders() {
    let mut vault = Vault::new("0.1.0");
    vault.add_credential(Credential::new(
        "Steam",
        "Eldoritto",
        "123321852@",
        "https://store.steampowered.com/",
    ));
    vault.add_credential(Credential::new(
        "Epic",
        "BB-8",
        "123211312@",
        "https://store.epicgames.com/en-US/",
    ));
    vault.add_note(Note::new("Test", "This is a test note"));
    vault.credentials[1].name = "Epic Games".to_string();
    vault.credentials[1].favorite = true;
    vault.sort_credentials();
    let names: Vec<&str> = vault.credentials.iter().map(|c| c.name.as_str()).collect();
    assert_eq!(names, vec!["Epic Games", "Steam"]);
}
