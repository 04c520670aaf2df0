use passvault::records::Credential;
use passvault::records::Note;
use passvault::vault::Vault;
use passvault::vault::VaultError;

fn cred(name: &str, username: &str, password: &str, url: &str, favorite: bool) -> Credential {
    let mut c = Credential::new(name, username, password, url);
    c.favorite = favorite;
    c
}

#[test]
fn exact_document_of_fixed_vault() {
    let vault = Vault {
        salt: 7,
        nonce: 170141183460469231731687303715884105727,
        encrypted: false,
        credentials: vec![Credential {
            id: "id-1".to_string(),
            name: "Steam".to_string(),
            favorite: true,
            username: "Eldoritto".to_string(),
            password: "123321852@".to_string(),
            url: "https://store.steampowered.com/".to_string(),
        }],
        notes: vec![Note {
            id: "id-2".to_string(),
            name: "Test".to_string(),
            favorite: false,
            content: "This is a test note".to_string(),
        }],
        version: "0.1.0".to_string(),
    };
    let expected = "{\"salt\":7,\"nonce\":170141183460469231731687303715884105727,\"encrypted\":false,\"credentials\":[{\"id\":\"id-1\",\"name\":\"Steam\",\"favorite\":true,\"username\":\"Eldoritto\",\"password\":\"123321852@\",\"url\":\"https://store.steampowered.com/\"}],\"notes\":[{\"id\":\"id-2\",\"name\":\"Test\",\"favorite\":false,\"content\":\"This is a test note\"}],\"version\":\"0.1.0\"}";
    assert_eq!(vault.to_document(), expected);
}

#[test]
fn escapes_match_the_document_format() {
    let mut vault = Vault::new("1.0.0");
    vault.add_note(Note {
        id: "n".to_string(),
        name: "q\"b\\c".to_string(),
        favorite: false,
        content: "line1\nline2\ttab\rcr\u{8}bs\u{c}ff\u{1}one\u{1f}two".to_string(),
    });
    let doc = vault.to_document();
    assert!(doc.contains("\"name\":\"q\\\"b\\\\c\""));
    assert!(doc.contains("line1\\nline2\\ttab\\rcr\\bbs\\fff\\u0001one\\u001ftwo"));
    let reloaded = Vault::struct_from_document(&doc).unwrap();
    assert_eq!(reloaded, vault);
}

#[test]
fn round_trip_preserves_everything() {
    let mut vault = Vault::new("3.2.1-beta");
    vault.salt = 340282366920938463463374607431768211455;
    vault.nonce = 1;
    vault.encrypted = true;
    vault.add_credential(cred("Steam", "Eldoritto", "123321852@", "https://store.steampowered.com/", true));
    vault.add_credential(cred("", "", "", "", false));
    vault.add_credential(cred("unicode \u{e9}\u{65e5}\u{672c}", "u", "p/slash", "https://example.com/?q=a&b=c", false));
    vault.add_note(Note::new("Test", "This is a test note"));
    vault.add_note(Note::new("empty", ""));
    let doc = vault.to_document();
    let reloaded = Vault::struct_from_document(&doc).unwrap();
    assert_eq!(reloaded, vault);
}

#[test]
fn round_trip_of_empty_vault() {
    let vault = Vault::new("");
    let doc = vault.to_document();
    assert_eq!(
        doc,
        "{\"salt\":0,\"nonce\":0,\"encrypted\":false,\"credentials\":[],\"notes\":[],\"version\":\"\"}"
    );
    let reloaded = Vault::struct_from_document(&doc).unwrap();
    assert_eq!(reloaded, vault);
}

#[test]
fn parser_accepts_slash_and_unicode_escapes() {
    let doc = "{\"salt\":0,\"nonce\":0,\"encrypted\":false,\"credentials\":[],\"notes\":[{\"id\":\"a\",\"name\":\"x\\/y\",\"favorite\":true,\"content\":\"A\\u000a\\u000AB\"}],\"version\":\"v\"}";
    let vault = Vault::struct_from_document(doc).unwrap();
    assert_eq!(vault.notes[0].name, "x/y");
    assert_eq!(vault.notes[0].content, "A\n\nB");
    assert!(vault.notes[0].favorite);
}

#[test]
fn parser_rejects_malformed_documents() {
    let bad: Vec<String> = vec![
        "".to_string(),
        "{}".to_string(),
        "{\"salt\":0}".to_string(),
        // truncated
        "{\"salt\":0,\"nonce\":0,\"encrypted\":false,\"credentials\":[],\"notes\":[],\"version\":\"v\"".to_string(),
        // trailing content that is not whitespace
        "{\"salt\":0,\"nonce\":0,\"encrypted\":false,\"credentials\":[],\"notes\":[],\"version\":\"v\"} x".to_string(),
        // a field given twice
        "{\"salt\":0,\"salt\":1,\"nonce\":0,\"encrypted\":false,\"credentials\":[],\"notes\":[],\"version\":\"v\"}".to_string(),
        // an unknown field
        "{\"salt\":0,\"nonce\":0,\"encrypted\":false,\"credentials\":[],\"notes\":[],\"version\":\"v\",\"extra\":0}".to_string(),
        // a raw control character inside a string
        "{\"salt\":0,\"nonce\":0,\"encrypted\":false,\"credentials\":[],\"notes\":[],\"version\":\"a\u{1}b\"}".to_string(),
        // wrong type for salt
        "{\"salt\":\"0\",\"nonce\":0,\"encrypted\":false,\"credentials\":[],\"notes\":[],\"version\":\"v\"}".to_string(),
        // leading zero
        "{\"salt\":01,\"nonce\":0,\"encrypted\":false,\"credentials\":[],\"notes\":[],\"version\":\"v\"}".to_string(),
        // number too large for 128 bits
        "{\"salt\":340282366920938463463374607431768211456,\"nonce\":0,\"encrypted\":false,\"credentials\":[],\"notes\":[],\"version\":\"v\"}".to_string(),
        // missing credential field
        "{\"salt\":0,\"nonce\":0,\"encrypted\":false,\"credentials\":[{\"id\":\"a\",\"name\":\"b\",\"favorite\":false}],\"notes\":[],\"version\":\"v\"}".to_string(),
        // unterminated string
        "{\"salt\":0,\"nonce\":0,\"encrypted\":false,\"credentials\":[],\"notes\":[],\"version\":\"v}".to_string(),
        // bad escape
        "{\"salt\":0,\"nonce\":0,\"encrypted\":false,\"credentials\":[],\"notes\":[],\"version\":\"\\x\"}".to_string(),
        // bad boolean
        "{\"salt\":0,\"nonce\":0,\"encrypted\":maybe,\"credentials\":[],\"notes\":[],\"version\":\"v\"}".to_string(),
    ];
    for doc in bad {
        assert_eq!(
            Vault::struct_from_document(&doc),
            Err(VaultError::MalformedDocument),
            "accepted: {}",
            doc
        );
    }
}

#[test]
fn largest_numbers_round_trip() {
    let mut vault = Vault::new("v");
    vault.salt = u128::MAX;
    vault.nonce = u128::MAX - 1;
    let doc = vault.to_document();
    assert!(doc.contains("\"salt\":340282366920938463463374607431768211455"));
    let reloaded = Vault::struct_from_document(&doc).unwrap();
    assert_eq!(reloaded.salt, u128::MAX);
    assert_eq!(reloaded.nonce, u128::MAX - 1);
}

fn value_of_vault(vault: &Vault) -> serde_json::Value {
    let mut root = serde_json::Map::new();
    root.insert(
        "salt".to_string(),
        serde_json::Value::Number(serde_json::Number::from_u128(vault.salt).unwrap()),
    );
    root.insert(
        "nonce".to_string(),
        serde_json::Value::Number(serde_json::Number::from_u128(vault.nonce).unwrap()),
    );
    root.insert("encrypted".to_string(), serde_json::Value::from(vault.encrypted));
    let creds: Vec<serde_json::Value> = vault
        .credentials
        .iter()
        .map(|c| {
            let mut m = serde_json::Map::new();
            m.insert("id".to_string(), serde_json::Value::from(c.id.clone()));
            m.insert("name".to_string(), serde_json::Value::from(c.name.clone()));
            m.insert("favorite".to_string(), serde_json::Value::from(c.favorite));
            m.insert("username".to_string(), serde_json::Value::from(c.username.clone()));
            m.insert("password".to_string(), serde_json::Value::from(c.password.clone()));
            m.insert("url".to_string(), serde_json::Value::from(c.url.clone()));
            serde_json::Value::Object(m)
        })
        .collect();
    root.insert("credentials".to_string(), serde_json::Value::Array(creds));
    let notes: Vec<serde_json::Value> = vault
        .notes
        .iter()
        .map(|n| {
            let mut m = serde_json::Map::new();
            m.insert("id".to_string(), serde_json::Value::from(n.id.clone()));
            m.insert("name".to_string(), serde_json::Value::from(n.name.clone()));
            m.insert("favorite".to_string(), serde_json::Value::from(n.favorite));
            m.insert("content".to_string(), serde_json::Value::from(n.content.clone()));
            serde_json::Value::Object(m)
        })
        .collect();
    root.insert("notes".to_string(), serde_json::Value::Array(notes));
    root.insert("version".to_string(), serde_json::Value::from(vault.version.clone()));
    serde_json::Value::Object(root)
}

#[test]
fn document_matches_reference_json_producer() {
    let mut vault = Vault::new("0.1.0");
    vault.salt = 12345;
    vault.add_credential(cred("Steam", "Eldoritto", "123321852@", "https://store.steampowered.com/", false));
    vault.add_credential(cred("Epic Games", "BB-8", "a\"b\\c\nd", "https://store.epicgames.com/en-US/", true));
    vault.add_note(Note::new("Test", "This is a test note"));
    let ours = vault.to_document();
    let reference = serde_json::to_string(&value_of_vault(&vault)).unwrap();
    assert_eq!(ours, reference);
}

#[test]
fn document_written_by_reference_json_producer_loads_back() {
    let mut vault = Vault::new("9.9.9");
    vault.add_credential(cred("GOG", "user", "pw", "https://www.gog.com/", true));
    vault.add_note(Note::new("hello", "world"));
    let reference = serde_json::to_string(&value_of_vault(&vault)).unwrap();
    let reloaded = Vault::struct_from_document(&reference).unwrap();
    assert_eq!(reloaded, vault);
}

#[test]
fn document_parses_as_json_with_expected_fields() {
    let mut vault = Vault::new("1.2.3");
    vault.add_credential(cred("Steam", "Eldoritto", "123321852@", "https://store.steampowered.com/", false));
    let doc = vault.to_document();
    let value: serde_json::Value = serde_json::from_str(&doc).unwrap();
    assert_eq!(value["salt"], serde_json::Value::from(0u64));
    assert_eq!(value["encrypted"], serde_json::Value::from(false));
    assert_eq!(value["version"], serde_json::Value::from("1.2.3"));
    assert_eq!(value["credentials"][0]["name"], serde_json::Value::from("Steam"));
    assert_eq!(value["credentials"][0]["username"], serde_json::Value::from("Eldoritto"));
    assert_eq!(value["notes"], serde_json::Value::Array(vec![]));
}

#[test]
fn fields_load_in_any_order() {
    let doc = "{\"version\":\"2.0\",\"notes\":[{\"content\":\"body\",\"favorite\":true,\"id\":\"n1\",\"name\":\"memo\"}],\"encrypted\":false,\"credentials\":[{\"url\":\"https://example.com/\",\"password\":\"pw\",\"username\":\"user\",\"favorite\":false,\"name\":\"Steam\",\"id\":\"c1\"}],\"nonce\":3,\"salt\":9}";
    let vault = Vault::struct_from_document(doc).unwrap();
    assert_eq!(vault.salt, 9);
    assert_eq!(vault.nonce, 3);
    assert!(!vault.encrypted);
    assert_eq!(vault.version, "2.0");
    assert_eq!(vault.credentials.len(), 1);
    assert_eq!(vault.credentials[0].id, "c1");
    assert_eq!(vault.credentials[0].name, "Steam");
    assert_eq!(vault.credentials[0].username, "user");
    assert_eq!(vault.credentials[0].password, "pw");
    assert_eq!(vault.credentials[0].url, "https://example.com/");
    assert!(!vault.credentials[0].favorite);
    assert_eq!(vault.notes.len(), 1);
    assert_eq!(vault.notes[0].id, "n1");
    assert_eq!(vault.notes[0].name, "memo");
    assert_eq!(vault.notes[0].content, "body");
    assert!(vault.notes[0].favorite);
}

#[test]
fn whitespace_between_tokens_is_accepted() {
    let doc = "  {\n  \"salt\" : 0 ,\n  \"nonce\" : 0 ,\n  \"encrypted\" : false ,\n  \"credentials\" : [ ] ,\n  \"notes\" : [\n    { \"id\" : \"a\" , \"name\" : \"b\" , \"favorite\" : false , \"content\" : \"c\" } ,\n    { \"id\" : \"d\" , \"name\" : \"e\" , \"favorite\" : true , \"content\" : \"f\" }\n  ] ,\n  \"version\" : \"v\"\n}\t\r\n ";
    let vault = Vault::struct_from_document(doc).unwrap();
    assert!(vault.credentials.is_empty());
    assert_eq!(vault.notes.len(), 2);
    assert_eq!(vault.notes[0].name, "b");
    assert_eq!(vault.notes[1].name, "e");
    assert!(vault.notes[1].favorite);
    assert_eq!(vault.version, "v");
}

#[test]
fn trailing_whitespace_is_accepted() {
    let vault = Vault::new("v");
    let doc = vault.to_document() + " \n";
    let reloaded = Vault::struct_from_document(&doc).unwrap();
    assert_eq!(reloaded, vault);
}

#[test]
fn pretty_printed_reference_document_loads_back() {
    let mut vault = Vault::new("1.4.2");
    vault.add_credential(cred("Steam", "Eldoritto", "123321852@", "https://store.steampowered.com/", true));
    vault.add_credential(cred("GOG", "user", "pw", "https://www.gog.com/", false));
    vault.add_note(Note::new("Test", "This is a test note"));
    let pretty = serde_json::to_string_pretty(&value_of_vault(&vault)).unwrap();
    assert_ne!(pretty, vault.to_document());
    let reloaded = Vault::struct_from_document(&pretty).unwrap();
    assert_eq!(reloaded, vault);
}
