//! The entry model and the store: packing, cutting, serialization and the
//! round trip.

use chaos::common::{generate_key, generate_meat, generate_salt};
use chaos::errors::ChaosError;
use chaos::model::{Password, Passwords};

fn new_for_test(format: u8, meat: &str) -> Password {
    Password {
        salt: "".to_string(),
        meat: meat.to_string(),
        text: "".to_string(),
        format,
    }
}

#[test]
fn test_cut_binary_password() {
    let pass = vec![1, 1, 88, 240, 120, 150, 13, 21, 34, 55];
    let password = new_for_test(5, "12345678");
    assert_eq!("11000011", password.cut(&pass));

    let password = new_for_test(5, "123456");
    assert_eq!("110000", password.cut(&pass));
}

#[test]
fn test_cut_numeral_password() {
    let pass = vec![1, 1, 88, 240, 120, 150, 13, 21, 34, 55];
    let password = new_for_test(4, "12345678");
    assert_eq!("11800031", password.cut(&pass));

    let password = new_for_test(4, "123456");
    assert_eq!("118000", password.cut(&pass));
}

#[test]
fn test_cut_alphaonly_password() {
    let pass = vec![1, 1, 88, 240, 120, 150, 13, 21, 34, 55];
    let password = new_for_test(3, "12345678");
    assert_eq!("bbKGqUnv", password.cut(&pass));

    let password = new_for_test(3, "123456");
    assert_eq!("bbKGqU", password.cut(&pass));
}

#[test]
fn test_cut_alphanum_password() {
    let pass = vec![1, 1, 88, 240, 120, 150, 13, 21, 34, 55];
    let password = new_for_test(2, "12345678");
    assert_eq!("bbA26Anv", password.cut(&pass));

    let password = new_for_test(2, "123456");
    assert_eq!("bbA26A", password.cut(&pass));
}

#[test]
fn test_cut_alphanumsym_password() {
    let pass = vec![1, 1, 88, 240, 120, 150, 13, 21, 34, 55];
    let password = new_for_test(1, "12345678");
    assert_eq!("\"\"yU;Y.6", password.cut(&pass));

    let password = new_for_test(1, "123456");
    assert_eq!("\"\"yU;Y", password.cut(&pass));
}

#[test]
fn test_passwords_title_exists() {
    let mut passwords = Passwords::default();
    assert_eq!(false, passwords.title_exists("meep"));

    let password = Password::default();
    passwords.insert("meep", password);
    assert_eq!(true, passwords.title_exists("meep"));

    assert_eq!(
        "{\n  \"passwords\": {\n    \"meep\": {\n      \"salt\": \"\",\n      \"meat\": \"\",\n      \"text\": \"\",\n      \"format\": 1\n    }\n  }\n}",
        passwords.to_string_pretty()
    );

    assert!(passwords.find_by_title_or_bail("meep").is_ok());
}

#[test]
fn test_cut_meat_longer_than_stream() {
    let pass = vec![1, 1, 88, 240, 120, 150, 13, 21, 34, 55];
    let password = new_for_test(5, "123456789012");
    assert_eq!("1100001101", password.cut(&pass));
}

#[test]
fn test_round_trip_empty() {
    let store = Passwords::default();
    let text = store.to_string_pretty();
    assert_eq!("{\n  \"passwords\": {}\n}", text);
    assert_eq!(store, Passwords::load_from_str(&text));
}

#[test]
fn test_round_trip_entries() {
    let mut store = Passwords::default();
    store.insert(
        "plain",
        Password {
            salt: "AQID".to_string(),
            meat: "BAUG".to_string(),
            text: "".to_string(),
            format: 2,
        },
    );
    store.insert(
        "weird \"title\" \\ with \n breaks\tand \u{1} bells",
        Password {
            salt: "xyz=".to_string(),
            meat: "abcd".to_string(),
            text: "n\u{f6}t\u{e9}s \u{1f511} here\r\n".to_string(),
            format: 255,
        },
    );
    store.insert(
        "",
        Password {
            salt: "".to_string(),
            meat: "".to_string(),
            text: "empty title".to_string(),
            format: 1,
        },
    );
    let text = store.to_string_pretty();
    let loaded = Passwords::load_from_str(&text);
    assert_eq!(store, loaded);
}

#[test]
fn test_round_trip_after_mutations() {
    let mut store = Passwords::default();
    store.insert("a", new_for_test(1, "aa"));
    store.insert("b", new_for_test(2, "bb"));
    store.insert("c", new_for_test(42, "cc"));
    store.remove("b");
    store.insert("a", new_for_test(4, "dd"));
    let loaded = Passwords::load_from_str(&store.to_string_pretty());
    assert_eq!(store, loaded);
}

#[test]
fn test_round_trip_with_trailing_newline() {
    let mut store = Passwords::default();
    store.insert("github", new_for_test(2, "0123456789abcdef"));
    let mut text = store.to_string_pretty();
    text.push('\n');
    assert_eq!(store, Passwords::load_from_str(&text));
}

#[test]
fn test_serialize_two_entries_exact() {
    let mut store = Passwords::default();
    store.insert(
        "a",
        Password {
            salt: "AQID".to_string(),
            meat: "BAUG".to_string(),
            text: "".to_string(),
            format: 2,
        },
    );
    store.insert(
        "b",
        Password {
            salt: "".to_string(),
            meat: "".to_string(),
            text: "q\" b\\ n\n t\t \u{1}".to_string(),
            format: 255,
        },
    );
    assert_eq!(
        "{\n  \"passwords\": {\n    \"a\": {\n      \"salt\": \"AQID\",\n      \"meat\": \"BAUG\",\n      \"text\": \"\",\n      \"format\": 2\n    },\n    \"b\": {\n      \"salt\": \"\",\n      \"meat\": \"\",\n      \"text\": \"q\\\" b\\\\ n\\n t\\t \\u0001\",\n      \"format\": 255\n    }\n  }\n}",
        store.to_string_pretty()
    );
}

#[test]
fn test_load_rejects_duplicate_titles() {
    let text = "{\n  \"passwords\": {\n    \"dup\": {\n      \"salt\": \"\",\n      \"meat\": \"\",\n      \"text\": \"\",\n      \"format\": 1\n    },\n    \"dup\": {\n      \"salt\": \"\",\n      \"meat\": \"\",\n      \"text\": \"\",\n      \"format\": 2\n    }\n  }\n}";
    assert!(Passwords::parse_document(text).is_err());
    assert_eq!(Passwords::default(), Passwords::load_from_str(text));
}

#[test]
fn test_load_of_damaged_text_is_empty() {
    let store = Passwords::load_from_str("this is not the canonical document");
    assert_eq!(Passwords::default(), store);
    assert_eq!(0, store.len());
}

#[test]
fn test_parse_document_reports_malformed() {
    match Passwords::parse_document("{") {
        Err(e) => assert_eq!(ChaosError::MalformedStoreDocument, e),
        Ok(_) => panic!("a truncated document must not parse"),
    }
}

#[test]
fn test_insert_overwrites() {
    let mut store = Passwords::default();
    store.insert("site", new_for_test(1, "old!"));
    store.insert("site", new_for_test(4, "new!"));
    assert!(store.title_exists("site"));
    assert_eq!(1, store.len());
    let found = store.find_by_title_or_bail("site").unwrap();
    assert_eq!(4, found.format);
    assert_eq!("new!", found.meat);
}

#[test]
fn test_remove_is_lenient() {
    let mut store = Passwords::default();
    store.insert("keep", new_for_test(1, "aa"));
    store.remove("absent");
    assert_eq!(1, store.len());
    store.remove("keep");
    assert_eq!(0, store.len());
    assert!(!store.title_exists("keep"));
}

#[test]
fn test_find_missing_title() {
    let store = Passwords::default();
    match store.find_by_title_or_bail("nope") {
        Err(e) => assert_eq!(ChaosError::TitleNotFound, e),
        Ok(_) => panic!("an absent title must not be found"),
    }
    assert_eq!(0, store.len());
}

#[test]
fn test_titles_in_storage_order() {
    let mut store = Passwords::default();
    store.insert("zulu", new_for_test(1, "aa"));
    store.insert("alfa", new_for_test(1, "bb"));
    let titles = store.titles();
    assert_eq!(vec!["zulu".to_string(), "alfa".to_string()], titles);
}

#[test]
fn test_derive_password_rejects_bad_entries() {
    let key = generate_key();
    let bad_meat = Password {
        salt: encode_b64_salt(),
        meat: "!not base64!".to_string(),
        text: "".to_string(),
        format: 1,
    };
    assert_eq!(Err(ChaosError::Base64DecodeFailure), bad_meat.derive_password(&key));

    let bad_salt = Password {
        salt: "???".to_string(),
        meat: "AQID".to_string(),
        text: "".to_string(),
        format: 1,
    };
    assert_eq!(Err(ChaosError::Base64DecodeFailure), bad_salt.derive_password(&key));

    let short_salt = Password::new_entry(&[1, 2, 3], &[1, 2], 1);
    assert_eq!(Err(ChaosError::InvalidNonceLength), short_salt.derive_password(&key));

    let good = Password::new_entry(&[7u8; 24], &[1, 2], 1);
    assert_eq!(Err(ChaosError::InvalidKeyLength), good.derive_password(&[0u8; 31]));

    let odd_format = Password::new_entry(&[7u8; 24], &[1, 2], 6);
    assert_eq!(Err(ChaosError::UnknownFormat), odd_format.derive_password(&key));
    let zero_format = Password::new_entry(&[7u8; 24], &[1, 2], 0);
    assert_eq!(Err(ChaosError::UnknownFormat), zero_format.derive_password(&key));
}

fn encode_b64_salt() -> String {
    Password::new_entry(&[7u8; 24], &[], 1).salt
}

#[test]
fn test_new_entry_encodes_base64() {
    let entry = Password::new_entry(&[1, 2, 3], &[4, 5, 6], 1);
    assert_eq!("AQID", entry.salt);
    assert_eq!("BAUG", entry.meat);
    assert_eq!("", entry.text);
    assert_eq!(1, entry.format);
}

#[test]
fn test_end_to_end_scenario() {
    let mut store = Passwords::default();
    let salt = generate_salt();
    let meat = generate_meat(16);
    store.insert("github", Password::new_entry(&salt, &meat, 2));
    let key = generate_key();

    let entry = store.find_by_title_or_bail("github").unwrap();
    let pass1 = entry.derive_password(&key).unwrap();
    let pass2 = entry.derive_password(&key).unwrap();
    assert_eq!(pass1, pass2);
    assert_eq!(16, pass1.chars().count());
    assert!(pass1.chars().all(|c| c.is_ascii_alphanumeric()));

    let reloaded = Passwords::load_from_str(&store.to_string_pretty());
    let entry = reloaded.find_by_title_or_bail("github").unwrap();
    assert_eq!(pass1, entry.derive_password(&key).unwrap());

    store.remove("github");
    assert_eq!(false, store.title_exists("github"));
    match store.find_by_title_or_bail("github") {
        Err(e) => assert_eq!(ChaosError::TitleNotFound, e),
        Ok(_) => panic!("a removed title must not be found"),
    }
}
