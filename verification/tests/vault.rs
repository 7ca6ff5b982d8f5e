use bitserv::MnemonicStorage;
use bitserv::VaultError;

#[test]
fn round_trip_save_then_load() {
    let mut storage = MnemonicStorage::new();
    let phrase = "legal winner thank year wave sausage worth useful legal winner thank yellow";
    storage
        .save_mnemonic(phrase, "correct horse battery staple")
        .expect("save should succeed");
    let loaded = storage
        .load_mnemonic("correct horse battery staple")
        .expect("load should succeed");
    assert_eq!(loaded, phrase);
}

#[test]
fn wrong_password_fails_authentication() {
    let mut storage = MnemonicStorage::new();
    let phrase = "zoo zoo zoo zoo zoo zoo zoo zoo zoo zoo zoo wrong";
    storage.save_mnemonic(phrase, "password-one").expect("save should succeed");
    let result = storage.load_mnemonic("password-two");
    assert_eq!(result, Err(VaultError::AuthenticationFailed));
}

#[test]
fn load_missing_vault_is_not_found() {
    let storage = MnemonicStorage::new();
    assert_eq!(storage.load_mnemonic("any"), Err(VaultError::NotFound));
}

#[test]
fn load_or_create_is_idempotent_after_first_call() {
    let mut storage = MnemonicStorage::new();
    let first = storage
        .load_or_create_by_password("vault-password")
        .expect("creation should succeed");
    assert!(!first.is_empty(), "created phrase should not be empty");
    let bytes_after_first = storage.contents.clone().expect("vault should be populated");

    let second = storage
        .load_or_create_by_password("vault-password")
        .expect("second call should succeed");
    assert_eq!(second, first, "second call must return the same phrase");
    let bytes_after_second = storage.contents.clone().expect("vault should stay populated");
    assert_eq!(
        bytes_after_second, bytes_after_first,
        "second call must not rewrite the vault"
    );

    let third = storage
        .load_or_create_by_password("vault-password")
        .expect("third call should succeed");
    assert_eq!(third, first);
}

#[test]
fn load_or_create_does_not_overwrite_on_wrong_password() {
    let mut storage = MnemonicStorage::new();
    storage
        .save_mnemonic("abandon ability able about above absent absorb abstract absurd abuse access accident", "right")
        .expect("save should succeed");
    let bytes_before = storage.contents.clone().unwrap();
    let result = storage.load_or_create_by_password("wrong");
    assert_eq!(result, Err(VaultError::AuthenticationFailed));
    assert_eq!(storage.contents.clone().unwrap(), bytes_before);
}

#[test]
fn repeated_saves_are_nondeterministic() {
    let mut first = MnemonicStorage::new();
    let mut second = MnemonicStorage::new();
    let phrase = "legal winner thank year wave sausage worth useful legal winner thank yellow";
    first.save_mnemonic(phrase, "pw").expect("save should succeed");
    second.save_mnemonic(phrase, "pw").expect("save should succeed");
    assert_ne!(
        first.contents.clone().unwrap(),
        second.contents.clone().unwrap(),
        "fresh salt and nonce must make records differ"
    );
}

#[test]
fn truncated_record_is_corrupt() {
    let storage = MnemonicStorage::with_contents(vec![1, 2, 3]);
    assert_eq!(storage.load_mnemonic("pw"), Err(VaultError::Corrupt));
}

#[test]
fn tampered_record_fails_authentication() {
    let mut storage = MnemonicStorage::new();
    storage
        .save_mnemonic("zoo zoo zoo zoo zoo zoo zoo zoo zoo zoo zoo vote", "pw")
        .expect("save should succeed");
    let mut bytes = storage.contents.clone().unwrap();
    bytes[0] ^= 0x01;
    let tampered = MnemonicStorage::with_contents(bytes);
    assert_eq!(tampered.load_mnemonic("pw"), Err(VaultError::AuthenticationFailed));
}
