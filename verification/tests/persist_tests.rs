use memoria::MemorySize;
use memoria::Resource;
use memoria::Vault;
use memoria::VaultError;
use memoria::VaultSummary;

#[test]
fn saved_document_has_expected_form() {
    let mut vault = Vault::new("A".to_string(), MemorySize::KB(2));
    vault
        .add("k".to_string(), Resource::TextMessage("hi".to_string()))
        .unwrap();
    // location "A", capacity K2, one entry: key "k", text record "hi".
    assert_eq!(vault.save_to_string(), "1;AK2;1;1;kT2;hi");
}

#[test]
fn empty_vault_round_trips() {
    let vault = Vault::new("Nowhere".to_string(), MemorySize::MB(3));
    let saved = vault.save_to_string();
    let loaded = Vault::load_from_string(saved.as_str()).unwrap();
    assert_eq!(loaded.location, "Nowhere");
    assert_eq!(loaded.storage_capacity, MemorySize::MB(3));
    assert_eq!(loaded.resources.len(), 0);
    assert_eq!(loaded.current_usage(), 0);
}

#[test]
fn populated_vault_round_trips() {
    let mut vault = Vault::new("Main Hall".to_string(), MemorySize::GB(1));
    vault
        .add(
            "greeting".to_string(),
            Resource::TextMessage("Hello, world".to_string()),
        )
        .unwrap();
    vault
        .add("temp".to_string(), Resource::SensorData((24.5f64).to_bits()))
        .unwrap();
    vault
        .add(
            "syslog".to_string(),
            Resource::SystemLogs(vec![
                "Boot successful".to_string(),
                String::new(),
                "semi;colons; and 7; digits".to_string(),
            ]),
        )
        .unwrap();

    let saved = vault.save_to_string();
    let loaded = Vault::load_from_string(saved.as_str()).unwrap();

    assert_eq!(loaded.location, vault.location);
    assert_eq!(loaded.storage_capacity, vault.storage_capacity);
    assert_eq!(loaded.resources.len(), vault.resources.len());
    assert_eq!(
        loaded.get(&"greeting".to_string()),
        Some(&Resource::TextMessage("Hello, world".to_string()))
    );
    assert_eq!(
        loaded.get(&"temp".to_string()),
        Some(&Resource::SensorData((24.5f64).to_bits()))
    );
    assert_eq!(
        loaded.get(&"syslog".to_string()),
        Some(&Resource::SystemLogs(vec![
            "Boot successful".to_string(),
            String::new(),
            "semi;colons; and 7; digits".to_string(),
        ]))
    );
    assert_eq!(loaded.current_usage(), vault.current_usage());
    assert_eq!(loaded.summary(), vault.summary());
}

#[test]
fn sensor_reading_survives_round_trip() {
    let mut vault = Vault::new("Lab".to_string(), MemorySize::KB(1));
    vault
        .add("probe".to_string(), Resource::SensorData((-273.15f64).to_bits()))
        .unwrap();
    let loaded = Vault::load_from_string(vault.save_to_string().as_str()).unwrap();
    match loaded.get(&"probe".to_string()) {
        Some(Resource::SensorData(bits)) => assert_eq!(f64::from_bits(*bits), -273.15),
        other => panic!("expected a sensor reading, got {:?}", other),
    }
}

#[test]
fn load_rejects_malformed_documents() {
    assert!(matches!(
        Vault::load_from_string(""),
        Err(VaultError::IoFailure(_))
    ));
    assert!(matches!(
        Vault::load_from_string("not a vault"),
        Err(VaultError::IoFailure(_))
    ));
    // A number too large for u64.
    assert!(matches!(
        Vault::load_from_string("99999999999999999999;"),
        Err(VaultError::IoFailure(_))
    ));
    // A well-formed document followed by trailing characters.
    assert!(matches!(
        Vault::load_from_string("1;AK2;0;extra"),
        Err(VaultError::IoFailure(_))
    ));
}

#[test]
fn load_rejects_invalid_states() {
    // A one-byte record in a zero-byte vault.
    assert!(matches!(
        Vault::load_from_string("0;K0;1;1;aT1;x"),
        Err(VaultError::IoFailure(_))
    ));
    // Two entries under the same key.
    assert!(matches!(
        Vault::load_from_string("0;K1;2;1;aT0;1;aT0;"),
        Err(VaultError::IoFailure(_))
    ));
}

#[test]
fn load_accepts_a_handwritten_document() {
    let vault = Vault::load_from_string("4;HomeG50;1;8;greetingT5;Hello").unwrap();
    assert_eq!(vault.location, "Home");
    assert_eq!(vault.storage_capacity, MemorySize::GB(50));
    assert_eq!(
        vault.get(&"greeting".to_string()),
        Some(&Resource::TextMessage("Hello".to_string()))
    );
    assert_eq!(
        vault.summary(),
        VaultSummary { text_messages: 1, sensor_data: 0, system_logs: 0 }
    );
}
