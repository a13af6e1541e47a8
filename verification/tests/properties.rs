use memoria::MemorySize;
use memoria::Resource;
use memoria::Vault;
use memoria::VaultError;
use memoria::VaultSummary;

#[test]
fn capacity_unit_formulas() {
    assert_eq!(MemorySize::KB(0).size_bytes(), 0);
    assert_eq!(MemorySize::KB(3).size_bytes(), 3 * 1024);
    assert_eq!(MemorySize::MB(2).size_bytes(), 2 * 1024 * 1024);
    assert_eq!(MemorySize::GB(50).size_bytes(), 50 * 1024 * 1024 * 1024);
}

#[test]
fn record_size_formulas() {
    assert_eq!(Resource::TextMessage(String::new()).size_bytes(), 0);
    // A two-byte UTF-8 character counts as two bytes, not one.
    assert_eq!(Resource::TextMessage("\u{e9}".to_string()).size_bytes(), 2);
    assert_eq!(Resource::SensorData((0.0f64).to_bits()).size_bytes(), 8);
    assert_eq!(Resource::SensorData(u64::MAX).size_bytes(), 8);
    assert_eq!(Resource::SystemLogs(vec![]).size_bytes(), 0);
    assert_eq!(
        Resource::SystemLogs(vec!["a".to_string(), "bb".to_string()]).size_bytes(),
        3
    );
    assert_eq!(
        Resource::TextMessage("abc".to_string()).checked_size_bytes(),
        Some(3)
    );
}

#[test]
fn new_vault_is_empty() {
    let vault = Vault::new("Fresh".to_string(), MemorySize::MB(1));
    assert_eq!(vault.current_usage(), 0);
    assert_eq!(vault.get(&"anything".to_string()), None);
    assert_eq!(
        vault.summary(),
        VaultSummary { text_messages: 0, sensor_data: 0, system_logs: 0 }
    );
}

#[test]
fn add_then_lookup_and_usage() {
    let mut vault = Vault::new("V".to_string(), MemorySize::KB(1));
    let before = vault.current_usage();
    let record = Resource::TextMessage("hello".to_string());
    vault.add("k".to_string(), record.clone()).unwrap();
    assert_eq!(vault.get(&"k".to_string()), Some(&record));
    assert_eq!(vault.current_usage(), before + 5);
}

#[test]
fn capacity_boundary_is_inclusive() {
    let mut vault = Vault::new("Edge".to_string(), MemorySize::KB(1));
    let exact = "x".repeat(1024);
    assert!(vault.add("fits".to_string(), Resource::TextMessage(exact)).is_ok());
    assert_eq!(vault.current_usage(), 1024);

    let mut other = Vault::new("Edge2".to_string(), MemorySize::KB(1));
    let too_big = "x".repeat(1025);
    let res = other.add("spills".to_string(), Resource::TextMessage(too_big));
    assert!(matches!(
        res,
        Err(VaultError::VaultFull { capacity: 1024, current: 0, new_size: 1025 })
    ));
    assert_eq!(other.current_usage(), 0);
    assert_eq!(other.resources.len(), 0);
}

#[test]
fn duplicate_key_leaves_first_record() {
    let mut vault = Vault::new("Dups".to_string(), MemorySize::MB(1));
    vault
        .add("k".to_string(), Resource::TextMessage("first".to_string()))
        .unwrap();
    let usage = vault.current_usage();
    let res = vault.add("k".to_string(), Resource::TextMessage("second!".to_string()));
    match res {
        Err(VaultError::DuplicateKey(key)) => assert_eq!(key, "k"),
        other => panic!("expected DuplicateKey, got {:?}", other),
    }
    assert_eq!(
        vault.get(&"k".to_string()),
        Some(&Resource::TextMessage("first".to_string()))
    );
    assert_eq!(vault.current_usage(), usage);
}

#[test]
fn full_vault_rejects_before_duplicate_check() {
    // The capacity check comes strictly before the uniqueness check, so a
    // full vault reports VaultFull even for a key that already exists.
    let mut vault = Vault::new("Order".to_string(), MemorySize::KB(1));
    vault
        .add("k".to_string(), Resource::TextMessage("x".repeat(1024)))
        .unwrap();
    let res = vault.add("k".to_string(), Resource::TextMessage("y".to_string()));
    assert!(matches!(
        res,
        Err(VaultError::VaultFull { capacity: 1024, current: 1024, new_size: 1 })
    ));
}

#[test]
fn remove_returns_record_and_clears_key() {
    let mut vault = Vault::new("R".to_string(), MemorySize::MB(1));
    let record = Resource::SystemLogs(vec!["one".to_string(), "two".to_string()]);
    vault.add("logs".to_string(), record.clone()).unwrap();
    let removed = vault.remove(&"logs".to_string()).unwrap();
    assert_eq!(removed, record);
    assert_eq!(vault.get(&"logs".to_string()), None);
    assert_eq!(vault.current_usage(), 0);

    let res = vault.remove(&"gone".to_string());
    match res {
        Err(VaultError::ResourceNotFound(key)) => assert_eq!(key, "gone"),
        other => panic!("expected ResourceNotFound, got {:?}", other),
    }
}

#[test]
fn vault_full_scenario_one_kilobyte() {
    let mut vault = Vault::new("Tiny".to_string(), MemorySize::KB(1));
    let res = vault.add(
        "msg".to_string(),
        Resource::TextMessage("x".repeat(2000)),
    );
    match res {
        Err(VaultError::VaultFull { capacity, current, new_size }) => {
            assert_eq!(capacity, 1024);
            assert_eq!(current, 0);
            assert_eq!(new_size, 2000);
        }
        other => panic!("expected VaultFull, got {:?}", other),
    }
    assert_eq!(vault.resources.len(), 0);
    assert_eq!(vault.current_usage(), 0);
}

#[test]
fn summary_scenario_fifty_gigabytes() {
    let mut vault = Vault::new("Big".to_string(), MemorySize::GB(50));
    vault
        .add(
            "greeting".to_string(),
            Resource::TextMessage("Hello".to_string()),
        )
        .unwrap();
    assert_eq!(
        vault.summary(),
        VaultSummary { text_messages: 1, sensor_data: 0, system_logs: 0 }
    );
}

#[test]
fn summary_counts_every_variant() {
    let mut vault = Vault::new("Mix".to_string(), MemorySize::MB(1));
    vault
        .add("t1".to_string(), Resource::TextMessage("a".to_string()))
        .unwrap();
    vault
        .add("t2".to_string(), Resource::TextMessage("b".to_string()))
        .unwrap();
    vault
        .add("s1".to_string(), Resource::SensorData((1.5f64).to_bits()))
        .unwrap();
    vault
        .add("l1".to_string(), Resource::SystemLogs(vec!["x".to_string()]))
        .unwrap();
    assert_eq!(
        vault.summary(),
        VaultSummary { text_messages: 2, sensor_data: 1, system_logs: 1 }
    );
}

#[test]
fn metadata_reports_state() {
    let mut vault = Vault::new("Meta".to_string(), MemorySize::KB(2));
    vault
        .add("k".to_string(), Resource::TextMessage("abcd".to_string()))
        .unwrap();
    let meta = vault.metadata();
    assert_eq!(meta.location, "Meta");
    assert_eq!(meta.storage_capacity, MemorySize::KB(2));
    assert_eq!(meta.current_usage, 4);
    assert_eq!(meta.resource_count, 1);
}

#[test]
fn error_messages_are_exact() {
    let full = VaultError::VaultFull { capacity: 1024, current: 0, new_size: 2000 };
    assert_eq!(
        full.message(),
        "Vault full! Capacity: 1024 bytes, Current: 0 bytes, New Resource: 2000 bytes"
    );
    let dup = VaultError::DuplicateKey("dup".to_string());
    assert_eq!(dup.message(), "Key 'dup' already exists");
    let missing = VaultError::ResourceNotFound("key".to_string());
    assert_eq!(missing.message(), "Resource 'key' not found");
    let invalid = VaultError::InvalidInput("Invalid command".to_string());
    assert_eq!(invalid.message(), "Input error: Invalid command");
    let io = VaultError::IoFailure("file vanished".to_string());
    assert_eq!(io.message(), "I/O error: file vanished");
}
