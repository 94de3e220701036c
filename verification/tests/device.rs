use autoadb::device::{DeviceRecord, DeviceState, DeviceTable};

#[test]
fn only_online_counts_as_present() {
    assert!(DeviceState::Online.is_present());
    assert!(!DeviceState::Offline.is_present());
    assert!(!DeviceState::Unauthorized.is_present());
    assert!(!DeviceState::Bootloader.is_present());
    assert!(!DeviceState::Other.is_present());
}

#[test]
fn new_table_is_empty() {
    let table = DeviceTable::new();
    assert_eq!(table.len(), 0);
    assert!(table.is_empty());
    assert_eq!(table.get("A"), None);
    assert!(!table.is_online("A"));
    assert!(table.records().is_empty());
}

#[test]
fn insert_then_get() {
    let mut table = DeviceTable::new();
    table.insert("B".to_string(), DeviceState::Online);
    table.insert("A".to_string(), DeviceState::Offline);
    table.insert("C".to_string(), DeviceState::Unauthorized);
    assert_eq!(table.len(), 3);
    assert!(!table.is_empty());
    assert_eq!(table.get("A"), Some(DeviceState::Offline));
    assert_eq!(table.get("B"), Some(DeviceState::Online));
    assert_eq!(table.get("C"), Some(DeviceState::Unauthorized));
    assert_eq!(table.get("D"), None);
    assert_eq!(table.get(""), None);
    assert!(table.is_online("B"));
    assert!(!table.is_online("A"));
    assert!(!table.is_online("D"));
}

#[test]
fn insert_replaces_the_state_of_a_known_device() {
    let mut table = DeviceTable::new();
    table.insert("A".to_string(), DeviceState::Offline);
    table.insert("B".to_string(), DeviceState::Online);
    table.insert("A".to_string(), DeviceState::Online);
    assert_eq!(table.len(), 2);
    assert_eq!(table.get("A"), Some(DeviceState::Online));
    table.insert("B".to_string(), DeviceState::Bootloader);
    assert_eq!(table.len(), 2);
    assert_eq!(table.get("B"), Some(DeviceState::Bootloader));
    assert_eq!(table.get("A"), Some(DeviceState::Online));
}

#[test]
fn records_are_kept_in_ascending_order() {
    let mut table = DeviceTable::new();
    for identifier in ["m", "b", "z", "a", "ab", "B", "", "y"] {
        table.insert(identifier.to_string(), DeviceState::Online);
    }
    let identifiers: Vec<&str> =
        table.records().iter().map(|record| record.identifier.as_str()).collect();
    assert_eq!(identifiers, vec!["", "B", "a", "ab", "b", "m", "y", "z"]);
}

#[test]
fn tables_with_the_same_devices_are_equal() {
    let mut first = DeviceTable::new();
    first.insert("A".to_string(), DeviceState::Online);
    first.insert("B".to_string(), DeviceState::Offline);
    let mut second = DeviceTable::new();
    second.insert("B".to_string(), DeviceState::Online);
    second.insert("A".to_string(), DeviceState::Online);
    assert_ne!(first, second);
    second.insert("B".to_string(), DeviceState::Offline);
    assert_eq!(first, second);
    assert_eq!(
        first.records(),
        &vec![
            DeviceRecord { identifier: "A".to_string(), state: DeviceState::Online },
            DeviceRecord { identifier: "B".to_string(), state: DeviceState::Offline },
        ]
    );
}
