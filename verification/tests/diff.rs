use autoadb::device::{DeviceState, DeviceTable};
use autoadb::diff::{diff, Notification, SnapshotDiff};
use autoadb::payload::parse_payload;

fn table(devices: &[(&str, DeviceState)]) -> DeviceTable {
    let mut table = DeviceTable::new();
    for (identifier, state) in devices {
        table.insert(identifier.to_string(), *state);
    }
    table
}

fn names(list: &[&str]) -> Vec<String> {
    list.iter().map(|name| name.to_string()).collect()
}

#[test]
fn appeared_and_disappeared() {
    let previous = table(&[
        ("stays", DeviceState::Online),
        ("leaves", DeviceState::Online),
        ("goes-offline", DeviceState::Online),
        ("comes-online", DeviceState::Offline),
        ("stays-offline", DeviceState::Offline),
    ]);
    let next = table(&[
        ("stays", DeviceState::Online),
        ("goes-offline", DeviceState::Offline),
        ("comes-online", DeviceState::Online),
        ("stays-offline", DeviceState::Offline),
        ("new", DeviceState::Online),
        ("new-offline", DeviceState::Unauthorized),
    ]);
    let changes = diff(&previous, &next);
    assert_eq!(changes.disappeared, names(&["goes-offline", "leaves"]));
    assert_eq!(changes.appeared, names(&["comes-online", "new"]));
    assert!(!changes.is_empty());
}

#[test]
fn appeared_and_disappeared_are_disjoint() {
    let states = [
        None,
        Some(DeviceState::Online),
        Some(DeviceState::Offline),
        Some(DeviceState::Unauthorized),
        Some(DeviceState::Bootloader),
        Some(DeviceState::Other),
    ];
    for before in states.iter() {
        for after in states.iter() {
            let mut previous = DeviceTable::new();
            let mut next = DeviceTable::new();
            if let Some(state) = before {
                previous.insert("X".to_string(), *state);
            }
            if let Some(state) = after {
                next.insert("X".to_string(), *state);
            }
            let changes = diff(&previous, &next);
            let was = *before == Some(DeviceState::Online);
            let is = *after == Some(DeviceState::Online);
            assert_eq!(changes.appeared, if is && !was { names(&["X"]) } else { names(&[]) });
            assert_eq!(changes.disappeared, if was && !is { names(&["X"]) } else { names(&[]) });
            assert!(changes.appeared.is_empty() || changes.disappeared.is_empty());
        }
    }
}

#[test]
fn nothing_disappears_on_the_first_frame() {
    let previous = DeviceTable::new();
    let next = parse_payload(b"A\tonline\nB\toffline\nC\tonline\n");
    let changes = diff(&previous, &next);
    assert_eq!(changes.disappeared, names(&[]));
    assert_eq!(changes.appeared, names(&["A", "C"]));
    let changes = diff(&previous, &DeviceTable::new());
    assert!(changes.is_empty());
}

#[test]
fn the_same_frame_twice_changes_nothing() {
    let frame = b"A\tonline\nB\toffline\nC\tonline\n";
    let first = parse_payload(frame);
    let second = parse_payload(frame);
    let changes = diff(&first, &second);
    assert_eq!(changes, SnapshotDiff { disappeared: vec![], appeared: vec![] });
    assert!(changes.is_empty());
    assert!(changes.notifications().is_empty());
}

#[test]
fn a_change_between_absent_states_is_silent() {
    let previous = table(&[("A", DeviceState::Offline), ("B", DeviceState::Unauthorized)]);
    let next = table(&[("A", DeviceState::Bootloader), ("C", DeviceState::Other)]);
    assert!(diff(&previous, &next).is_empty());
}

#[test]
fn one_replaces_the_other() {
    let previous = parse_payload(b"A\tonline");
    let next = parse_payload(b"B\tonline");
    let changes = diff(&previous, &next);
    assert_eq!(changes.disappeared, names(&["A"]));
    assert_eq!(changes.appeared, names(&["B"]));
    assert_eq!(
        changes.notifications(),
        vec![
            Notification::Disappeared("A".to_string()),
            Notification::Appeared("B".to_string()),
        ]
    );
}

#[test]
fn notifications_list_the_disappeared_first_each_in_ascending_order() {
    let previous = parse_payload(b"d\tonline\nb\tonline\nz\tonline\n");
    let next = parse_payload(b"y\tonline\na\tonline\nc\tonline\n");
    let changes = diff(&previous, &next);
    assert_eq!(
        changes.notifications(),
        vec![
            Notification::Disappeared("b".to_string()),
            Notification::Disappeared("d".to_string()),
            Notification::Disappeared("z".to_string()),
            Notification::Appeared("a".to_string()),
            Notification::Appeared("c".to_string()),
            Notification::Appeared("y".to_string()),
        ]
    );
}

#[test]
fn the_diff_does_not_depend_on_the_order_of_lines() {
    let previous = parse_payload(b"a\tonline\nb\tonline\n");
    let one = parse_payload(b"c\tonline\nd\tonline\nb\toffline\n");
    let other = parse_payload(b"b\toffline\nd\tonline\nc\tonline\n");
    assert_eq!(diff(&previous, &one), diff(&previous, &other));
    assert_eq!(diff(&previous, &one).appeared, names(&["c", "d"]));
    assert_eq!(diff(&previous, &one).disappeared, names(&["a", "b"]));
}
