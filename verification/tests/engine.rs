use vk_device_reorder::config::{Config, Criteria, Rule};
use vk_device_reorder::devices::{
    DeviceArray, DeviceEntry, DisplayInfo, displays_from_resolutions, displays_or_empty,
    modify_device_entries,
};

fn entry_at(idx: usize, name: &str, displays: usize) -> DeviceEntry {
    let mut d = Vec::new();
    for _ in 0..displays {
        d.push(DisplayInfo { name: String::new(), resolution: (800, 600) });
    }
    DeviceEntry {
        arr_idx: idx,
        name: name.to_string(),
        props: Vec::new(),
        features: Vec::new(),
        displays: d,
    }
}

fn rule(card_name: Option<&str>, is_display: Option<bool>, priority: Option<i64>, hide: bool) -> Rule {
    Rule {
        criteria: Criteria { invert: false, card_name: card_name.map(|s| s.to_string()), is_display },
        priority,
        hide,
    }
}

fn names(entries: &[DeviceEntry]) -> Vec<&str> {
    entries.iter().map(|e| e.name.as_str()).collect()
}

#[test]
fn hide_rule_drops_matching_and_keeps_order() {
    // One hide rule on "GPU-B": survivors are "GPU-A", "GPU-C" in that
    // order, since no priority rule is present.
    let cfg = Config { rules: vec![rule(Some("GPU-B"), None, None, true)] };
    let mut entries = vec![
        entry_at(0, "GPU-A", 0),
        entry_at(1, "GPU-B", 0),
        entry_at(2, "GPU-C", 0),
    ];
    modify_device_entries(&cfg, &mut entries);
    assert_eq!(names(&entries), vec!["GPU-A", "GPU-C"]);
    assert_eq!(entries[0].arr_idx, 0);
    assert_eq!(entries[1].arr_idx, 2);
}

#[test]
fn display_priority_rule_sorts_display_device_first() {
    // A priority rule on display devices: B (the only one with a display)
    // must come first; the tie between A and C is resolved by this
    // implementation's stable sort, which keeps original order.
    let cfg = Config { rules: vec![rule(None, Some(true), Some(10), false)] };
    let mut entries = vec![
        entry_at(0, "A", 0),
        entry_at(1, "B", 1),
        entry_at(2, "C", 0),
    ];
    modify_device_entries(&cfg, &mut entries);
    assert_eq!(entries.len(), 3);
    assert_eq!(entries[0].name, "B");
    let mut rest = vec![entries[1].name.as_str(), entries[2].name.as_str()];
    rest.sort();
    assert_eq!(rest, vec!["A", "C"]);
}

#[test]
fn no_rules_leave_entries_untouched() {
    let cfg = Config::new();
    let mut entries = vec![
        entry_at(0, "GPU-A", 0),
        entry_at(1, "GPU-B", 2),
        entry_at(2, "GPU-C", 0),
    ];
    modify_device_entries(&cfg, &mut entries);
    assert_eq!(names(&entries), vec!["GPU-A", "GPU-B", "GPU-C"]);
}

#[test]
fn transformation_is_idempotent() {
    let cfg = Config {
        rules: vec![
            rule(Some("GPU-B"), None, None, true),
            rule(Some("GPU-D"), None, Some(5), false),
            rule(None, Some(true), Some(2), false),
        ],
    };
    let mut once = vec![
        entry_at(0, "GPU-A", 1),
        entry_at(1, "GPU-B", 0),
        entry_at(2, "GPU-C", 0),
        entry_at(3, "GPU-D", 0),
    ];
    modify_device_entries(&cfg, &mut once);
    let snapshot = names(&once).into_iter().map(String::from).collect::<Vec<_>>();
    modify_device_entries(&cfg, &mut once);
    assert_eq!(names(&once), snapshot.iter().map(|s| s.as_str()).collect::<Vec<_>>());
}

#[test]
fn negative_priority_sorts_after_default() {
    // "GPU-A" gets priority -5, "GPU-B" has no matching priority rule and
    // defaults to 0, so "GPU-B" sorts first.
    let cfg = Config { rules: vec![rule(Some("GPU-A"), None, Some(-5), false)] };
    let mut entries = vec![entry_at(0, "GPU-A", 0), entry_at(1, "GPU-B", 0)];
    modify_device_entries(&cfg, &mut entries);
    assert_eq!(names(&entries), vec!["GPU-B", "GPU-A"]);
}

#[test]
fn maximum_priority_among_matching_rules_decides() {
    // "GPU-A" matches rules of priority 3 and 7: its effective priority 7
    // beats "GPU-B"'s single rule of priority 5.
    let cfg = Config {
        rules: vec![
            rule(Some("GPU-A"), None, Some(3), false),
            rule(Some("GPU-A"), None, Some(7), false),
            rule(Some("GPU-B"), None, Some(5), false),
        ],
    };
    let mut entries = vec![entry_at(0, "GPU-B", 0), entry_at(1, "GPU-A", 0)];
    modify_device_entries(&cfg, &mut entries);
    assert_eq!(names(&entries), vec!["GPU-A", "GPU-B"]);
}

#[test]
fn commit_reprojects_handles_from_original_positions() {
    // Survivors reference the raw handles at their original positions:
    // descriptor order (2, 0) pulls handles 30 and 10 to the front, and
    // the slot past the committed count keeps its old handle.
    let arr = DeviceArray {
        entries: vec![entry_at(2, "C", 0), entry_at(0, "A", 0)],
        array: vec![10, 20, 30],
    };
    let mut arr = arr;
    let n = arr.commit();
    assert_eq!(n, 2);
    assert_eq!(arr.array, vec![30, 10, 30]);
}

#[test]
fn commit_of_full_identity_keeps_array() {
    let mut arr = DeviceArray {
        entries: vec![entry_at(0, "A", 0), entry_at(1, "B", 0)],
        array: vec![7, 9],
    };
    let n = arr.commit();
    assert_eq!(n, 2);
    assert_eq!(arr.array, vec![7, 9]);
}

#[test]
fn commit_of_no_survivors_reports_zero() {
    let mut arr = DeviceArray { entries: Vec::new(), array: vec![5, 6] };
    let n = arr.commit();
    assert_eq!(n, 0);
    assert_eq!(arr.array, vec![5, 6]);
}

#[test]
fn from_device_cuts_name_at_first_nul() {
    let mut raw = b"GPU-X".to_vec();
    raw.push(0);
    raw.extend_from_slice(b"stale junk");
    raw.push(0);
    let e = DeviceEntry::from_device(4, &raw, vec![1, 2], vec![3], Vec::new());
    assert_eq!(e.name, "GPU-X");
    assert_eq!(e.arr_idx, 4);
    assert_eq!(e.props, vec![1, 2]);
    assert_eq!(e.features, vec![3]);
    assert!(e.displays.is_empty());
}

#[test]
fn from_device_takes_whole_field_without_nul() {
    let raw = b"GPU-Y".to_vec();
    let e = DeviceEntry::from_device(0, &raw, Vec::new(), Vec::new(), Vec::new());
    assert_eq!(e.name, "GPU-Y");
}

#[test]
fn from_device_with_leading_nul_has_empty_name() {
    let raw = vec![0u8, b'G', b'P', b'U'];
    let e = DeviceEntry::from_device(0, &raw, Vec::new(), Vec::new(), Vec::new());
    assert_eq!(e.name, "");
}

#[test]
fn display_builder_keeps_resolutions_and_blank_names() {
    let d = displays_from_resolutions(&vec![(1920, 1080), (640, 480)]);
    assert_eq!(d.len(), 2);
    assert_eq!(d[0].resolution, (1920, 1080));
    assert_eq!(d[1].resolution, (640, 480));
    assert_eq!(d[0].name, "");
}

#[test]
fn display_query_failure_degrades_to_empty_list() {
    let ok = displays_or_empty(Ok(vec![DisplayInfo {
        name: String::new(),
        resolution: (1, 2),
    }]));
    assert_eq!(ok.len(), 1);
    let failed = displays_or_empty(Err(-13));
    assert!(failed.is_empty());
}

#[test]
fn from_device_replaces_invalid_utf8_in_name() {
    let raw = vec![b'G', 0xFF, b'U', 0];
    let e = DeviceEntry::from_device(0, &raw, Vec::new(), Vec::new(), Vec::new());
    assert_eq!(e.name, "G\u{FFFD}U");
}
