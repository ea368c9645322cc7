use usbinfo::DevicePath;
use usbinfo::DeviceSpeed;
use usbinfo::TreeFormatter;
use usbinfo::TreeStyle;
use usbinfo::UsbDevice;
use usbinfo::UsbTree;
use usbinfo::UsbTreeError;
use usbinfo::matches_vid_pid;

fn dev(bus: u8, ports: &[u8], address: u8, name: &str) -> UsbDevice {
    UsbDevice {
        vid: 0x1234,
        pid: 0x5678,
        bus,
        address,
        name: name.to_string(),
        manufacturer: None,
        product: None,
        serial: None,
        class: 9,
        subclass: 0,
        protocol: 0,
        speed: Some(DeviceSpeed::High),
        port_path: ports.to_vec(),
    }
}

#[test]
fn test_insert_and_get() {
    let mut t: UsbTree<String> = UsbTree::new();
    assert!(t.is_empty());
    t.insert_path(&DevicePath::new(1, vec![2]), "a".to_string());
    t.insert_path(&DevicePath::new(1, vec![2, 3]), "b".to_string());
    assert_eq!(t.len(), 2);
    assert_eq!(t.get("1:2"), Some(&"a".to_string()));
    assert_eq!(t.get("1:2.3"), Some(&"b".to_string()));
    assert_eq!(t.get("1:9"), None);
    assert_eq!(
        t.get_by_path(&DevicePath::new(1, vec![2])),
        Some(&"a".to_string())
    );
}

#[test]
fn test_insert_overwrites_last_value_wins() {
    let mut t: UsbTree<i32> = UsbTree::new();
    let p = DevicePath::new(3, vec![1, 4]);
    t.insert_path(&p, 10);
    t.insert_path(&p, 20);
    assert_eq!(t.len(), 1);
    assert_eq!(t.get_by_path(&p), Some(&20));
}

#[test]
fn test_get_non_canonical_string() {
    let mut t: UsbTree<i32> = UsbTree::new();
    t.insert_path(&DevicePath::new(1, vec![2, 10]), 7);
    // A valid but non-canonical spelling resolves through parsing.
    assert_eq!(t.get("01:+2.010"), Some(&7));
    assert_eq!(t.get("garbage"), None);
}

#[test]
fn test_try_get_not_found() {
    let mut t: UsbTree<i32> = UsbTree::new();
    t.insert_path(&DevicePath::new(1, vec![2]), 1);
    assert_eq!(t.try_get("1:2"), Ok(&1));
    assert_eq!(
        t.try_get("5:1"),
        Err(UsbTreeError::DeviceNotFound("5:1".to_string()))
    );
    assert_eq!(
        t.try_get_by_path(&DevicePath::new(9, vec![])),
        Err(UsbTreeError::DeviceNotFound("9:".to_string()))
    );
}

#[test]
fn test_insert_by_bus_string() {
    let mut t: UsbTree<i32> = UsbTree::new();
    t.insert("2", &[7], 5).unwrap();
    assert_eq!(t.get("2:7"), Some(&5));
    let r = t.insert("bogus", &[1], 6);
    assert!(matches!(
        r,
        Err(UsbTreeError::InvalidPath(
            usbinfo::DevicePathError::InvalidBus(_)
        ))
    ));
    assert_eq!(t.len(), 1);
}

#[test]
fn test_subtree_scenario() {
    let mut t: UsbTree<String> = UsbTree::new();
    t.insert_path(&DevicePath::new(1, vec![2]), "a".to_string());
    t.insert_path(&DevicePath::new(1, vec![2, 3]), "b".to_string());
    t.insert_path(&DevicePath::new(1, vec![2, 4]), "c".to_string());
    let sub = t.get_subtree("1:2");
    assert_eq!(sub.len(), 3);
    assert!(sub.contains(&&"a".to_string()));
    assert!(sub.contains(&&"b".to_string()));
    assert!(sub.contains(&&"c".to_string()));
    // The subtree of one leaf holds just that leaf.
    assert_eq!(t.get_subtree("1:2.3").len(), 1);
    // Unknown locations yield nothing.
    assert!(t.get_subtree("1:9").is_empty());
    assert!(t.get_subtree("7:").is_empty());

    let bt = t.bus_tree("1").unwrap();
    let node = bt.get(&[2]).unwrap();
    assert_eq!(node.child_ports(), vec![3, 4]);

    // A bare bus number falls back to the whole bus.
    assert_eq!(t.get_subtree("1").len(), 3);
}

#[test]
fn test_buses_sorted() {
    let mut t: UsbTree<i32> = UsbTree::new();
    t.insert_path(&DevicePath::new(10, vec![]), 1);
    t.insert_path(&DevicePath::new(2, vec![]), 2);
    t.insert_path(&DevicePath::new(200, vec![]), 3);
    assert_eq!(t.buses(), vec!["2", "10", "200"]);
    assert!(t.bus_tree("2").is_some());
    assert!(t.bus_tree("02").is_none());
    assert!(t.bus_tree("5").is_none());
}

#[test]
fn test_all_devices() {
    let mut t: UsbTree<i32> = UsbTree::new();
    t.insert_path(&DevicePath::new(1, vec![1]), 11);
    t.insert_path(&DevicePath::new(1, vec![2]), 22);
    let all = t.all_devices();
    assert_eq!(all.len(), 2);
    assert!(all.iter().any(|(k, v)| k.as_str() == "1:1" && **v == 11));
    assert!(all.iter().any(|(k, v)| k.as_str() == "1:2" && **v == 22));
}

#[test]
fn test_device_label_and_vid_pid() {
    let d = dev(1, &[2], 5, "Widget");
    assert_eq!(d.vid_pid(), "1234:5678");
    assert_eq!(d.to_display_string(), "Device 005: ID 1234:5678 Widget");
    assert!(d.is_hub());
    assert_eq!(d.path_key(), "1:2");
    let anon = dev(1, &[2], 5, "");
    assert_eq!(
        anon.to_display_string(),
        "Device 005: ID 1234:5678 Unknown Device"
    );
}

#[test]
fn test_matches_vid_pid_filters() {
    let d = dev(1, &[2], 5, "X");
    assert!(matches_vid_pid(&d, &[]));
    assert!(matches_vid_pid(&d, &[(0x1234, 0x5678)]));
    assert!(matches_vid_pid(&d, &[(1, 2), (0x1234, 0x5678)]));
    assert!(!matches_vid_pid(&d, &[(1, 2)]));
}

fn sample_tree() -> UsbTree<UsbDevice> {
    let mut tree: UsbTree<UsbDevice> = UsbTree::new();
    for d in [
        dev(1, &[2], 5, "Hub"),
        dev(1, &[2, 3], 6, "A"),
        dev(1, &[2, 4], 7, "B"),
        dev(2, &[1], 8, "C"),
        dev(2, &[5], 9, "D"),
    ] {
        let p = d.path();
        tree.insert_path(&p, d);
    }
    tree
}

#[test]
fn test_render_ascii_exact() {
    let tree = sample_tree();
    let f = TreeFormatter::with_style(&tree, TreeStyle::ascii().with_color(false));
    let expected = "Bus 001\n\
                    `-- Device 005: ID 1234:5678 Hub\n\
                    \x20   |-- Device 006: ID 1234:5678 A\n\
                    \x20   `-- Device 007: ID 1234:5678 B\n\
                    \n\
                    Bus 002\n\
                    |-- Device 008: ID 1234:5678 C\n\
                    `-- Device 009: ID 1234:5678 D\n\
                    \n";
    assert_eq!(f.render(), expected);
}

#[test]
fn test_render_unicode_plain() {
    let tree = sample_tree();
    let f = TreeFormatter::plain(&tree);
    let out = f.render();
    assert!(out.contains("└── Device 005: ID 1234:5678 Hub"));
    assert!(out.contains("│") == false);
    assert!(out.contains("├── Device 006: ID 1234:5678 A"));
}

#[test]
fn test_render_deterministic() {
    let tree = sample_tree();
    let f = TreeFormatter::with_style(&tree, TreeStyle::ascii().with_color(false));
    let a = f.render();
    let b = f.render();
    assert_eq!(a, b);
    let g = TreeFormatter::plain(&tree);
    assert_eq!(g.render(), g.render());
}

#[test]
fn test_render_colored_wraps_labels() {
    colored::control::set_override(true);
    let tree = sample_tree();
    let f = TreeFormatter::new(&tree);
    let out = f.render();
    // Depth 0 (bus headers) is red, depth 1 yellow, depth 2 green.
    assert!(out.contains("\u{1b}[31mBus 001\u{1b}[0m"));
    assert!(out.contains("\u{1b}[33mDevice 005: ID 1234:5678 Hub\u{1b}[0m"));
    assert!(out.contains("\u{1b}[32mDevice 006: ID 1234:5678 A\u{1b}[0m"));
    // The structural prefixes stay plain.
    assert!(out.contains("`-- \u{1b}[33m") || out.contains("└── \u{1b}[33m"));
    colored::control::unset_override();
}

#[test]
fn test_render_color_override_off_matches_plain() {
    colored::control::set_override(false);
    let tree = sample_tree();
    let colored_fmt = TreeFormatter::new(&tree);
    let plain_fmt = TreeFormatter::plain(&tree);
    assert_eq!(colored_fmt.render(), plain_fmt.render());
    colored::control::unset_override();
}

#[test]
fn test_tree_error_messages() {
    assert_eq!(
        UsbTreeError::ListDevices("boom".to_string()).message(),
        "failed to list USB devices: boom"
    );
    assert_eq!(
        UsbTreeError::DeviceNotFound("1:2".to_string()).message(),
        "device not found at path: '1:2'"
    );
    assert_eq!(
        UsbTreeError::InvalidPath(usbinfo::DevicePathError::MissingBus).message(),
        "invalid device path: missing bus number"
    );
}

#[test]
fn test_port_tree_direct() {
    let mut pt: usbinfo::PortTree<i32> = usbinfo::PortTree::new();
    pt.insert(&[2, 3], 1);
    pt.insert(&[2], 2);
    pt.insert(&[5], 3);
    pt.insert(&[], 4);
    assert_eq!(pt.child_ports(), vec![2, 5]);
    let descendants = pt.descendants();
    assert_eq!(descendants.len(), 4);
    let node = pt.get(&[2]).unwrap();
    assert_eq!(node.value, Some(2));
    assert!(pt.get(&[9]).is_none());
    let direct = pt.direct_children();
    assert_eq!(direct.len(), 2);
    assert!(direct.iter().any(|(p, v)| *p == 2 && **v == 2));
    assert!(direct.iter().any(|(p, v)| *p == 5 && **v == 3));
}
