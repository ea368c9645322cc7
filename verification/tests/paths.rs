use usbinfo::DevicePath;
use usbinfo::DevicePathError;

#[test]
fn test_parse_full_path() {
    let path: DevicePath = "1:2.3.4".parse().unwrap();
    assert_eq!(path.bus(), 1);
    assert_eq!(path.ports(), &[2, 3, 4]);
}

#[test]
fn test_parse_bus_only() {
    let path: DevicePath = "2:".parse().unwrap();
    assert_eq!(path.bus(), 2);
    assert!(path.ports().is_empty());
    assert!(path.is_bus_only());
}

#[test]
fn test_display() {
    let path = DevicePath::new(1, vec![2, 3]);
    assert_eq!(path.to_key(), "1:2.3");
}

#[test]
fn test_parent() {
    let path = DevicePath::new(1, vec![2, 3, 4]);
    let parent = path.parent().unwrap();
    assert_eq!(parent, DevicePath::new(1, vec![2, 3]));
}

#[test]
fn test_child() {
    let path = DevicePath::new(1, vec![2]);
    let child = path.child(3);
    assert_eq!(child, DevicePath::new(1, vec![2, 3]));
}

#[test]
fn test_ancestor() {
    let parent = DevicePath::new(1, vec![2]);
    let child = DevicePath::new(1, vec![2, 3, 4]);
    assert!(parent.is_ancestor_of(&child));
    assert!(child.is_descendant_of(&parent));
}

#[test]
fn test_roundtrip_samples() {
    let samples: Vec<(u8, Vec<u8>)> = vec![
        (0, vec![]),
        (1, vec![2, 3, 4]),
        (255, vec![0, 255, 17]),
        (10, vec![1]),
        (42, vec![0]),
    ];
    for (bus, ports) in samples {
        let p = DevicePath::new(bus, ports.clone());
        let key = p.to_key();
        let q: DevicePath = key.parse().unwrap();
        assert_eq!(p, q);
        assert_eq!(q.to_key(), key);
    }
}

#[test]
fn test_parse_missing_bus() {
    let ok = "1:".parse::<DevicePath>().unwrap();
    assert_eq!(ok, DevicePath::bus_only(1));
    let r = ":".parse::<DevicePath>();
    assert_eq!(r, Err(DevicePathError::MissingBus));
    let r2 = ":1.2".parse::<DevicePath>();
    assert_eq!(r2, Err(DevicePathError::MissingBus));
}

#[test]
fn test_parse_invalid_bus() {
    let r = "abc:1".parse::<DevicePath>();
    assert_eq!(r, Err(DevicePathError::InvalidBus("abc".to_string())));
    let r2 = "300:1".parse::<DevicePath>();
    assert_eq!(r2, Err(DevicePathError::InvalidBus("300".to_string())));
}

#[test]
fn test_parse_invalid_port() {
    let r = "1:2.x.4".parse::<DevicePath>();
    assert_eq!(r, Err(DevicePathError::InvalidPort("x".to_string())));
    let r2 = "1:2..4".parse::<DevicePath>();
    assert_eq!(r2, Err(DevicePathError::InvalidPort("".to_string())));
    let r3 = "1:999".parse::<DevicePath>();
    assert_eq!(r3, Err(DevicePathError::InvalidPort("999".to_string())));
}

#[test]
fn test_parse_invalid_format() {
    let r = "12".parse::<DevicePath>();
    assert_eq!(r, Err(DevicePathError::InvalidFormat));
    let r2 = "".parse::<DevicePath>();
    assert_eq!(r2, Err(DevicePathError::InvalidFormat));
}

#[test]
fn test_parse_lenient_numbers() {
    // u8 parsing accepts a leading plus sign and leading zeros.
    let p: DevicePath = "007:+3.010".parse().unwrap();
    assert_eq!(p.bus(), 7);
    assert_eq!(p.ports(), &[3, 10]);
    // The canonical form is normalized.
    assert_eq!(p.to_key(), "7:3.10");
}

#[test]
fn test_depth_and_bus_str() {
    let p = DevicePath::new(12, vec![1, 2]);
    assert_eq!(p.depth(), 2);
    assert_eq!(p.bus_str(), "12");
    assert_eq!(DevicePath::bus_only(9).depth(), 0);
}

#[test]
fn test_ancestor_not_reflexive() {
    let p = DevicePath::new(1, vec![2, 3]);
    assert!(!p.is_ancestor_of(&p));
    let other_bus = DevicePath::new(2, vec![2, 3, 4]);
    assert!(!p.is_ancestor_of(&other_bus));
}

#[test]
fn test_error_messages() {
    assert_eq!(
        DevicePathError::MissingBus.message(),
        "missing bus number"
    );
    assert_eq!(
        DevicePathError::InvalidBus("abc".to_string()).message(),
        "invalid bus number: 'abc'"
    );
    assert_eq!(
        DevicePathError::InvalidPort("z".to_string()).message(),
        "invalid port number: 'z'"
    );
    assert_eq!(
        DevicePathError::InvalidFormat.message(),
        "invalid format, expected 'bus:port.path'"
    );
}

#[test]
fn test_parse_port_path_lenient() {
    assert_eq!(usbinfo::path::parse_port_path("1.2.3"), vec![1, 2, 3]);
    assert_eq!(usbinfo::path::parse_port_path(""), Vec::<u8>::new());
    assert_eq!(usbinfo::path::parse_port_path("1.x.3"), vec![1, 3]);
    assert_eq!(usbinfo::path::parse_port_path("400.2"), vec![2]);
}
