use clawcam::device::{validate_device_name, validate_host, validate_user, Device, DeviceError, DeviceRegistry};

#[test]
fn add_get_list_remove() {
    let mut r = DeviceRegistry::new();
    r.add("garage-cam", "192.168.1.51", 22, "pi").unwrap();
    r.add("barn-cam", "192.168.1.50", 22, "pi").unwrap();
    let names: Vec<&str> = r.list().iter().map(|d| d.name.as_str()).collect();
    assert_eq!(names, vec!["barn-cam", "garage-cam"]);
    let d = r.get("barn-cam").unwrap();
    assert_eq!(d.host, "192.168.1.50");
    assert_eq!(d.port, 22);
    assert_eq!(d.user, "pi");
    assert_eq!(r.add("barn-cam", "10.0.0.1", 22, "pi"), Err(DeviceError::AlreadyExists("barn-cam".to_string())));
    r.remove("barn-cam").unwrap();
    assert_eq!(r.get("barn-cam").unwrap_err(), DeviceError::NotRegistered("barn-cam".to_string()));
    assert_eq!(r.remove("barn-cam"), Err(DeviceError::NotFound("barn-cam".to_string())));
    assert_eq!(r.list().len(), 1);
}

#[test]
fn add_checks_in_order() {
    let mut r = DeviceRegistry::new();
    assert_eq!(r.add("", "bad host!", 22, ""), Err(DeviceError::NameLength));
    assert_eq!(r.add("ok", "bad host!", 22, ""), Err(DeviceError::HostCharacters));
    assert_eq!(r.add("ok", "host", 22, ""), Err(DeviceError::UserLength));
    assert!(r.list().is_empty());
}

#[test]
fn name_rules() {
    assert!(validate_device_name("cam_1-A").is_ok());
    assert_eq!(validate_device_name(""), Err(DeviceError::NameLength));
    assert!(validate_device_name(&"a".repeat(64)).is_ok());
    assert_eq!(validate_device_name(&"a".repeat(65)), Err(DeviceError::NameLength));
    assert_eq!(validate_device_name("cam;rm"), Err(DeviceError::NameCharacters));
    assert_eq!(validate_device_name("caméra"), Err(DeviceError::NameCharacters));
    // the length counts bytes: 32 two-byte characters make 64 bytes
    assert_eq!(validate_device_name(&"é".repeat(33)), Err(DeviceError::NameLength));
}

#[test]
fn host_rules() {
    assert!(validate_host("192.168.1.50").is_ok());
    assert!(validate_host("fe80::1").is_ok());
    assert!(validate_host("cam-1.example.com").is_ok());
    assert_eq!(validate_host(""), Err(DeviceError::HostLength));
    assert_eq!(validate_host(&"h".repeat(254)), Err(DeviceError::HostLength));
    assert_eq!(validate_host("host$(id)"), Err(DeviceError::HostCharacters));
}

#[test]
fn user_rules() {
    assert!(validate_user("pi").is_ok());
    assert_eq!(validate_user(&"u".repeat(33)), Err(DeviceError::UserLength));
    assert_eq!(validate_user("pi@x"), Err(DeviceError::UserCharacters));
    assert_eq!(validate_user(""), Err(DeviceError::UserLength));
}

#[test]
fn insert_replaces_by_key() {
    let mut r = DeviceRegistry::new();
    let d = |h: &str| Device { name: "x".to_string(), host: h.to_string(), port: 22, user: "pi".to_string() };
    r.insert("b".to_string(), d("1"));
    r.insert("a".to_string(), d("2"));
    r.insert("b".to_string(), d("3"));
    let l = r.list();
    assert_eq!(l.len(), 2);
    assert_eq!(l[0].host, "2");
    assert_eq!(l[1].host, "3");
}

#[test]
fn device_error_messages() {
    assert_eq!(DeviceError::NameLength.message(), "device name must be 1-64 characters");
    assert_eq!(DeviceError::HostCharacters.message(), "host contains invalid characters — expected IP address or hostname");
    assert_eq!(DeviceError::AlreadyExists("cam".to_string()).message(), "device 'cam' already exists");
    assert_eq!(DeviceError::NotFound("cam".to_string()).message(), "device 'cam' not found");
    assert_eq!(
        DeviceError::NotRegistered("cam".to_string()).message(),
        "device 'cam' not found — run `clawcam device add` first"
    );
}
