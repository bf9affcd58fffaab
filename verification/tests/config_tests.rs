use boincview::config::{get_endpoints, ConfigError, Endpoint, Endpoints};

fn entry<'a>(endpoints: &'a Endpoints, name: Option<&str>) -> &'a Endpoint {
    endpoints
        .checkable
        .iter()
        .find(|e| e.name.as_deref() == name)
        .expect("no entry of that name")
}

#[test]
fn reads_hosts_from_sections() {
    let text = "[home]\nhost = 127.0.0.1\npassword = secret\n\n[lab]\nhost=192.168.1.113\npassword=abc\n";
    let endpoints = get_endpoints(text).unwrap();
    // The general section, then one entry per named section.
    assert_eq!(endpoints.checkable.len(), 3);
    let home = entry(&endpoints, Some("home"));
    assert_eq!(home.host(), Some("127.0.0.1:31416".to_string()));
    assert_eq!(home.password(), Some("secret"));
    assert_eq!(home.is_down, Some(false));
    assert_eq!(home.last_checked, None);
    let lab = entry(&endpoints, Some("lab"));
    assert_eq!(lab.host(), Some("192.168.1.113:31416".to_string()));
    assert_eq!(lab.password(), Some("abc"));
    let general = entry(&endpoints, None);
    assert_eq!(general.is_down, Some(false));
}

#[test]
fn later_property_and_section_win() {
    let text = "[home]\nhost=a\nhost=b\n[home]\npassword=p\n";
    let endpoints = get_endpoints(text).unwrap();
    assert_eq!(endpoints.checkable.len(), 2);
    let home = entry(&endpoints, Some("home"));
    assert_eq!(home.password(), Some("p"));
    let text = "[home]\nhost=a\nhost=b\npassword=q\n";
    let endpoints = get_endpoints(text).unwrap();
    assert_eq!(entry(&endpoints, Some("home")).host(), Some("b:31416".to_string()));
}

#[test]
fn unknown_key_is_refused() {
    match get_endpoints("[home]\nhost=a\nport=1\ncolor=red\n") {
        Err(ConfigError::UnhandledKey(key)) => assert_eq!(key, "port"),
        other => panic!("unexpected: {:?}", other.map(|e| e.checkable.len())),
    }
}

#[test]
fn malformed_text_is_refused() {
    assert!(matches!(get_endpoints("[home\nhost=a\n"), Err(ConfigError::Parse(_))));
    assert!(matches!(get_endpoints("=value\n"), Err(ConfigError::Parse(_))));
}

#[test]
fn empty_text_has_only_the_general_section() {
    let endpoints = get_endpoints("").unwrap();
    assert_eq!(endpoints.checkable.len(), 1);
    assert_eq!(endpoints.checkable[0].name, None);
}

#[test]
fn mark_checked_records_time() {
    let mut endpoints = get_endpoints("[home]\nhost=a\n[lab]\nhost=b\n").unwrap();
    endpoints.mark_checked(&Some("lab".to_string()), 1234);
    assert_eq!(entry(&endpoints, Some("lab")).last_checked, Some(1234));
    assert_eq!(entry(&endpoints, Some("home")).last_checked, None);
    assert_eq!(entry(&endpoints, Some("lab")).host(), Some("b:31416".to_string()));
}

#[test]
fn down_hosts_wait_ninety_seconds() {
    let endpoints = get_endpoints("[home]\nhost=a\n").unwrap();
    let mut home = entry(&endpoints, Some("home")).clone();
    assert!(home.needs_refresh(1000));
    home.is_down = Some(true);
    home.last_checked = Some(1000);
    assert!(!home.needs_refresh(1000));
    assert!(!home.needs_refresh(1090));
    assert!(home.needs_refresh(1091));
}

#[test]
fn presence_checks_and_setters() {
    let endpoints = get_endpoints("[home]\nhost=a\n").unwrap();
    let general = entry(&endpoints, None);
    assert!(!general.has_host());
    assert!(!general.has_password());
    let mut home = entry(&endpoints, Some("home")).clone();
    assert!(home.has_host());
    assert!(!home.has_password());
    home.set_is_down(Some(true));
    home.set_last_checked(Some(50));
    assert_eq!(home.is_down, Some(true));
    assert_eq!(home.last_checked, Some(50));
    assert!(!home.needs_refresh(140));
    assert!(home.needs_refresh(141));
}
