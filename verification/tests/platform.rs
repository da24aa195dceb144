use remote_agent::platform::{is_wsl, platform_label};

#[test]
fn test_platform_label_not_empty() {
    let label = platform_label("linux", None);
    assert!(!label.is_empty());
}

#[test]
fn test_is_wsl_returns_bool() {
    // Just ensure it doesn't panic
    let _ = is_wsl(None);
    let _ = is_wsl(Some("Linux version 6.8.0-51-generic (buildd@lcy02) #52-Ubuntu SMP"));
}

#[test]
fn wsl_kernel_is_detected_in_any_case() {
    assert!(is_wsl(Some("Linux version 5.15.153.1-microsoft-standard-WSL2")));
    assert!(is_wsl(Some("Linux version 4.4.0-19041-Microsoft")));
    assert!(!is_wsl(Some("Linux version 6.8.0-51-generic")));
    assert!(!is_wsl(None));
}

#[test]
fn platform_labels() {
    assert_eq!(platform_label("windows", None), "windows");
    assert_eq!(platform_label("macos", None), "macos");
    assert_eq!(platform_label("linux", None), "linux");
    assert_eq!(platform_label("linux", Some("Linux version 5.15-microsoft-standard-WSL2")), "linux-wsl");
    assert_eq!(platform_label("linux", Some("Linux version 6.8.0-generic")), "linux");
    assert_eq!(platform_label("haiku", None), "haiku");
    assert_eq!(platform_label("freebsd", Some("microsoft")), "freebsd");
}
