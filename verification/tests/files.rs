use remote_agent::files::{is_hidden_name, owner_from_passwd, permission_flags, root_file_info};

#[test]
fn mode_bits() {
    assert_eq!(permission_flags(0o755), (true, true, true));
    assert_eq!(permission_flags(0o644), (true, true, false));
    assert_eq!(permission_flags(0o000), (false, false, false));
    assert_eq!(permission_flags(0o100), (false, false, true));
    assert_eq!(permission_flags(0o040200), (false, true, false));
}

#[test]
fn hidden_names() {
    assert!(is_hidden_name(Some(".bashrc")));
    assert!(!is_hidden_name(Some("file.txt")));
    assert!(!is_hidden_name(Some("")));
    assert!(!is_hidden_name(None));
}

#[test]
fn owners() {
    let passwd = "root:x:0:0:root:/root:/bin/bash\nbroken\nalice:x:1000:1000::/home/alice:/bin/sh\n";
    assert_eq!(owner_from_passwd(passwd, 0), "root");
    assert_eq!(owner_from_passwd(passwd, 1000), "alice");
    assert_eq!(owner_from_passwd(passwd, 4242), "4242");
    assert_eq!(owner_from_passwd("", 7), "7");
}

#[test]
fn root_entry() {
    let r = root_file_info("/".to_string(), Some((true, false, true)), Some("root".to_string()));
    assert_eq!(r.name, "/");
    assert_eq!(r.path, "/");
    assert_eq!(r.size, 0);
    assert!(r.last_modified.is_none());
    assert!(r.is_directory && !r.is_symlink && !r.is_hidden);
    assert_eq!((r.readable, r.writable, r.executable), (true, false, true));
    assert_eq!(r.user_name.as_deref(), Some("root"));
    let d = root_file_info("C:\\".to_string(), None, None);
    assert_eq!((d.readable, d.writable, d.executable), (true, true, true));
}
