use remote_agent::permissions::Permissions;

#[test]
fn star_grants_every_group() {
    let p = Permissions::parse("*");
    assert!(p.check("fs").is_ok());
    assert!(p.check("process").is_ok());
    assert!(p.check("anything").is_ok());
    assert_eq!(p.to_list(), vec!["fs", "process", "http", "websocket", "userinfo", "stat"]);
    assert_eq!(p.display(), "fs, process, http, websocket, userinfo, stat");
}

#[test]
fn star_with_spaces_still_grants_all() {
    let p = Permissions::parse("  *  ");
    assert!(p.check("websocket").is_ok());
}

#[test]
fn listed_groups_only() {
    let p = Permissions::parse("fs,http");
    assert!(p.check("fs").is_ok());
    assert!(p.check("http").is_ok());
    let err = p.check("process").unwrap_err();
    assert_eq!(err.message, "Permission denied: 'process' not in --permissions");
    assert_eq!(p.to_list(), vec!["fs", "http"]);
    assert_eq!(p.display(), "fs, http");
}

#[test]
fn groups_are_trimmed_lowercased_sorted_and_deduplicated() {
    let p = Permissions::parse(" Process , FS,, fs ,http ");
    assert_eq!(p.to_list(), vec!["fs", "http", "process"]);
    assert_eq!(p.display(), "fs, http, process");
    assert!(p.check("fs").is_ok());
    assert!(p.check("FS").is_err());
}

#[test]
fn same_groups_list_alike() {
    let a = Permissions::parse("websocket,fs");
    let b = Permissions::parse("FS, websocket, fs");
    assert_eq!(a.to_list(), b.to_list());
    assert_eq!(a.display(), b.display());
}

#[test]
fn empty_list_grants_nothing() {
    let p = Permissions::parse("");
    assert!(p.to_list().is_empty());
    assert_eq!(p.display(), "");
    assert!(p.check("fs").is_err());
    let q = Permissions::parse(" , ,");
    assert!(q.to_list().is_empty());
}

#[test]
fn star_inside_a_list_is_a_name() {
    let p = Permissions::parse("*,fs");
    assert_eq!(p.to_list(), vec!["*", "fs"]);
    assert!(p.check("http").is_err());
}

#[test]
fn display_reads_back_as_the_same_groups() {
    let p = Permissions::parse(" WebSocket ,fs,, Process ");
    let shown = p.display();
    assert_eq!(shown, "fs, process, websocket");
    let q = Permissions::parse(&shown);
    assert_eq!(q.to_list(), p.to_list());
    assert_eq!(q.display(), shown);
}

#[test]
fn a_lone_star_name_reads_back_as_all_groups() {
    let p = Permissions::parse("*,");
    assert_eq!(p.display(), "*");
    assert_eq!(Permissions::parse(&p.display()).to_list().len(), 6);
}

#[test]
fn an_empty_list_reads_back_empty() {
    let p = Permissions::parse(" , ,");
    assert_eq!(p.display(), "");
    let q = Permissions::parse(&p.display());
    assert!(q.to_list().is_empty());
    assert!(q.check("fs").is_err());
}
