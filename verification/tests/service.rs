use remote_agent::permissions::Permissions;
use remote_agent::service::AgentServiceHandler;

#[test]
fn new_service_is_empty() {
    let h: AgentServiceHandler<u8, u8, u8> =
        AgentServiceHandler::new("/workspace".to_string(), Permissions::parse("fs,process"));
    assert_eq!(h.workspace_path(), "/workspace");
    assert_eq!(h.process_manager.len(), 0);
    assert_eq!(h.transfer_manager.issued_count(), 0);
    assert_eq!(h.ws_manager.issued_count(), 0);
    assert!(h.check("fs").is_ok());
    assert_eq!(h.check("http").unwrap_err().message, "Permission denied: 'http' not in --permissions");
}

#[test]
fn agent_info_lists_groups() {
    let h: AgentServiceHandler<u8, u8, u8> = AgentServiceHandler::new("w".to_string(), Permissions::parse("*"));
    let info = h.agent_info("1.2.3");
    assert_eq!(info.name, "rust-remote-agent");
    assert_eq!(info.version, "1.2.3");
    assert_eq!(info.permissions, vec!["fs", "process", "http", "websocket", "userinfo", "stat"]);
}
