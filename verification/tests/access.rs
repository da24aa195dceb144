use remote_agent::access::{required_group, Operation};
use remote_agent::permissions::Permissions;
use remote_agent::service::AgentServiceHandler;

#[test]
fn groups_follow_the_table() {
    for op in [
        Operation::ReadFile, Operation::WriteFile, Operation::DeleteFile, Operation::ListDirectory,
        Operation::FileExists, Operation::CreateDirectory, Operation::ListRoots, Operation::SetPermissions,
        Operation::BeginUpload, Operation::UploadChunk, Operation::FinishUpload, Operation::CancelUpload,
        Operation::BeginDownload, Operation::DownloadChunk, Operation::FinishDownload,
    ] {
        assert_eq!(required_group(op), Some("fs"));
    }
    for op in [
        Operation::StartProcess, Operation::KillProcess, Operation::IsProcessAlive,
        Operation::ListProcesses, Operation::ReadProcessOutput,
    ] {
        assert_eq!(required_group(op), Some("process"));
    }
    assert_eq!(required_group(Operation::ExecuteHttpRequest), Some("http"));
    for op in [
        Operation::ConnectWebSocket, Operation::ReadWebSocketData, Operation::SendWebSocketData,
        Operation::CloseWebSocket,
    ] {
        assert_eq!(required_group(op), Some("websocket"));
    }
    assert_eq!(required_group(Operation::GetUserInfo), Some("userinfo"));
    assert_eq!(required_group(Operation::GetStat), Some("stat"));
    for op in [
        Operation::GetAgentInfo, Operation::GetWorkspacePath, Operation::GetSystemInfo,
        Operation::GetEnvVariable, Operation::GetEnvVariables, Operation::FindFreePort,
    ] {
        assert_eq!(required_group(op), None);
    }
}

#[test]
fn operations_are_gated_by_their_group() {
    let h: AgentServiceHandler<u8, u8, u8> = AgentServiceHandler::new("/w".to_string(), Permissions::parse("fs,http"));
    assert!(h.authorize(Operation::WriteFile).is_ok());
    assert!(h.authorize(Operation::ExecuteHttpRequest).is_ok());
    assert_eq!(
        h.authorize(Operation::StartProcess).unwrap_err().message,
        "Permission denied: 'process' not in --permissions"
    );
    assert_eq!(
        h.authorize(Operation::ConnectWebSocket).unwrap_err().message,
        "Permission denied: 'websocket' not in --permissions"
    );
    assert_eq!(
        h.authorize(Operation::GetUserInfo).unwrap_err().message,
        "Permission denied: 'userinfo' not in --permissions"
    );
    assert!(h.authorize(Operation::GetAgentInfo).is_ok());
    assert!(h.authorize(Operation::FindFreePort).is_ok());
    let all: AgentServiceHandler<u8, u8, u8> = AgentServiceHandler::new("/w".to_string(), Permissions::parse("*"));
    assert!(all.authorize(Operation::GetStat).is_ok());
}
