//! Which permission group each operation of the agent's remote interface needs.
use vstd::prelude::*;

verus! {

/// An operation of the agent's remote interface.
#[derive(Clone, Copy, Debug, PartialEq, Eq, Structural)]
pub enum Operation {
    ReadFile,
    WriteFile,
    DeleteFile,
    ListDirectory,
    FileExists,
    CreateDirectory,
    ListRoots,
    SetPermissions,
    BeginUpload,
    UploadChunk,
    FinishUpload,
    CancelUpload,
    BeginDownload,
    DownloadChunk,
    FinishDownload,
    StartProcess,
    KillProcess,
    IsProcessAlive,
    ListProcesses,
    ReadProcessOutput,
    ExecuteHttpRequest,
    ConnectWebSocket,
    ReadWebSocketData,
    SendWebSocketData,
    CloseWebSocket,
    GetUserInfo,
    GetStat,
    GetAgentInfo,
    GetWorkspacePath,
    GetSystemInfo,
    GetEnvVariable,
    GetEnvVariables,
    FindFreePort,
}

/// The group an operation needs, or `None` for those always allowed.
pub open spec fn group_of(op: Operation) -> Option<Seq<char>> {
    match op {
        Operation::ReadFile | Operation::WriteFile | Operation::DeleteFile | Operation::ListDirectory
        | Operation::FileExists | Operation::CreateDirectory | Operation::ListRoots
        | Operation::SetPermissions | Operation::BeginUpload | Operation::UploadChunk
        | Operation::FinishUpload | Operation::CancelUpload | Operation::BeginDownload
        | Operation::DownloadChunk | Operation::FinishDownload => Some("fs"@),
        Operation::StartProcess | Operation::KillProcess | Operation::IsProcessAlive
        | Operation::ListProcesses | Operation::ReadProcessOutput => Some("process"@),
        Operation::ExecuteHttpRequest => Some("http"@),
        Operation::ConnectWebSocket | Operation::ReadWebSocketData | Operation::SendWebSocketData
        | Operation::CloseWebSocket => Some("websocket"@),
        Operation::GetUserInfo => Some("userinfo"@),
        Operation::GetStat => Some("stat"@),
        Operation::GetAgentInfo | Operation::GetWorkspacePath | Operation::GetSystemInfo
        | Operation::GetEnvVariable | Operation::GetEnvVariables | Operation::FindFreePort => None,
    }
}

/// The group `op` needs, or `None` when it is always allowed.
pub fn required_group(op: Operation) -> (g: Option<&'static str>)
    ensures
        g is Some <==> group_of(op) is Some,
        g matches Some(s) ==> group_of(op) == Some(s@),
{
    match op {
        Operation::ReadFile | Operation::WriteFile | Operation::DeleteFile | Operation::ListDirectory
        | Operation::FileExists | Operation::CreateDirectory | Operation::ListRoots
        | Operation::SetPermissions | Operation::BeginUpload | Operation::UploadChunk
        | Operation::FinishUpload | Operation::CancelUpload | Operation::BeginDownload
        | Operation::DownloadChunk | Operation::FinishDownload => Some("fs"),
        Operation::StartProcess | Operation::KillProcess | Operation::IsProcessAlive
        | Operation::ListProcesses | Operation::ReadProcessOutput => Some("process"),
        Operation::ExecuteHttpRequest => Some("http"),
        Operation::ConnectWebSocket | Operation::ReadWebSocketData | Operation::SendWebSocketData
        | Operation::CloseWebSocket => Some("websocket"),
        Operation::GetUserInfo => Some("userinfo"),
        Operation::GetStat => Some("stat"),
        Operation::GetAgentInfo | Operation::GetWorkspacePath | Operation::GetSystemInfo
        | Operation::GetEnvVariable | Operation::GetEnvVariables | Operation::FindFreePort => None,
    }
}

} // verus!
