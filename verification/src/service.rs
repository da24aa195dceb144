//! The agent's state as one service: its workspace, its permissions, and the processes,
//! transfers and WebSocket sessions it keeps.
use vstd::prelude::*;
use crate::access::{Operation, group_of, required_group};
use crate::error::AgentException;
use crate::permissions::Permissions;
use crate::process::ProcessManager;
use crate::text::views;
use crate::transfer::TransferManager;
use crate::websocket::WebSocketManager;

verus! {

/// Who the agent is: its name, its version and the permission groups it grants.
#[derive(Debug)]
pub struct AgentInfo {
    pub name: String,
    pub version: String,
    pub permissions: Vec<String>,
}

/// The service behind the agent's remote interface. `P`, `F` and `S` are the handles that
/// reach a process, a file being transferred and a WebSocket session.
pub struct AgentServiceHandler<P, F, S> {
    pub workspace: String,
    pub permissions: Permissions,
    pub process_manager: ProcessManager<P>,
    pub transfer_manager: TransferManager<F>,
    pub ws_manager: WebSocketManager<S>,
}

impl<P, F, S> AgentServiceHandler<P, F, S> {
    /// A service for `workspace` that grants `permissions`, with nothing started yet.
    pub fn new(workspace: String, permissions: Permissions) -> (h: Self)
        ensures
            h.workspace == workspace,
            h.permissions == permissions,
            h.process_manager.wf(),
            h.process_manager.listing().len() == 0,
            h.transfer_manager.wf(),
            h.transfer_manager.uploads() == Map::<Seq<char>, crate::transfer::Upload<F>>::empty(),
            h.transfer_manager.downloads() == Map::<Seq<char>, crate::transfer::Download<F>>::empty(),
            h.transfer_manager.issued() == 0,
            h.ws_manager.wf(),
            h.ws_manager.sessions() == Map::<Seq<char>, S>::empty(),
            h.ws_manager.issued() == 0,
    {
        let h = AgentServiceHandler {
            workspace,
            permissions,
            process_manager: ProcessManager::new(),
            transfer_manager: TransferManager::new(),
            ws_manager: WebSocketManager::new(),
        };
        h
    }

    /// The workspace root.
    pub fn workspace_path(&self) -> (r: String)
        ensures
            r == self.workspace,
    {
        self.workspace.clone()
    }

    /// Allows an operation of `group`, or refuses it.
    pub fn check(&self, group: &str) -> (r: Result<(), AgentException>)
        ensures
            r is Ok <==> self.permissions.permits(group@),
            r matches Err(e) ==> e.message@ == "Permission denied: '"@ + group@ + "' not in --permissions"@,
    {
        self.permissions.check(group)
    }

    /// Allows `op` when it needs no group or its group is granted; else refuses it with
    /// the message naming the group.
    pub fn authorize(&self, op: Operation) -> (r: Result<(), AgentException>)
        ensures
            group_of(op) is None ==> r is Ok,
            group_of(op) matches Some(g) ==> (r is Ok <==> self.permissions.permits(g)),
            r matches Err(e) ==> group_of(op) matches Some(g)
                && e.message@ == "Permission denied: '"@ + g + "' not in --permissions"@,
    {
        match required_group(op) {
            Some(g) => self.permissions.check(g),
            None => Ok(()),
        }
    }

    /// Who the agent is: "rust-remote-agent", `version`, and the groups it grants.
    pub fn agent_info(&self, version: &str) -> (r: AgentInfo)
        ensures
            r.name@ == "rust-remote-agent"@,
            r.version@ == version@,
            views(r.permissions@) == self.permissions.listed(),
    {
        AgentInfo {
            name: String::from_str("rust-remote-agent"),
            version: String::from_str(version),
            permissions: self.permissions.to_list(),
        }
    }
}

} // verus!
