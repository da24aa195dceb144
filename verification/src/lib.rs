//! Verified core of a remote agent that serves process management, file
//! transfer, HTTP/WebSocket proxying and system information to an IDE.

pub mod access;
pub mod error;
pub mod files;
pub mod http;
pub mod ids;
pub mod messages;
pub mod output;
pub mod permissions;
pub mod platform;
pub mod process;
pub mod registry;
pub mod service;
pub mod sysinfo;
pub mod text;
pub mod transfer;
pub mod websocket;
