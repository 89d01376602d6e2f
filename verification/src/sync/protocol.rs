//! The messages between the server and the Studio plugin.
use vstd::prelude::*;
use crate::ir::Tree;
use crate::json::Json;
use crate::patch::Patch;

verus! {

/// The protocol version the server speaks.
pub const VERSION: u32 = 1;

/// A message to Studio.
#[derive(Debug)]
pub enum Outbound {
    /// Who is serving: sent first on every connection.
    Hello { protocol: u32, project: String, id: String, server: String },
    /// The whole tree, and the cursor it stands at.
    Sync { cursor: usize, tree: Tree },
    /// The steps from the tree before to the tree now.
    Patch { cursor: usize, patch: Patch },
    /// Something the user should see in Studio.
    Notice { level: String, text: String },
    /// The answer to a ping.
    Pong { cursor: usize },
    /// Values a hook script sends on to Studio.
    Message { args: Json },
}

/// A message from Studio.
#[derive(Debug)]
pub enum Inbound {
    /// The plugin is connected, in the place named if any.
    Ready { place: Option<String> },
    /// The plugin wants the whole tree again.
    Resync,
    /// The plugin checks the connection.
    Ping,
    /// A line the plugin logged.
    Log { level: Option<String>, text: String },
}

} // verus!
