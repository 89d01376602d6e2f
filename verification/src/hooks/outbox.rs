//! What hook scripts send on to Studio or to the running game.
use vstd::prelude::*;
use crate::json::Json;

verus! {

/// Where a hook script's message goes.
#[derive(Clone, Copy, Debug, PartialEq, Eq, Structural)]
pub enum Target {
    Studio,
    Game,
}

/// A message from a hook script.
#[derive(Debug)]
pub struct Outgoing {
    pub target: Target,
    pub args: Json,
}

} // verus!
