//! What the server answers: long-poll deliveries, and how it reacts to
//! what the plugin says.
use vstd::prelude::*;
use crate::paths::{join_with, joined, views};
use crate::sync::protocol::Inbound;
use crate::text::{decimal, decimal_of, push_str, same_str};

verus! {

/// The cursor a poll resumes from.
#[derive(Debug)]
pub struct Cursor {
    pub cursor: Option<usize>,
}

/// The body of a poll's answer: the cursor to resume from and the
/// messages, already encoded, as a JSON array.
pub open spec fn delivery_spec(next: nat, messages: Seq<Seq<char>>) -> Seq<char> {
    "{\"cursor\":"@ + decimal(next) + ",\"messages\":["@ + joined(messages, ","@) + "]}"@
}

/// The body of a poll's answer (see `delivery_spec`).
pub fn delivery(next: usize, messages: &Vec<String>) -> (r: String)
    ensures
        r@ == delivery_spec(next as nat, views(messages@)),
{
    let mut out = String::from_str("{\"cursor\":");
    push_str(&mut out, decimal_of(next).as_str());
    push_str(&mut out, ",\"messages\":[");
    push_str(&mut out, join_with(messages.as_slice(), ",").as_str());
    push_str(&mut out, "]}");
    out
}

/// Where a report goes.
#[derive(Debug, Clone, Copy, PartialEq, Eq, Structural)]
pub enum Level {
    Sync,
    Warn,
    Fail,
}

/// How the server reacts to a message from the plugin: a line to report,
/// and whether to send the whole tree again or a pong.
#[derive(Debug)]
pub struct Response {
    pub report: Option<(Level, String)>,
    pub resync: bool,
    pub pong: bool,
}

/// The line a plugin log is reported as, and where.
pub open spec fn studio_line(level: Option<Seq<char>>, text: Seq<char>) -> (Level, Seq<char>) {
    (
        if level == Some("error"@) {
            Level::Fail
        } else if level == Some("warn"@) {
            Level::Warn
        } else {
            Level::Sync
        },
        "studio: "@ + text,
    )
}

/// The line reported and whether to resync or pong, for a message.
pub open spec fn response_spec(inbound: Inbound) -> (Option<(Level, Seq<char>)>, bool, bool) {
    match inbound {
        Inbound::Ready { place } => (
            Some(
                (
                    Level::Sync,
                    "plugin ready in "@ + match place {
                        Some(p) => p@,
                        None => "studio"@,
                    },
                ),
            ),
            false,
            false,
        ),
        Inbound::Resync => (Some((Level::Sync, "plugin asked for a full resync"@)), true, false),
        Inbound::Ping => (None, false, true),
        Inbound::Log { level, text } => (
            Some(studio_line(crate::patch::opt_view(level), text@)),
            false,
            false,
        ),
    }
}

/// The view of a report line.
pub open spec fn report_view(r: Option<(Level, String)>) -> Option<(Level, Seq<char>)> {
    match r {
        Some((l, s)) => Some((l, s@)),
        None => None,
    }
}

/// How the server reacts to a message from the plugin: a ready plugin is
/// reported with its place, a resync reported and answered with the tree,
/// a ping answered with a pong, and a plugin log reported at its level.
pub fn respond(inbound: &Inbound) -> (r: Response)
    ensures
        (report_view(r.report), r.resync, r.pong) == response_spec(*inbound),
{
    match inbound {
        Inbound::Ready { place } => {
            let mut line = String::from_str("plugin ready in ");
            match place {
                Some(p) => push_str(&mut line, p.as_str()),
                None => push_str(&mut line, "studio"),
            }
            Response { report: Some((Level::Sync, line)), resync: false, pong: false }
        },
        Inbound::Resync => Response {
            report: Some((Level::Sync, String::from_str("plugin asked for a full resync"))),
            resync: true,
            pong: false,
        },
        Inbound::Ping => Response { report: None, resync: false, pong: true },
        Inbound::Log { level, text } => {
            let mut line = String::from_str("studio: ");
            push_str(&mut line, text.as_str());
            let tag = match level {
                Some(l) => if same_str(l.as_str(), "error") {
                    Level::Fail
                } else if same_str(l.as_str(), "warn") {
                    Level::Warn
                } else {
                    Level::Sync
                },
                None => Level::Sync,
            };
            Response { report: Some((tag, line)), resync: false, pong: false }
        },
    }
}

/// The line reporting a plugin connecting, with how many are connected.
pub fn connected_line(count: usize) -> (r: String)
    ensures
        r@ == "studio connected ("@ + decimal(count as nat) + " total)"@,
{
    let mut line = String::from_str("studio connected (");
    push_str(&mut line, decimal_of(count).as_str());
    push_str(&mut line, " total)");
    line
}

/// The line reporting a plugin leaving, with how many are left.
pub fn disconnected_line(count: usize) -> (r: String)
    ensures
        r@ == "studio disconnected ("@ + decimal(count as nat) + " left)"@,
{
    let mut line = String::from_str("studio disconnected (");
    push_str(&mut line, decimal_of(count).as_str());
    push_str(&mut line, " left)");
    line
}

} // verus!
