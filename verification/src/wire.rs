//! The outbound half of the wire protocol: commands, their one-line JSON
//! form, and the guard that refuses to send while no worker is alive.
//!
//! A command is one JSON object on one line, `{"cmd":"start"}`, `{"cmd":
//! "stop"}` or `{"cmd":"shutdown"}`, newline-terminated. The actual write
//! into the worker's input stream happens outside the library, under the
//! channel's lock; what is written is exactly the line prepared here.

use vstd::prelude::*;

verus! {

/// An instruction for the worker.
#[derive(Clone, Copy, Debug, PartialEq, Eq, Structural)]
pub enum Command {
    Start,
    Stop,
    Shutdown,
}

/// Why a send was refused.
#[derive(Clone, Copy, Debug, PartialEq, Eq, Structural)]
pub enum SendError {
    /// No worker is alive, so there is no stream to write to.
    ChannelUnavailable,
}

/// The one line that carries a command, newline included.
pub open spec fn command_line(c: Command) -> Seq<char> {
    match c {
        Command::Start => "{\"cmd\":\"start\"}\n"@,
        Command::Stop => "{\"cmd\":\"stop\"}\n"@,
        Command::Shutdown => "{\"cmd\":\"shutdown\"}\n"@,
    }
}

/// Render a command as its wire line.
pub fn encode_command(c: &Command) -> (r: String)
    ensures
        r@ == command_line(*c),
{
    match c {
        Command::Start => String::from_str("{\"cmd\":\"start\"}\n"),
        Command::Stop => String::from_str("{\"cmd\":\"stop\"}\n"),
        Command::Shutdown => String::from_str("{\"cmd\":\"shutdown\"}\n"),
    }
}

/// Prepare a command for the worker's input stream: the exact line to write
/// if a worker is alive, and `ChannelUnavailable` — with nothing written —
/// if none is.
pub fn prepare_send(channel_alive: bool, c: &Command) -> (r: Result<String, SendError>)
    ensures
        match r {
            Ok(line) => channel_alive && line@ == command_line(*c),
            Err(e) => !channel_alive && e == SendError::ChannelUnavailable,
        },
{
    if channel_alive {
        Ok(encode_command(c))
    } else {
        Err(SendError::ChannelUnavailable)
    }
}

/// The synthetic line announced to subscribers when the worker exits.
pub open spec fn bridge_shutdown_line() -> Seq<char> {
    "{\"event\":\"bridge_shutdown\",\"reason\":\"process_exit\"}"@
}

/// Render the synthetic `bridge_shutdown` announcement.
pub fn encode_bridge_shutdown() -> (r: String)
    ensures
        r@ == bridge_shutdown_line(),
{
    String::from_str("{\"event\":\"bridge_shutdown\",\"reason\":\"process_exit\"}")
}

} // verus!
