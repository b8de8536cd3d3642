//! One frame through the whole pipeline: decode the bytes, parse the
//! command, execute it against the storage engine, and produce the reply —
//! plus what the caller must do with it (send it, persist a snapshot, or
//! close the connection on a malformed frame).
//!
//! The surrounding I/O — sockets, the accept loop, reading and writing
//! files — stays outside; this module only decides.

use vstd::prelude::*;
use crate::command::{
    execute_post, spec_parse_command, CommandError, CommandOutput, CommandParser,
};
use crate::resp::{copy_range, spec_parse_frame, RESPParser};
use crate::storage::{RdbConfigModel, Storage, ValueModel};

verus! {

/// A failure of the serving layer itself; the connection handling around
/// the library reports it.
#[derive(Clone, Copy, Debug, PartialEq, Eq, Structural)]
pub struct ServerError;

/// What handling one frame yields: a reply (with possibly a snapshot to
/// persist), or the verdict that the frame was malformed and the
/// connection should be closed.
pub enum FrameResult {
    Reply(CommandOutput),
    Malformed,
}

/// The error reply sent for a command that cannot be parsed or executed:
/// `-ERR unknown command` and the line terminator.
pub open spec fn error_reply_model() -> Seq<u8> {
    seq![
        45u8, 69u8, 82u8, 82u8, 32u8, 117u8, 110u8, 107u8, 110u8, 111u8, 119u8, 110u8, 32u8,
        99u8, 111u8, 109u8, 109u8, 97u8, 110u8, 100u8, 13u8, 10u8,
    ]
}

/// The error reply bytes, for the caller to send when it must report a
/// failure of its own (a snapshot write that did not finish, for example).
pub fn error_reply() -> (r: Vec<u8>)
    ensures
        r@ == error_reply_model(),
{
    let text = [
        45u8, 69u8, 82u8, 82u8, 32u8, 117u8, 110u8, 107u8, 110u8, 111u8, 119u8, 110u8, 32u8,
        99u8, 111u8, 109u8, 109u8, 97u8, 110u8, 100u8, 13u8, 10u8,
    ];
    let r = copy_range(text.as_slice(), 0, 22);
    proof {
        assert(r@ =~= error_reply_model());
    }
    r
}

/// What handling one frame of `input` at time `now` must yield, given the
/// key space `m0` it started from: the result `r` and the key space `m1`
/// left behind.  A structurally invalid frame closes the connection; a
/// frame whose command cannot be parsed or executed earns the error reply
/// and leaves the key space alone; anything else is one command executed as
/// [`execute_post`] describes.
pub open spec fn handle_post(
    input: Seq<u8>,
    now: u64,
    m0: Map<Seq<u8>, ValueModel>,
    cfg: RdbConfigModel,
    durable: bool,
    r: FrameResult,
    m1: Map<Seq<u8>, ValueModel>,
) -> bool {
    match spec_parse_frame(input) {
        None => r is Malformed && m1 == m0,
        Some(es) => match spec_parse_command(es, now) {
            None => {
                &&& m1 == m0
                &&& r matches FrameResult::Reply(out)
                &&& out.save is None
                &&& out.reply@ == error_reply_model()
            },
            Some(c) => {
                &&& r matches FrameResult::Reply(out)
                &&& (execute_post(c, m0, cfg, durable, now, Ok(out), m1) || (execute_post(
                    c,
                    m0,
                    cfg,
                    durable,
                    now,
                    Err(CommandError),
                    m1,
                ) && out.save is None && out.reply@ == error_reply_model()))
            },
        },
    }
}

/// The serving core: owns the storage engine and handles one frame at a
/// time.
pub struct Server<S: Storage> {
    storage: S,
}

impl<S: Storage> Server<S> {
    /// The key space the server currently holds.
    pub closed spec fn key_space(&self) -> Map<Seq<u8>, ValueModel> {
        self.storage.key_space()
    }

    /// The snapshot location the server's storage was configured with.
    pub closed spec fn config_model(&self) -> RdbConfigModel {
        self.storage.config_model()
    }

    /// Whether the server's storage persists snapshots.
    pub closed spec fn durable(&self) -> bool {
        self.storage.durable()
    }

    /// A server over the given storage engine.
    pub fn new(storage: S) -> (r: Server<S>)
        ensures
            r.key_space() == storage.key_space(),
            r.config_model() == storage.config_model(),
            r.durable() == storage.durable(),
    {
        Server { storage }
    }

    /// Handles one frame: decodes it, parses and executes its command, and
    /// returns the reply — or the error reply when the command fails, or
    /// the verdict to close when the frame itself is malformed.
    pub fn handle_frame(&mut self, input: &[u8], now: u64) -> (r: FrameResult)
        ensures
            handle_post(
                input@,
                now,
                old(self).key_space(),
                old(self).config_model(),
                old(self).durable(),
                r,
                final(self).key_space(),
            ),
            final(self).config_model() == old(self).config_model(),
            final(self).durable() == old(self).durable(),
    {
        let entries = match RESPParser::parse(input) {
            Ok(es) => es,
            Err(_) => {
                return FrameResult::Malformed;
            },
        };
        let cmd = match CommandParser::new(entries.as_slice(), now) {
            Ok(c) => c,
            Err(_) => {
                return FrameResult::Reply(CommandOutput { reply: error_reply(), save: None });
            },
        };
        match cmd.execute(&mut self.storage, now) {
            Ok(out) => FrameResult::Reply(out),
            Err(_) => FrameResult::Reply(CommandOutput { reply: error_reply(), save: None }),
        }
    }
}

} // verus!
