//! Serving commands: each command against the store, and the reply it earns.

use vstd::prelude::*;
use crate::parser::{Command, CommandModel};
use crate::protocol::{MessageType, format_message, frame, null_bulk_reply, null_bulk_string};
use crate::storage::{EntryModel, Storage, after_read, read, stored};

verus! {

/// The reply that a command earns against the store `m` at instant `now`.
pub open spec fn reply_of(c: CommandModel, m: Map<Seq<char>, EntryModel>, now: u64) -> Seq<char> {
    match c {
        CommandModel::Ping => frame(MessageType::SimpleString, "PONG"@),
        CommandModel::Echo(t) => frame(MessageType::BulkString, t),
        CommandModel::Info(_) => frame(MessageType::SimpleString, "not supported yet"@),
        CommandModel::Get(k) => match read(m, k, now) {
            Some(v) => frame(MessageType::BulkString, v),
            None => null_bulk_string(),
        },
        CommandModel::SetKey(_, _, _) => frame(MessageType::SimpleString, "OK"@),
    }
}

/// The store after a command at instant `now`.
pub open spec fn store_after(c: CommandModel, m: Map<Seq<char>, EntryModel>, now: u64) -> Map<
    Seq<char>,
    EntryModel,
> {
    match c {
        CommandModel::Get(k) => after_read(m, k, now),
        CommandModel::SetKey(k, v, ttl) => stored(m, k, v, ttl, now),
        _ => m,
    }
}

/// Runs `cmd` against `store` at instant `now_ms` and gives the reply in wire form.
pub fn execute(cmd: Command, store: &mut Storage, now_ms: u64) -> (r: String)
    requires
        old(store).wf(),
    ensures
        final(store).wf(),
        r@ == reply_of(cmd@, old(store)@, now_ms),
        final(store)@ == store_after(cmd@, old(store)@, now_ms),
{
    match cmd {
        Command::Ping => format_message(MessageType::SimpleString, String::from_str("PONG")),
        Command::Echo(t) => format_message(MessageType::BulkString, t),
        Command::Info(_) => format_message(
            MessageType::SimpleString,
            String::from_str("not supported yet"),
        ),
        Command::Get(k) => match store.get(&k, now_ms) {
            Some(v) => format_message(MessageType::BulkString, v),
            None => null_bulk_reply(),
        },
        Command::SetKey(k, v, ttl) => {
            store.set(k, v, ttl, now_ms);
            format_message(MessageType::SimpleString, String::from_str("OK"))
        },
    }
}

/// The reply to a message in which no command could be read.
pub fn error_reply() -> (r: String)
    ensures
        r@ == frame(MessageType::Error, "Error processing message"@),
{
    format_message(MessageType::Error, String::from_str("Error processing message"))
}

} // verus!
