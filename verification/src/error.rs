//! Errors of the editor core that carry no foreign payload.

use vstd::prelude::*;
use crate::text::{append_str, chars_of, int_text, nat_text, push_int, push_nat, string_of};

verus! {

#[derive(Debug)]
pub enum Error {
    Mca(String),
    Msg(String),
    SessionNotFound(String),
    ChunkMissing(i32, i32),
    NothingToUndo,
    NothingToRedo,
    HistoryOutOfRange(usize, usize),
}

/// The text each error displays.
pub open spec fn error_message(e: Error) -> Seq<char> {
    match e {
        Error::Mca(s) => "MCA error: "@ + s@,
        Error::Msg(s) => s@,
        Error::SessionNotFound(s) => "session not found: "@ + s@,
        Error::ChunkMissing(x, z) => "chunk ("@ + int_text(x as int) + ", "@ + int_text(z as int)
            + ") missing"@,
        Error::NothingToUndo => "no active history entry to undo"@,
        Error::NothingToRedo => "no history entry to redo"@,
        Error::HistoryOutOfRange(i, n) => "history index "@ + nat_text(i as nat)
            + " out of range (size="@ + nat_text(n as nat) + ")"@,
    }
}

impl Error {
    /// A plain message error.
    pub fn msg(s: String) -> (r: Self)
        ensures
            r == Error::Msg(s),
    {
        Error::Msg(s)
    }

    /// The text this error displays.
    pub fn message(&self) -> (r: String)
        ensures
            r@ == error_message(*self),
    {
        match self {
            Error::Mca(s) => {
                let mut m = chars_of("MCA error: ");
                append_str(&mut m, s.as_str());
                string_of(&m)
            },
            Error::Msg(s) => string_of(&chars_of(s.as_str())),
            Error::SessionNotFound(s) => {
                let mut m = chars_of("session not found: ");
                append_str(&mut m, s.as_str());
                string_of(&m)
            },
            Error::ChunkMissing(x, z) => {
                let mut m = chars_of("chunk (");
                push_int(&mut m, *x as i64);
                append_str(&mut m, ", ");
                push_int(&mut m, *z as i64);
                append_str(&mut m, ") missing");
                string_of(&m)
            },
            Error::NothingToUndo => string_of(&chars_of("no active history entry to undo")),
            Error::NothingToRedo => string_of(&chars_of("no history entry to redo")),
            Error::HistoryOutOfRange(i, n) => {
                let mut m = chars_of("history index ");
                push_nat(&mut m, *i as u64);
                append_str(&mut m, " out of range (size=");
                push_nat(&mut m, *n as u64);
                append_str(&mut m, ")");
                string_of(&m)
            },
        }
    }
}

} // verus!
