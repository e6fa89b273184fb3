//! Commands of the log and the location of a command inside it.

use vstd::prelude::*;

verus! {

/// A change recorded in the log.
#[derive(Debug, PartialEq, Eq)]
pub enum Command {
    /// Defines or overwrites the value of `key`.
    Put { key: String, value: String },
    /// Marks `key` as deleted.
    Remove { key: String },
}

/// The mathematical content of a [`Command`].
pub enum CommandView {
    Put { key: Seq<char>, value: Seq<char> },
    Remove { key: Seq<char> },
}

impl CommandView {
    /// The key that the command affects.
    pub open spec fn key(self) -> Seq<char> {
        match self {
            CommandView::Put { key, .. } => key,
            CommandView::Remove { key } => key,
        }
    }
}

impl View for Command {
    type V = CommandView;

    open spec fn view(&self) -> CommandView {
        match self {
            Command::Put { key, value } => CommandView::Put { key: key@, value: value@ },
            Command::Remove { key } => CommandView::Remove { key: key@ },
        }
    }
}

/// Identifies one encoded command inside one segment: the segment's id, the
/// byte offset at which the command starts and the number of bytes it takes.
#[derive(Clone, Copy, Debug, PartialEq, Eq, Structural)]
pub struct CommandPosition {
    pub segment: u64,
    pub offset: u64,
    pub length: u64,
}

} // verus!
