//! Commands sent by clients.
use vstd::prelude::*;

verus! {

/// The kind of a command, with its wire code.
#[derive(Debug, Clone, Copy, PartialEq, Eq, Structural)]
pub enum CommandType {
    Get,
    Put,
    Delete,
    Ping,
}

impl CommandType {
    /// The byte that identifies this kind on the wire.
    pub open spec fn spec_code(self) -> u8 {
        match self {
            CommandType::Get => 1,
            CommandType::Put => 2,
            CommandType::Delete => 3,
            CommandType::Ping => 4,
        }
    }

    /// The byte that identifies this kind on the wire.
    pub fn code(self) -> (r: u8)
        ensures
            r == self.spec_code(),
    {
        match self {
            CommandType::Get => 1,
            CommandType::Put => 2,
            CommandType::Delete => 3,
            CommandType::Ping => 4,
        }
    }
}

/// A parsed command.
#[derive(Debug, Clone, PartialEq, Eq)]
pub enum Command {
    /// Get a value by key.
    Get { key: Vec<u8> },
    /// Put a key-value pair.
    Put { key: Vec<u8>, value: Vec<u8> },
    /// Delete a key.
    Delete { key: Vec<u8> },
    /// Health check.
    Ping,
}

/// The mathematical value of a command.
pub enum CommandView {
    Get { key: Seq<u8> },
    Put { key: Seq<u8>, value: Seq<u8> },
    Delete { key: Seq<u8> },
    Ping,
}

impl View for Command {
    type V = CommandView;

    open spec fn view(&self) -> CommandView {
        match self {
            Command::Get { key } => CommandView::Get { key: key@ },
            Command::Put { key, value } => CommandView::Put { key: key@, value: value@ },
            Command::Delete { key } => CommandView::Delete { key: key@ },
            Command::Ping => CommandView::Ping,
        }
    }
}

impl CommandView {
    pub open spec fn command_type(self) -> CommandType {
        match self {
            CommandView::Get { .. } => CommandType::Get,
            CommandView::Put { .. } => CommandType::Put,
            CommandView::Delete { .. } => CommandType::Delete,
            CommandView::Ping => CommandType::Ping,
        }
    }
}

impl Command {
    /// The kind of this command.
    pub fn command_type(&self) -> (r: CommandType)
        ensures
            r == self@.command_type(),
    {
        match self {
            Command::Get { .. } => CommandType::Get,
            Command::Put { .. } => CommandType::Put,
            Command::Delete { .. } => CommandType::Delete,
            Command::Ping => CommandType::Ping,
        }
    }
}

} // verus!
