//! The wire protocol between clients and the server: commands, responses
//! and their length-prefixed binary framing.
use vstd::prelude::*;

pub mod codec;
pub mod command;
pub mod response;

pub use codec::{
    decode_command, decode_response, encode_command, encode_response, read_command, read_response,
    write_command, write_response,
};
pub use command::{Command, CommandType, CommandView};
pub use response::{Response, Status};
