//! The command interface whose arguments come as one text.
pub use crate::warp::block::cmd::{
    CommandAction, CommandExecuter, CommandExecuterRef, CommandParser, CommandParserFactory,
    CommandParserRef, CommandResult,
};
