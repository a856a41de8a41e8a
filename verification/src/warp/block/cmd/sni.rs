//! The `http-sni-probe` command with its argument text.
use vstd::prelude::*;
use crate::warp::block::cmd::{CommandExecuterRef, CommandParser, ExecutorModel};
use crate::text::trim;

pub use crate::warp::block::cmd::HttpSniProbeCommandExecuter;

verus! {

/// Parses `http-sni-probe`, which takes no arguments.
pub struct HttpSniProbeCommandParser {}

impl HttpSniProbeCommandParser {
    pub fn new() -> Self {
        Self {  }
    }
}

impl CommandParser for HttpSniProbeCommandParser {
    open spec fn accepts(&self, args: Seq<char>) -> bool {
        trim(args).len() == 0
    }

    open spec fn builds(&self, args: Seq<char>) -> ExecutorModel {
        ExecutorModel::HttpSniProbe
    }

    /// Accepts blank arguments only.
    fn parse(&self, args: &str) -> (r: Result<CommandExecuterRef, String>)
        ensures
            r is Ok <==> trim(args@).len() == 0,
            r matches Err(m) ==> m@ == "Invalid http-sni-probe command: "@ + args@,
    {
        HttpSniProbeCommandExecuter::new().parse(args)
    }
}

} // verus!
