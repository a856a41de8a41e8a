//! The `http-sni-probe` command.
use vstd::prelude::*;
use std::sync::Arc;
use crate::process_chain::block::block::BlockType;
use crate::process_chain::block::cmd::cmd::{
    CommandExecutor, CommandExecutorRef, CommandParser, CommandResult, ExecutorModel, debug_strings,
    debug_strings_text,
};
use crate::process_chain::block::context::Context;
use crate::text::{owned, string_views};
use vstd::string::StringExecFns;

verus! {

/// The message that refuses `http-sni-probe` with arguments.
pub open spec fn sni_args_message(args: Seq<Seq<char>>) -> Seq<char> {
    "Invalid http-sni-probe command: "@ + debug_strings_text(args)
}

/// Parses `http-sni-probe`, which takes no arguments.
pub struct HttpSniProbeCommandParser {}

impl HttpSniProbeCommandParser {
    pub fn new() -> Self {
        Self {  }
    }
}

impl CommandParser for HttpSniProbeCommandParser {
    open spec fn allows(&self, block_type: BlockType) -> bool {
        block_type == BlockType::Probe
    }

    open spec fn accepts(&self, args: Seq<Seq<char>>) -> bool {
        args.len() == 0
    }

    open spec fn builds(&self, args: Seq<Seq<char>>) -> ExecutorModel {
        ExecutorModel::HttpSniProbe
    }

    /// Allowed in probe blocks only.
    fn check(&self, block_type: BlockType) -> (r: bool)
        ensures
            r == (block_type == BlockType::Probe),
    {
        match block_type {
            BlockType::Probe => true,
            _ => false,
        }
    }

    fn parse(&self, args: &Vec<String>) -> (r: Result<CommandExecutorRef, String>)
        ensures
            r is Ok <==> args@.len() == 0,
            r matches Err(m) ==> m@ == sni_args_message(string_views(args@)),
    {
        if args.len() != 0 {
            let mut msg = owned("Invalid http-sni-probe command: ");
            let d = debug_strings(args);
            msg.append(d.as_str());
            return Err(msg);
        }
        let cmd = HttpSniProbeCommandExecutor::new();
        let b: Box<dyn CommandExecutor> = Box::new(cmd);
        assert((*b).model() == ExecutorModel::HttpSniProbe);
        let r = Arc::new(b);
        assert((**r).model() == ExecutorModel::HttpSniProbe);
        Ok(r)
    }
}

/// Runs `http-sni-probe`; the probe has no behaviour yet, so it cannot
/// be run.
pub struct HttpSniProbeCommandExecutor {}

impl HttpSniProbeCommandExecutor {
    pub fn new() -> Self {
        HttpSniProbeCommandExecutor {  }
    }
}

impl CommandExecutor for HttpSniProbeCommandExecutor {
    open spec fn model(&self) -> ExecutorModel {
        ExecutorModel::HttpSniProbe
    }

    fn exec(&self, context: &mut Context) -> (r: Result<CommandResult, String>) {
        Err(owned("http-sni-probe is not available"))
    }
}

} // verus!
