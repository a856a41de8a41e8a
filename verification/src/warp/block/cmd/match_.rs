//! The `match` command with arguments as words.
use vstd::prelude::*;
use std::sync::Arc;
use crate::process_chain::block::block::BlockType;
use crate::process_chain::block::cmd::cmd::{
    CommandExecutor, CommandExecutorRef, CommandParser, CommandResult, ExecutorModel, debug_strings,
    debug_strings_text,
};
use crate::process_chain::block::context::Context;
use crate::warp::block::cmd::{
    key_readable, match_result, regex_check, regex_compiles, regex_error_text, regex_is_match,
};
use crate::text::{owned, string_views};
use vstd::string::StringExecFns;

verus! {

/// Parses `match KEY PATTERN`.
pub struct MatchCommandParser {}

impl MatchCommandParser {
    pub fn new() -> Self {
        Self {  }
    }
}

/// Why `match` arguments are refused, if they are.
pub open spec fn match_error(args: Seq<Seq<char>>) -> Option<Seq<char>> {
    if args.len() != 2 {
        Some("Invalid match command: "@ + debug_strings_text(args))
    } else if !regex_compiles(args[1]) {
        Some("Invalid match pattern: "@ + debug_strings_text(args) + ", "@ + regex_error_text(args[1]))
    } else {
        None
    }
}

impl CommandParser for MatchCommandParser {
    open spec fn allows(&self, block_type: BlockType) -> bool {
        true
    }

    open spec fn accepts(&self, args: Seq<Seq<char>>) -> bool {
        match_error(args) is None
    }

    open spec fn builds(&self, args: Seq<Seq<char>>) -> ExecutorModel {
        ExecutorModel::Match(args[0], args[1])
    }

    /// Allowed in every block.
    fn check(&self, block_type: BlockType) -> (r: bool)
        ensures
            r,
    {
        true
    }

    /// Accepts a key and a regular expression that compiles.
    fn parse(&self, args: &Vec<String>) -> (r: Result<CommandExecutorRef, String>)
        ensures
            r is Err <==> match_error(string_views(args@)) is Some,
            r matches Err(m) ==> match_error(string_views(args@)) == Some(m@),
    {
        if args.len() != 2 {
            let mut msg = owned("Invalid match command: ");
            let d = debug_strings(args);
            msg.append(d.as_str());
            return Err(msg);
        }
        assert(string_views(args@)[1] == args@[1]@);
        match regex_check(args[1].as_str()) {
            Err(e) => {
                let mut msg = owned("Invalid match pattern: ");
                let d = debug_strings(args);
                msg.append(d.as_str());
                msg.append(", ");
                msg.append(e.as_str());
                Err(msg)
            },
            Ok(()) => {
                let cmd = MatchCommandExecutor {
                    key: owned(args[0].as_str()),
                    pattern: owned(args[1].as_str()),
                };
                let ghost m = cmd.model();
                let b: Box<dyn CommandExecutor> = Box::new(cmd);
                assert((*b).model() == m);
                let r = Arc::new(b);
                assert((**r).model() == m);
                Ok(r)
            },
        }
    }
}

/// Runs `match`: whether the value of a key matches a regular expression.
pub struct MatchCommandExecutor {
    pub key: String,
    pub pattern: String,
}

impl CommandExecutor for MatchCommandExecutor {
    open spec fn model(&self) -> ExecutorModel {
        ExecutorModel::Match(self.key@, self.pattern@)
    }

    fn exec(&self, context: &mut Context) -> (r: Result<CommandResult, String>)
        ensures
            r matches Ok(x) && x@ == match_result(*old(context), self.key@, self.pattern@),
            *final(context) == *old(context),
    {
        let value = context.get_value(self.key.as_str());
        match value {
            None => Ok(CommandResult::failure(1)),
            Some(v) => {
                if regex_is_match(self.pattern.as_str(), v.as_str()) {
                    Ok(CommandResult::success())
                } else {
                    Ok(CommandResult::failure(2))
                }
            },
        }
    }
}

} // verus!
