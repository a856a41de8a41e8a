//! The `DROP` and `PASS` commands.
use vstd::prelude::*;
use std::sync::Arc;
use crate::process_chain::block::block::BlockType;
use crate::process_chain::block::cmd::cmd::{
    CommandAction, CommandExecutor, CommandExecutorRef, CommandParser, CommandResult, ExecutorModel,
    action_model, debug_strings, debug_strings_text,
};
use crate::process_chain::block::context::Context;
use crate::text::{owned, string_views};
use vstd::string::StringExecFns;

verus! {

/// Parses a command that carries a fixed action and takes no arguments.
pub struct ActionCommandParser {
    action: CommandAction,
}

impl ActionCommandParser {
    pub fn new(action: CommandAction) -> (r: Self)
        ensures
            r.action() == action@,
    {
        ActionCommandParser { action }
    }

    /// The action the command carries.
    pub closed spec fn action(&self) -> crate::process_chain::block::cmd::cmd::ActionModel {
        self.action@
    }
}

impl CommandParser for ActionCommandParser {
    open spec fn allows(&self, block_type: BlockType) -> bool {
        true
    }

    open spec fn accepts(&self, args: Seq<Seq<char>>) -> bool {
        args.len() == 0
    }

    closed spec fn builds(&self, args: Seq<Seq<char>>) -> ExecutorModel {
        ExecutorModel::Action(self.action@)
    }

    /// Allowed in every block.
    fn check(&self, block_type: BlockType) -> (r: bool)
        ensures
            r,
    {
        true
    }

    fn parse(&self, args: &Vec<String>) -> (r: Result<CommandExecutorRef, String>)
        ensures
            r is Ok <==> args@.len() == 0,
            r matches Err(m) ==> m@ == "Invalid action command: "@ + debug_strings_text(
                string_views(args@),
            ),
            r matches Ok(e) ==> e.model() == ExecutorModel::Action(self.action()),
    {
        if args.len() != 0 {
            let mut msg = owned("Invalid action command: ");
            let d = debug_strings(args);
            msg.append(d.as_str());
            return Err(msg);
        }
        let cmd = ActionCommandExecutor { action: self.action.copy() };
        let ghost m = cmd.model();
        let b: Box<dyn CommandExecutor> = Box::new(cmd);
        assert((*b).model() == m);
        let r = Arc::new(b);
        assert((**r).model() == m);
        Ok(r)
    }
}

/// Runs a command that carries a fixed action: it succeeds with that
/// action.
pub struct ActionCommandExecutor {
    action: CommandAction,
}

impl ActionCommandExecutor {
    pub fn new(action: CommandAction) -> (r: Self)
        ensures
            r.action() == action@,
    {
        ActionCommandExecutor { action }
    }

    /// The action the command carries.
    pub closed spec fn action(&self) -> crate::process_chain::block::cmd::cmd::ActionModel {
        self.action@
    }
}

impl CommandExecutor for ActionCommandExecutor {
    closed spec fn model(&self) -> ExecutorModel {
        ExecutorModel::Action(self.action@)
    }

    fn exec(&self, context: &mut Context) -> (r: Result<CommandResult, String>)
        ensures
            r matches Ok(x) && x@ == action_model(self.action()),
            *final(context) == *old(context),
    {
        Ok(CommandResult { success: true, action: self.action.copy(), error_code: 0 })
    }
}

} // verus!
