//! The `EXEC` command with arguments as words.
use vstd::prelude::*;
use std::sync::Arc;
use crate::process_chain::block::block::BlockType;
use crate::process_chain::block::cmd::cmd::{
    CommandExecutor, CommandExecutorRef, CommandParser, CommandResult, ExecutorModel, debug_strings,
    debug_strings_text,
};
use crate::process_chain::block::storage::join;
use crate::process_chain::block::context::Context;
use crate::text::{owned, string_views};
use vstd::string::StringExecFns;

verus! {

/// Parses `EXEC app ...`.
pub struct ExternalCommandParser {}

impl ExternalCommandParser {
    pub fn new() -> Self {
        Self {  }
    }
}

/// The words joined with single spaces.
fn join_words(args: &Vec<String>) -> (r: String)
    ensures
        r@ == join(string_views(args@), ' '),
{
    let mut r = String::new();
    let mut i: usize = 0;
    while i < args.len()
        invariant
            i <= args.len(),
            r@ == join(string_views(args@).take(i as int), ' '),
        decreases args.len() - i,
    {
        let ghost q = string_views(args@).take(i + 1);
        assert(q.drop_last() =~= string_views(args@).take(i as int));
        if i > 0 {
            proof {
                reveal_strlit(" ");
            }
            r.append(" ");
        } else {
            assert(r@ =~= Seq::<char>::empty());
        }
        r.append(args[i].as_str());
        i = i + 1;
        assert(r@ =~= join(string_views(args@).take(i as int), ' '));
    }
    assert(string_views(args@).take(args@.len() as int) =~= string_views(args@));
    r
}

impl CommandParser for ExternalCommandParser {
    open spec fn allows(&self, block_type: BlockType) -> bool {
        block_type == BlockType::Probe || block_type == BlockType::Process
    }

    open spec fn accepts(&self, args: Seq<Seq<char>>) -> bool {
        args.len() > 0
    }

    open spec fn builds(&self, args: Seq<Seq<char>>) -> ExecutorModel {
        ExecutorModel::External(join(args, ' '))
    }

    /// Allowed in probe and process blocks.
    fn check(&self, block_type: BlockType) -> (r: bool)
        ensures
            r == (block_type == BlockType::Probe || block_type == BlockType::Process),
    {
        match block_type {
            BlockType::Probe | BlockType::Process => true,
            _ => false,
        }
    }

    /// Accepts any words but none; the command is the words joined with
    /// spaces.
    fn parse(&self, args: &Vec<String>) -> (r: Result<CommandExecutorRef, String>)
        ensures
            r is Ok <==> args@.len() > 0,
            r matches Err(m) ==> m@ == "Invalid exec command: "@ + debug_strings_text(
                string_views(args@),
            ),
    {
        if args.len() == 0 {
            let mut msg = owned("Invalid exec command: ");
            let d = debug_strings(args);
            msg.append(d.as_str());
            return Err(msg);
        }
        let cmd = ExternalCommandExecutor { command: join_words(args) };
        let ghost m = cmd.model();
        let b: Box<dyn CommandExecutor> = Box::new(cmd);
        assert((*b).model() == m);
        let r = Arc::new(b);
        assert((**r).model() == m);
        Ok(r)
    }
}

/// Runs an outside application; it has no behaviour yet.
pub struct ExternalCommandExecutor {
    pub command: String,
}

impl CommandExecutor for ExternalCommandExecutor {
    open spec fn model(&self) -> ExecutorModel {
        ExecutorModel::External(self.command@)
    }

    fn exec(&self, context: &mut Context) -> (r: Result<CommandResult, String>) {
        Err(owned("exec is not available"))
    }
}

} // verus!
