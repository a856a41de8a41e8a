//! The label commands with arguments as words.
use vstd::prelude::*;
use std::sync::Arc;
use crate::process_chain::block::block::BlockType;
use crate::process_chain::block::cmd::cmd::{
    CommandExecutor, CommandExecutorRef, CommandParser, CommandResult, ExecutorModel, debug_strings,
    debug_strings_text, failure_model, success_model,
};
use crate::process_chain::block::context::{Context, value_of};
use crate::warp::block::cmd::{
    has_comma_piece, have_label_result, host_labels_ascii, key_readable, labels_from_host,
};
use crate::text::{owned, string_views};
use vstd::string::StringExecFns;

verus! {

/// Parses `set_label_by_host_db KEY`.
pub struct SetLabelByHostDbCommandParser {}

impl SetLabelByHostDbCommandParser {
    pub fn new() -> Self {
        Self {  }
    }
}

impl CommandParser for SetLabelByHostDbCommandParser {
    open spec fn allows(&self, block_type: BlockType) -> bool {
        true
    }

    open spec fn accepts(&self, args: Seq<Seq<char>>) -> bool {
        args.len() == 1
    }

    open spec fn builds(&self, args: Seq<Seq<char>>) -> ExecutorModel {
        ExecutorModel::SetLabelByHostDb(args[0])
    }

    /// Allowed in every block.
    fn check(&self, block_type: BlockType) -> (r: bool)
        ensures
            r,
    {
        true
    }

    /// Accepts exactly one argument, the key.
    fn parse(&self, args: &Vec<String>) -> (r: Result<CommandExecutorRef, String>)
        ensures
            r is Ok <==> args@.len() == 1,
            r matches Err(m) ==> m@ == "Invalid set_label_by_host_db command: "@
                + debug_strings_text(string_views(args@)),
    {
        if args.len() != 1 {
            let mut msg = owned("Invalid set_label_by_host_db command: ");
            let d = debug_strings(args);
            msg.append(d.as_str());
            return Err(msg);
        }
        let cmd = SetLabelByHostDbCommandExecutor::new(args[0].as_str());
        let ghost m = cmd.model();
        let b: Box<dyn CommandExecutor> = Box::new(cmd);
        assert((*b).model() == m);
        let r = Arc::new(b);
        assert((**r).model() == m);
        Ok(r)
    }
}

/// Runs `set_label_by_host_db`: sets the label header from the labels the
/// host store holds for the value of a key.
pub struct SetLabelByHostDbCommandExecutor {
    pub key: String,
}

impl SetLabelByHostDbCommandExecutor {
    pub fn new(key: &str) -> (r: Self)
        ensures
            r.key@ == key@,
    {
        SetLabelByHostDbCommandExecutor { key: owned(key) }
    }
}

impl CommandExecutor for SetLabelByHostDbCommandExecutor {
    open spec fn model(&self) -> ExecutorModel {
        ExecutorModel::SetLabelByHostDb(self.key@)
    }

    fn exec(&self, context: &mut Context) -> (r: Result<CommandResult, String>)
        ensures
            ({
                let value = value_of(old(context).req_headers(), old(context).resp_headers(), self.key@);
                &&& value is None ==> (r matches Ok(x) && x@ == failure_model(1) && *final(context)
                    == *old(context))
                &&& value matches Some(v) ==> (r matches Ok(x) && x@ == success_model()
                    && labels_from_host(*old(context), *final(context), v))
            }),
    {
        let value = context.get_value(self.key.as_str());
        match value {
            None => Ok(CommandResult::failure(1)),
            Some(v) => {
                context.set_label_from_host_db(v.as_str());
                Ok(CommandResult::success())
            },
        }
    }
}

/// Parses `have_label KEY LABEL`.
pub struct HaveLabelCommandParser {}

impl HaveLabelCommandParser {
    pub fn new() -> Self {
        Self {  }
    }
}

impl CommandParser for HaveLabelCommandParser {
    open spec fn allows(&self, block_type: BlockType) -> bool {
        true
    }

    open spec fn accepts(&self, args: Seq<Seq<char>>) -> bool {
        args.len() == 2
    }

    open spec fn builds(&self, args: Seq<Seq<char>>) -> ExecutorModel {
        ExecutorModel::HaveLabel(args[0], args[1])
    }

    /// Allowed in every block.
    fn check(&self, block_type: BlockType) -> (r: bool)
        ensures
            r,
    {
        true
    }

    /// Accepts exactly two arguments, the key and the label.
    fn parse(&self, args: &Vec<String>) -> (r: Result<CommandExecutorRef, String>)
        ensures
            r is Ok <==> args@.len() == 2,
            r matches Err(m) ==> m@ == "Invalid have_label command: "@ + debug_strings_text(
                string_views(args@),
            ),
    {
        if args.len() != 2 {
            let mut msg = owned("Invalid have_label command: ");
            let d = debug_strings(args);
            msg.append(d.as_str());
            return Err(msg);
        }
        let cmd = HaveLabelCommandExecutor::new(owned(args[0].as_str()), owned(args[1].as_str()));
        let ghost m = cmd.model();
        let b: Box<dyn CommandExecutor> = Box::new(cmd);
        assert((*b).model() == m);
        let r = Arc::new(b);
        assert((**r).model() == m);
        Ok(r)
    }
}

/// Runs `have_label`: whether the value of a key, split at commas, holds
/// a label.
pub struct HaveLabelCommandExecutor {
    pub key: String,
    pub label: String,
}

impl HaveLabelCommandExecutor {
    pub fn new(key: String, label: String) -> (r: Self)
        ensures
            r.key@ == key@,
            r.label@ == label@,
    {
        HaveLabelCommandExecutor { key, label }
    }
}

impl CommandExecutor for HaveLabelCommandExecutor {
    open spec fn model(&self) -> ExecutorModel {
        ExecutorModel::HaveLabel(self.key@, self.label@)
    }

    fn exec(&self, context: &mut Context) -> (r: Result<CommandResult, String>)
        ensures
            r matches Ok(x) && x@ == have_label_result(*old(context), self.key@, self.label@),
            *final(context) == *old(context),
    {
        let labels = context.get_value(self.key.as_str());
        match labels {
            None => Ok(CommandResult::failure(1)),
            Some(v) => {
                if has_comma_piece(v.as_str(), self.label.as_str()) {
                    Ok(CommandResult::success())
                } else {
                    Ok(CommandResult::failure(2))
                }
            },
        }
    }
}

} // verus!
