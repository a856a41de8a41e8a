//! Assignments: `KEY = VALUE` and `KEY := VALUE`.
use vstd::prelude::*;
use std::sync::Arc;
use crate::process_chain::block::block::BlockType;
use crate::process_chain::block::cmd::cmd::{
    CommandExecutor, CommandExecutorRef, CommandParser, CommandResult, ExecutorModel, debug_strings,
    debug_strings_text,
};
use crate::process_chain::block::context::Context;
use crate::text::{chars_eq, chars_of, owned, string_views};
use vstd::string::StringExecFns;

verus! {

/// The keys that name a part of the request or the response rather than
/// an environment value.
pub open spec fn is_request_var(key: Seq<char>) -> bool {
    key == "REQ_HEADER"@ || key == "REQ_BODY"@ || key == "RESP_HEADER"@ || key == "RESP_BODY"@
}

/// Whether `key` names a part of the request or the response.
pub fn request_var(key: &str) -> (r: bool)
    ensures
        r == is_request_var(key@),
{
    let k = chars_of(key);
    chars_eq(&k, &chars_of("REQ_HEADER")) || chars_eq(&k, &chars_of("REQ_BODY")) || chars_eq(
        &k,
        &chars_of("RESP_HEADER"),
    ) || chars_eq(&k, &chars_of("RESP_BODY"))
}

/// How an assignment writes.
#[derive(Debug, Clone, Copy, PartialEq, Eq, Structural)]
pub enum AssignType {
    /// `KEY = VALUE`: written for real.
    Normal,
    /// `KEY := VALUE`: written only virtually.
    Virtual,
}

/// The assignment type an operator names.
pub open spec fn assign_type_of(op: Seq<char>) -> Option<AssignType> {
    if op == "="@ {
        Some(AssignType::Normal)
    } else if op == ":="@ {
        Some(AssignType::Virtual)
    } else {
        None
    }
}

/// Why assignment arguments are refused, if they are.
pub open spec fn assign_error(args: Seq<Seq<char>>) -> Option<Seq<char>> {
    if args.len() != 3 {
        Some("Invalid assign command: "@ + debug_strings_text(args))
    } else if assign_type_of(args[1]) is None {
        Some("Invalid assign type: "@ + debug_strings_text(args))
    } else if !is_request_var(args[0]) && assign_type_of(args[1]) == Some(AssignType::Virtual) {
        Some("Invalid virtual assignment for env: "@ + debug_strings_text(args))
    } else {
        None
    }
}

/// Parses assignments: a key, an operator and a value.
pub struct AssignCommandParser {}

impl AssignCommandParser {
    pub fn new() -> Self {
        Self {  }
    }
}

/// The executor accepted assignment arguments make: a request
/// assignment for a request key, an environment assignment otherwise.
pub open spec fn assign_model(args: Seq<Seq<char>>) -> ExecutorModel {
    if is_request_var(args[0]) {
        ExecutorModel::RequestAssign(
            assign_type_of(args[1]) == Some(AssignType::Virtual),
            args[0],
            args[2],
        )
    } else {
        ExecutorModel::EnvAssign(args[0], args[2])
    }
}

impl CommandParser for AssignCommandParser {
    open spec fn allows(&self, block_type: BlockType) -> bool {
        true
    }

    open spec fn accepts(&self, args: Seq<Seq<char>>) -> bool {
        assign_error(args) is None
    }

    open spec fn builds(&self, args: Seq<Seq<char>>) -> ExecutorModel {
        assign_model(args)
    }

    /// Allowed in every block.
    fn check(&self, block_type: BlockType) -> (r: bool)
        ensures
            r,
    {
        true
    }

    /// Builds a request assignment for a request key, and an environment
    /// assignment otherwise, which cannot be virtual.
    fn parse(&self, args: &Vec<String>) -> (r: Result<CommandExecutorRef, String>)
        ensures
            r is Err <==> assign_error(string_views(args@)) is Some,
            r matches Err(m) ==> assign_error(string_views(args@)) == Some(m@),
            r matches Ok(e) ==> e.model() == assign_model(string_views(args@)),
    {
        if args.len() != 3 {
            let mut msg = owned("Invalid assign command: ");
            let d = debug_strings(args);
            msg.append(d.as_str());
            return Err(msg);
        }
        assert(string_views(args@)[1] == args@[1]@ && string_views(args@)[0] == args@[0]@);
        let op = chars_of(args[1].as_str());
        let type_ = if chars_eq(&op, &chars_of("=")) {
            AssignType::Normal
        } else if chars_eq(&op, &chars_of(":=")) {
            AssignType::Virtual
        } else {
            let mut msg = owned("Invalid assign type: ");
            let d = debug_strings(args);
            msg.append(d.as_str());
            return Err(msg);
        };
        let key = owned(args[0].as_str());
        let value = owned(args[2].as_str());
        if request_var(key.as_str()) {
            let cmd = RequestAssignCommand::new(type_, key, value);
            let ghost m = cmd.model();
            let b: Box<dyn CommandExecutor> = Box::new(cmd);
            assert((*b).model() == m);
            let r = Arc::new(b);
            assert((**r).model() == m);
            Ok(r)
        } else {
            if type_ == AssignType::Virtual {
                let mut msg = owned("Invalid virtual assignment for env: ");
                let d = debug_strings(args);
                msg.append(d.as_str());
                return Err(msg);
            }
            let cmd = EnvAssignCommand::new(key, value);
            let ghost m = cmd.model();
            let b: Box<dyn CommandExecutor> = Box::new(cmd);
            assert((*b).model() == m);
            let r = Arc::new(b);
            assert((**r).model() == m);
            Ok(r)
        }
    }
}

/// An assignment to an environment value; it has no behaviour yet.
pub struct EnvAssignCommand {
    key: String,
    value: String,
}

impl EnvAssignCommand {
    pub fn new(key: String, value: String) -> (r: Self)
        ensures
            r.key() == key@,
            r.value() == value@,
    {
        Self { key, value }
    }

    pub closed spec fn key(&self) -> Seq<char> {
        self.key@
    }

    pub closed spec fn value(&self) -> Seq<char> {
        self.value@
    }
}

impl CommandExecutor for EnvAssignCommand {
    closed spec fn model(&self) -> ExecutorModel {
        ExecutorModel::EnvAssign(self.key@, self.value@)
    }

    fn exec(&self, context: &mut Context) -> (r: Result<CommandResult, String>) {
        Err(owned("environment assignment is not available"))
    }
}

/// An assignment to a part of the request or the response; it has no
/// behaviour yet.
pub struct RequestAssignCommand {
    type_: AssignType,
    key: String,
    value: String,
}

impl RequestAssignCommand {
    pub fn new(type_: AssignType, key: String, value: String) -> (r: Self)
        ensures
            r.assign_type() == type_,
            r.key() == key@,
            r.value() == value@,
    {
        Self { type_, key, value }
    }

    pub closed spec fn assign_type(&self) -> AssignType {
        self.type_
    }

    pub closed spec fn key(&self) -> Seq<char> {
        self.key@
    }

    pub closed spec fn value(&self) -> Seq<char> {
        self.value@
    }
}

impl CommandExecutor for RequestAssignCommand {
    closed spec fn model(&self) -> ExecutorModel {
        ExecutorModel::RequestAssign(self.type_ == AssignType::Virtual, self.key@, self.value@)
    }

    fn exec(&self, context: &mut Context) -> (r: Result<CommandResult, String>) {
        Err(owned("request assignment is not available"))
    }
}

} // verus!
