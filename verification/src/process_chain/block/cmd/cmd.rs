//! Commands: what parses them, what runs them, and what a run gives back.
use vstd::prelude::*;
use vstd::string::StringExecFns;
use std::sync::Arc;
use crate::process_chain::block::block::BlockType;
use crate::process_chain::block::context::{Context, value_of};
use crate::text::string_views;
use crate::warp::block::cmd::{
    have_label_result, host_labels_ascii, key_readable, labels_from_host, match_result,
    regex_compiles,
};

verus! {

/// A shared command parser.
pub type CommandParserRef = Arc<Box<dyn CommandParser>>;

/// Turns the arguments of a command into an executor.
pub trait CommandParser {
    /// Whether the command may stand in a block of this type.
    spec fn allows(&self, block_type: BlockType) -> bool;

    /// Whether these arguments are accepted.
    spec fn accepts(&self, args: Seq<Seq<char>>) -> bool;

    /// The executor these arguments make, when accepted.
    spec fn builds(&self, args: Seq<Seq<char>>) -> ExecutorModel;

    /// Whether the command may stand in a block of this type.
    fn check(&self, block_type: BlockType) -> (r: bool)
        ensures
            r == self.allows(block_type),
    ;

    /// The executor for these arguments, or why they are refused.
    fn parse(&self, args: &Vec<String>) -> (r: Result<CommandExecutorRef, String>)
        ensures
            r is Ok <==> self.accepts(string_views(args@)),
            r matches Ok(e) ==> e.model() == self.builds(string_views(args@)),
    ;
}

/// What an executor is: the command it runs with the arguments it keeps,
/// or one defined elsewhere.
pub enum ExecutorModel {
    /// Succeeds with a fixed action.
    Action(ActionModel),
    /// `match KEY PATTERN`.
    Match(Seq<char>, Seq<char>),
    /// `set_label_by_host_db KEY`.
    SetLabelByHostDb(Seq<char>),
    /// `have_label KEY LABEL`.
    HaveLabel(Seq<char>, Seq<char>),
    /// An assignment to an environment value: key and value.
    EnvAssign(Seq<char>, Seq<char>),
    /// An assignment to a part of the request or response: whether it is
    /// virtual, key and value.
    RequestAssign(bool, Seq<char>, Seq<char>),
    /// `EXEC` with its command text.
    External(Seq<char>),
    /// `http-sni-probe`.
    HttpSniProbe,
    /// An executor defined outside this library.
    Other,
}

/// Whether an executor of this kind can run on `context` without
/// panicking. Assignments, `EXEC` and `http-sni-probe` have no behaviour
/// yet and cannot run at all.
pub open spec fn model_can_run(m: ExecutorModel, context: Context) -> bool {
    match m {
        ExecutorModel::Action(_) => true,
        ExecutorModel::Match(key, pattern) => key_readable(context, key) && regex_compiles(
            pattern,
        ),
        ExecutorModel::SetLabelByHostDb(key) => {
            &&& key_readable(context, key)
            &&& value_of(context.req_headers(), context.resp_headers(), key) matches Some(v)
                ==> host_labels_ascii(context, v)
        },
        ExecutorModel::HaveLabel(key, _) => key_readable(context, key),
        ExecutorModel::Other => true,
        _ => false,
    }
}

/// What running an executor of this kind does: the result it gives (`None`
/// for an error) and the context it leaves.
pub open spec fn model_runs(
    m: ExecutorModel,
    before: Context,
    after: Context,
    r: Option<ResultModel>,
) -> bool {
    match m {
        ExecutorModel::Action(a) => r == Some(action_model(a)) && after == before,
        ExecutorModel::Match(key, pattern) => r == Some(match_result(before, key, pattern))
            && after == before,
        ExecutorModel::SetLabelByHostDb(key) => match value_of(
            before.req_headers(),
            before.resp_headers(),
            key,
        ) {
            None => r == Some(failure_model(1)) && after == before,
            Some(v) => r == Some(success_model()) && labels_from_host(before, after, v),
        },
        ExecutorModel::HaveLabel(key, label) => r == Some(have_label_result(before, key, label))
            && after == before,
        _ => true,
    }
}

/// The model of a run's result: `None` for an error.
pub open spec fn result_model(r: Result<CommandResult, String>) -> Option<ResultModel> {
    match r {
        Ok(x) => Some(x@),
        Err(_) => None,
    }
}

/// What the block runner does after a command.
#[derive(Debug, Clone)]
pub enum CommandAction {
    Continue,
    Drop,
    Pass,
    Goto(String),
}

/// The mathematical form of a [`CommandAction`].
pub enum ActionModel {
    Continue,
    Drop,
    Pass,
    Goto(Seq<char>),
}

impl View for CommandAction {
    type V = ActionModel;

    open spec fn view(&self) -> ActionModel {
        match self {
            CommandAction::Continue => ActionModel::Continue,
            CommandAction::Drop => ActionModel::Drop,
            CommandAction::Pass => ActionModel::Pass,
            CommandAction::Goto(t) => ActionModel::Goto(t@),
        }
    }
}

impl CommandAction {
    /// A copy of the action.
    pub fn copy(&self) -> (r: Self)
        ensures
            r@ == self@,
    {
        match self {
            CommandAction::Continue => CommandAction::Continue,
            CommandAction::Drop => CommandAction::Drop,
            CommandAction::Pass => CommandAction::Pass,
            CommandAction::Goto(t) => CommandAction::Goto(crate::text::owned(t.as_str())),
        }
    }
}

/// The result of running a command.
#[derive(Debug)]
pub struct CommandResult {
    pub success: bool,
    pub action: CommandAction,
    pub error_code: i32,
}

/// The mathematical form of a [`CommandResult`].
pub struct ResultModel {
    pub success: bool,
    pub action: ActionModel,
    pub error_code: i32,
}

impl View for CommandResult {
    type V = ResultModel;

    open spec fn view(&self) -> ResultModel {
        ResultModel { success: self.success, action: self.action@, error_code: self.error_code }
    }
}

/// A successful result that goes on to what follows.
pub open spec fn success_model() -> ResultModel {
    ResultModel { success: true, action: ActionModel::Continue, error_code: 0 }
}

/// A failed result with this code that goes on to what follows.
pub open spec fn failure_model(code: i32) -> ResultModel {
    ResultModel { success: false, action: ActionModel::Continue, error_code: code }
}

/// A successful result that carries this action.
pub open spec fn action_model(action: ActionModel) -> ResultModel {
    ResultModel { success: true, action, error_code: 0 }
}

/// Whether a result stops the line it stands in: any action but `Ok`.
pub open spec fn is_special(r: ResultModel) -> bool {
    !(r.action is Continue)
}

/// Law: success and failure go on to what follows; drop, pass and goto
/// carry an action that stops the line.
pub proof fn law_special_actions(code: i32, target: Seq<char>)
    ensures
        !is_special(success_model()),
        !is_special(failure_model(code)),
        is_special(action_model(ActionModel::Drop)),
        is_special(action_model(ActionModel::Pass)),
        is_special(action_model(ActionModel::Goto(target))),
{
}

impl CommandResult {
    pub fn success() -> (r: Self)
        ensures
            r@ == success_model(),
    {
        CommandResult { success: true, action: CommandAction::Continue, error_code: 0 }
    }

    pub fn failure(code: i32) -> (r: Self)
        ensures
            r@ == failure_model(code),
    {
        CommandResult { success: false, action: CommandAction::Continue, error_code: code }
    }

    pub fn drop() -> (r: Self)
        ensures
            r@ == action_model(ActionModel::Drop),
    {
        CommandResult { success: true, action: CommandAction::Drop, error_code: 0 }
    }

    pub fn pass() -> (r: Self)
        ensures
            r@ == action_model(ActionModel::Pass),
    {
        CommandResult { success: true, action: CommandAction::Pass, error_code: 0 }
    }

    pub fn goto(target: String) -> (r: Self)
        ensures
            r@ == action_model(ActionModel::Goto(target@)),
    {
        CommandResult { success: true, action: CommandAction::Goto(target), error_code: 0 }
    }

    /// Whether the result carries an action other than going on.
    pub fn is_special_action(&self) -> (r: bool)
        ensures
            r == is_special(self@),
    {
        match self.action {
            CommandAction::Continue => false,
            _ => true,
        }
    }
}

/// Runs a parsed command against a context.
pub trait CommandExecutor {
    /// What this executor is.
    spec fn model(&self) -> ExecutorModel;

    /// Runs the command.
    fn exec(&self, context: &mut Context) -> (r: Result<CommandResult, String>)
        requires
            model_can_run(self.model(), *old(context)),
        ensures
            model_runs(self.model(), *old(context), *final(context), result_model(r)),
    ;
}

/// A shared command executor.
pub type CommandExecutorRef = Arc<Box<dyn CommandExecutor>>;

/// The text that `{:?}` writes for a string: quoted, with escapes.
pub uninterp spec fn debug_string_text(s: Seq<char>) -> Seq<char>;

/// `{:?}` of a string, by std's `Debug` for `str`; the text depends on
/// the string alone.
#[verifier::external_body]
pub(crate) fn debug_string(s: &str) -> (r: String)
    ensures
        r@ == debug_string_text(s@),
{
    format!("{:?}", s)
}

/// The pieces of `q` with `sep` between them.
pub open spec fn joined(q: Seq<Seq<char>>, sep: Seq<char>) -> Seq<char>
    decreases q.len(),
{
    if q.len() == 0 {
        Seq::empty()
    } else if q.len() == 1 {
        q[0]
    } else {
        joined(q.drop_last(), sep) + sep + q.last()
    }
}

/// The text that `{:?}` writes for a list of strings: each string as
/// `{:?}` writes it, separated by `", "`, in brackets.
pub open spec fn debug_strings_text(v: Seq<Seq<char>>) -> Seq<char> {
    "["@ + joined(v.map_values(|s: Seq<char>| debug_string_text(s)), ", "@) + "]"@
}

/// `{:?}` of a list of strings.
pub(crate) fn debug_strings(v: &Vec<String>) -> (s: String)
    ensures
        s@ == debug_strings_text(crate::text::string_views(v@)),
{
    let ghost all = crate::text::string_views(v@).map_values(|s: Seq<char>| debug_string_text(s));
    let mut body = String::new();
    let mut i: usize = 0;
    while i < v.len()
        invariant
            i <= v.len(),
            all == crate::text::string_views(v@).map_values(|s: Seq<char>| debug_string_text(s)),
            body@ == joined(all.take(i as int), ", "@),
        decreases v.len() - i,
    {
        let ghost q = all.take(i + 1);
        assert(q.drop_last() =~= all.take(i as int));
        if i > 0 {
            body.append(", ");
        } else {
            assert(body@ =~= Seq::<char>::empty());
        }
        let d = debug_string(v[i].as_str());
        assert(d@ == all[i as int]);
        body.append(d.as_str());
        i = i + 1;
        assert(body@ =~= joined(all.take(i as int), ", "@));
    }
    assert(all.take(v@.len() as int) =~= all);
    let mut s = crate::text::owned("[");
    s.append(body.as_str());
    s.append("]");
    s
}

} // verus!
