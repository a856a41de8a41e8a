//! The parsed form of a block: lines of expressions joined by `&&` and
//! `||`, with labels that `goto` jumps to.
use vstd::prelude::*;
use crate::process_chain::block::cmd::cmd::CommandExecutorRef;
use crate::text::string_views;

verus! {

/// The stage of processing a block belongs to; a command may be allowed
/// in some stages only.
#[derive(Debug, Clone, Copy, PartialEq, Eq, Structural)]
pub enum BlockType {
    Probe,
    Process,
    Rewrite,
}

/// How an expression is joined to the one after it.
#[derive(Debug, Clone, Copy, PartialEq, Eq, Structural)]
pub enum Operator {
    /// `&&`
    And,
    /// `||`
    Or,
    /// Neither.
    Neither,
}

/// A command as written: its name and its arguments.
#[derive(Debug, Clone)]
pub struct Command {
    pub name: String,
    pub args: Vec<String>,
}

/// A command with the executor that a translator gives it.
pub struct CommandItem {
    pub command: Command,
    pub executor: Option<CommandExecutorRef>,
}

impl CommandItem {
    pub fn new(name: String, args: Vec<String>) -> (r: Self)
        ensures
            r.command.name@ == name@,
            string_views(r.command.args@) == string_views(args@),
            r.executor is None,
    {
        CommandItem { command: Command { name, args }, executor: None }
    }

    pub fn new_empty() -> (r: Self)
        ensures
            r.command.name@ == Seq::<char>::empty(),
            r.command.args@.len() == 0,
            r.executor is None,
    {
        CommandItem { command: Command { name: String::new(), args: Vec::new() }, executor: None }
    }
}

/// A command, a group of expressions in brackets, or a jump to a label.
pub enum Expression {
    Command(CommandItem),
    Group(Vec<(Expression, Operator)>),
    Goto(String),
}

/// The mathematical form of an [`Expression`].
pub enum ExprModel {
    Command(Seq<char>, Seq<Seq<char>>),
    Group(Seq<(ExprModel, Operator)>),
    Goto(Seq<char>),
}

impl Expression {
    pub open spec fn model(&self) -> ExprModel
        decreases self,
    {
        match self {
            Expression::Command(c) => ExprModel::Command(
                c.command.name@,
                string_views(c.command.args@),
            ),
            Expression::Group(v) => ExprModel::Group(exprs_model(v@)),
            Expression::Goto(t) => ExprModel::Goto(t@),
        }
    }
}

impl View for Expression {
    type V = ExprModel;

    open spec fn view(&self) -> ExprModel {
        self.model()
    }
}

/// The models of a list of expressions with their operators.
pub open spec fn exprs_model(v: Seq<(Expression, Operator)>) -> Seq<(ExprModel, Operator)>
    decreases v,
{
    Seq::new(
        v.len(),
        |i: int|
            if 0 <= i < v.len() {
                (v[i].0.model(), v[i].1)
            } else {
                (ExprModel::Goto(Seq::empty()), Operator::Neither)
            },
    )
}

/// A line: an optional label and its expressions.
pub struct Line {
    pub label: Option<String>,
    pub expressions: Vec<(Expression, Operator)>,
}

/// The mathematical form of a [`Line`].
pub struct LineModel {
    pub label: Option<Seq<char>>,
    pub expressions: Seq<(ExprModel, Operator)>,
}

impl View for Line {
    type V = LineModel;

    open spec fn view(&self) -> LineModel {
        LineModel {
            label: match self.label {
                Some(l) => Some(l@),
                None => None,
            },
            expressions: exprs_model(self.expressions@),
        }
    }
}

/// The models of a list of lines.
pub open spec fn lines_model(v: Seq<Line>) -> Seq<LineModel> {
    v.map_values(|l: Line| l@)
}

/// The labels of a block with the line each names, in the order they
/// were recorded; a later entry for a label replaces an earlier one.
pub open spec fn labels_model(v: Seq<(String, usize)>) -> Seq<(Seq<char>, usize)> {
    v.map_values(|e: (String, usize)| (e.0@, e.1))
}

/// The line that label `l` names: that of its last entry.
pub open spec fn label_target(labels: Seq<(Seq<char>, usize)>, l: Seq<char>) -> Option<usize>
    decreases labels.len(),
{
    if labels.len() == 0 {
        None
    } else if labels.last().0 == l {
        Some(labels.last().1)
    } else {
        label_target(labels.drop_last(), l)
    }
}

/// A block: its type, its lines, and where its labels point.
pub struct Block {
    pub block_type: BlockType,
    pub lines: Vec<Line>,
    pub label_map: Vec<(String, usize)>,
}

impl Block {
    pub fn new(block_type: BlockType) -> (r: Self)
        ensures
            r.block_type == block_type,
            r.lines@.len() == 0,
            r.label_map@.len() == 0,
    {
        Block { block_type, lines: Vec::new(), label_map: Vec::new() }
    }

    /// The line that `label` names, if any.
    pub fn find_label(&self, label: &str) -> (r: Option<usize>)
        ensures
            r == label_target(labels_model(self.label_map@), label@),
    {
        let target = crate::text::chars_of(label);
        let ghost all = labels_model(self.label_map@);
        let mut i = self.label_map.len();
        assert(all.take(i as int) =~= all);
        while i > 0
            invariant
                i <= self.label_map.len(),
                all == labels_model(self.label_map@),
                target@ == label@,
                label_target(all, label@) == label_target(all.take(i as int), label@),
            decreases i,
        {
            let ghost t = all.take(i as int);
            assert(t.drop_last() =~= all.take(i - 1));
            assert(t.last() == (self.label_map@[i - 1].0@, self.label_map@[i - 1].1));
            let entry = &self.label_map[i - 1];
            let k = crate::text::chars_of(entry.0.as_str());
            assert(k@ == t.last().0);
            assert(t.len() == i);
            if crate::text::chars_eq(&k, &target) {
                return Some(entry.1);
            }
            i = i - 1;
        }
        None
    }
}

} // verus!
