//! The parsed form of a gateway block.
use vstd::prelude::*;
use crate::process_chain::block::block::{ExprModel, LineModel};
use crate::text::string_views;

pub use crate::process_chain::block::block::{Command, Operator};

verus! {

/// A command, a group of expressions in brackets, or a jump to a label.
pub enum Expression {
    Command(Command),
    Group(Vec<(Expression, Operator)>),
    Goto(String),
}

impl Expression {
    pub open spec fn model(&self) -> ExprModel
        decreases self,
    {
        match self {
            Expression::Command(c) => ExprModel::Command(c.name@, string_views(c.args@)),
            Expression::Group(v) => ExprModel::Group(exprs_model(v@)),
            Expression::Goto(t) => ExprModel::Goto(t@),
        }
    }
}

impl View for Expression {
    type V = ExprModel;

    open spec fn view(&self) -> ExprModel {
        self.model()
    }
}

/// The models of a list of expressions with their operators.
pub open spec fn exprs_model(v: Seq<(Expression, Operator)>) -> Seq<(ExprModel, Operator)>
    decreases v,
{
    Seq::new(
        v.len(),
        |i: int|
            if 0 <= i < v.len() {
                (v[i].0.model(), v[i].1)
            } else {
                (ExprModel::Goto(Seq::empty()), Operator::Neither)
            },
    )
}

/// A line: an optional label and its expressions.
pub struct Line {
    pub label: Option<String>,
    pub expressions: Vec<(Expression, Operator)>,
}

impl View for Line {
    type V = LineModel;

    open spec fn view(&self) -> LineModel {
        LineModel {
            label: match self.label {
                Some(l) => Some(l@),
                None => None,
            },
            expressions: exprs_model(self.expressions@),
        }
    }
}

/// The models of a list of lines.
pub open spec fn lines_model(v: Seq<Line>) -> Seq<LineModel> {
    v.map_values(|l: Line| l@)
}

/// The labels of a block with the line each names, in the order they
/// were recorded.
pub open spec fn labels_model(v: Seq<(String, usize)>) -> Seq<(Seq<char>, usize)> {
    v.map_values(|e: (String, usize)| (e.0@, e.1))
}

/// A block: its lines, and where its labels point.
pub struct Block {
    pub lines: Vec<Line>,
    pub label_map: Vec<(String, usize)>,
}

impl Block {
    pub fn new() -> (r: Self)
        ensures
            r.lines@.len() == 0,
            r.label_map@.len() == 0,
    {
        Block { lines: Vec::new(), label_map: Vec::new() }
    }

}

} // verus!
