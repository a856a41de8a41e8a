//! Running a block: line by line, each line's expressions left to right,
//! with `goto` jumping to labelled lines.
use vstd::prelude::*;
use crate::process_chain::block::block::{
    Block, ExprModel, Expression, Line, LineModel, Operator, exprs_model, label_target,
    labels_model, lines_model,
};
use crate::process_chain::block::cmd::cmd::{
    ActionModel, CommandAction, CommandResult, ResultModel, action_model, is_special,
    success_model,
};
use crate::process_chain::block::context::Context;
use crate::text::owned;
use vstd::string::StringExecFns;

verus! {

/// How many jumps one executor takes before it refuses.
pub const MAX_GOTO_COUNT_IN_BLOCK: u32 = 128;

/// How a block ends.
#[derive(Debug, PartialEq, Eq, Clone, Copy, Structural)]
pub enum BlockResult {
    Complete,
    Drop,
    Pass,
}

/// What running an expression does: panic, since commands have no
/// behaviour yet, or give a result.
pub enum Run {
    Panics,
    Gives(ResultModel),
}

/// What running a block does: panic, refuse with a message, or end with a
/// result.
pub enum BlockRun {
    Panics,
    Fails(Seq<char>),
    Gives(BlockResult),
}

/// Running an expression: a command panics, `goto` gives its jump, and a
/// group runs its expressions.
pub open spec fn run_expr(e: ExprModel) -> Run
    decreases e, 0int,
{
    match e {
        ExprModel::Command(_, _) => Run::Panics,
        ExprModel::Goto(t) => Run::Gives(action_model(ActionModel::Goto(t))),
        ExprModel::Group(items) => run_list(items, 0, success_model()),
    }
}

/// Running expressions from `i` on, `acc` being the last result. A result
/// with an action ends the run; so does a failure before `&&` and a
/// success before `||`. The result is the last one.
pub open spec fn run_list(items: Seq<(ExprModel, Operator)>, i: int, acc: ResultModel) -> Run
    decreases items, items.len() - i,
{
    if i < 0 || i >= items.len() {
        Run::Gives(acc)
    } else {
        match run_expr(items[i].0) {
            Run::Panics => Run::Panics,
            Run::Gives(r) => {
                if is_special(r) {
                    Run::Gives(r)
                } else if (items[i].1 == Operator::And && !r.success) || (items[i].1
                    == Operator::Or && r.success) {
                    Run::Gives(r)
                } else {
                    run_list(items, i + 1, r)
                }
            },
        }
    }
}

/// Running a line: its expressions from a successful start.
pub open spec fn run_line(line: LineModel) -> Run {
    run_list(line.expressions, 0, success_model())
}

/// Law: an expression whose result carries no action goes on to the next
/// expression, with that result as the last one, when it succeeds and is
/// joined by `&&` or by nothing, or fails and is joined by `||` or by
/// nothing. Only a failure before `&&` or a success before `||` stops.
pub proof fn law_run_goes_on(items: Seq<(ExprModel, Operator)>, i: int, acc: ResultModel)
    requires
        0 <= i < items.len(),
        run_expr(items[i].0) matches Run::Gives(r) && r.action is Continue && ((r.success
            && items[i].1 != Operator::Or) || (!r.success && items[i].1 != Operator::And)),
    ensures
        run_list(items, i, acc) == run_list(items, i + 1, run_expr(items[i].0)->Gives_0),
{
}

/// Law: a failure before `&&`, a success before `||`, or a result that
/// carries an action (drop, pass, goto) ends the run with that result;
/// the expressions after it do not run.
pub proof fn law_run_stops(items: Seq<(ExprModel, Operator)>, i: int, acc: ResultModel)
    requires
        0 <= i < items.len(),
        run_expr(items[i].0) matches Run::Gives(r) && (!(r.action is Continue) || (
        items[i].1 == Operator::And && !r.success) || (items[i].1 == Operator::Or
            && r.success)),
    ensures
        run_list(items, i, acc) == run_expr(items[i].0),
{
}

/// Law: past the last expression the run gives the last result.
pub proof fn law_run_ends(items: Seq<(ExprModel, Operator)>, acc: ResultModel)
    ensures
        run_list(items, items.len() as int, acc) == Run::Gives(acc),
{
}

/// Law: when every expression from `i` on succeeds plainly and none is
/// joined by `||`, all of them run and the run succeeds (or gives the last
/// result when nothing is left).
pub proof fn law_run_all_succeed(items: Seq<(ExprModel, Operator)>, i: int, acc: ResultModel)
    requires
        0 <= i <= items.len(),
        forall|j: int|
            i <= j < items.len() ==> run_expr(#[trigger] items[j].0) == Run::Gives(success_model())
                && items[j].1 != Operator::Or,
    ensures
        run_list(items, i, acc) == (if i < items.len() {
            Run::Gives(success_model())
        } else {
            Run::Gives(acc)
        }),
    decreases items.len() - i,
{
    if i < items.len() {
        assert(run_expr(items[i].0) == Run::Gives(success_model()));
        law_run_all_succeed(items, i + 1, success_model());
    }
}

/// Law: a group runs its expressions as a line does, from a success; an
/// empty group succeeds.
pub proof fn law_group_runs_as_line(items: Seq<(ExprModel, Operator)>)
    ensures
        run_expr(ExprModel::Group(items)) == run_line(
            LineModel { label: None, expressions: items },
        ),
        run_expr(ExprModel::Group(Seq::empty())) == Run::Gives(success_model()),
{
}

/// The measure of jumps still allowed.
pub open spec fn jumps_left(counter: int) -> int {
    if counter < 128 {
        128 - counter
    } else {
        0
    }
}

/// The message for a jump past the limit.
pub open spec fn goto_limit_message() -> Seq<char> {
    "Goto count exceeds limit 128"@
}

/// The message for a jump to a missing label.
pub open spec fn goto_missing_message(t: Seq<char>) -> Seq<char> {
    "Goto target "@ + t + " not found"@
}

/// Running a block from line `cur` with `counter` jumps taken: how it
/// ends and the count of jumps then. Each jump adds one to the count, and
/// a count above the limit refuses.
pub open spec fn run_block(
    lines: Seq<LineModel>,
    labels: Seq<(Seq<char>, usize)>,
    cur: int,
    counter: int,
) -> (BlockRun, int)
    decreases jumps_left(counter), lines.len() - cur,
{
    if cur < 0 || cur >= lines.len() {
        (BlockRun::Gives(BlockResult::Complete), counter)
    } else {
        match run_line(lines[cur]) {
            Run::Panics => (BlockRun::Panics, counter),
            Run::Gives(r) => match r.action {
                ActionModel::Continue => run_block(lines, labels, cur + 1, counter),
                ActionModel::Drop => (BlockRun::Gives(BlockResult::Drop), counter),
                ActionModel::Pass => (BlockRun::Gives(BlockResult::Pass), counter),
                ActionModel::Goto(t) => match label_target(labels, t) {
                    Some(n) => {
                        if counter + 1 > 128 {
                            (BlockRun::Fails(goto_limit_message()), counter + 1)
                        } else {
                            run_block(lines, labels, n as int, counter + 1)
                        }
                    },
                    None => (BlockRun::Fails(goto_missing_message(t)), counter),
                },
            },
        }
    }
}

/// Law: a block runs its lines in turn from `cur`. Past the last line it
/// completes. A line whose result carries no action hands on to the next
/// line; a drop or a pass ends the block so; a goto to a label the block
/// has jumps to the line the label names, counting one jump, unless that
/// makes more than 128 jumps, which refuses; a goto to a label the block
/// does not have refuses and counts nothing.
pub proof fn law_block_steps(
    lines: Seq<LineModel>,
    labels: Seq<(Seq<char>, usize)>,
    cur: int,
    counter: int,
)
    requires
        0 <= cur,
    ensures
        cur >= lines.len() ==> run_block(lines, labels, cur, counter) == (
            BlockRun::Gives(BlockResult::Complete),
            counter,
        ),
        cur < lines.len() ==> (match run_line(lines[cur]) {
            Run::Panics => run_block(lines, labels, cur, counter).0 is Panics,
            Run::Gives(r) => match r.action {
                ActionModel::Continue => run_block(lines, labels, cur, counter) == run_block(
                    lines,
                    labels,
                    cur + 1,
                    counter,
                ),
                ActionModel::Drop => run_block(lines, labels, cur, counter) == (
                    BlockRun::Gives(BlockResult::Drop),
                    counter,
                ),
                ActionModel::Pass => run_block(lines, labels, cur, counter) == (
                    BlockRun::Gives(BlockResult::Pass),
                    counter,
                ),
                ActionModel::Goto(t) => match label_target(labels, t) {
                    Some(n) => if counter < 128 {
                        run_block(lines, labels, cur, counter) == run_block(
                            lines,
                            labels,
                            n as int,
                            counter + 1,
                        )
                    } else {
                        run_block(lines, labels, cur, counter) == (
                            BlockRun::Fails("Goto count exceeds limit 128"@),
                            counter + 1,
                        )
                    },
                    None => run_block(lines, labels, cur, counter) == (
                        BlockRun::Fails("Goto target "@ + t + " not found"@),
                        counter,
                    ),
                },
            },
        }),
{
}

/// Law: a label names the line of its last entry in the label map, and
/// a label with no entry names nothing.
pub proof fn law_label_target(labels: Seq<(Seq<char>, usize)>, l: Seq<char>)
    ensures
        label_target(labels, l) matches Some(n) ==> exists|k: int|
            0 <= k < labels.len() && #[trigger] labels[k] == (l, n) && forall|j: int|
                k < j < labels.len() ==> (#[trigger] labels[j]).0 != l,
        label_target(labels, l) is None ==> forall|j: int|
            0 <= j < labels.len() ==> (#[trigger] labels[j]).0 != l,
    decreases labels.len(),
{
    if labels.len() > 0 {
        let d = labels.drop_last();
        law_label_target(d, l);
        assert forall|j: int| 0 <= j < d.len() implies d[j] == labels[j] by {}
        if labels.last().0 == l {
            assert(labels[labels.len() - 1] == (l, labels.last().1));
        } else if let Some(n) = label_target(d, l) {
            let k = choose|k: int|
                0 <= k < d.len() && #[trigger] d[k] == (l, n) && forall|j: int|
                    k < j < d.len() ==> (#[trigger] d[j]).0 != l;
            assert(labels[k] == (l, n));
        }
    }
}

/// Runs blocks, counting jumps across them.
pub struct BlockExecuter {
    pub goto_counter: u32,
}

impl BlockExecuter {
    pub fn new() -> (r: Self)
        ensures
            r.goto_counter == 0,
    {
        Self { goto_counter: 0 }
    }

    /// Runs `block` from its first line. The run ends at the end of the
    /// block, at a drop or a pass, or with an error for a jump to a
    /// missing label or past the jump limit. A block that would run a
    /// command is outside what this accepts, since commands have no
    /// behaviour yet. The context is left as it was.
    pub fn execute_block(&mut self, block: &Block, context: &mut Context) -> (r: Result<
        BlockResult,
        String,
    >)
        requires
            !(run_block(
                lines_model(block.lines@),
                labels_model(block.label_map@),
                0,
                old(self).goto_counter as int,
            ).0 is Panics),
            old(self).goto_counter < u32::MAX,
        ensures
            ({
                let run = run_block(
                    lines_model(block.lines@),
                    labels_model(block.label_map@),
                    0,
                    old(self).goto_counter as int,
                );
                &&& run.0 matches BlockRun::Gives(b) ==> r == Ok::<BlockResult, String>(b)
                &&& run.0 matches BlockRun::Fails(m) ==> r matches Err(e) && e@ == m
                &&& final(self).goto_counter == run.1
            }),
            *final(context) == *old(context),
    {
        let ghost lines = lines_model(block.lines@);
        let ghost labels = labels_model(block.label_map@);
        let ghost whole = run_block(lines, labels, 0, old(self).goto_counter as int);
        let mut current_line: usize = 0;
        while current_line < block.lines.len()
            invariant
                lines == lines_model(block.lines@),
                labels == labels_model(block.label_map@),
                whole == run_block(lines, labels, 0, old(self).goto_counter as int),
                whole == run_block(lines, labels, current_line as int, self.goto_counter as int),
                !(whole.0 is Panics),
                self.goto_counter <= 128 || self.goto_counter == old(self).goto_counter,
                self.goto_counter < u32::MAX,
                *context == *old(context),
            decreases jumps_left(self.goto_counter as int), block.lines.len() - current_line,
        {
            let line = &block.lines[current_line];
            assert(line@ == lines[current_line as int]);
            let line_result = Self::execute_line(line, context);
            match line_result {
                Err(e) => {
                    return Err(e);
                },
                Ok(res) => match res.action {
                    CommandAction::Continue => {
                        current_line = current_line + 1;
                    },
                    CommandAction::Drop => {
                        return Ok(BlockResult::Drop);
                    },
                    CommandAction::Pass => {
                        return Ok(BlockResult::Pass);
                    },
                    CommandAction::Goto(target) => {
                        match block.find_label(target.as_str()) {
                            Some(n) => {
                                current_line = n;
                                self.goto_counter = self.goto_counter + 1;
                                if self.goto_counter > MAX_GOTO_COUNT_IN_BLOCK {
                                    proof {
                                        reveal_strlit("Goto count exceeds limit 128");
                                    }
                                    return Err(owned("Goto count exceeds limit 128"));
                                }
                            },
                            None => {
                                let mut msg = owned("Goto target ");
                                msg.append(target.as_str());
                                msg.append(" not found");
                                return Err(msg);
                            },
                        }
                    },
                },
            }
        }
        Ok(BlockResult::Complete)
    }

    /// Runs a line: its expressions left to right from a successful
    /// start.
    fn execute_line(line: &Line, context: &mut Context) -> (r: Result<CommandResult, String>)
        requires
            !(run_line(line@) is Panics),
        ensures
            r matches Ok(x) && run_line(line@) == Run::Gives(x@),
            *final(context) == *old(context),
    {
        let items = &line.expressions;
        let ghost m = exprs_model(items@);
        assert(run_line(line@) == run_list(m, 0, success_model()));
        let mut result = CommandResult::success();
        let mut i: usize = 0;
        while i < items.len()
            invariant
                i <= items.len(),
                m == exprs_model(items@),
                m.len() == items.len(),
                run_line(line@) == run_list(m, i as int, result@),
                !(run_list(m, i as int, result@) is Panics),
                *context == *old(context),
            decreases items.len() - i,
        {
            let (expr, op) = (&items[i].0, items[i].1);
            assert(m[i as int] == (expr@, op));
            let sub = Self::execute_expression(expr, context);
            match sub {
                Err(e) => {
                    return Err(e);
                },
                Ok(x) => {
                    result = x;
                    if result.is_special_action() {
                        return Ok(result);
                    }
                    match op {
                        Operator::And => {
                            if !result.success {
                                return Ok(result);
                            }
                        },
                        Operator::Or => {
                            if result.success {
                                return Ok(result);
                            }
                        },
                        Operator::Neither => {},
                    }
                },
            }
            i = i + 1;
        }
        Ok(result)
    }

    /// Runs an expression: a `goto` gives its jump and a group runs its
    /// expressions as a line does.
    fn execute_expression(expr: &Expression, context: &mut Context) -> (r: Result<
        CommandResult,
        String,
    >)
        requires
            !(run_expr(expr@) is Panics),
        ensures
            r matches Ok(x) && run_expr(expr@) == Run::Gives(x@),
            *final(context) == *old(context),
        decreases expr,
    {
        match expr {
            Expression::Command(_) => {
                // Ruled out by the contract: a command has no behaviour yet.
                Ok(CommandResult::success())
            },
            Expression::Goto(target) => Ok(CommandResult::goto(owned(target.as_str()))),
            Expression::Group(items) => {
                let ghost m = exprs_model(items@);
                let mut result = CommandResult::success();
                let mut i: usize = 0;
                while i < items.len()
                    invariant
                        *expr == Expression::Group(*items),
                        i <= items.len(),
                        m == exprs_model(items@),
                        m.len() == items.len(),
                        run_expr(expr@) == run_list(m, i as int, result@),
                        !(run_list(m, i as int, result@) is Panics),
                        *context == *old(context),
                    decreases items.len() - i,
                {
                    let (sub_expr, op) = (&items[i].0, items[i].1);
                    assert(m[i as int] == (sub_expr@, op));
                    proof {
                        let ghost e = items@[i as int];
                        assert(decreases_to!(*expr => expr->Group_0));
                        assert(decreases_to!(*items => items@));
                        assert(decreases_to!(items@ => e));
                        assert(decreases_to!(e => e.0));
                    }
                    let sub = Self::execute_expression(sub_expr, context);
                    match sub {
                        Err(e) => {
                            return Err(e);
                        },
                        Ok(x) => {
                            result = x;
                            if result.is_special_action() {
                                return Ok(result);
                            }
                            match op {
                                Operator::And => {
                                    if !result.success {
                                        return Ok(result);
                                    }
                                },
                                Operator::Or => {
                                    if result.success {
                                        return Ok(result);
                                    }
                                },
                                Operator::Neither => {},
                            }
                        },
                    }
                    i = i + 1;
                }
                Ok(result)
            },
        }
    }
}

} // verus!
