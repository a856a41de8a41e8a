//! The block parser: splits a block into lines, finds each line's label,
//! and parses its expressions.
//!
//! The grammar of a line's expressions, with assignments enabled:
//! an expression is an assignment `key=value` or `key:=value` (the key
//! runs to the first `=` or `:`, the value to the first white space, `&`
//! or `|`), or a group `( expressions )`; each expression may be followed
//! directly by `&&` or `||`. Parsing stops at the first place no
//! expression starts, and the rest of the line is ignored. A bare command
//! never forms an expression: its token rule makes no progress after the
//! leading spaces, and a repetition that makes no progress fails.
use vstd::prelude::*;
use crate::process_chain::block::block::{
    Block, BlockType, Command, CommandItem, ExprModel, Expression, Line, LineModel, Operator,
    exprs_model, labels_model, lines_model,
};
use crate::process_chain::block::cmd::cmd::{
    CommandParser, debug_string, debug_string_text, debug_strings, debug_strings_text,
};
use crate::warp::block::cmd::factory::CommandParserFactory;
use vstd::string::StringExecFns;
use crate::text::{
    Sep, chars_of, find_pair, find_pair_from, is_whitespace, is_ws, owned, split_chars_nonempty,
    split_nonempty, string_of, string_views, trim, trim_bounds, trimmed_string, views,
};

verus! {

broadcast use vstd::std_specs::vec::group_vec_axioms;

/// The first position at or after `p` holding `=` or `:`, or the end.
pub open spec fn till_assign_op(s: Seq<char>, p: int) -> int
    decreases s.len() - p,
{
    if p < 0 || p >= s.len() {
        s.len() as int
    } else if s[p] == '=' || s[p] == ':' {
        p
    } else {
        till_assign_op(s, p + 1)
    }
}

/// The first position at or after `p` holding white space, `&` or `|`,
/// or the end.
pub open spec fn till_value_end(s: Seq<char>, p: int) -> int
    decreases s.len() - p,
{
    if p < 0 || p >= s.len() {
        s.len() as int
    } else if is_ws(s[p]) || s[p] == '&' || s[p] == '|' {
        p
    } else {
        till_value_end(s, p + 1)
    }
}

/// The assignment operator at `q` and the position after it.
pub open spec fn assign_op_at(s: Seq<char>, q: int) -> Option<(Seq<char>, int)> {
    if 0 <= q && q + 1 < s.len() && s[q] == ':' && s[q + 1] == '=' {
        Some((seq![':', '='], q + 2))
    } else if 0 <= q < s.len() && s[q] == '=' {
        Some((seq!['='], q + 1))
    } else {
        None
    }
}

/// An assignment starting at `p` and the position after it: the command
/// `assign` with the trimmed key, the operator and the value.
pub open spec fn assign_at(s: Seq<char>, p: int) -> Option<(ExprModel, int)> {
    let q = till_assign_op(s, p);
    match assign_op_at(s, q) {
        Some((op, r)) => {
            let e = till_value_end(s, r);
            Some(
                (
                    ExprModel::Command(
                        "assign"@,
                        seq![trim(s.subrange(p, q)), op, s.subrange(r, e)],
                    ),
                    e,
                ),
            )
        },
        None => None,
    }
}

/// The operator directly at `p` and the position after it.
pub open spec fn operator_at(s: Seq<char>, p: int) -> (Operator, int) {
    if 0 <= p && p + 1 < s.len() && s[p] == '&' && s[p + 1] == '&' {
        (Operator::And, p + 2)
    } else if 0 <= p && p + 1 < s.len() && s[p] == '|' && s[p + 1] == '|' {
        (Operator::Or, p + 2)
    } else {
        (Operator::Neither, p)
    }
}

/// Law: `&&` joins by "and", `||` by "or", each taking two characters;
/// anything else joins by neither and takes nothing.
pub proof fn law_operators(s: Seq<char>, p: int)
    requires
        0 <= p,
    ensures
        p + 1 < s.len() && s[p] == '&' && s[p + 1] == '&' ==> operator_at(s, p) == (
            Operator::And,
            p + 2,
        ),
        p + 1 < s.len() && s[p] == '|' && s[p + 1] == '|' ==> operator_at(s, p) == (
            Operator::Or,
            p + 2,
        ),
        !(p + 1 < s.len() && ((s[p] == '&' && s[p + 1] == '&') || (s[p] == '|' && s[p + 1]
            == '|'))) ==> operator_at(s, p) == (Operator::Neither, p),
{
}

/// The expressions from `p` on, each with the operator after it, and the
/// position where they stop. With `assign`, assignments are expressions.
pub open spec fn exprs_at(s: Seq<char>, p: int, assign: bool) -> (Seq<(ExprModel, Operator)>, int)
    decreases s.len() - p, 2int,
{
    match expr_at(s, p, assign) {
        None => (Seq::empty(), p),
        Some((e, p1)) => {
            let (op, p2) = operator_at(s, p1);
            if p < p2 <= s.len() {
                let (rest, end) = exprs_at(s, p2, assign);
                (seq![(e, op)] + rest, end)
            } else {
                (Seq::empty(), p)
            }
        },
    }
}

/// The expression starting at `p` and the position after it: an
/// assignment (when enabled) or else a group.
pub open spec fn expr_at(s: Seq<char>, p: int, assign: bool) -> Option<(ExprModel, int)>
    decreases s.len() - p, 1int,
{
    if assign && assign_at(s, p) is Some {
        assign_at(s, p)
    } else {
        group_at(s, p, assign)
    }
}

/// The group `( expressions )` starting at `p` and the position after it.
pub open spec fn group_at(s: Seq<char>, p: int, assign: bool) -> Option<(ExprModel, int)>
    decreases s.len() - p, 0int,
{
    if 0 <= p < s.len() && s[p] == '(' {
        let (items, e) = exprs_at(s, p + 1, assign);
        if 0 <= e < s.len() && s[e] == ')' {
            Some((ExprModel::Group(items), e + 1))
        } else {
            None
        }
    } else {
        None
    }
}

/// The parsed form of one line: its trimmed label before the first `": "`,
/// if any, and the expressions of the trimmed rest.
pub open spec fn line_at(line: Seq<char>, assign: bool) -> LineModel {
    let t = trim(line);
    if t.len() == 0 {
        LineModel { label: None, expressions: Seq::empty() }
    } else {
        match find_pair_from(t, ':', ' ', 0) {
            Some(i) => LineModel {
                label: Some(trim(t.subrange(0, i))),
                expressions: exprs_at(trim(t.subrange(i + 2, t.len() as int)), 0, assign).0,
            },
            None => LineModel { label: None, expressions: exprs_at(t, 0, assign).0 },
        }
    }
}

/// The lines of a block: its non-empty pieces between line breaks, each
/// parsed.
pub open spec fn block_lines(block: Seq<char>, assign: bool) -> Seq<LineModel> {
    split_nonempty(block, Sep::LineBreak).map_values(|l: Seq<char>| line_at(l, assign))
}

/// The labels of lines with the position of each labelled line, in order.
pub open spec fn labels_of(lines: Seq<LineModel>) -> Seq<(Seq<char>, usize)>
    decreases lines.len(),
{
    if lines.len() == 0 {
        Seq::empty()
    } else {
        let before = labels_of(lines.drop_last());
        match lines.last().label {
            Some(l) => before.push((l, (lines.len() - 1) as usize)),
            None => before,
        }
    }
}

/// Lemma: the scanning functions stay within `[p, len]`.
pub proof fn lemma_scan_bounds(s: Seq<char>, p: int)
    requires
        0 <= p <= s.len(),
    ensures
        p <= till_assign_op(s, p) <= s.len(),
        p <= till_value_end(s, p) <= s.len(),
    decreases s.len() - p,
{
    if p < s.len() {
        lemma_scan_bounds(s, p + 1);
    }
}

/// Lemma: an expression found at `p` ends after `p` and within the text,
/// and the expressions from `p` stop within `[p, len]`.
pub proof fn lemma_expr_progress(s: Seq<char>, p: int, assign: bool)
    requires
        0 <= p <= s.len(),
    ensures
        expr_at(s, p, assign) matches Some((e, p1)) ==> p < p1 <= s.len(),
        group_at(s, p, assign) matches Some((e, p1)) ==> p < p1 <= s.len(),
        p <= exprs_at(s, p, assign).1 <= s.len(),
    decreases s.len() - p,
{
    lemma_scan_bounds(s, p);
    let q = till_assign_op(s, p);
    if let Some((op, r)) = assign_op_at(s, q) {
        lemma_scan_bounds(s, r);
    }
    if 0 <= p < s.len() && s[p] == '(' {
        lemma_expr_progress(s, p + 1, assign);
    }
    if let Some((e, p1)) = expr_at(s, p, assign) {
        let (op, p2) = operator_at(s, p1);
        if p < p2 <= s.len() {
            lemma_expr_progress(s, p2, assign);
        }
    }
}

/// Lemma: the models of expressions grow with the expressions.
pub proof fn lemma_exprs_model_push(v: Seq<(Expression, Operator)>, x: (Expression, Operator))
    ensures
        exprs_model(v.push(x)) == exprs_model(v).push((x.0@, x.1)),
{
    assert(exprs_model(v.push(x)) =~= exprs_model(v).push((x.0@, x.1)));
}

/// Law: a label names the last line that carries it, and no label names
/// a line that does not carry it.
pub proof fn law_label_names_last_line(lines: Seq<LineModel>, l: Seq<char>)
    requires
        lines.len() <= usize::MAX,
    ensures
        crate::process_chain::block::block::label_target(labels_of(lines), l) matches Some(i)
            ==> (i < lines.len() && lines[i as int].label == Some(l) && forall|j: int|
            i < j < lines.len() ==> lines[j].label != Some(l)),
        crate::process_chain::block::block::label_target(labels_of(lines), l) is None ==> forall|
            j: int,
        |
            0 <= j < lines.len() ==> lines[j].label != Some(l),
    decreases lines.len(),
{
    if lines.len() > 0 {
        let d = lines.drop_last();
        law_label_names_last_line(d, l);
        assert forall|j: int| 0 <= j < d.len() implies d[j] == lines[j] by {}
        let n = lines.len() - 1;
        let lt = crate::process_chain::block::block::label_target(labels_of(lines), l);
        let ld = crate::process_chain::block::block::label_target(labels_of(d), l);
        if lines.last().label == Some(l) {
            let t = labels_of(d).push((l, n as usize));
            assert(labels_of(lines) == t);
            assert(lt == Some(n as usize));
        } else {
            match lines.last().label {
                Some(m) => {
                    let t = labels_of(d).push((m, n as usize));
                    assert(labels_of(lines) == t);
                    assert(t.drop_last() =~= labels_of(d));
                    assert(lt == ld);
                },
                None => {
                    assert(labels_of(lines) == labels_of(d));
                },
            }
            if let Some(i) = lt {
                assert(lines[i as int] == d[i as int]);
                assert forall|j: int| i < j < lines.len() implies lines[j].label != Some(l) by {
                    if j < n {
                        assert(d[j] == lines[j]);
                    }
                }
            } else {
                assert forall|j: int| 0 <= j < lines.len() implies lines[j].label != Some(l) by {
                    if j < n {
                        assert(d[j] == lines[j]);
                    }
                }
            }
        }
    }
}

/// Parses blocks of one type.
pub struct BlockParser {
    block_type: BlockType,
}

impl BlockParser {
    pub fn new(block_type: BlockType) -> (r: Self)
        ensures
            r.block_type() == block_type,
    {
        Self { block_type }
    }

    /// The type of the blocks this parser makes.
    pub closed spec fn block_type(&self) -> BlockType {
        self.block_type
    }

    /// Parses a block. Every text parses: each non-empty piece between
    /// line breaks becomes a line, and each labelled line is recorded
    /// under its label.
    pub fn parse(&self, block: &str) -> (r: Result<Block, String>)
        ensures
            r is Ok,
            r matches Ok(b) ==> b.block_type == self.block_type() && lines_model(b.lines@)
                == block_lines(block@, true) && labels_model(b.label_map@) == labels_of(
                block_lines(block@, true),
            ),
    {
        let lines = Self::split_lines(block);
        let mut out = Block::new(self.block_type);
        let ghost all = block_lines(block@, true);
        let mut i: usize = 0;
        while i < lines.len()
            invariant
                i <= lines.len(),
                views(lines@) == split_nonempty(block@, Sep::LineBreak),
                all == block_lines(block@, true),
                all.len() == lines@.len(),
                out.block_type == self.block_type,
                lines_model(out.lines@) == all.take(i as int),
                labels_model(out.label_map@) == labels_of(all.take(i as int)),
            decreases lines.len() - i,
        {
            let parsed = Self::parse_line(&lines[i]);
            match parsed {
                Ok(line) => {
                    assert(views(lines@)[i as int] == lines@[i as int]@);
                    assert(line@ == all[i as int]);
                    let ghost t = all.take(i + 1);
                    assert(t.drop_last() =~= all.take(i as int));
                    let ghost lm_before = labels_model(out.label_map@);
                    match &line.label {
                        Some(label) => {
                            out.label_map.push((owned(label.as_str()), i));
                            assert(labels_model(out.label_map@) =~= lm_before.push((label@, i)));
                        },
                        None => {
                            assert(labels_model(out.label_map@) =~= lm_before);
                        },
                    }
                    let ghost ln_before = lines_model(out.lines@);
                    out.lines.push(line);
                    assert(lines_model(out.lines@) =~= ln_before.push(all[i as int]));
                    assert(lines_model(out.lines@) =~= t);
                },
                Err(_) => {},
            }
            i = i + 1;
        }
        assert(all.take(lines.len() as int) =~= all);
        Ok(out)
    }

    /// The non-empty pieces of a block between line breaks (`\n`, `\r`).
    fn split_lines(block: &str) -> (r: Vec<Vec<char>>)
        ensures
            views(r@) == split_nonempty(block@, Sep::LineBreak),
    {
        let v = chars_of(block);
        split_chars_nonempty(&v, Sep::LineBreak)
    }

    /// Parses one line; every line parses.
    fn parse_line(line: &Vec<char>) -> (r: Result<Line, String>)
        ensures
            r is Ok,
            r matches Ok(l) ==> l@ == line_at(line@, true),
    {
        let (lo, hi) = trim_bounds(line, 0, line.len());
        let t = Self::slice(line, lo, hi);
        assert(line@.subrange(0, line@.len() as int) =~= line@);
        if t.len() == 0 {
            let empty: Vec<(Expression, Operator)> = Vec::new();
            assert(exprs_model(empty@) =~= Seq::empty());
            return Ok(Line { label: None, expressions: empty });
        }
        proof {
            crate::text::lemma_find_pair_from(t@, ':', ' ', 0);
        }
        match find_pair(&t, ':', ' ', 0) {
            Some(i) => {
                let label = trimmed_string(&t, 0, i);
                let (a, b) = trim_bounds(&t, i + 2, t.len());
                let rest = Self::slice(&t, a, b);
                let (exprs, _) = Self::parse_expressions(&rest, 0, true);
                Ok(Line { label: Some(label), expressions: exprs })
            },
            None => {
                let (exprs, _) = Self::parse_expressions(&t, 0, true);
                Ok(Line { label: None, expressions: exprs })
            },
        }
    }

    /// `v[lo..hi]` as a new vector.
    fn slice(v: &Vec<char>, lo: usize, hi: usize) -> (r: Vec<char>)
        requires
            lo <= hi <= v.len(),
        ensures
            r@ == v@.subrange(lo as int, hi as int),
    {
        let mut r: Vec<char> = Vec::new();
        let mut i = lo;
        while i < hi
            invariant
                lo <= i <= hi <= v.len(),
                r@ == v@.subrange(lo as int, i as int),
            decreases hi - i,
        {
            r.push(v[i]);
            i = i + 1;
            assert(r@ =~= v@.subrange(lo as int, i as int));
        }
        r
    }

    /// The expressions from `pos` on, each with the operator after it,
    /// and the position where they stop.
    pub fn parse_expressions(input: &Vec<char>, pos: usize, assign: bool) -> (r: (
        Vec<(Expression, Operator)>,
        usize,
    ))
        requires
            pos <= input.len(),
        ensures
            exprs_model(r.0@) == exprs_at(input@, pos as int, assign).0,
            r.1 == exprs_at(input@, pos as int, assign).1,
        decreases input@.len() - pos, 2int,
    {
        let mut out: Vec<(Expression, Operator)> = Vec::new();
        let mut p = pos;
        proof {
            lemma_expr_progress(input@, pos as int, assign);
        }
        while p <= input.len()
            invariant
                pos <= p <= input.len(),
                exprs_at(input@, pos as int, assign) == (
                    exprs_model(out@) + exprs_at(input@, p as int, assign).0,
                    exprs_at(input@, p as int, assign).1,
                ),
            decreases input.len() - p,
        {
            proof {
                lemma_expr_progress(input@, p as int, assign);
            }
            match Self::parse_expression(input, p, assign) {
                None => {
                    assert(exprs_model(out@) + Seq::empty() =~= exprs_model(out@));
                    return (out, p);
                },
                Some((e, p1)) => {
                    let (op, p2) = Self::parse_operator(input, p1);
                    let ghost before = exprs_model(out@);
                    let ghost em = e@;
                    proof {
                        lemma_exprs_model_push(out@, (e, op));
                        lemma_expr_progress(input@, p2 as int, assign);
                    }
                    out.push((e, op));
                    assert(exprs_model(out@) == before.push((em, op)));
                    let ghost rest = exprs_at(input@, p2 as int, assign).0;
                    assert(before + (seq![(em, op)] + rest) =~= before.push((em, op)) + rest);
                    p = p2;
                },
            }
        }
        (out, p)
    }

    /// The operator directly at `pos` and the position after it.
    fn parse_operator(input: &Vec<char>, pos: usize) -> (r: (Operator, usize))
        requires
            pos <= input.len(),
        ensures
            (r.0, r.1 as int) == operator_at(input@, pos as int),
    {
        if pos < input.len() && pos + 1 < input.len() && input[pos] == '&' && input[pos + 1] == '&' {
            (Operator::And, pos + 2)
        } else if pos < input.len() && pos + 1 < input.len() && input[pos] == '|' && input[pos + 1] == '|' {
            (Operator::Or, pos + 2)
        } else {
            (Operator::Neither, pos)
        }
    }

    /// The expression starting at `pos`: an assignment (when enabled), a
    /// group, or a command, tried in that order.
    pub fn parse_expression(input: &Vec<char>, pos: usize, assign: bool) -> (r: Option<
        (Expression, usize),
    >)
        requires
            pos <= input.len(),
        ensures
            r matches Some((e, p)) ==> expr_at(input@, pos as int, assign) == Some((e@, p as int)),
            r is None ==> expr_at(input@, pos as int, assign) is None,
        decreases input@.len() - pos, 1int,
    {
        if assign {
            match Self::parse_assign(input, pos) {
                Some(x) => {
                    return Some(x);
                },
                None => {},
            }
        }
        match Self::parse_group(input, pos, assign) {
            Some(x) => Some(x),
            None => Self::parse_command(input, pos),
        }
    }

    /// The group `( expressions )` starting at `pos`.
    pub fn parse_group(input: &Vec<char>, pos: usize, assign: bool) -> (r: Option<
        (Expression, usize),
    >)
        requires
            pos <= input.len(),
        ensures
            r matches Some((e, p)) ==> group_at(input@, pos as int, assign) == Some(
                (e@, p as int),
            ),
            r is None ==> group_at(input@, pos as int, assign) is None,
        decreases input@.len() - pos, 0int,
    {
        if pos < input.len() && input[pos] == '(' {
            proof {
                lemma_expr_progress(input@, pos + 1, assign);
            }
            let (items, e) = Self::parse_expressions(input, pos + 1, assign);
            if e < input.len() && input[e] == ')' {
                let g = Expression::Group(items);
                assert(g@ == ExprModel::Group(exprs_model(items@)));
                Some((g, e + 1))
            } else {
                None
            }
        } else {
            None
        }
    }

    /// The assignment `key=value` or `key:=value` starting at `pos`, as
    /// the command `assign` with the trimmed key, the operator and the
    /// value.
    pub fn parse_assign(input: &Vec<char>, pos: usize) -> (r: Option<(Expression, usize)>)
        requires
            pos <= input.len(),
        ensures
            r matches Some((e, p)) ==> assign_at(input@, pos as int) == Some((e@, p as int)),
            r is None ==> assign_at(input@, pos as int) is None,
    {
        let mut q = pos;
        while q < input.len() && input[q] != '=' && input[q] != ':'
            invariant
                pos <= q <= input.len(),
                till_assign_op(input@, pos as int) == till_assign_op(input@, q as int),
            decreases input.len() - q,
        {
            q = q + 1;
        }
        let (op, r) = if q < input.len() && q + 1 < input.len() && input[q] == ':' && input[q + 1] == '=' {
            proof {
                reveal_strlit(":=");
            }
            (owned(":="), q + 2)
        } else if q < input.len() && input[q] == '=' {
            proof {
                reveal_strlit("=");
            }
            (owned("="), q + 1)
        } else {
            return None;
        };
        assert(assign_op_at(input@, q as int) == Some((op@, r as int)));
        let mut e = r;
        while e < input.len() && !is_whitespace(input[e]) && input[e] != '&' && input[e] != '|'
            invariant
                r <= e <= input.len(),
                till_value_end(input@, r as int) == till_value_end(input@, e as int),
            decreases input.len() - e,
        {
            e = e + 1;
        }
        let key = trimmed_string(input, pos, q);
        let value = string_of(input, r, e);
        let mut args: Vec<String> = Vec::new();
        args.push(key);
        args.push(op);
        args.push(value);
        let ghost a = string_views(args@);
        assert(a =~= seq![trim(input@.subrange(pos as int, q as int)), op@, input@.subrange(
            r as int,
            e as int,
        )]);
        let item = CommandItem::new(owned("assign"), args);
        Some((Expression::Command(item), e))
    }

    /// A bare command. The token rule skips leading spaces and consumes
    /// nothing more, so its second round makes no progress, and a
    /// repetition without progress fails: no command is ever formed.
    pub fn parse_command(input: &Vec<char>, pos: usize) -> (r: Option<(Expression, usize)>)
        ensures
            r is None,
    {
        None
    }
}

/// The text `{:?}` writes for a command: its name and arguments.
pub open spec fn command_debug_text(name: Seq<char>, args: Seq<Seq<char>>) -> Seq<char> {
    "Command { name: "@ + debug_string_text(name) + ", args: "@ + debug_strings_text(args)
        + " }"@
}

/// The text `{:?}` writes for a block type: the variant's name.
pub open spec fn block_type_text(t: BlockType) -> Seq<char> {
    match t {
        BlockType::Probe => "Probe"@,
        BlockType::Process => "Process"@,
        BlockType::Rewrite => "Rewrite"@,
    }
}

/// The name of a block type as `{:?}` writes it.
pub fn block_type_name(t: BlockType) -> (r: String)
    ensures
        r@ == block_type_text(t),
{
    match t {
        BlockType::Probe => owned("Probe"),
        BlockType::Process => owned("Process"),
        BlockType::Rewrite => owned("Rewrite"),
    }
}

/// `{:?}` of a command.
fn command_debug(c: &Command) -> (r: String)
    ensures
        r@ == command_debug_text(c.name@, string_views(c.args@)),
{
    let mut r = owned("Command { name: ");
    let n = debug_string(c.name.as_str());
    r.append(n.as_str());
    r.append(", args: ");
    let a = debug_strings(&c.args);
    r.append(a.as_str());
    r.append(" }");
    r
}

/// The parsers by name that a translator uses.
pub type ParserMap = Map<Seq<char>, crate::process_chain::block::cmd::cmd::CommandParserRef>;

/// A command translates when a parser is registered under its name, allows
/// the block's type and accepts its arguments; any other expression
/// passes.
pub open spec fn expr_translates(e: ExprModel, parsers: ParserMap, block_type: BlockType) -> bool {
    match e {
        ExprModel::Command(name, args) => parsers.contains_key(name) && parsers[name].allows(
            block_type,
        ) && parsers[name].accepts(args),
        _ => true,
    }
}

/// The message translating a command gives when it does not translate:
/// no parser for its name; else a parser that refuses the block's type;
/// else a parser that refuses the arguments with some message.
pub open spec fn translate_error(
    m: Seq<char>,
    parsers: ParserMap,
    block_type: BlockType,
    name: Seq<char>,
    args: Seq<Seq<char>>,
) -> bool {
    if !parsers.contains_key(name) {
        m == "No parser for command: "@ + name
    } else if !parsers[name].allows(block_type) {
        m == "Invalid command for block type: "@ + command_debug_text(name, args) + ", block="@
            + block_type_text(block_type)
    } else {
        exists|e: Seq<char>|
            m == "Parse command error: "@ + command_debug_text(name, args) + ", "@
                + debug_string_text(e)
    }
}

/// `e` is a command that does not translate, with message `m`.
pub open spec fn fails_with(e: ExprModel, m: Seq<char>, parsers: ParserMap, block_type: BlockType) -> bool {
    match e {
        ExprModel::Command(name, args) => !expr_translates(e, parsers, block_type)
            && translate_error(m, parsers, block_type, name, args),
        _ => false,
    }
}

/// A command carries the executor the parser registered under its name
/// builds from its arguments; any other expression passes.
pub open spec fn expr_bound(e: Expression, parsers: ParserMap) -> bool {
    match e {
        Expression::Command(item) => match item.executor {
            Some(x) => x.model() == parsers[item.command.name@].builds(
                string_views(item.command.args@),
            ),
            None => false,
        },
        _ => true,
    }
}

/// Position `(i, j)` comes before position `(a, b)`, line by line and
/// then expression by expression.
pub open spec fn before(i: int, j: int, a: int, b: int) -> bool {
    i < a || (i == a && j < b)
}

/// Gives each command of a block its executor, from a registry of
/// command parsers.
pub struct BlockCommandTranslator {
    parser: CommandParserFactory,
}

impl BlockCommandTranslator {
    pub fn new(parser: CommandParserFactory) -> (r: Self)
        ensures
            r.parsers() == parser.parsers(),
    {
        Self { parser }
    }

    /// The command parsers by name.
    pub closed spec fn parsers(&self) -> ParserMap {
        self.parser.parsers()
    }

    /// Gives each command standing directly in a line (not in a group) its
    /// executor, line by line and left to right: the parser registered
    /// under its name is asked whether it allows the block's type, then
    /// parses the command's arguments, and the command gets what it
    /// builds. The first command that does not translate stops the work
    /// with its error; the commands before it have their executors, and
    /// it and the ones after it are left as they were. Nothing else in
    /// the block changes.
    #[verifier::spinoff_prover]
    pub fn translate(&self, block: &mut Block) -> (r: Result<(), String>)
        ensures
            final(block).block_type == old(block).block_type,
            lines_model(final(block).lines@) == lines_model(old(block).lines@),
            labels_model(final(block).label_map@) == labels_model(old(block).label_map@),
            final(block).lines@.len() == old(block).lines@.len(),
            r is Ok <==> forall|i: int, j: int|
                0 <= i < old(block).lines@.len() && 0 <= j < old(block).lines@[i]@.expressions.len()
                    ==> expr_translates(
                    (#[trigger] old(block).lines@[i]@.expressions[j]).0,
                    self.parsers(),
                    old(block).block_type,
                ),
            r is Ok ==> forall|i: int, j: int|
                0 <= i < final(block).lines@.len() && 0 <= j
                    < final(block).lines@[i].expressions@.len() ==> expr_bound(
                    (#[trigger] final(block).lines@[i].expressions@[j]).0,
                    self.parsers(),
                ),
            r matches Err(m) ==> exists|a: int, b: int|
                0 <= a < old(block).lines@.len() && 0 <= b < old(block).lines@[a]@.expressions.len()
                    && fails_with(
                    (#[trigger] old(block).lines@[a]@.expressions[b]).0,
                    m@,
                    self.parsers(),
                    old(block).block_type,
                ) && (forall|i: int, j: int|
                    0 <= i < old(block).lines@.len() && 0 <= j
                        < old(block).lines@[i]@.expressions.len() && before(i, j, a, b) ==> (
                    expr_translates(
                        (#[trigger] old(block).lines@[i]@.expressions[j]).0,
                        self.parsers(),
                        old(block).block_type,
                    ) && expr_bound(final(block).lines@[i].expressions@[j].0, self.parsers())))
                    && (forall|i: int, j: int|
                    0 <= i < old(block).lines@.len() && 0 <= j
                        < old(block).lines@[i].expressions@.len() && !before(i, j, a, b) ==> (
                    #[trigger] final(block).lines@[i].expressions@[j]) == old(
                        block,
                    ).lines@[i].expressions@[j]),
    {
        let ghost lm = lines_model(block.lines@);
        let ghost ol = block.lines@;
        let ghost ps = self.parsers();
        let ghost bt = block.block_type;
        let n = block.lines.len();
        let mut i: usize = 0;
        while i < n
            invariant
                i <= n,
                n == block.lines@.len(),
                n == ol.len(),
                block.block_type == bt,
                bt == old(block).block_type,
                ol == old(block).lines@,
                ps == self.parsers(),
                lm == lines_model(ol),
                lines_model(block.lines@) == lm,
                labels_model(block.label_map@) == labels_model(old(block).label_map@),
                forall|k: int, j: int|
                    0 <= k < i && 0 <= j < ol[k]@.expressions.len() ==> expr_translates(
                        (#[trigger] ol[k]@.expressions[j]).0,
                        ps,
                        bt,
                    ) && expr_bound(block.lines@[k].expressions@[j].0, ps),
                forall|k: int| i <= k < n ==> #[trigger] block.lines@[k] == ol[k],
            decreases n - i,
        {
            let ghost pre = block.lines@;
            assert forall|k: int, j: int|
                0 <= k < i && 0 <= j < ol[k]@.expressions.len() implies expr_bound(
                (#[trigger] pre[k].expressions@[j]).0,
                ps,
            ) by {
                assert(expr_translates(ol[k]@.expressions[j].0, ps, bt));
            }
            let mut line = block.lines.remove(i);
            let ghost rest = block.lines@;
            assert(rest == pre.remove(i as int));
            assert(line == ol[i as int]);
            let res = self.translate_line(&mut line, block.block_type);
            let ghost nl = line;
            block.lines.insert(i, line);
            proof {
                assert(block.lines@ == rest.insert(i as int, nl));
                assert forall|k: int| 0 <= k < n && k != i implies #[trigger] block.lines@[k]
                    == old(block).lines@[k] || k < i by {}
                assert(lines_model(block.lines@) =~= lm) by {
                    assert forall|k: int| 0 <= k < n implies lines_model(block.lines@)[k] == lm[k] by {
                        if k < i {
                            assert(block.lines@[k] == rest[k]);
                        } else if k > i {
                            assert(block.lines@[k] == rest[k - 1]);
                        }
                    }
                }
                assert forall|k: int, j: int|
                    0 <= k < i && 0 <= j < ol[k]@.expressions.len() implies expr_translates(
                    (#[trigger] ol[k]@.expressions[j]).0,
                    ps,
                    bt,
                ) && expr_bound(block.lines@[k].expressions@[j].0, ps) by {
                    assert(expr_bound(pre[k].expressions@[j].0, ps));
                    assert(block.lines@[k] == rest[k]);
                    assert(rest[k] == pre[k]);
                }
                assert forall|k: int| i < k < n implies #[trigger] block.lines@[k] == ol[k] by {
                    assert(block.lines@[k] == rest[k - 1]);
                    assert(rest[k - 1] == pre[k]);
                }
            }
            match res {
                Err(e) => {
                    proof {
                        let b = choose|b: int|
                            0 <= b < ol[i as int]@.expressions.len() && fails_with(
                                (#[trigger] ol[i as int]@.expressions[b]).0,
                                e@,
                                ps,
                                bt,
                            ) && (forall|j: int|
                                0 <= j < b ==> expr_translates(
                                    (#[trigger] ol[i as int]@.expressions[j]).0,
                                    ps,
                                    bt,
                                ) && expr_bound(nl.expressions@[j].0, ps)) && (forall|j: int|
                                b <= j < ol[i as int].expressions@.len() ==> (
                                #[trigger] nl.expressions@[j]) == ol[i as int].expressions@[j]);
                        assert(fails_with(ol[i as int]@.expressions[b].0, e@, ps, bt));
                        assert forall|k: int, j: int|
                            0 <= k < ol.len() && 0 <= j < ol[k]@.expressions.len() && before(
                                k,
                                j,
                                i as int,
                                b,
                            ) implies (expr_translates(
                            (#[trigger] ol[k]@.expressions[j]).0,
                            ps,
                            bt,
                        ) && expr_bound(block.lines@[k].expressions@[j].0, ps)) by {
                            if k == i {
                                assert(block.lines@[k] == nl);
                                assert(j < b);
                                assert(expr_translates(ol[i as int]@.expressions[j].0, ps, bt));
                                assert(expr_bound(nl.expressions@[j].0, ps));
                            } else {
                                assert(expr_translates(ol[k]@.expressions[j].0, ps, bt));
                            }
                        }
                        assert forall|k: int, j: int|
                            0 <= k < ol.len() && 0 <= j < ol[k].expressions@.len() && !before(
                                k,
                                j,
                                i as int,
                                b,
                            ) implies (#[trigger] block.lines@[k].expressions@[j])
                            == ol[k].expressions@[j] by {
                            if k == i {
                                assert(block.lines@[k] == nl);
                            }
                        }
                    }
                    return Err(e);
                },
                Ok(()) => {
                    assert(block.lines@[i as int] == nl);
                    assert forall|j: int| 0 <= j < ol[i as int]@.expressions.len() implies expr_translates(
                        (#[trigger] ol[i as int]@.expressions[j]).0,
                        ps,
                        bt,
                    ) && expr_bound(block.lines@[i as int].expressions@[j].0, ps) by {
                        assert(nl@ == ol[i as int]@);
                        assert(nl.expressions@.len() == ol[i as int]@.expressions.len());
                    }
                    assert forall|k: int, j: int|
                        0 <= k < i + 1 && 0 <= j < ol[k]@.expressions.len() implies expr_translates(
                        (#[trigger] ol[k]@.expressions[j]).0,
                        ps,
                        bt,
                    ) && expr_bound(block.lines@[k].expressions@[j].0, ps) by {
                        if k < i {
                            assert(expr_translates(ol[k]@.expressions[j].0, ps, bt));
                        }
                    }
                },
            }
            i = i + 1;
        }
        assert forall|k: int, j: int|
            0 <= k < block.lines@.len() && 0 <= j < block.lines@[k].expressions@.len() implies expr_bound(
            (#[trigger] block.lines@[k].expressions@[j]).0,
            ps,
        ) by {
            assert(lines_model(block.lines@)[k] == lm[k]);
            assert(block.lines@[k]@.expressions.len() == block.lines@[k].expressions@.len());
            assert(expr_translates(ol[k]@.expressions[j].0, ps, bt));
        }
        Ok(())
    }

    /// Gives each command of one line its executor, left to right,
    /// stopping at the first that does not translate.
    fn translate_line(&self, line: &mut Line, block_type: BlockType) -> (r: Result<(), String>)
        ensures
            final(line)@ == old(line)@,
            final(line).expressions@.len() == old(line).expressions@.len(),
            r is Ok <==> forall|j: int|
                0 <= j < old(line)@.expressions.len() ==> expr_translates(
                    (#[trigger] old(line)@.expressions[j]).0,
                    self.parsers(),
                    block_type,
                ),
            r is Ok ==> forall|j: int|
                0 <= j < final(line).expressions@.len() ==> expr_bound(
                    (#[trigger] final(line).expressions@[j]).0,
                    self.parsers(),
                ),
            r matches Err(m) ==> exists|b: int|
                0 <= b < old(line)@.expressions.len() && fails_with(
                    (#[trigger] old(line)@.expressions[b]).0,
                    m@,
                    self.parsers(),
                    block_type,
                ) && (forall|j: int|
                    0 <= j < b ==> expr_translates(
                        (#[trigger] old(line)@.expressions[j]).0,
                        self.parsers(),
                        block_type,
                    ) && expr_bound(final(line).expressions@[j].0, self.parsers())) && (forall|
                    j: int,
                |
                    b <= j < old(line).expressions@.len() ==> (
                    #[trigger] final(line).expressions@[j]) == old(line).expressions@[j]),
    {
        let ghost em = old(line)@.expressions;
        let ghost ov = old(line).expressions@;
        let ghost ps = self.parsers();
        let n = line.expressions.len();
        let mut j: usize = 0;
        while j < n
            invariant
                j <= n,
                n == line.expressions@.len(),
                n == ov.len(),
                n == em.len(),
                em == old(line)@.expressions,
                ov == old(line).expressions@,
                ps == self.parsers(),
                line@ == old(line)@,
                forall|k: int|
                    0 <= k < j ==> expr_translates((#[trigger] em[k]).0, ps, block_type)
                        && expr_bound(line.expressions@[k].0, ps),
                forall|k: int| j <= k < n ==> #[trigger] line.expressions@[k] == ov[k],
            decreases n - j,
        {
            let ghost pre = line.expressions@;
            assert forall|k: int| 0 <= k < j implies expr_bound(#[trigger] pre[k].0, ps) by {
                assert(expr_translates(em[k].0, ps, block_type));
                assert(expr_bound(line.expressions@[k].0, ps));
            }
            let (expr, op) = line.expressions.remove(j);
            let ghost before_v = line.expressions@;
            assert(before_v == pre.remove(j as int));
            assert(exprs_model(line.expressions@.insert(j as int, (expr, op))) == em);
            assert(em[j as int] == (expr@, op)) by {
                assert(line.expressions@.insert(j as int, (expr, op))[j as int] == (expr, op));
            }
            assert((expr, op) == ov[j as int]);
            let (new_expr, res) = match expr {
                Expression::Command(item) => {
                    let ghost name = item.command.name@;
                    let ghost args = string_views(item.command.args@);
                    let ghost old_item = item;
                    let (item2, res) = self.translate_command(item, block_type);
                    proof {
                        assert(em[j as int].0 == ExprModel::Command(name, args));
                        if res is Err {
                            assert(fails_with(em[j as int].0, res->Err_0@, ps, block_type));
                            assert(item2 == old_item);
                        } else {
                            assert(expr_bound(Expression::Command(item2), ps));
                        }
                    }
                    (Expression::Command(item2), res)
                },
                other => (other, Ok(())),
            };
            let ghost ne = new_expr;
            line.expressions.insert(j, (new_expr, op));
            proof {
                assert(line.expressions@ == before_v.insert(j as int, (ne, op)));
                assert(exprs_model(line.expressions@) =~= em) by {
                    assert forall|k: int| 0 <= k < em.len() implies exprs_model(line.expressions@)[k]
                        == em[k] by {
                        if k != j {
                            assert(line.expressions@[k] == before_v.insert(j as int, (expr, op))[k]);
                        }
                    }
                }
                assert forall|k: int| 0 <= k < j implies expr_translates(
                    (#[trigger] em[k]).0,
                    ps,
                    block_type,
                ) && expr_bound(line.expressions@[k].0, ps) by {
                    assert(expr_translates(em[k].0, ps, block_type) && expr_bound(pre[k].0, ps));
                    assert(line.expressions@[k] == before_v[k]);
                    assert(before_v[k] == pre[k]);
                }
                assert forall|k: int| j < k < n implies #[trigger] line.expressions@[k] == ov[k] by {
                    assert(line.expressions@[k] == before_v[k - 1]);
                    assert(before_v[k - 1] == pre[k]);
                }
            }
            match res {
                Err(e) => {
                    proof {
                        assert(line.expressions@[j as int] == ov[j as int]);
                        assert(fails_with(em[j as int].0, e@, ps, block_type));
                    }
                    return Err(e);
                },
                Ok(()) => {
                    assert(line.expressions@[j as int] == (ne, op));
                    assert(expr_translates(em[j as int].0, ps, block_type));
                    assert(expr_bound(line.expressions@[j as int].0, ps));
                },
            }
            j = j + 1;
        }
        assert forall|k: int| 0 <= k < line.expressions@.len() implies expr_bound(
            (#[trigger] line.expressions@[k]).0,
            ps,
        ) by {
            assert(expr_translates(em[k].0, ps, block_type));
        }
        Ok(())
    }

    /// Gives a command the executor its parser builds.
    fn translate_command(&self, item: CommandItem, block_type: BlockType) -> (r: (
        CommandItem,
        Result<(), String>,
    ))
        ensures
            r.0.command.name@ == item.command.name@,
            string_views(r.0.command.args@) == string_views(item.command.args@),
            r.1 is Ok <==> expr_translates(
                ExprModel::Command(item.command.name@, string_views(item.command.args@)),
                self.parsers(),
                block_type,
            ),
            r.1 is Ok ==> expr_bound(Expression::Command(r.0), self.parsers()),
            r.1 is Err ==> r.0 == item,
            r.1 matches Err(m) ==> translate_error(
                m@,
                self.parsers(),
                block_type,
                item.command.name@,
                string_views(item.command.args@),
            ),
    {
        let mut item = item;
        match self.parser.get_parser(item.command.name.as_str()) {
            None => {
                let mut msg = owned("No parser for command: ");
                msg.append(item.command.name.as_str());
                (item, Err(msg))
            },
            Some(parser) => {
                if !parser.check(block_type) {
                    let mut msg = owned("Invalid command for block type: ");
                    let c = command_debug(&item.command);
                    msg.append(c.as_str());
                    msg.append(", block=");
                    let t = block_type_name(block_type);
                    msg.append(t.as_str());
                    return (item, Err(msg));
                }
                match parser.parse(&item.command.args) {
                    Err(e) => {
                        let mut msg = owned("Parse command error: ");
                        let c = command_debug(&item.command);
                        msg.append(c.as_str());
                        msg.append(", ");
                        let d = debug_string(e.as_str());
                        msg.append(d.as_str());
                        (item, Err(msg))
                    },
                    Ok(executor) => {
                        item.executor = Some(executor);
                        (item, Ok(()))
                    },
                }
            },
        }
    }
}

} // verus!
