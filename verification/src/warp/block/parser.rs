//! The gateway block parser: the line language of process chains
//! without assignments, so an expression is a group `( ... )` alone.
use vstd::prelude::*;
use crate::process_chain::block::block as chain_block;
use crate::process_chain::block::parser::{BlockParser, block_lines, labels_of, line_at};
use crate::warp::block::block::{Block, Command, Expression, Line, Operator, exprs_model, labels_model, lines_model};
use crate::text::{
    Sep, chars_of, find_pair, owned, split_chars_nonempty, split_nonempty, string_views,
    trim_bounds, trimmed_string, views,
};

verus! {

broadcast use vstd::std_specs::vec::group_vec_axioms;

/// Parses gateway blocks.
pub struct CommandParser {
    name: String,
    args: Vec<String>,
}

/// The gateway form of a parsed expression.
fn convert_expr(e: &chain_block::Expression) -> (r: Expression)
    ensures
        r@ == e@,
    decreases e,
{
    match e {
        chain_block::Expression::Command(item) => {
            let mut args: Vec<String> = Vec::new();
            let mut i: usize = 0;
            while i < item.command.args.len()
                invariant
                    i <= item.command.args.len(),
                    string_views(args@) == string_views(item.command.args@).take(i as int),
                decreases item.command.args.len() - i,
            {
                let s = owned(item.command.args[i].as_str());
                assert(s@ == string_views(item.command.args@)[i as int]);
                let ghost before = string_views(args@);
                args.push(s);
                assert(string_views(args@) =~= before.push(s@));
                i = i + 1;
                assert(string_views(args@) =~= string_views(item.command.args@).take(i as int));
            }
            assert(string_views(item.command.args@).take(item.command.args@.len() as int)
                =~= string_views(item.command.args@));
            Expression::Command(Command { name: owned(item.command.name.as_str()), args })
        },
        chain_block::Expression::Goto(t) => Expression::Goto(owned(t.as_str())),
        chain_block::Expression::Group(items) => {
            let mut out: Vec<(Expression, Operator)> = Vec::new();
            let mut i: usize = 0;
            while i < items.len()
                invariant
                    *e == chain_block::Expression::Group(*items),
                    i <= items.len(),
                    out.len() == i,
                    forall|j: int|
                        0 <= j < i ==> #[trigger] out@[j].0@ == items@[j].0@ && out@[j].1
                            == items@[j].1,
                decreases items.len() - i,
            {
                proof {
                    let ghost x = items@[i as int];
                    assert(decreases_to!(*e => e->Group_0));
                    assert(decreases_to!(*items => items@));
                    assert(decreases_to!(items@ => x));
                    assert(decreases_to!(x => x.0));
                }
                let c = convert_expr(&items[i].0);
                out.push((c, items[i].1));
                i = i + 1;
            }
            assert forall|j: int| 0 <= j < out@.len() implies exprs_model(out@)[j]
                == chain_block::exprs_model(items@)[j] by {
                assert(out@[j].0@ == items@[j].0@);
            }
            assert(exprs_model(out@) =~= chain_block::exprs_model(items@));
            Expression::Group(out)
        },
    }
}

/// The gateway form of a list of parsed expressions.
fn convert_exprs(v: &Vec<(chain_block::Expression, Operator)>) -> (r: Vec<(Expression, Operator)>)
    ensures
        exprs_model(r@) == chain_block::exprs_model(v@),
{
    let mut out: Vec<(Expression, Operator)> = Vec::new();
    let mut i: usize = 0;
    while i < v.len()
        invariant
            i <= v.len(),
            out.len() == i,
            forall|j: int| 0 <= j < i ==> #[trigger] out@[j].0@ == v@[j].0@ && out@[j].1 == v@[j].1,
        decreases v.len() - i,
    {
        let c = convert_expr(&v[i].0);
        out.push((c, v[i].1));
        i = i + 1;
    }
    assert forall|j: int| 0 <= j < out@.len() implies exprs_model(out@)[j]
        == chain_block::exprs_model(v@)[j] by {
        assert(out@[j].0@ == v@[j].0@);
    }
    assert(exprs_model(out@) =~= chain_block::exprs_model(v@));
    out
}

impl CommandParser {
    /// Parses a block. Every text parses: each non-empty piece between
    /// line breaks becomes a line, and each labelled line is recorded
    /// under its label.
    pub fn parse(block: &str) -> (r: Result<Block, String>)
        ensures
            r is Ok,
            r matches Ok(b) ==> lines_model(b.lines@) == block_lines(block@, false) && labels_model(
                b.label_map@,
            ) == labels_of(block_lines(block@, false)),
    {
        let lines = Self::split_lines(block);
        let mut out = Block::new();
        let ghost all = block_lines(block@, false);
        let mut i: usize = 0;
        while i < lines.len()
            invariant
                i <= lines.len(),
                views(lines@) == split_nonempty(block@, Sep::LineBreak),
                all == block_lines(block@, false),
                all.len() == lines@.len(),
                lines_model(out.lines@) == all.take(i as int),
                labels_model(out.label_map@) == labels_of(all.take(i as int)),
            decreases lines.len() - i,
        {
            let parsed = Self::parse_line(&lines[i]);
            match parsed {
                Ok(line) => {
                    assert(views(lines@)[i as int] == lines@[i as int]@);
                    assert(line@ == all[i as int]);
                    let ghost t = all.take(i + 1);
                    assert(t.drop_last() =~= all.take(i as int));
                    let ghost lm_before = labels_model(out.label_map@);
                    match &line.label {
                        Some(label) => {
                            out.label_map.push((owned(label.as_str()), i));
                            assert(labels_model(out.label_map@) =~= lm_before.push((label@, i)));
                        },
                        None => {
                            assert(labels_model(out.label_map@) =~= lm_before);
                        },
                    }
                    let ghost ln_before = lines_model(out.lines@);
                    out.lines.push(line);
                    assert(lines_model(out.lines@) =~= ln_before.push(all[i as int]));
                    assert(lines_model(out.lines@) =~= t);
                },
                Err(_) => {},
            }
            i = i + 1;
        }
        assert(all.take(lines.len() as int) =~= all);
        Ok(out)
    }

    /// The non-empty pieces of a block between line breaks (`\n`, `\r`).
    fn split_lines(block: &str) -> (r: Vec<Vec<char>>)
        ensures
            views(r@) == split_nonempty(block@, Sep::LineBreak),
    {
        let v = chars_of(block);
        split_chars_nonempty(&v, Sep::LineBreak)
    }

    /// Parses one line; every line parses.
    fn parse_line(line: &Vec<char>) -> (r: Result<Line, String>)
        ensures
            r is Ok,
            r matches Ok(l) ==> l@ == line_at(line@, false),
    {
        let (lo, hi) = trim_bounds(line, 0, line.len());
        let t = Self::slice(line, lo, hi);
        assert(line@.subrange(0, line@.len() as int) =~= line@);
        if t.len() == 0 {
            let empty: Vec<(Expression, Operator)> = Vec::new();
            assert(exprs_model(empty@) =~= Seq::empty());
            return Ok(Line { label: None, expressions: empty });
        }
        proof {
            crate::text::lemma_find_pair_from(t@, ':', ' ', 0);
        }
        match find_pair(&t, ':', ' ', 0) {
            Some(i) => {
                let label = trimmed_string(&t, 0, i);
                let (a, b) = trim_bounds(&t, i + 2, t.len());
                let rest = Self::slice(&t, a, b);
                let exprs = Self::parse_expressions(&rest);
                Ok(Line { label: Some(label), expressions: exprs })
            },
            None => {
                let exprs = Self::parse_expressions(&t);
                Ok(Line { label: None, expressions: exprs })
            },
        }
    }

    /// `v[lo..hi]` as a new vector.
    fn slice(v: &Vec<char>, lo: usize, hi: usize) -> (r: Vec<char>)
        requires
            lo <= hi <= v.len(),
        ensures
            r@ == v@.subrange(lo as int, hi as int),
    {
        let mut r: Vec<char> = Vec::new();
        let mut i = lo;
        while i < hi
            invariant
                lo <= i <= hi <= v.len(),
                r@ == v@.subrange(lo as int, i as int),
            decreases hi - i,
        {
            r.push(v[i]);
            i = i + 1;
            assert(r@ =~= v@.subrange(lo as int, i as int));
        }
        r
    }

    /// The expressions at the start of `input`, each with the operator
    /// after it: groups, since commands never form.
    fn parse_expressions(input: &Vec<char>) -> (r: Vec<(Expression, Operator)>)
        ensures
            exprs_model(r@) == crate::process_chain::block::parser::exprs_at(input@, 0, false).0,
    {
        let (items, _) = BlockParser::parse_expressions(input, 0, false);
        convert_exprs(&items)
    }
}

} // verus!
