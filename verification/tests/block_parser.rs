use cyfs_gateway::process_chain::block::block::{BlockType, Expression, Operator};
use cyfs_gateway::process_chain::block::parser::BlockParser;
use cyfs_gateway::warp::block::block::Expression as WarpExpression;
use cyfs_gateway::warp::block::parser::CommandParser as WarpBlockParser;

fn assign_args(e: &Expression) -> Vec<String> {
    match e {
        Expression::Command(item) => {
            assert_eq!(item.command.name, "assign");
            assert!(item.executor.is_none());
            item.command.args.clone()
        }
        _ => panic!("expected an assignment"),
    }
}

#[test]
fn empty_block_parses_to_no_lines() {
    let parser = BlockParser::new(BlockType::Process);
    let block = parser.parse("").unwrap();
    assert_eq!(block.lines.len(), 0);
    assert_eq!(block.label_map.len(), 0);
    assert_eq!(block.block_type, BlockType::Process);
    let block = parser.parse("\n\r\n\r").unwrap();
    assert_eq!(block.lines.len(), 0);
}

#[test]
fn assignments_and_operators() {
    let parser = BlockParser::new(BlockType::Probe);
    let block = parser.parse("a=b&&c:=d||e = f").unwrap();
    assert_eq!(block.lines.len(), 1);
    let exprs = &block.lines[0].expressions;
    assert_eq!(exprs.len(), 3);
    assert_eq!(assign_args(&exprs[0].0), vec!["a", "=", "b"]);
    assert_eq!(exprs[0].1, Operator::And);
    assert_eq!(assign_args(&exprs[1].0), vec!["c", ":=", "d"]);
    assert_eq!(exprs[1].1, Operator::Or);
    // The value stops at white space, so `e ` is the key and the value is empty.
    assert_eq!(assign_args(&exprs[2].0), vec!["e", "=", ""]);
    assert_eq!(exprs[2].1, Operator::Neither);
}

#[test]
fn operators_must_follow_directly() {
    let parser = BlockParser::new(BlockType::Probe);
    let block = parser.parse("a=b && c:=d").unwrap();
    let exprs = &block.lines[0].expressions;
    assert_eq!(exprs.len(), 2);
    assert_eq!(assign_args(&exprs[0].0), vec!["a", "=", "b"]);
    assert_eq!(exprs[0].1, Operator::Neither);
    // The key runs from after `b` to the `:`, trimmed.
    assert_eq!(assign_args(&exprs[1].0), vec!["&& c", ":=", "d"]);
}

#[test]
fn bare_commands_form_no_expression() {
    let parser = BlockParser::new(BlockType::Process);
    let block = parser.parse("DROP\ngoto end").unwrap();
    assert_eq!(block.lines.len(), 2);
    assert_eq!(block.lines[0].expressions.len(), 0);
    assert_eq!(block.lines[1].expressions.len(), 0);
    assert!(BlockParser::parse_command(&vec!['D', 'R', 'O', 'P'], 0).is_none());
}

#[test]
fn labels_name_their_lines() {
    let parser = BlockParser::new(BlockType::Process);
    let block = parser.parse("start: x=1\n  \ny=2\nstart: z=3\nend : w=4").unwrap();
    assert_eq!(block.lines.len(), 5);
    assert_eq!(block.lines[0].label.as_deref(), Some("start"));
    assert_eq!(block.lines[1].label, None);
    assert_eq!(block.lines[1].expressions.len(), 0);
    assert_eq!(block.lines[3].label.as_deref(), Some("start"));
    assert_eq!(block.lines[4].label.as_deref(), Some("end"));
    assert_eq!(block.find_label("start"), Some(3));
    assert_eq!(block.find_label("end"), Some(4));
    assert_eq!(block.find_label("missing"), None);
    assert_eq!(assign_args(&block.lines[4].expressions[0].0), vec!["w", "=", "4"]);
}

#[test]
fn groups_parse_when_no_assignment_starts() {
    let parser = BlockParser::new(BlockType::Process);
    let block = parser.parse("(())&&()").unwrap();
    let exprs = &block.lines[0].expressions;
    assert_eq!(exprs.len(), 2);
    match &exprs[0].0 {
        Expression::Group(inner) => {
            assert_eq!(inner.len(), 1);
            match &inner[0].0 {
                Expression::Group(g) => assert_eq!(g.len(), 0),
                _ => panic!("expected a group"),
            }
        }
        _ => panic!("expected a group"),
    }
    assert_eq!(exprs[0].1, Operator::And);
    // An unclosed group ends the line's expressions.
    let block = parser.parse("(").unwrap();
    assert_eq!(block.lines[0].expressions.len(), 0);
}

#[test]
fn assignment_swallows_closing_bracket() {
    let parser = BlockParser::new(BlockType::Process);
    let block = parser.parse("(a=b)").unwrap();
    let exprs = &block.lines[0].expressions;
    assert_eq!(exprs.len(), 1);
    assert_eq!(assign_args(&exprs[0].0), vec!["(a", "=", "b)"]);
}

#[test]
fn warp_parser_has_no_assignments() {
    let block = WarpBlockParser::parse("a=b\nL: ()||()").unwrap();
    assert_eq!(block.lines.len(), 2);
    assert_eq!(block.lines[0].expressions.len(), 0);
    assert_eq!(block.lines[1].label.as_deref(), Some("L"));
    assert_eq!(block.lines[1].expressions.len(), 2);
    assert_eq!(block.lines[1].expressions[0].1, Operator::Or);
    match &block.lines[1].expressions[0].0 {
        WarpExpression::Group(g) => assert!(g.is_empty()),
        _ => panic!("expected a group"),
    }
    assert_eq!(block.label_map, vec![("L".to_string(), 1)]);
}
