use cyfs_gateway::process_chain::block::block::{Block, BlockType, Expression, Line, Operator};
use cyfs_gateway::process_chain::block::context::Context;
use cyfs_gateway::process_chain::block::exec::{BlockExecuter, BlockResult, MAX_GOTO_COUNT_IN_BLOCK};
use cyfs_gateway::process_chain::chain::chain::{ProcessChain, ProcessChainManager};

fn line(label: Option<&str>, exprs: Vec<(Expression, Operator)>) -> Line {
    Line { label: label.map(|s| s.to_string()), expressions: exprs }
}

fn goto(t: &str) -> Expression {
    Expression::Goto(t.to_string())
}

fn block(lines: Vec<Line>) -> Block {
    let mut b = Block::new(BlockType::Process);
    for (i, l) in lines.into_iter().enumerate() {
        if let Some(name) = &l.label {
            b.label_map.push((name.clone(), i));
        }
        b.lines.push(l);
    }
    b
}

#[test]
fn block_of_groups_completes() {
    let b = block(vec![
        line(None, vec![(Expression::Group(vec![]), Operator::Neither)]),
        line(None, vec![]),
    ]);
    let mut ex = BlockExecuter::new();
    let mut ctx = Context::new();
    assert_eq!(ex.execute_block(&b, &mut ctx), Ok(BlockResult::Complete));
    assert_eq!(ex.goto_counter, 0);
}

#[test]
fn goto_jumps_to_label() {
    let b = block(vec![
        line(None, vec![(goto("end"), Operator::Neither)]),
        line(None, vec![(goto("missing"), Operator::Neither)]),
        line(Some("end"), vec![(Expression::Group(vec![]), Operator::Neither)]),
    ]);
    let mut ex = BlockExecuter::new();
    let mut ctx = Context::new();
    assert_eq!(ex.execute_block(&b, &mut ctx), Ok(BlockResult::Complete));
    assert_eq!(ex.goto_counter, 1);
}

#[test]
fn goto_to_missing_label_fails() {
    let b = block(vec![line(None, vec![(goto("nowhere"), Operator::Neither)])]);
    let mut ex = BlockExecuter::new();
    let mut ctx = Context::new();
    assert_eq!(
        ex.execute_block(&b, &mut ctx),
        Err("Goto target nowhere not found".to_string())
    );
    assert_eq!(ex.goto_counter, 0);
}

#[test]
fn goto_loop_hits_the_limit() {
    let b = block(vec![line(Some("top"), vec![(goto("top"), Operator::Neither)])]);
    let mut ex = BlockExecuter::new();
    let mut ctx = Context::new();
    assert_eq!(
        ex.execute_block(&b, &mut ctx),
        Err("Goto count exceeds limit 128".to_string())
    );
    assert_eq!(ex.goto_counter, MAX_GOTO_COUNT_IN_BLOCK + 1);
}

#[test]
fn goto_inside_group_stops_the_line() {
    let b = block(vec![
        line(
            None,
            vec![
                (Expression::Group(vec![(goto("last"), Operator::Neither)]), Operator::Neither),
                (goto("never"), Operator::Neither),
            ],
        ),
        line(Some("last"), vec![]),
    ]);
    let mut ex = BlockExecuter::new();
    let mut ctx = Context::new();
    assert_eq!(ex.execute_block(&b, &mut ctx), Ok(BlockResult::Complete));
    assert_eq!(ex.goto_counter, 1);
}

#[test]
fn chain_counts_jumps_across_blocks() {
    let mut chain = ProcessChain::new("main".to_string());
    for _ in 0..2 {
        chain.add_block(block(vec![
            line(None, vec![(goto("b"), Operator::Neither)]),
            line(Some("b"), vec![]),
        ]));
    }
    assert_eq!(chain.get_blocks().len(), 2);
    let mut ctx = Context::new();
    assert_eq!(chain.execute(&mut ctx), Ok(BlockResult::Complete));

    let mut failing = ProcessChain::new("loop".to_string());
    failing.add_block(block(vec![line(Some("x"), vec![(goto("x"), Operator::Neither)])]));
    assert_eq!(
        failing.execute(&mut ctx),
        Err("Goto count exceeds limit 128".to_string())
    );
}

#[test]
fn manager_gives_back_added_chain() {
    let mut m = ProcessChainManager::new();
    assert!(m.get_chain("a").is_none());
    m.add_chain(ProcessChain::new("a".to_string()));
    let mut second = ProcessChain::new("a".to_string());
    second.add_block(Block::new(BlockType::Probe));
    m.add_chain(second);
    m.add_chain(ProcessChain::new("b".to_string()));
    let a = m.get_chain("a").unwrap();
    assert_eq!(a.get_id(), "a");
    assert_eq!(a.get_blocks().len(), 1);
    assert_eq!(m.get_chain("b").unwrap().get_blocks().len(), 0);
    assert!(m.get_chain("c").is_none());
}

#[test]
fn chain_keeps_blocks_in_the_order_added() {
    let mut chain = ProcessChain::new("order".to_string());
    let kinds = [BlockType::Probe, BlockType::Process, BlockType::Rewrite, BlockType::Probe];
    for k in kinds.iter() {
        chain.add_block(Block::new(*k));
    }
    let got: Vec<BlockType> = chain.get_blocks().iter().map(|b| b.block_type).collect();
    assert_eq!(got, kinds.to_vec());
    let again: Vec<BlockType> = chain.get_blocks().iter().map(|b| b.block_type).collect();
    assert_eq!(again, got);
}
