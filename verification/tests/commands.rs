use cyfs_gateway::process_chain::block::block::{BlockType, Expression};
use cyfs_gateway::process_chain::block::cmd::cmd::{
    CommandAction, CommandExecutor, CommandParser, CommandResult,
};
use cyfs_gateway::process_chain::block::cmd::sni::HttpSniProbeCommandParser;
use cyfs_gateway::process_chain::block::context::Context;
use cyfs_gateway::process_chain::block::parser::{block_type_name, BlockCommandTranslator, BlockParser};
use cyfs_gateway::warp::block::cmd::action::ActionCommandParser;
use cyfs_gateway::warp::block::cmd::assign::{request_var, AssignCommandParser};
use cyfs_gateway::warp::block::cmd::external::ExternalCommandParser;
use cyfs_gateway::warp::block::cmd::factory::CommandParserFactory;
use cyfs_gateway::warp::block::cmd::label::{
    HaveLabelCommandExecutor, HaveLabelCommandParser, SetLabelByHostDbCommandExecutor,
    SetLabelByHostDbCommandParser,
};
use cyfs_gateway::warp::block::cmd::match_::{MatchCommandExecutor, MatchCommandParser};

fn args(v: &[&str]) -> Vec<String> {
    v.iter().map(|s| s.to_string()).collect()
}

fn err_of<T>(r: Result<T, String>) -> String {
    match r {
        Ok(_) => panic!("expected an error"),
        Err(e) => e,
    }
}

#[test]
fn result_constructors() {
    let s = CommandResult::success();
    assert!(s.success && s.error_code == 0 && !s.is_special_action());
    let f = CommandResult::failure(7);
    assert!(!f.success && f.error_code == 7 && !f.is_special_action());
    assert!(matches!(CommandResult::drop().action, CommandAction::Drop));
    assert!(CommandResult::drop().is_special_action());
    assert!(CommandResult::pass().is_special_action());
    let g = CommandResult::goto("x".to_string());
    assert!(g.is_special_action() && g.success);
    assert!(matches!(g.action, CommandAction::Goto(ref t) if t == "x"));
}

#[test]
fn sni_probe_parser() {
    let p = HttpSniProbeCommandParser::new();
    assert!(p.check(BlockType::Probe));
    assert!(!p.check(BlockType::Process));
    assert!(p.parse(&vec![]).is_ok());
    assert_eq!(
        err_of(p.parse(&args(&["a"]))),
        "Invalid http-sni-probe command: [\"a\"]"
    );
}

#[test]
fn action_commands() {
    let p = ActionCommandParser::new(CommandAction::Drop);
    assert!(p.check(BlockType::Rewrite));
    assert_eq!(err_of(p.parse(&args(&["x"]))), "Invalid action command: [\"x\"]");
    let ex = p.parse(&vec![]).unwrap();
    let mut ctx = Context::new();
    let r = ex.exec(&mut ctx).unwrap();
    assert!(r.success && matches!(r.action, CommandAction::Drop));
}

#[test]
fn assign_parser_errors() {
    let p = AssignCommandParser::new();
    assert!(p.check(BlockType::Probe));
    assert_eq!(err_of(p.parse(&args(&["a", "="]))), "Invalid assign command: [\"a\", \"=\"]");
    assert_eq!(
        err_of(p.parse(&args(&["a", "==", "b"]))),
        "Invalid assign type: [\"a\", \"==\", \"b\"]"
    );
    assert_eq!(
        err_of(p.parse(&args(&["a", ":=", "b"]))),
        "Invalid virtual assignment for env: [\"a\", \":=\", \"b\"]"
    );
    assert!(p.parse(&args(&["a", "=", "b"])).is_ok());
    assert!(p.parse(&args(&["REQ_HEADER", ":=", "b"])).is_ok());
    assert!(request_var("RESP_BODY"));
    assert!(!request_var("REQ_HEADER.host"));
}

#[test]
fn external_parser() {
    let p = ExternalCommandParser::new();
    assert!(p.check(BlockType::Probe) && p.check(BlockType::Process));
    assert!(!p.check(BlockType::Rewrite));
    assert_eq!(err_of(p.parse(&vec![])), "Invalid exec command: []");
    assert!(p.parse(&args(&["app1", "--x"])).is_ok());
}

#[test]
fn match_command() {
    let p = MatchCommandParser::new();
    assert_eq!(err_of(p.parse(&args(&["k"]))), "Invalid match command: [\"k\"]");
    let e = err_of(p.parse(&args(&["k", "("])));
    assert!(e.starts_with("Invalid match pattern: [\"k\", \"(\"], "));
    assert!(e.len() > "Invalid match pattern: [\"k\", \"(\"], ".len());
    let mut ctx = Context::new();
    let ex = MatchCommandExecutor {
        key: "REQ_HEADER.host".to_string(),
        pattern: r".*\.local$".to_string(),
    };
    assert_eq!(ex.exec(&mut ctx).unwrap().error_code, 1);
    ctx.set_value("REQ_HEADER.host", "box.local").unwrap();
    assert!(ex.exec(&mut ctx).unwrap().success);
    ctx.set_value("REQ_HEADER.host", "box.remote").unwrap();
    let r = ex.exec(&mut ctx).unwrap();
    assert!(!r.success && r.error_code == 2);
    assert!(p.parse(&args(&["REQ_HEADER.host", "^a+$"])).is_ok());
}

#[test]
fn label_commands() {
    let p = SetLabelByHostDbCommandParser::new();
    assert_eq!(err_of(p.parse(&vec![])), "Invalid set_label_by_host_db command: []");
    assert_eq!(
        err_of(p.parse(&args(&["a", "b"]))),
        "Invalid set_label_by_host_db command: [\"a\", \"b\"]"
    );
    assert!(p.parse(&args(&["REQ_HEADER.host"])).is_ok());
    let mut ctx = Context::new();
    let set = SetLabelByHostDbCommandExecutor::new("REQ_HEADER.host");
    assert_eq!(set.exec(&mut ctx).unwrap().error_code, 1);
    ctx.set_value("REQ_HEADER.host", "unknown").unwrap();
    assert!(set.exec(&mut ctx).unwrap().success);

    let h = HaveLabelCommandParser::new();
    assert_eq!(err_of(h.parse(&args(&["a"]))), "Invalid have_label command: [\"a\"]");
    assert!(h.parse(&args(&["REQ_HEADER.label", "x"])).is_ok());
    let have = HaveLabelCommandExecutor::new("REQ_HEADER.label".to_string(), "b".to_string());
    assert_eq!(have.exec(&mut ctx).unwrap().error_code, 1);
    ctx.set_label("a,b,c");
    assert!(have.exec(&mut ctx).unwrap().success);
    ctx.set_label("a,bc");
    assert_eq!(have.exec(&mut ctx).unwrap().error_code, 2);
}

#[test]
fn factory_registers_standard_commands() {
    let mut f = CommandParserFactory::new();
    assert!(f.get_parser("DROP").is_none());
    assert_eq!(err_of(f.parse("DROP", &vec![])), "Command parser DROP not found");
    f.init();
    for name in [
        "DROP",
        "PASS",
        "assign",
        "match",
        "EXEC",
        "set_label_by_host_db",
        "have_label",
        "http-sni-probe",
    ] {
        assert!(f.get_parser(name).is_some(), "{}", name);
    }
    assert!(f.parse("PASS", &vec![]).is_ok());
    assert!(f.get_parser("drop").is_none());
}

#[test]
fn translator_binds_assignments() {
    let mut f = CommandParserFactory::new();
    f.init();
    let t = BlockCommandTranslator::new(f);
    let parser = BlockParser::new(BlockType::Process);
    let mut block = parser.parse("a=1\nL: REQ_HEADER:=x").unwrap();
    assert_eq!(t.translate(&mut block), Ok(()));
    for line in &block.lines {
        for (e, _) in &line.expressions {
            match e {
                Expression::Command(item) => assert!(item.executor.is_some()),
                _ => {}
            }
        }
    }
    let mut bad = parser.parse("a:=1").unwrap();
    assert_eq!(
        t.translate(&mut bad),
        Err("Parse command error: Command { name: \"assign\", args: [\"a\", \":=\", \"1\"] }, \"Invalid virtual assignment for env: [\\\"a\\\", \\\":=\\\", \\\"1\\\"]\"".to_string())
    );
    let empty = BlockCommandTranslator::new(CommandParserFactory::new());
    let mut block = parser.parse("a=1").unwrap();
    assert_eq!(empty.translate(&mut block), Err("No parser for command: assign".to_string()));
    assert_eq!(block_type_name(BlockType::Rewrite), "Rewrite");
}
