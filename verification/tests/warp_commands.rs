use cyfs_gateway::process_chain::block::context::Context;
use cyfs_gateway::warp::block::cmd::sni::HttpSniProbeCommandParser;
use cyfs_gateway::warp::block::cmd::{
    CommandExecuter, CommandParser, CommandParserFactory, ExternalCommandExecuter,
    HaveLabelCommandExecuter, HttpSniProbeCommandExecuter, MatchCommandExecuter,
    SetLabelByHostDbCommandExecuter,
};
use std::sync::Arc;

fn err_of<T>(r: Result<T, String>) -> String {
    match r {
        Ok(_) => panic!("expected an error"),
        Err(e) => e,
    }
}

#[test]
fn text_parsers() {
    let sni = HttpSniProbeCommandExecuter::new();
    assert!(sni.parse("  ").is_ok());
    assert_eq!(err_of(sni.parse(" x")), "Invalid http-sni-probe command:  x");
    assert!(HttpSniProbeCommandParser::new().parse("").is_ok());

    let ext = ExternalCommandExecuter { command: String::new() };
    assert_eq!(err_of(ext.parse(" \t")), "Invalid exec command:  \t");
    assert!(ext.parse("app1").is_ok());

    let set = SetLabelByHostDbCommandExecuter::new("k");
    assert!(set.parse("  REQ_HEADER.host ").is_ok());
    assert_eq!(err_of(set.parse("   ")), "Invalid set_label_by_host_db command: ");
    assert_eq!(err_of(set.parse(" a b ")), "Invalid set_label_by_host_db command: a b");

    let have = HaveLabelCommandExecuter::new("k", "l");
    assert!(have.parse("REQ_HEADER.label  x").is_ok());
    assert_eq!(err_of(have.parse("one")), "Invalid have_label command: one");

    let m = MatchCommandExecuter { key: String::new(), pattern: String::new() };
    assert_eq!(err_of(m.parse("a b c")), "Invalid match command");
    let e = err_of(m.parse("k ["));
    assert!(e.starts_with("Invalid pattern: "));
    assert!(e.len() > "Invalid pattern: ".len());
    assert!(m.parse("k ^x$").is_ok());
}

#[test]
fn text_executors() {
    let mut ctx = Context::new();
    let m = MatchCommandExecuter { key: "REQ_HEADER.host".to_string(), pattern: "^a".to_string() };
    assert_eq!(m.exec(&mut ctx).unwrap().error_code, 1);
    ctx.set_value("REQ_HEADER.host", "abc").unwrap();
    assert!(m.exec(&mut ctx).unwrap().success);
    ctx.set_value("REQ_HEADER.host", "cba").unwrap();
    assert_eq!(m.exec(&mut ctx).unwrap().error_code, 2);

    let have = HaveLabelCommandExecuter::new("REQ_HEADER.label", "x");
    assert_eq!(have.exec(&mut ctx).unwrap().error_code, 1);
    ctx.set_label("y,x");
    assert!(have.exec(&mut ctx).unwrap().success);

    let set = SetLabelByHostDbCommandExecuter::new("REQ_HEADER.nothing");
    assert_eq!(set.exec(&mut ctx).unwrap().error_code, 1);
}

#[test]
fn text_factory() {
    let mut f = CommandParserFactory::new();
    assert!(f.get_parser("match").is_none());
    assert_eq!(err_of(f.parse("match", "a b")), "Command parser match not found");
    f.register("match", Arc::new(Box::new(MatchCommandExecuter { key: String::new(), pattern: String::new() })));
    assert!(f.get_parser("match").is_some());
    assert!(f.parse("match", "k v").is_ok());
    assert_eq!(err_of(f.parse("match", "k")), "Invalid match command");
}
