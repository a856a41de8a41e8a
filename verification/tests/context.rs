use cyfs_gateway::process_chain::block::context::Context;

#[test]
fn new_context_has_no_headers() {
    let ctx = Context::new();
    assert_eq!(ctx.get_value("REQ_HEADER.host"), None);
    assert_eq!(ctx.get_value("RESP_HEADER.host"), None);
    assert_eq!(ctx.get_value("REQ_HEADER"), None);
    assert_eq!(ctx.get_value("OTHER.host"), None);
    assert!(!ctx.is_label_set("a"));
}

#[test]
fn get_after_set_value() {
    let mut ctx = Context::new();
    assert_eq!(ctx.set_value("REQ_HEADER.Host", "example.com"), Ok(()));
    assert_eq!(ctx.get_value("REQ_HEADER.host"), Some("example.com".to_string()));
    assert_eq!(ctx.get_value("REQ_HEADER.HOST.extra"), Some("example.com".to_string()));
    assert_eq!(ctx.set_value("REQ_HEADER.host", "other"), Ok(()));
    assert_eq!(ctx.get_value("REQ_HEADER.host"), Some("other".to_string()));
}

#[test]
fn refused_writes_change_nothing() {
    let mut ctx = Context::new();
    assert_eq!(ctx.set_value("REQ_HEADER", "v"), Err("Invalid key: REQ_HEADER".to_string()));
    assert_eq!(ctx.set_value("RESP_HEADER", "v"), Err("Invalid key: RESP_HEADER".to_string()));
    assert_eq!(ctx.set_value("RESP_HEADER.x", "v"), Err("Response not set yet".to_string()));
    assert_eq!(ctx.set_value("ENV.x", "v"), Err("Unknown key: ENV.x".to_string()));
    assert_eq!(ctx.set_value("", "v"), Err("Unknown key: ".to_string()));
    assert_eq!(ctx.get_value("REQ_HEADER.x"), None);
}

#[test]
fn labels_set_and_append() {
    let mut ctx = Context::new();
    ctx.set_label("");
    assert_eq!(ctx.get_value("REQ_HEADER.label"), None);
    ctx.append_label("first");
    assert_eq!(ctx.get_value("REQ_HEADER.label"), Some("first".to_string()));
    assert!(ctx.is_label_set("first"));
    ctx.append_label("second");
    // The existing values are written as `HeaderValues` displays them.
    assert_eq!(
        ctx.get_value("REQ_HEADER.label"),
        Some("[\"first\"],second".to_string())
    );
    assert!(!ctx.is_label_set("first"));
    ctx.set_label("only");
    assert!(ctx.is_label_set("only"));
    assert_eq!(ctx.get_value("REQ_HEADER.label"), Some("only".to_string()));
    ctx.append_label("");
    assert_eq!(ctx.get_value("REQ_HEADER.label"), Some("only".to_string()));
}

#[test]
fn host_db_without_host_changes_nothing() {
    let mut ctx = Context::new();
    ctx.set_label("x");
    ctx.set_label_from_host_db("unknown.host");
    assert_eq!(ctx.get_value("REQ_HEADER.label"), Some("x".to_string()));
}
