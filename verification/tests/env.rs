use cyfs_gateway::warp::chain::env::{Env, EnvLevel, EnvManager};
use std::sync::Arc;

#[test]
fn env_set_get_delete() {
    let parent = Arc::new({
        let mut p = Env::new(EnvLevel::Global, None);
        p.set("a", "outer");
        p
    });
    let mut e = Env::new(EnvLevel::Block, Some(parent));
    assert_eq!(e.get("a"), Some("outer".to_string()));
    e.set("a", "inner");
    assert_eq!(e.get("a"), Some("inner".to_string()));
    e.set("a", "again");
    assert_eq!(e.get("a"), Some("again".to_string()));
    assert_eq!(e.delete("a"), Some("again".to_string()));
    assert_eq!(e.get("a"), Some("outer".to_string()));
    assert_eq!(e.delete("a"), None);
    assert_eq!(e.get("b"), None);
}

#[test]
fn env_dump_lines() {
    let mut e = Env::new(EnvLevel::Chain, None);
    e.set("k", "v");
    e.set("x", "y");
    assert_eq!(e.dump(), vec!["Env level: Chain", "k: v", "x: y"]);
}

#[test]
fn manager_levels_fall_back() {
    let mut m = EnvManager::new();
    assert_eq!(m.get("x"), Ok(None));
    assert_eq!(m.set("global.x", "g"), Ok(()));
    assert_eq!(m.get("x"), Ok(Some("g".to_string())));
    assert_eq!(m.get("chain.x"), Ok(Some("g".to_string())));
    assert_eq!(m.set("CHAIN.x", "c"), Ok(()));
    assert_eq!(m.get("block.x"), Ok(Some("c".to_string())));
    assert_eq!(m.get("Global.x"), Ok(Some("g".to_string())));
    assert_eq!(m.set("x", "b"), Ok(()));
    assert_eq!(m.get("x"), Ok(Some("b".to_string())));
    assert_eq!(m.delete("x"), Ok(Some("b".to_string())));
    assert_eq!(m.get("x"), Ok(Some("c".to_string())));
    assert_eq!(m.delete("chain.x"), Ok(Some("c".to_string())));
    assert_eq!(m.get("x"), Ok(Some("g".to_string())));
    assert_eq!(m.delete("global.x"), Ok(Some("g".to_string())));
    assert_eq!(m.get("x"), Ok(None));
    assert_eq!(m.get_global().get("x"), None);
    assert_eq!(m.get_block().dump(), vec!["Env level: Block"]);
    assert_eq!(m.get_chain().dump(), vec!["Env level: Chain"]);
}

#[test]
fn manager_refuses_bad_keys() {
    let mut m = EnvManager::new();
    assert_eq!(m.set("a.b.c", "v"), Err("Invalid env key: a.b.c".to_string()));
    assert_eq!(m.get("local.x"), Err("Invalid env key: local.x".to_string()));
    assert_eq!(m.delete("a.b.c"), Err("Invalid env key: a.b.c".to_string()));
    assert_eq!(m.dump(), vec!["Env level: Global", "Env level: Chain", "Env level: Block"]);
}

#[test]
fn handed_out_environments_fall_back() {
    let mut m = EnvManager::new();
    m.set("global.k", "g").unwrap();
    assert_eq!(m.get_block().get("k"), Some("g".to_string()));
    assert_eq!(m.get_chain().get("k"), Some("g".to_string()));
    m.set("chain.k", "c").unwrap();
    assert_eq!(m.get_block().get("k"), Some("c".to_string()));
    assert_eq!(m.get_global().get("k"), Some("g".to_string()));
    m.set("k", "b").unwrap();
    assert_eq!(m.delete("k"), Ok(Some("b".to_string())));
    assert_eq!(m.get("k"), Ok(Some("c".to_string())));
    assert_eq!(m.delete("k"), Ok(None));
    assert_eq!(m.get("global.k"), Ok(Some("g".to_string())));
}
