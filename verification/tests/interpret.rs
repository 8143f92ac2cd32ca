use edge_graph::data::{AsDataManager, DataManager};
use edge_graph::edge::EdgeError;
use edge_graph::engine::{AsEdgeEngine, EdgeEngine, Inc};
use edge_graph::store::EdgeStore;

fn inc(source: &str, code: &str, target: &str) -> Inc {
    Inc { source: source.to_string(), code: code.to_string(), target: target.to_string() }
}

fn engine() -> EdgeEngine {
    EdgeEngine::new(DataManager::new(EdgeStore::new()))
}

#[test]
fn append_then_return() {
    let mut eng = engine();
    let mut root = "R".to_string();
    let prog = vec![inc("x", "append", "y"), inc("", "return", "done")];
    let r = eng.invoke_inc_v(&mut root, &prog).unwrap();
    assert_eq!(r, "done".to_string());
    let mut dm = eng.into_dm();
    assert_eq!(dm.get_target_v("R", "x"), vec!["y".to_string()]);
}

#[test]
fn empty_program_yields_empty_string() {
    let mut eng = engine();
    let mut root = "R".to_string();
    assert_eq!(eng.invoke_inc_v(&mut root, &vec![]).unwrap(), String::new());
}

#[test]
fn running_past_the_end_yields_empty_string() {
    let mut eng = engine();
    let mut root = "R".to_string();
    let prog = vec![inc("x", "append", "y")];
    assert_eq!(eng.invoke_inc_v(&mut root, &prog).unwrap(), String::new());
}

#[test]
fn unknown_opcode_fails_fast() {
    let mut eng = engine();
    let mut root = "R".to_string();
    let prog = vec![inc("", "frobnicate", "")];
    assert_eq!(eng.invoke_inc_v(&mut root, &prog), Err(EdgeError::Unimplemented));
}

#[test]
fn set_opcode_overwrites() {
    let mut eng = engine();
    let mut root = "R".to_string();
    let prog = vec![inc("k", "set", "v1"), inc("k", "set", "v2")];
    eng.invoke_inc_v(&mut root, &prog).unwrap();
    let mut dm = eng.into_dm();
    assert_eq!(dm.get_target_v("R", "k"), vec!["v2".to_string()]);
}

#[test]
fn asign_opcode_binds_like_set() {
    let mut eng = engine();
    let mut root = "R".to_string();
    let prog = vec![inc("k", "asign", "v")];
    eng.invoke_inc_v(&mut root, &prog).unwrap();
    let mut dm = eng.into_dm();
    assert_eq!(dm.get_target_v("R", "k"), vec!["v".to_string()]);
}

#[test]
fn delete_opcodes() {
    let mut eng = engine();
    let mut root = "R".to_string();
    let prog = vec![
        inc("a", "append", "b"),
        inc("gone", "append", "c"),
        inc("", "delete", "b"),
    ];
    eng.invoke_inc_v(&mut root, &prog).unwrap();
    let mut dm = eng.into_dm();
    assert_eq!(dm.get_target_v("R", "a"), Vec::<String>::new());
    assert_eq!(dm.get_target_v("R", "gone"), vec!["c".to_string()]);

    let mut eng2 = engine();
    let prog2 = vec![inc("a", "append", "b"), inc("", "dc", "a")];
    eng2.invoke_inc_v(&mut root, &prog2).unwrap();
    let mut dm2 = eng2.into_dm();
    assert_eq!(dm2.get_target_v("R", "a"), Vec::<String>::new());
}

#[test]
fn path_operand_resolves_against_root() {
    let mut eng = engine();
    let mut root = "R".to_string();
    // bind R --k--> n, then return the value the path finds
    let prog = vec![inc("k", "append", "n"), inc("", "return", "->k")];
    let r = eng.invoke_inc_v(&mut root, &prog).unwrap();
    assert_eq!(r, "n".to_string());
}

#[test]
fn path_operand_autovivifies_once() {
    let mut eng = engine();
    let mut root = "R".to_string();
    let prog = vec![inc("", "return", "->slot")];
    let first = eng.invoke_inc_v(&mut root, &prog).unwrap();
    let second = eng.invoke_inc_v(&mut root, &prog).unwrap();
    assert_eq!(first, second);
}

#[test]
fn root_is_left_unchanged() {
    let mut eng = engine();
    let mut root = "R".to_string();
    let prog = vec![inc("x", "append", "y")];
    eng.invoke_inc_v(&mut root, &prog).unwrap();
    assert_eq!(root, "R".to_string());
}

#[test]
fn dump_opcode_advances() {
    let mut eng = engine();
    let mut root = "R".to_string();
    let prog = vec![
        inc("x", "append", "y"),
        inc("", "dump", "R"),
        inc("", "return", "done"),
    ];
    let r = eng.invoke_inc_v(&mut root, &prog).unwrap();
    assert_eq!(r, "done".to_string());
    // the rendering's side effect is the flush it forces
    let dm = eng.into_dm();
    let mut fresh = DataManager::new(dm.into_store());
    assert_eq!(fresh.get_target_v("R", "x"), vec!["y".to_string()]);
}

#[test]
fn dump_renders_fanout() {
    let mut dm = DataManager::new(EdgeStore::new());
    dm.append_target("R", "x", "y");
    let r = edge_graph::engine::dump(&mut dm, "R");
    assert_eq!(r, "x=y\n".to_string());
}

#[test]
fn dc_ns_keeps_marked_sources() {
    let mut root = "R".to_string();
    // req names the deletion request: its $code / $source_code neighbors
    // select which label and which mark govern the conditional delete
    let mut dm = DataManager::new(EdgeStore::new());
    dm.append_target("req", "$code", "rel");
    dm.append_target("req", "$source_code", "mark");
    dm.append_target("s1", "rel", "t1");
    dm.append_target("s1", "mark", "m");
    dm.append_target("s2", "rel", "t2");
    let mut eng = EdgeEngine::new(dm);
    let prog = vec![inc("", "dc_ns", "req")];
    eng.invoke_inc_v(&mut root, &prog).unwrap();
    let mut dm = eng.into_dm();
    assert_eq!(dm.get_target_v("s1", "rel"), vec!["t1".to_string()]);
    assert_eq!(dm.get_target_v("s2", "rel"), Vec::<String>::new());
}

#[test]
fn interpreter_commit_flushes() {
    let mut eng = engine();
    let mut root = "R".to_string();
    let prog = vec![inc("x", "append", "y")];
    eng.invoke_inc_v(&mut root, &prog).unwrap();
    eng.commit();
    let dm = eng.into_dm();
    let mut fresh = DataManager::new(dm.into_store());
    assert_eq!(fresh.get_target_v("R", "x"), vec!["y".to_string()]);
}
