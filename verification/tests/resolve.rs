use edge_graph::db_data::DbDataManager;
use edge_graph::edge::EdgeError;
use edge_graph::graph;
use edge_graph::path::{Dir, Path, Step};
use edge_graph::store::EdgeStore;

fn step(dir: Dir, code: &str) -> Step {
    Step { dir, code: code.to_string() }
}

fn child_chain() -> EdgeStore {
    let mut store = EdgeStore::new();
    graph::insert_edge(&mut store, "A", "child", "B");
    graph::insert_edge(&mut store, "B", "child", "C");
    store
}

#[test]
fn forward_two_steps_reaches_grandchild() {
    let mut db = DbDataManager::new(child_chain());
    let path = Path {
        root: "A".to_string(),
        step_v: vec![step(Dir::Forward, "child"), step(Dir::Forward, "child")],
    };
    assert_eq!(db.get(&path), vec!["C".to_string()]);
}

#[test]
fn backward_one_step_reaches_parent() {
    let mut db = DbDataManager::new(child_chain());
    let path = Path { root: "C".to_string(), step_v: vec![step(Dir::Backward, "child")] };
    assert_eq!(db.get(&path), vec!["B".to_string()]);
}

#[test]
fn frontier_fans_out() {
    let mut store = EdgeStore::new();
    graph::insert_edge(&mut store, "A", "child", "B1");
    graph::insert_edge(&mut store, "A", "child", "B2");
    graph::insert_edge(&mut store, "B1", "name", "n1");
    graph::insert_edge(&mut store, "B2", "name", "n2");
    let mut db = DbDataManager::new(store);
    let path = Path {
        root: "A".to_string(),
        step_v: vec![step(Dir::Forward, "child"), step(Dir::Forward, "name")],
    };
    assert_eq!(db.get(&path), vec!["n1".to_string(), "n2".to_string()]);
}

#[test]
fn empty_frontier_propagates() {
    let mut db = DbDataManager::new(child_chain());
    let path = Path {
        root: "A".to_string(),
        step_v: vec![step(Dir::Forward, "nothing"), step(Dir::Forward, "child")],
    };
    assert_eq!(db.get(&path), Vec::<String>::new());
}

#[test]
fn path_append_and_set() {
    let mut db = DbDataManager::new(EdgeStore::new());
    let path = Path { root: "A".to_string(), step_v: vec![step(Dir::Forward, "child")] };
    db.append(&path, &vec!["B".to_string(), "C".to_string()]);
    assert_eq!(db.get(&path), vec!["B".to_string(), "C".to_string()]);
    db.set(&path, &vec!["D".to_string()]);
    assert_eq!(db.get(&path), vec!["D".to_string()]);
}

#[test]
fn raw_path_follows_existing_edges() {
    let mut store = child_chain();
    let before = store.select_targets("A", "child");
    let r = graph::get(&mut store, "A", "->child->child").unwrap();
    assert_eq!(r, "C".to_string());
    assert_eq!(store.select_targets("A", "child"), before);
}

#[test]
fn raw_path_backward_arrow() {
    let mut store = child_chain();
    let r = graph::get(&mut store, "C", "<-child").unwrap();
    assert_eq!(r, "B".to_string());
}

#[test]
fn raw_path_autovivifies() {
    let mut store = EdgeStore::new();
    let made = graph::get(&mut store, "R", "->slot").unwrap();
    assert_eq!(store.select_targets("R", "slot"), vec![made.clone()]);
    let again = graph::get(&mut store, "R", "->slot").unwrap();
    assert_eq!(made, again);
}

#[test]
fn raw_path_rejects_text_without_arrow() {
    let mut store = EdgeStore::new();
    assert_eq!(graph::get(&mut store, "R", "child"), Err(EdgeError::BadPath));
}

#[test]
fn get_target_anyway_is_idempotent() {
    let mut store = EdgeStore::new();
    let first = graph::get_target_anyway(&mut store, "root", "rel");
    let second = graph::get_target_anyway(&mut store, "root", "rel");
    assert_eq!(first, second);
}

#[test]
fn get_source_anyway_is_idempotent() {
    let mut store = EdgeStore::new();
    let first = graph::get_source_anyway(&mut store, "rel", "leaf");
    let second = graph::get_source_anyway(&mut store, "rel", "leaf");
    assert_eq!(first, second);
}

#[test]
fn store_level_point_ops() {
    let mut store = EdgeStore::new();
    graph::insert_edge(&mut store, "a", "rel", "b");
    assert_eq!(graph::get_target(&store, "a", "rel").unwrap(), "b".to_string());
    assert_eq!(graph::get_source(&store, "rel", "b").unwrap(), "a".to_string());
    assert_eq!(graph::get_target(&store, "z", "rel"), Err(EdgeError::NotFound));
    graph::set_target(&mut store, "a", "rel", "c");
    assert_eq!(store.select_targets("a", "rel"), vec!["c".to_string()]);
    graph::delete_code(&mut store, "a", "rel");
    assert_eq!(store.select_targets("a", "rel"), Vec::<String>::new());
}

#[test]
fn tokenizer_splits_arrow_steps() {
    let steps = edge_graph::path::parse_path("->a<-b->c").unwrap();
    assert_eq!(steps.len(), 3);
    assert!(matches!(steps[0].dir, Dir::Forward));
    assert_eq!(steps[0].code, "a".to_string());
    assert!(matches!(steps[1].dir, Dir::Backward));
    assert_eq!(steps[1].code, "b".to_string());
    assert!(matches!(steps[2].dir, Dir::Forward));
    assert_eq!(steps[2].code, "c".to_string());
}

#[test]
fn tokenizer_rejects_plain_text_and_accepts_empty() {
    assert!(edge_graph::path::parse_path("child").is_none());
    assert_eq!(edge_graph::path::parse_path("").unwrap().len(), 0);
}

#[test]
fn tokenizer_handles_multibyte_labels() {
    let steps = edge_graph::path::parse_path("->通路<-親").unwrap();
    assert_eq!(steps.len(), 2);
    assert_eq!(steps[0].code, "通路".to_string());
    assert_eq!(steps[1].code, "親".to_string());
}

#[test]
fn new_point_has_uuid_shape() {
    let p = graph::new_point();
    assert_eq!(p.len(), 36);
    assert_ne!(graph::new_point(), graph::new_point());
}
