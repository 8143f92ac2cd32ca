use edge_graph::data::{AsDataManager, DataManager};
use edge_graph::edge::EdgeError;
use edge_graph::edge::is_temp;
use edge_graph::store::EdgeStore;

#[test]
fn append_append_reads_in_order() {
    let mut dm = DataManager::new(EdgeStore::new());
    dm.append_target("s", "c", "t1");
    dm.append_target("s", "c", "t2");
    assert_eq!(dm.get_target_v("s", "c"), vec!["t1".to_string(), "t2".to_string()]);
}

#[test]
fn append_append_across_store_and_cache() {
    let mut dm = DataManager::new(EdgeStore::new());
    dm.append_target("s", "c", "t1");
    dm.commit();
    let store = dm.into_store();
    let mut dm2 = DataManager::new(store);
    dm2.append_target("s", "c", "t2");
    assert_eq!(dm2.get_target_v("s", "c"), vec!["t1".to_string(), "t2".to_string()]);
}

#[test]
fn append_append_temp_key() {
    let mut dm = DataManager::new(EdgeStore::new());
    dm.append_target("$s", "c", "t1");
    dm.append_target("$s", "c", "t2");
    assert_eq!(dm.get_target_v("$s", "c"), vec!["t1".to_string(), "t2".to_string()]);
}

#[test]
fn set_target_overwrites() {
    let mut dm = DataManager::new(EdgeStore::new());
    dm.append_target("s", "c", "old1");
    dm.append_target("s", "c", "old2");
    dm.set_target("s", "c", "mid");
    dm.set_target("s", "c", "new");
    assert_eq!(dm.get_target_v("s", "c"), vec!["new".to_string()]);
}

#[test]
fn set_target_overwrites_durable_rows() {
    let mut dm = DataManager::new(EdgeStore::new());
    dm.append_target("s", "c", "old");
    dm.commit();
    let mut dm2 = DataManager::new(dm.into_store());
    // warm the cache, then overwrite: the table row must go at flush time
    assert_eq!(dm2.get_target("s", "c").unwrap(), "old".to_string());
    dm2.set_target("s", "c", "new");
    assert_eq!(dm2.get_target_v("s", "c"), vec!["new".to_string()]);
}

#[test]
fn ephemeral_never_visible_durably() {
    let mut dm = DataManager::new(EdgeStore::new());
    dm.append_target("$x", "c", "v");
    dm.append_target("a", "b", "$z");
    dm.append_target("a", "b", "kept");
    dm.commit();
    let mut fresh = DataManager::new(dm.into_store());
    assert_eq!(fresh.get_target("$x", "c"), Err(EdgeError::NotFound));
    assert_eq!(fresh.get_target_v("a", "b"), vec!["kept".to_string()]);
}

#[test]
fn ephemeral_survives_commit_within_session() {
    let mut dm = DataManager::new(EdgeStore::new());
    dm.append_target("$x", "c", "v");
    dm.commit();
    assert_eq!(dm.get_target_v("$x", "c"), vec!["v".to_string()]);
}

#[test]
fn commit_twice_is_a_no_op() {
    let mut dm = DataManager::new(EdgeStore::new());
    dm.append_target("s", "c", "t");
    dm.commit();
    dm.commit();
    assert_eq!(dm.get_target_v("s", "c"), vec!["t".to_string()]);
}

#[test]
fn get_target_miss_is_not_found() {
    let mut dm = DataManager::new(EdgeStore::new());
    assert_eq!(dm.get_target("nope", "c"), Err(EdgeError::NotFound));
    assert_eq!(dm.get_source("c", "nope"), Err(EdgeError::NotFound));
}

#[test]
fn get_source_finds_written_edge() {
    let mut dm = DataManager::new(EdgeStore::new());
    dm.append_target("src", "rel", "tgt");
    assert_eq!(dm.get_source("rel", "tgt").unwrap(), "src".to_string());
}

#[test]
fn insert_edge_with_explicit_number() {
    let mut dm = DataManager::new(EdgeStore::new());
    dm.insert_edge("s", "c", 5, "t");
    assert_eq!(dm.get_target_v("s", "c"), vec!["t".to_string()]);
}

#[test]
fn point_lookup_tie_break() {
    // documented rule: the cache answers with the most recently recorded
    // entry; the table answers with its first matching row
    let mut dm = DataManager::new(EdgeStore::new());
    dm.insert_edge("s", "c", 0, "t1");
    dm.insert_edge("s", "c", 1, "t2");
    assert_eq!(dm.get_target("s", "c").unwrap(), "t2".to_string());
    dm.commit();
    let mut fresh = DataManager::new(dm.into_store());
    assert_eq!(fresh.get_target("s", "c").unwrap(), "t1".to_string());
}

#[test]
fn delete_removes_point_durably() {
    let mut dm = DataManager::new(EdgeStore::new());
    dm.append_target("a", "b", "c");
    dm.append_target("x", "y", "a");
    dm.append_target("k", "l", "m");
    dm.delete("a");
    assert_eq!(dm.get_target_v("a", "b"), Vec::<String>::new());
    assert_eq!(dm.get_target_v("x", "y"), Vec::<String>::new());
    assert_eq!(dm.get_target_v("k", "l"), vec!["m".to_string()]);
}

#[test]
fn delete_code_removes_label() {
    let mut dm = DataManager::new(EdgeStore::new());
    dm.append_target("a", "gone", "c");
    dm.append_target("b", "kept", "d");
    dm.delete_code("gone");
    assert_eq!(dm.get_target_v("a", "gone"), Vec::<String>::new());
    assert_eq!(dm.get_target_v("b", "kept"), vec!["d".to_string()]);
}

#[test]
fn delete_code_without_neighbor() {
    let mut dm = DataManager::new(EdgeStore::new());
    dm.append_target("s1", "rel", "t1");
    dm.append_target("s1", "mark", "m");
    dm.append_target("s2", "rel", "t2");
    dm.delete_code_without_source("rel", "mark");
    assert_eq!(dm.get_target_v("s1", "rel"), vec!["t1".to_string()]);
    assert_eq!(dm.get_target_v("s2", "rel"), Vec::<String>::new());

    let mut dm2 = DataManager::new(EdgeStore::new());
    dm2.append_target("s1", "rel", "t1");
    dm2.append_target("t1", "mark", "m");
    dm2.append_target("s2", "rel", "t2");
    dm2.delete_code_without_target("rel", "mark");
    assert_eq!(dm2.get_target_v("s1", "rel"), vec!["t1".to_string()]);
    assert_eq!(dm2.get_target_v("s2", "rel"), Vec::<String>::new());
}

#[test]
fn get_list_walks_dimensions_and_reads_attrs() {
    let mut dm = DataManager::new(EdgeStore::new());
    dm.append_target("R", "item", "a");
    dm.append_target("R", "item", "b");
    dm.append_target("a", "name", "alpha");
    dm.append_target("a", "size", "1");
    dm.append_target("b", "name", "beta");
    let rows = dm.get_list(
        "R",
        &vec!["item".to_string()],
        &vec!["name".to_string(), "size".to_string()],
    );
    assert_eq!(
        rows,
        vec![
            vec!["alpha".to_string(), "1".to_string()],
            vec!["beta".to_string(), String::new()],
        ]
    );
}

#[test]
fn reading_an_absent_key_is_empty() {
    let mut dm = DataManager::new(EdgeStore::new());
    assert_eq!(dm.get_target_v("never", "written"), Vec::<String>::new());
    assert_eq!(dm.get_target_v("$never", "written"), Vec::<String>::new());
}

#[test]
fn empty_strings_are_ordinary_values() {
    let mut dm = DataManager::new(EdgeStore::new());
    dm.append_target("", "", "");
    assert_eq!(dm.get_target_v("", ""), vec![String::new()]);
    assert_eq!(dm.get_target("", "").unwrap(), String::new());
}

#[test]
fn is_temp_checks_the_sigil() {
    assert!(is_temp("$a", "b", "c"));
    assert!(is_temp("a", "$b", "c"));
    assert!(is_temp("a", "b", "$c"));
    assert!(!is_temp("a", "b", "c"));
    assert!(!is_temp("", "", ""));
    assert!(!is_temp("a$", "b", "c"));
}
