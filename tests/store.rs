use claudevil::store::{ChunkMeta, Metadata};

fn row(file_path: &str, chunk_id: i64, content: &str, language: &str) -> ChunkMeta {
    ChunkMeta {
        file_path: file_path.to_string(),
        chunk_id,
        content: content.to_string(),
        symbol_name: Some(format!("symbol_{chunk_id}")),
        symbol_kind: Some("func".to_string()),
        language: language.to_string(),
        start_line: chunk_id * 10 + 1,
        end_line: chunk_id * 10 + 9,
        last_modified: 1700000000,
    }
}

fn named(file_path: &str, name: Option<&str>, kind: Option<&str>) -> ChunkMeta {
    ChunkMeta {
        file_path: file_path.to_string(),
        chunk_id: 0,
        content: String::new(),
        symbol_name: name.map(|s| s.to_string()),
        symbol_kind: kind.map(|s| s.to_string()),
        language: "go".to_string(),
        start_line: 1,
        end_line: 1,
        last_modified: 1700000000,
    }
}

#[test]
fn empty_metadata_has_zero_count() {
    let meta = Metadata::new();
    assert_eq!(meta.chunk_count(), 0);
    assert!(meta.list_files(None).is_empty());
}

#[test]
fn insert_assigns_consecutive_keys() {
    let mut meta = Metadata::new();
    let keys = meta
        .insert(vec![row("a.go", 0, "func a() {}", "go"), row("a.go", 1, "func b() {}", "go")])
        .unwrap();
    assert_eq!(keys, vec![0, 1]);
    let keys = meta.insert(vec![row("c.go", 0, "func c() {}", "go")]).unwrap();
    assert_eq!(keys, vec![2]);
    assert_eq!(meta.chunk_count(), 3);
    assert_eq!(meta.next_key(), 3);
    assert_eq!(meta.lookup(2).unwrap().content, "func c() {}");
}

#[test]
fn insert_empty_batch_is_noop() {
    let mut meta = Metadata::new();
    assert_eq!(meta.insert(vec![]).unwrap(), Vec::<u64>::new());
    assert_eq!(meta.chunk_count(), 0);
}

#[test]
fn delete_isolation() {
    let mut meta = Metadata::new();
    meta.insert(vec![
        row("keep.go", 0, "func keep() {}", "go"),
        row("keep.go", 1, "func keep2() {}", "go"),
        row("remove.go", 0, "func remove() {}", "go"),
    ])
    .unwrap();
    let removed = meta.delete_file("remove.go");
    assert_eq!(removed, vec![2]);
    assert_eq!(meta.chunk_count(), 2);
    assert_eq!(meta.list_files(None), vec!["keep.go".to_string()]);
    assert!(meta.lookup(2).is_none());
}

#[test]
fn keys_are_not_reused_after_delete() {
    let mut meta = Metadata::new();
    meta.insert(vec![row("a.go", 0, "x", "go")]).unwrap();
    meta.delete_file("a.go");
    let keys = meta.insert(vec![row("a.go", 0, "y", "go")]).unwrap();
    assert_eq!(keys, vec![1]);
}

#[test]
fn delete_nonexistent_file_is_noop() {
    let mut meta = Metadata::new();
    meta.insert(vec![row("exists.go", 0, "func exists() {}", "go")]).unwrap();
    assert!(meta.delete_file("does_not_exist.go").is_empty());
    assert_eq!(meta.chunk_count(), 1);
}

#[test]
fn list_files_sorted_unique_and_filtered() {
    let mut meta = Metadata::new();
    meta.insert(vec![
        row("z.go", 0, "", "go"),
        row("main.go", 0, "", "go"),
        row("main.go", 1, "", "go"),
        row("a.go", 0, "", "go"),
        row("lib.rs", 0, "", "rust"),
    ])
    .unwrap();
    assert_eq!(meta.list_files(None), vec!["a.go", "lib.rs", "main.go", "z.go"]);
    assert_eq!(meta.list_files(Some("rust")), vec!["lib.rs"]);
    assert!(meta.list_files(Some("python")).is_empty());
}

#[test]
fn find_by_symbol_substring_case_and_kind() {
    let mut meta = Metadata::new();
    meta.insert(vec![
        named("server.go", Some("NewServer"), Some("func")),
        named("server.go", Some("Server.Start"), Some("method")),
        named("client.go", Some("NewClient"), Some("func")),
        named("test.go", None, None),
    ])
    .unwrap();
    let names: Vec<String> = meta
        .find_by_symbol("server", None, 10)
        .iter()
        .map(|m| m.symbol_name.clone().unwrap())
        .collect();
    assert_eq!(names, vec!["NewServer", "Server.Start"]);
    let typed = meta.find_by_symbol("Server", Some("method"), 10);
    assert_eq!(typed.len(), 1);
    assert_eq!(typed[0].symbol_name.as_deref(), Some("Server.Start"));
    assert_eq!(meta.find_by_symbol("new", None, 1).len(), 1);
    assert!(meta.find_by_symbol("nonexistent", None, 10).is_empty());
    assert!(meta.find_by_symbol("main", None, 10).is_empty());
}

#[test]
fn key_filter_by_language() {
    let mut meta = Metadata::new();
    meta.insert(vec![row("main.go", 0, "", "go"), row("lib.rs", 0, "", "rust")]).unwrap();
    assert!(meta.key_in_language(0, "go"));
    assert!(!meta.key_in_language(0, "rust"));
    assert!(meta.key_in_language(1, "rust"));
    assert!(!meta.key_in_language(7, "go"));
}

#[test]
fn restore_checks_key_order() {
    let ok = Metadata::restore(5, vec![(1, row("a.go", 0, "", "go")), (4, row("b.go", 0, "", "go"))]);
    assert_eq!(ok.unwrap().chunk_count(), 2);
    assert!(Metadata::restore(4, vec![(4, row("a.go", 0, "", "go"))]).is_none());
    assert!(Metadata::restore(9, vec![(3, row("a.go", 0, "", "go")), (3, row("b.go", 0, "", "go"))]).is_none());
}

#[test]
fn reindexing_same_rows_twice_is_stable() {
    let mut meta = Metadata::new();
    meta.insert(vec![row("other.go", 0, "", "go")]).unwrap();
    for _ in 0..2 {
        meta.delete_file("lib.go");
        meta.insert(vec![row("lib.go", 0, "a", "go"), row("lib.go", 1, "b", "go")]).unwrap();
    }
    assert_eq!(meta.chunk_count(), 3);
    assert_eq!(meta.list_files(None), vec!["lib.go", "other.go"]);
}

#[test]
fn snapshot_restores_to_same_state() {
    let mut meta = Metadata::new();
    meta.insert(vec![row("a.go", 0, "func a() {}", "go"), row("b.go", 0, "func b() {}", "go")])
        .unwrap();
    meta.delete_file("a.go");
    let (next_key, records) = meta.snapshot();
    let back = Metadata::restore(next_key, records).unwrap();
    assert_eq!(back.chunk_count(), 1);
    assert_eq!(back.next_key(), 2);
    assert_eq!(back.lookup(1).unwrap().content, "func b() {}");
    assert_eq!(back.list_files(None), vec!["b.go"]);
}

#[test]
fn hits_keep_positions_of_stored_keys() {
    let mut meta = Metadata::new();
    meta.insert(vec![row("a.go", 0, "A", "go"), row("b.go", 0, "B", "go"), row("c.go", 0, "C", "go")])
        .unwrap();
    meta.delete_file("b.go");
    let hits = meta.hits(&vec![2, 1, 9, 0]);
    let got: Vec<(usize, String)> = hits.iter().map(|(i, m)| (*i, m.content.clone())).collect();
    assert_eq!(got, vec![(0, "C".to_string()), (3, "A".to_string())]);
}

#[test]
fn insert_refuses_when_keys_run_out() {
    let mut meta = Metadata::restore(u64::MAX - 1, vec![]).unwrap();
    assert_eq!(meta.insert(vec![row("a.go", 0, "", "go")]).unwrap(), vec![u64::MAX - 1]);
    assert!(meta.insert(vec![row("b.go", 0, "", "go")]).is_none());
    assert_eq!(meta.chunk_count(), 1);
    assert_eq!(meta.next_key(), u64::MAX);
}

#[test]
fn replace_file_swaps_rows_of_one_file() {
    let mut meta = Metadata::new();
    meta.insert(vec![row("a.go", 0, "old a", "go"), row("b.go", 0, "b", "go")]).unwrap();
    let (removed, added) = meta
        .replace_file("a.go", vec![row("a.go", 0, "new a", "go"), row("a.go", 1, "a2", "go")])
        .unwrap();
    assert_eq!(removed, vec![0]);
    assert_eq!(added, vec![2, 3]);
    assert_eq!(meta.chunk_count(), 3);
    assert_eq!(meta.lookup(2).unwrap().content, "new a");
    assert!(meta.lookup(0).is_none());
    let (removed, added) = meta.replace_file("a.go", vec![]).unwrap();
    assert_eq!(removed, vec![2, 3]);
    assert!(added.is_empty());
    assert_eq!(meta.list_files(None), vec!["b.go"]);
}
